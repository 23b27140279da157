//! The query API's data shapes, and what each request asks of the cache
//! actor. Serving HTTP is the embedding program's concern; the mapping
//! from request to catalog command is fixed here.
use vstd::prelude::*;
use crate::cache_manager::CacheCommand;
use crate::config::AuthorityConfig;

verus! {

/// The authority's own description, served by the configuration route.
pub struct ConfigResponse {
    /// DNS zone the authority serves.
    pub zone: String,
    /// IPv6 prefix the authority serves.
    pub prefix: String,
    /// Port the query API listens on.
    pub api_port: u16,
}

/// Query parameters of the service-list route.
pub struct ServiceQuery {
    /// When present, only services of this type are returned.
    pub service_type: Option<String>,
}

/// Builds the configuration route's response from the authority settings
/// and the port the API actually listens on.
pub fn config_response(config: &AuthorityConfig, api_port: u16) -> (r: ConfigResponse)
    ensures
        r.zone@ == config.zone@,
        r.prefix@ == config.prefix@,
        r.api_port == api_port,
{
    ConfigResponse { zone: config.zone.clone(), prefix: config.prefix.clone(), api_port }
}

/// The catalog command a service-list request maps to: a filtered
/// snapshot when the query names a type, the full catalog otherwise.
pub fn services_command(query: ServiceQuery) -> (r: CacheCommand)
    ensures
        match query.service_type {
            Some(t) => r == CacheCommand::GetByType(t),
            None => r == CacheCommand::GetAll,
        },
{
    match query.service_type {
        Some(t) => CacheCommand::GetByType(t),
        None => CacheCommand::GetAll,
    }
}

/// The catalog command a point-read request maps to.
pub fn service_command(instance: String) -> (r: CacheCommand)
    ensures
        r == CacheCommand::GetOne(instance),
{
    CacheCommand::GetOne(instance)
}

} // verus!
