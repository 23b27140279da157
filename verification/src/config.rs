//! Daemon configuration: which interface and prefix the authority serves,
//! where the catalog lives, and the sweep thresholds. Reading and parsing
//! the configuration file is the embedding program's concern; the defaults
//! and the shape of the settings are fixed here.
use vstd::prelude::*;
use vstd::string::StringExecFns;

verus! {

/// Default location of the catalog database file.
pub fn default_db_path() -> (r: String)
    ensures
        r@ == "/var/lib/subnet-authority/services.db"@,
{
    String::from_str("/var/lib/subnet-authority/services.db")
}

/// Default staleness threshold, in seconds.
pub fn default_stale_after() -> (r: u64)
    ensures
        r == 300,
{
    300
}

/// Default prune threshold, in seconds.
pub fn default_prune_after() -> (r: u64)
    ensures
        r == 3600,
{
    3600
}

/// Default maintenance period, in seconds.
pub fn default_maintenance_interval() -> (r: u64)
    ensures
        r == 60,
{
    60
}

/// Default listen address of the query API.
pub fn default_listen() -> (r: String)
    ensures
        r@ == "[::]:8053"@,
{
    String::from_str("[::]:8053")
}

/// The authority's identity: the interface it watches and the zone and
/// prefix it announces.
#[derive(Debug, Clone)]
pub struct AuthorityConfig {
    /// Network interface the discovery engine is bound to.
    pub interface: String,
    /// IPv6 prefix the authority serves.
    pub prefix: String,
    /// Address the authority advertises.
    pub address: String,
    /// DNS zone the authority serves.
    pub zone: String,
}

/// Catalog settings: where the store lives and the sweep thresholds.
#[derive(Debug, Clone)]
pub struct CacheConfig {
    /// Location of the catalog database file.
    pub db_path: String,
    /// A live row not seen for this long is marked dead.
    pub stale_after_secs: u64,
    /// A row not seen for this long is deleted.
    pub prune_after_secs: u64,
    /// How often maintenance runs, independent of traffic.
    pub maintenance_interval_secs: u64,
}

/// Query API settings.
#[derive(Debug, Clone)]
pub struct ApiConfig {
    /// Listen address of the query API.
    pub listen: String,
}

/// The whole configuration.
#[derive(Debug, Clone)]
pub struct Config {
    pub authority: AuthorityConfig,
    pub cache: CacheConfig,
    pub api: ApiConfig,
}

impl Default for CacheConfig {
    /// The catalog settings used when the configuration file gives none.
    fn default() -> (c: CacheConfig)
        ensures
            c.db_path@ == "/var/lib/subnet-authority/services.db"@,
            c.stale_after_secs == 300,
            c.prune_after_secs == 3600,
            c.maintenance_interval_secs == 60,
    {
        CacheConfig {
            db_path: default_db_path(),
            stale_after_secs: default_stale_after(),
            prune_after_secs: default_prune_after(),
            maintenance_interval_secs: default_maintenance_interval(),
        }
    }
}

impl Default for ApiConfig {
    /// The API settings used when the configuration file gives none.
    fn default() -> (c: ApiConfig)
        ensures
            c.listen@ == "[::]:8053"@,
    {
        ApiConfig { listen: default_listen() }
    }
}

} // verus!
