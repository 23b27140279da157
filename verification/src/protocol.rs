//! Well-known names used when the authority advertises itself on the
//! local network, shared between the daemon and its clients.
use vstd::prelude::*;

verus! {

/// Service type under which the authority advertises itself.
pub const AUTHORITY_SERVICE_TYPE: &'static str = "_subnet-authority._tcp.local.";

/// TXT record key naming the DNS zone the authority serves.
pub const TXT_ZONE: &'static str = "zone";

/// TXT record key naming the IPv6 prefix the authority serves.
pub const TXT_PREFIX: &'static str = "prefix";

/// TXT record key naming the CoAP port, reserved for future use.
pub const TXT_COAP_PORT: &'static str = "coap";

/// TXT record key naming the DNS port, reserved for future use.
pub const TXT_DNS_PORT: &'static str = "dns";

/// Path prefix shared by every route of the query API.
pub const API_PREFIX: &'static str = "/v1";

} // verus!
