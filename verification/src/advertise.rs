//! What the authority's self-advertisement says: its instance name and
//! TXT records. Registering with the discovery engine is the embedding
//! program's concern.
use vstd::prelude::*;
use vstd::string::StringExecFns;
use crate::protocol::{TXT_PREFIX, TXT_ZONE};

verus! {

/// The instance name under which this authority advertises itself on the
/// network, derived from the machine's hostname.
pub fn authority_instance_name(host: &str) -> (r: String)
    ensures
        r@ == "subnet-authority-"@ + host@,
{
    let base = String::from_str("subnet-authority-");
    base.concat(host)
}

/// The TXT records attached to the advertisement: the zone and prefix the
/// authority serves, under their well-known keys.
pub fn authority_txt_records(zone: &str, prefix: &str) -> (r: Vec<(String, String)>)
    ensures
        r@.len() == 2,
        r@[0].0@ == TXT_ZONE@ && r@[0].1@ == zone@,
        r@[1].0@ == TXT_PREFIX@ && r@[1].1@ == prefix@,
{
    let mut records: Vec<(String, String)> = Vec::new();
    records.push((TXT_ZONE.to_owned(), zone.to_owned()));
    records.push((TXT_PREFIX.to_owned(), prefix.to_owned()));
    records
}

} // verus!
