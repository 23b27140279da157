//! The canonical data model: a service discovered on the local subnet.
//!
//! A `ServiceEntry` is the only entity the catalog stores. Its mathematical
//! model is `ServiceEntryModel`, in which strings become sequences of
//! characters and collections become sequences; every contract in this
//! library speaks about that model.
use vstd::prelude::*;

verus! {

/// The model of a TXT record list: each pair of strings as a pair of
/// character sequences.
pub open spec fn txt_models(s: Seq<(String, String)>) -> Seq<(Seq<char>, Seq<char>)> {
    s.map_values(|p: (String, String)| (p.0@, p.1@))
}

/// Mathematical model of a [`ServiceEntry`].
pub ghost struct ServiceEntryModel {
    pub service_type: Seq<char>,
    pub instance_name: Seq<char>,
    pub hostname: Seq<char>,
    pub addresses: Seq<u128>,
    pub port: u16,
    pub txt: Seq<(Seq<char>, Seq<char>)>,
    pub first_seen: i64,
    pub last_seen: i64,
    pub ttl: u32,
    pub alive: bool,
}

/// A discovered service on the network.
///
/// `instance_name` uniquely identifies an entry within the catalog.
/// Addresses are IPv6 addresses given as their 128-bit value; timestamps
/// are seconds since the Unix epoch. `txt` is an association list whose
/// order is irrelevant: the catalog compares and fingerprints it as an
/// unordered collection of key/value pairs.
#[derive(Clone)]
pub struct ServiceEntry {
    /// Service type, e.g. "_http._tcp".
    pub service_type: String,
    /// Full instance name, e.g. "fileserver._http._tcp.local.".
    pub instance_name: String,
    /// Hostname, e.g. "nas.local.".
    pub hostname: String,
    /// IPv6 addresses, each as its 128-bit value.
    pub addresses: Vec<u128>,
    /// Service port.
    pub port: u16,
    /// TXT record key-value pairs; order carries no meaning.
    pub txt: Vec<(String, String)>,
    /// First time this service was seen, in seconds since the Unix epoch.
    pub first_seen: i64,
    /// Last time this service was seen, in seconds since the Unix epoch.
    pub last_seen: i64,
    /// Advertised TTL in seconds, informational only.
    pub ttl: u32,
    /// Whether the service is currently alive.
    pub alive: bool,
}

impl View for ServiceEntry {
    type V = ServiceEntryModel;

    open spec fn view(&self) -> ServiceEntryModel {
        ServiceEntryModel {
            service_type: self.service_type@,
            instance_name: self.instance_name@,
            hostname: self.hostname@,
            addresses: self.addresses@,
            port: self.port,
            txt: txt_models(self.txt@),
            first_seen: self.first_seen,
            last_seen: self.last_seen,
            ttl: self.ttl,
            alive: self.alive,
        }
    }
}

/// The model of a sequence of entries.
pub open spec fn entry_models(s: Seq<ServiceEntry>) -> Seq<ServiceEntryModel> {
    s.map_values(|e: ServiceEntry| e@)
}

impl ServiceEntry {
    /// An exact copy of this entry; unlike a derived `Clone`, its contract
    /// states that the copy has the same model.
    pub fn duplicate(&self) -> (r: ServiceEntry)
        ensures
            r@ == self@,
    {
        let mut addresses: Vec<u128> = Vec::new();
        let mut i: usize = 0;
        while i < self.addresses.len()
            invariant
                i <= self.addresses.len(),
                addresses@ == self.addresses@.take(i as int),
            decreases self.addresses.len() - i,
        {
            addresses.push(self.addresses[i]);
            proof {
                assert(addresses@ =~= self.addresses@.take(i as int + 1));
            }
            i = i + 1;
        }
        let mut txt: Vec<(String, String)> = Vec::new();
        let mut j: usize = 0;
        while j < self.txt.len()
            invariant
                j <= self.txt.len(),
                txt@ == self.txt@.take(j as int),
            decreases self.txt.len() - j,
        {
            let pair = (self.txt[j].0.clone(), self.txt[j].1.clone());
            txt.push(pair);
            proof {
                assert(txt@ =~= self.txt@.take(j as int + 1));
            }
            j = j + 1;
        }
        let r = ServiceEntry {
            service_type: self.service_type.clone(),
            instance_name: self.instance_name.clone(),
            hostname: self.hostname.clone(),
            addresses,
            port: self.port,
            txt,
            first_seen: self.first_seen,
            last_seen: self.last_seen,
            ttl: self.ttl,
            alive: self.alive,
        };
        proof {
            assert(self.addresses@.take(self.addresses@.len() as int) =~= self.addresses@);
            assert(self.txt@.take(self.txt@.len() as int) =~= self.txt@);
            assert(r@ == self@);
        }
        r
    }
}

} // verus!
