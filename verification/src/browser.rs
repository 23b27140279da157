//! The discovery multiplexer's decision core.
//!
//! The multiplexer watches a meta-channel for newly announced service
//! types, keeps a dedup guard of the types it already subscribed to, and
//! converts resolved descriptors into canonical catalog entries. The
//! conversion filters addresses to IPv6 and refuses descriptors that have
//! none. The select loop, the subscriptions themselves and the re-arming
//! of pending receives live in the embedding program; everything it
//! decides with is here.
use vstd::prelude::*;
use crate::cache_manager::CacheCommand;
use crate::encoding::str_eq;
use crate::types::{txt_models, ServiceEntry, ServiceEntryModel};

verus! {

/// Advertised lifetime recorded for discovered entries; the discovery
/// engine does not expose the wire TTL.
pub const DEFAULT_TTL_SECS: u32 = 4500;

/// A network address of either family, as a discovery descriptor carries
/// it. Only IPv6 addresses are admitted to the catalog.
#[derive(Clone, Copy)]
pub enum IpAddress {
    /// An IPv4 address, as its 32-bit value.
    V4(u32),
    /// An IPv6 address, as its 128-bit value.
    V6(u128),
}

/// An event the multiplexer forwards downstream.
pub enum BrowserEvent {
    /// A descriptor resolved into a canonical catalog entry.
    Resolved(ServiceEntry),
    /// The named instance was withdrawn.
    Removed(String),
}

/// The IPv6 addresses among a descriptor's address list, in order.
pub open spec fn ipv6_of(addrs: Seq<IpAddress>) -> Seq<u128>
    decreases addrs.len(),
{
    if addrs.len() == 0 {
        Seq::<u128>::empty()
    } else {
        ipv6_of(addrs.drop_last()) + (match addrs.last() {
            IpAddress::V6(v) => seq![v],
            IpAddress::V4(_) => Seq::<u128>::empty(),
        })
    }
}

/// The conversion rule from a resolved descriptor to a catalog entry:
/// type, name, hostname, port and properties are copied verbatim, the
/// addresses are filtered to IPv6, both timestamps are set to now, and the
/// entry is alive. A descriptor without any IPv6 address yields nothing.
pub open spec fn spec_convert(
    service_type: Seq<char>,
    instance_name: Seq<char>,
    hostname: Seq<char>,
    addresses: Seq<IpAddress>,
    port: u16,
    txt: Seq<(Seq<char>, Seq<char>)>,
    now: i64,
) -> Option<ServiceEntryModel> {
    let v6 = ipv6_of(addresses);
    if v6.len() == 0 {
        None
    } else {
        Some(
            ServiceEntryModel {
                service_type,
                instance_name,
                hostname,
                addresses: v6,
                port,
                txt,
                first_seen: now,
                last_seen: now,
                ttl: DEFAULT_TTL_SECS,
                alive: true,
            },
        )
    }
}

/// Converts a resolved descriptor into a canonical catalog entry,
/// refusing descriptors that expose no IPv6 address.
pub fn convert_service_info(
    service_type: String,
    instance_name: String,
    hostname: String,
    addresses: &Vec<IpAddress>,
    port: u16,
    txt: Vec<(String, String)>,
    now: i64,
) -> (r: Option<ServiceEntry>)
    ensures
        match r {
            Some(e) => Some(e@) == spec_convert(
                service_type@,
                instance_name@,
                hostname@,
                addresses@,
                port,
                txt_models(txt@),
                now,
            ),
            None => spec_convert(
                service_type@,
                instance_name@,
                hostname@,
                addresses@,
                port,
                txt_models(txt@),
                now,
            ) is None,
        },
{
    let mut v6: Vec<u128> = Vec::new();
    let mut i: usize = 0;
    proof {
        assert(addresses@.take(0) =~= Seq::<IpAddress>::empty());
    }
    while i < addresses.len()
        invariant
            i <= addresses@.len(),
            v6@ == ipv6_of(addresses@.take(i as int)),
        decreases addresses@.len() - i,
    {
        proof {
            assert(addresses@.take(i as int + 1).drop_last() =~= addresses@.take(i as int));
            assert(addresses@.take(i as int + 1).last() == addresses@[i as int]);
        }
        match addresses[i] {
            IpAddress::V6(v) => {
                v6.push(v);
                proof {
                    assert(v6@ =~= ipv6_of(addresses@.take(i as int + 1)));
                }
            },
            IpAddress::V4(_) => {
                proof {
                    assert(v6@ =~= ipv6_of(addresses@.take(i as int + 1)));
                }
            },
        }
        i = i + 1;
    }
    proof {
        assert(addresses@.take(addresses@.len() as int) =~= addresses@);
    }
    if v6.len() == 0 {
        return None;
    }
    let entry = ServiceEntry {
        service_type,
        instance_name,
        hostname,
        addresses: v6,
        port,
        txt,
        first_seen: now,
        last_seen: now,
        ttl: DEFAULT_TTL_SECS,
        alive: true,
    };
    Some(entry)
}

/// Law: a descriptor carrying only IPv4 addresses is never admitted — the
/// conversion yields no entry, so no event reaches the catalog for it.
pub proof fn lemma_v4_only_never_admitted(
    service_type: Seq<char>,
    instance_name: Seq<char>,
    hostname: Seq<char>,
    addresses: Seq<IpAddress>,
    port: u16,
    txt: Seq<(Seq<char>, Seq<char>)>,
    now: i64,
)
    requires
        forall|i: int| 0 <= i < addresses.len() ==> addresses[i] is V4,
    ensures
        spec_convert(service_type, instance_name, hostname, addresses, port, txt, now) is None,
{
    lemma_ipv6_of_v4_only(addresses);
}

proof fn lemma_ipv6_of_v4_only(addresses: Seq<IpAddress>)
    requires
        forall|i: int| 0 <= i < addresses.len() ==> addresses[i] is V4,
    ensures
        ipv6_of(addresses).len() == 0,
    decreases addresses.len(),
{
    if addresses.len() > 0 {
        lemma_ipv6_of_v4_only(addresses.drop_last());
        assert(addresses.last() is V4);
    }
}

/// The dedup guard over service types: which types the multiplexer has
/// already opened a subscription for.
pub struct BrowserState {
    seen: Vec<String>,
}

impl BrowserState {
    /// The set of types seen so far, as character sequences.
    pub closed spec fn seen_types(&self) -> Seq<Seq<char>> {
        self.seen@.map_values(|s: String| s@)
    }

    /// A fresh guard that has seen no type.
    pub fn new() -> (r: BrowserState)
        ensures
            r.seen_types() == Seq::<Seq<char>>::empty(),
    {
        let r = BrowserState { seen: Vec::new() };
        proof {
            assert(r.seen_types() =~= Seq::<Seq<char>>::empty());
        }
        r
    }

    /// Records a service type. Reports `true` — subscribe now — exactly
    /// when the type was never seen before; an already-seen type is
    /// ignored and reports `false`.
    pub fn note_type(&mut self, service_type: &str) -> (fresh: bool)
        ensures
            fresh == !old(self).seen_types().contains(service_type@),
            final(self).seen_types() == if fresh {
                old(self).seen_types().push(service_type@)
            } else {
                old(self).seen_types()
            },
    {
        let mut i: usize = 0;
        while i < self.seen.len()
            invariant
                i <= self.seen@.len(),
                forall|k: int| 0 <= k < i ==> #[trigger] self.seen_types()[k] != service_type@,
            decreases self.seen@.len() - i,
        {
            let row = &self.seen[i];
            if str_eq(row.as_str(), service_type) {
                proof {
                    assert(self.seen_types()[i as int] == service_type@);
                    assert(self.seen_types().contains(service_type@));
                }
                return false;
            }
            i = i + 1;
        }
        proof {
            assert(!self.seen_types().contains(service_type@)) by {
                if self.seen_types().contains(service_type@) {
                    let w = choose|w: int|
                        0 <= w < self.seen_types().len() && self.seen_types()[w] == service_type@;
                    assert(self.seen_types()[w] != service_type@);
                }
            }
        }
        let ghost seen0 = self.seen@;
        self.seen.push(service_type.to_owned());
        proof {
            assert(self.seen_types() =~= seen0.map_values(|s: String| s@).push(service_type@)) by {
                assert(self.seen@ == seen0.push(self.seen@.last()));
                assert(self.seen@.last()@ == service_type@);
                assert forall|t: int| 0 <= t < self.seen@.len() implies self.seen_types()[t]
                    == seen0.map_values(|s: String| s@).push(service_type@)[t] by {
                    assert(self.seen_types()[t] == self.seen@[t]@);
                    if t < seen0.len() {
                        assert(self.seen@[t] == seen0[t]);
                        assert(seen0.map_values(|s: String| s@)[t] == seen0[t]@);
                    }
                }
            }
        }
        true
    }
}

/// The action one discovery event maps to: a resolution becomes an
/// upsert, a withdrawal marks the instance dead at the given time.
pub fn event_command(event: BrowserEvent, now: i64) -> (r: CacheCommand)
    ensures
        match event {
            BrowserEvent::Resolved(e) => r == CacheCommand::Upsert(e),
            BrowserEvent::Removed(name) => r == CacheCommand::MarkDead(name, now),
        },
{
    match event {
        BrowserEvent::Resolved(e) => CacheCommand::Upsert(e),
        BrowserEvent::Removed(name) => CacheCommand::MarkDead(name, now),
    }
}

} // verus!
