//! The catalog store: a keyed table of discovered services.
//!
//! `instance_name` is the key; the store guarantees one row per name.
//! It offers upsert with change detection, liveness marking, a staleness
//! sweep, a prune sweep, and point/range reads. Every mutation's effect is
//! stated exactly over the catalog model, a sequence of entry models with
//! pairwise-distinct names.
use vstd::prelude::*;
use vstd::pervasive::VecAdditionalExecFns;
use crate::encoding::str_eq;
use crate::hash::{txt_canon_eq, txt_equivalent};
use crate::types::{entry_models, ServiceEntry, ServiceEntryModel};

verus! {

/// Every entry in the catalog has a distinct instance name.
pub open spec fn unique_names(cat: Seq<ServiceEntryModel>) -> bool {
    forall|i: int, j: int|
        0 <= i < j < cat.len() ==> (#[trigger] cat[i]).instance_name != (
        #[trigger] cat[j]).instance_name
}

/// Some entry in the catalog carries this instance name.
pub open spec fn has_name(cat: Seq<ServiceEntryModel>, name: Seq<char>) -> bool {
    exists|i: int| 0 <= i < cat.len() && (#[trigger] cat[i]).instance_name == name
}

/// The position of the entry carrying this instance name.
pub open spec fn index_of_name(cat: Seq<ServiceEntryModel>, name: Seq<char>) -> int {
    choose|i: int| 0 <= i < cat.len() && (#[trigger] cat[i]).instance_name == name
}

/// The entry carrying this instance name, if any.
pub open spec fn get_by_name(cat: Seq<ServiceEntryModel>, name: Seq<char>) -> Option<
    ServiceEntryModel,
> {
    if has_name(cat, name) {
        Some(cat[index_of_name(cat, name)])
    } else {
        None
    }
}

/// Whether an incoming entry differs from the stored one in a meaningful
/// field. `first_seen` and `last_seen` are deliberately excluded: they
/// change on every re-resolution without representing a content change.
pub open spec fn data_changed(prev: ServiceEntryModel, incoming: ServiceEntryModel) -> bool {
    ||| prev.hostname != incoming.hostname
    ||| prev.addresses != incoming.addresses
    ||| prev.port != incoming.port
    ||| !txt_equivalent(prev.txt, incoming.txt)
    ||| prev.ttl != incoming.ttl
    ||| prev.alive != incoming.alive
    ||| prev.service_type != incoming.service_type
}

/// The entry with its `first_seen` field replaced.
pub open spec fn with_first_seen(e: ServiceEntryModel, t: i64) -> ServiceEntryModel {
    ServiceEntryModel { first_seen: t, ..e }
}

/// The entry marked dead at the given time.
pub open spec fn marked_dead(e: ServiceEntryModel, now: i64) -> ServiceEntryModel {
    ServiceEntryModel { alive: false, last_seen: now, ..e }
}

/// The catalog after an upsert: the row under the entry's name is replaced
/// — keeping the old `first_seen` — or a new row is appended.
pub open spec fn spec_upsert(cat: Seq<ServiceEntryModel>, e: ServiceEntryModel) -> Seq<
    ServiceEntryModel,
> {
    if has_name(cat, e.instance_name) {
        let i = index_of_name(cat, e.instance_name);
        cat.update(i, with_first_seen(e, cat[i].first_seen))
    } else {
        cat.push(e)
    }
}

/// Whether an upsert of this entry reports a change: always for a new name,
/// otherwise exactly when a meaningful field differs.
pub open spec fn spec_upsert_changed(cat: Seq<ServiceEntryModel>, e: ServiceEntryModel) -> bool {
    match get_by_name(cat, e.instance_name) {
        Some(prev) => data_changed(prev, e),
        None => true,
    }
}

/// The catalog after marking a name dead; unknown names leave it unchanged.
pub open spec fn spec_mark_dead(cat: Seq<ServiceEntryModel>, name: Seq<char>, now: i64) -> Seq<
    ServiceEntryModel,
> {
    if has_name(cat, name) {
        let i = index_of_name(cat, name);
        cat.update(i, marked_dead(cat[i], now))
    } else {
        cat
    }
}

/// A live row not seen since the cutoff.
pub open spec fn is_stale(e: ServiceEntryModel, cutoff: int) -> bool {
    e.alive && e.last_seen < cutoff
}

/// The staleness sweep's effect on one row: stale rows lose their alive
/// flag and nothing else; other rows are untouched.
pub open spec fn stale_sweep(e: ServiceEntryModel, cutoff: int) -> ServiceEntryModel {
    if is_stale(e, cutoff) {
        ServiceEntryModel { alive: false, ..e }
    } else {
        e
    }
}

/// The catalog after a staleness sweep.
pub open spec fn spec_mark_stale(cat: Seq<ServiceEntryModel>, cutoff: int) -> Seq<
    ServiceEntryModel,
> {
    cat.map_values(|e: ServiceEntryModel| stale_sweep(e, cutoff))
}

/// How many rows a staleness sweep affects.
pub open spec fn stale_count(cat: Seq<ServiceEntryModel>, cutoff: int) -> int {
    cat.filter(|e: ServiceEntryModel| is_stale(e, cutoff)).len() as int
}

/// A row not seen since the cutoff, alive or not.
pub open spec fn is_expired(e: ServiceEntryModel, cutoff: int) -> bool {
    e.last_seen < cutoff
}

/// The catalog after a prune sweep: exactly the rows seen at or after the
/// cutoff survive, regardless of their alive flag.
pub open spec fn spec_prune(cat: Seq<ServiceEntryModel>, cutoff: int) -> Seq<ServiceEntryModel> {
    cat.filter(|e: ServiceEntryModel| !is_expired(e, cutoff))
}

/// The rows of a given service type, in catalog order.
pub open spec fn by_type(cat: Seq<ServiceEntryModel>, t: Seq<char>) -> Seq<ServiceEntryModel> {
    cat.filter(|e: ServiceEntryModel| e.service_type == t)
}

fn addresses_eq(a: &Vec<u128>, b: &Vec<u128>) -> (r: bool)
    ensures
        r == (a@ == b@),
{
    if a.len() != b.len() {
        proof {
            assert(!(a@ == b@)) by {
                if a@ == b@ {
                    assert(a@.len() == b@.len());
                }
            }
        }
        return false;
    }
    let mut i: usize = 0;
    while i < a.len()
        invariant
            a@.len() == b@.len(),
            i <= a@.len(),
            forall|k: int| 0 <= k < i ==> a@[k] == b@[k],
        decreases a@.len() - i,
    {
        if a[i] != b[i] {
            proof {
                assert(!(a@ == b@)) by {
                    if a@ == b@ {
                        assert(a@[i as int] == b@[i as int]);
                    }
                }
            }
            return false;
        }
        i = i + 1;
    }
    proof {
        assert(a@ =~= b@);
    }
    true
}

/// Decides whether the incoming entry differs from the stored one in a
/// meaningful field.
pub fn service_data_changed(prev: &ServiceEntry, incoming: &ServiceEntry) -> (r: bool)
    ensures
        r == data_changed(prev@, incoming@),
{
    if !str_eq(prev.hostname.as_str(), incoming.hostname.as_str()) {
        return true;
    }
    if !addresses_eq(&prev.addresses, &incoming.addresses) {
        return true;
    }
    if prev.port != incoming.port {
        return true;
    }
    if !txt_canon_eq(&prev.txt, &incoming.txt) {
        return true;
    }
    if prev.ttl != incoming.ttl {
        return true;
    }
    if prev.alive != incoming.alive {
        return true;
    }
    if !str_eq(prev.service_type.as_str(), incoming.service_type.as_str()) {
        return true;
    }
    false
}

/// The catalog store. The underlying table is kept in memory; persisting
/// it durably is the embedding program's concern.
pub struct CacheDb {
    entries: Vec<ServiceEntry>,
}

impl CacheDb {
    /// The catalog model: the stored entries, in storage order.
    pub closed spec fn catalog(&self) -> Seq<ServiceEntryModel> {
        entry_models(self.entries@)
    }

    /// Well-formedness: one row per instance name.
    pub open spec fn wf(&self) -> bool {
        unique_names(self.catalog())
    }

    /// Opens an empty catalog store.
    pub fn open() -> (db: CacheDb)
        ensures
            db.wf(),
            db.catalog() == Seq::<ServiceEntryModel>::empty(),
    {
        let db = CacheDb { entries: Vec::new() };
        proof {
            assert(db.catalog() =~= Seq::<ServiceEntryModel>::empty());
        }
        db
    }

    /// Looks up the position of a row by instance name.
    fn find_index(&self, name: &str) -> (r: Option<usize>)
        requires
            self.wf(),
        ensures
            match r {
                Some(i) => i < self.catalog().len() && self.catalog()[i as int].instance_name
                    == name@ && has_name(self.catalog(), name@) && index_of_name(
                    self.catalog(),
                    name@,
                ) == i as int,
                None => !has_name(self.catalog(), name@),
            },
    {
        let cat = &self.entries;
        let mut i: usize = 0;
        while i < cat.len()
            invariant
                self.wf(),
                i <= cat@.len(),
                cat == &self.entries,
                forall|k: int| 0 <= k < i ==> (#[trigger] self.catalog()[k]).instance_name != name@,
            decreases cat@.len() - i,
        {
            let row = &cat[i];
            if str_eq(row.instance_name.as_str(), name) {
                proof {
                    assert(self.catalog()[i as int].instance_name == name@);
                    assert(has_name(self.catalog(), name@));
                    let w = index_of_name(self.catalog(), name@);
                    assert(0 <= w < self.catalog().len() && self.catalog()[w].instance_name
                        == name@);
                    if w != i as int {
                        assert(self.catalog()[w].instance_name != self.catalog()[
                        i as int].instance_name);
                    }
                }
                return Some(i);
            }
            i = i + 1;
        }
        proof {
            assert(!has_name(self.catalog(), name@)) by {
                if has_name(self.catalog(), name@) {
                    let w = choose|w: int|
                        0 <= w < self.catalog().len() && (#[trigger] self.catalog()[
                        w]).instance_name == name@;
                    assert(self.catalog()[w].instance_name != name@);
                }
            }
        }
        None
    }

    /// Inserts or updates a row. Reports `true` exactly when the catalog's
    /// content meaningfully changed: the name was new, or a field other
    /// than the freshness metadata differs. The row is always written:
    /// `last_seen` and `ttl` advance to the incoming values either way,
    /// while an updated row keeps its original `first_seen`.
    pub fn upsert_service(&mut self, entry: &ServiceEntry) -> (changed: bool)
        requires
            old(self).wf(),
        ensures
            final(self).wf(),
            changed == spec_upsert_changed(old(self).catalog(), entry@),
            final(self).catalog() == spec_upsert(old(self).catalog(), entry@),
    {
        let ghost cat0 = self.catalog();
        match self.find_index(entry.instance_name.as_str()) {
            Some(i) => {
                let changed = service_data_changed(&self.entries[i], entry);
                let mut stored = entry.duplicate();
                stored.first_seen = self.entries[i].first_seen;
                proof {
                    assert(self.catalog()[i as int].first_seen == self.entries@[
                    i as int]@.first_seen);
                    assert(stored@ == with_first_seen(entry@, cat0[i as int].first_seen));
                }
                let ghost entries0 = self.entries@;
                self.entries.set(i, stored);
                proof {
                    assert(self.entries@ == entries0.update(i as int, stored));
                    assert(self.catalog() =~= cat0.update(i as int, stored@));
                    assert(self.catalog() == spec_upsert(cat0, entry@));
                    assert(unique_names(self.catalog())) by {
                        assert forall|p: int, q: int|
                            0 <= p < q < self.catalog().len() implies (#[trigger] self.catalog()[
                        p]).instance_name != (#[trigger] self.catalog()[q]).instance_name by {
                            assert(cat0[p].instance_name != cat0[q].instance_name);
                            assert(self.catalog()[p].instance_name == cat0[p].instance_name);
                            assert(self.catalog()[q].instance_name == cat0[q].instance_name);
                        }
                    }
                }
                changed
            },
            None => {
                let ghost entries0 = self.entries@;
                self.entries.push(entry.duplicate());
                proof {
                    assert(self.catalog() =~= cat0.push(entry@));
                    assert(self.catalog() == spec_upsert(cat0, entry@));
                    assert(unique_names(self.catalog())) by {
                        assert forall|p: int, q: int|
                            0 <= p < q < self.catalog().len() implies (#[trigger] self.catalog()[
                        p]).instance_name != (#[trigger] self.catalog()[q]).instance_name by {
                            if q < cat0.len() {
                                assert(cat0[p].instance_name != cat0[q].instance_name);
                            } else {
                                assert(self.catalog()[q] == entry@);
                                assert(!has_name(cat0, entry@.instance_name));
                                assert(cat0[p].instance_name != entry@.instance_name);
                            }
                        }
                    }
                }
                true
            },
        }
    }

    /// Marks the named row dead and bumps its `last_seen`; unknown names
    /// are a no-op. Idempotent: a second call finds the row already dead
    /// and leaves `alive` false. Reports whether a row was written.
    pub fn mark_dead(&mut self, instance_name: &str, now: i64) -> (changed: bool)
        requires
            old(self).wf(),
        ensures
            final(self).wf(),
            changed == has_name(old(self).catalog(), instance_name@),
            final(self).catalog() == spec_mark_dead(old(self).catalog(), instance_name@, now),
    {
        let ghost cat0 = self.catalog();
        match self.find_index(instance_name) {
            Some(i) => {
                let mut row = self.entries[i].duplicate();
                row.alive = false;
                row.last_seen = now;
                proof {
                    assert(row@ == marked_dead(cat0[i as int], now));
                }
                let ghost entries0 = self.entries@;
                self.entries.set(i, row);
                proof {
                    assert(self.catalog() =~= cat0.update(i as int, marked_dead(cat0[i as int], now)));
                    assert(self.catalog() == spec_mark_dead(cat0, instance_name@, now));
                    assert(unique_names(self.catalog())) by {
                        assert forall|p: int, q: int|
                            0 <= p < q < self.catalog().len() implies (#[trigger] self.catalog()[
                        p]).instance_name != (#[trigger] self.catalog()[q]).instance_name by {
                            assert(cat0[p].instance_name != cat0[q].instance_name);
                            assert(self.catalog()[p].instance_name == cat0[p].instance_name);
                            assert(self.catalog()[q].instance_name == cat0[q].instance_name);
                        }
                    }
                }
                true
            },
            None => false,
        }
    }

    /// Returns a copy of every row, in storage order.
    pub fn get_all_services(&self) -> (r: Vec<ServiceEntry>)
        ensures
            entry_models(r@) == self.catalog(),
    {
        let mut out: Vec<ServiceEntry> = Vec::new();
        let mut i: usize = 0;
        proof {
            assert(entry_models(out@) =~= self.catalog().take(0));
        }
        while i < self.entries.len()
            invariant
                i <= self.entries@.len(),
                entry_models(out@) == self.catalog().take(i as int),
            decreases self.entries@.len() - i,
        {
            let copy = self.entries[i].duplicate();
            let ghost out0 = out@;
            out.push(copy);
            proof {
                assert(entry_models(out@) =~= self.catalog().take(i as int + 1)) by {
                    assert(out@ == out0.push(copy));
                    assert(entry_models(out0).len() == out0.len());
                    assert forall|t: int|
                        0 <= t < out@.len() implies entry_models(out@)[t] == self.catalog().take(
                    i as int + 1)[t] by {
                        assert(entry_models(out@)[t] == out@[t]@);
                        if t < out0.len() {
                            assert(out@[t] == out0[t]);
                            assert(entry_models(out0)[t] == self.catalog().take(i as int)[t]);
                        } else {
                            assert(out@[t] == copy);
                            assert(copy@ == self.catalog()[i as int]);
                        }
                    }
                }
            }
            i = i + 1;
        }
        proof {
            assert(self.catalog().take(self.catalog().len() as int) =~= self.catalog());
        }
        out
    }

    /// Returns a copy of every row of the given service type, in storage
    /// order.
    pub fn get_services_by_type(&self, service_type: &str) -> (r: Vec<ServiceEntry>)
        ensures
            entry_models(r@) == by_type(self.catalog(), service_type@),
    {
        let ghost pred = |e: ServiceEntryModel| e.service_type == service_type@;
        let mut out: Vec<ServiceEntry> = Vec::new();
        let mut i: usize = 0;
        proof {
            assert(self.catalog().take(0) =~= Seq::<ServiceEntryModel>::empty());
            assert(entry_models(out@) =~= self.catalog().take(0).filter(pred));
        }
        while i < self.entries.len()
            invariant
                pred == (|e: ServiceEntryModel| e.service_type == service_type@),
                i <= self.entries@.len(),
                entry_models(out@) == self.catalog().take(i as int).filter(pred),
            decreases self.entries@.len() - i,
        {
            let row = &self.entries[i];
            let ghost out0 = out@;
            let keep = str_eq(row.service_type.as_str(), service_type);
            proof {
                lemma_filter_take_step(self.catalog(), pred, i as int);
                assert(keep == pred(self.catalog()[i as int]));
            }
            if keep {
                let copy = row.duplicate();
                out.push(copy);
                proof {
                    assert(entry_models(out@) =~= self.catalog().take(i as int + 1).filter(pred))
                        by {
                        assert(out@ == out0.push(copy));
                        assert(entry_models(out0).len() == out0.len());
                        assert(self.catalog().take(i as int + 1).filter(pred) == entry_models(
                            out0,
                        ).push(self.catalog()[i as int]));
                        assert forall|t: int|
                            0 <= t < out@.len() implies entry_models(out@)[t] == entry_models(
                        out0).push(self.catalog()[i as int])[t] by {
                            assert(entry_models(out@)[t] == out@[t]@);
                            if t < out0.len() {
                                assert(out@[t] == out0[t]);
                                assert(entry_models(out0)[t] == out0[t]@);
                            } else {
                                assert(out@[t] == copy);
                                assert(copy@ == self.catalog()[i as int]);
                            }
                        }
                    }
                }
            }
            i = i + 1;
        }
        proof {
            assert(self.catalog().take(self.catalog().len() as int) =~= self.catalog());
        }
        out
    }

    /// Marks every live row not seen since `now − stale_after_secs` dead,
    /// leaving every other field and every other row untouched; already
    /// dead rows and rows seen at or after the cutoff are never affected.
    /// Returns how many rows were affected.
    pub fn mark_stale(&mut self, stale_after_secs: u64, now: i64) -> (count: u64)
        requires
            old(self).wf(),
        ensures
            final(self).wf(),
            final(self).catalog() == spec_mark_stale(
                old(self).catalog(),
                now - stale_after_secs,
            ),
            count == stale_count(old(self).catalog(), now - stale_after_secs),
    {
        let ghost cat0 = self.catalog();
        let ghost cutoff = now - stale_after_secs as int;
        let ghost pred = |e: ServiceEntryModel| is_stale(e, cutoff);
        let cutoff_exec: i128 = (now as i128) - (stale_after_secs as i128);
        let mut count: u64 = 0;
        let mut i: usize = 0;
        proof {
            assert(cat0.take(0).filter(pred) =~= Seq::<ServiceEntryModel>::empty());
        }
        while i < self.entries.len()
            invariant
                cat0 == entry_models(old(self).entries@),
                cutoff == now - stale_after_secs as int,
                pred == (|e: ServiceEntryModel| is_stale(e, cutoff)),
                cutoff_exec as int == cutoff,
                self.entries@.len() == cat0.len(),
                i <= cat0.len(),
                forall|k: int| i <= k < cat0.len() ==> #[trigger] self.catalog()[k] == cat0[k],
                forall|k: int|
                    0 <= k < i ==> #[trigger] self.catalog()[k] == stale_sweep(cat0[k], cutoff),
                count == cat0.take(i as int).filter(pred).len(),
                count <= i,
            decreases cat0.len() - i,
        {
            let is_alive = self.entries[i].alive;
            let last = self.entries[i].last_seen;
            let stale = is_alive && (last as i128) < cutoff_exec;
            proof {
                assert(self.catalog()[i as int] == cat0[i as int]);
                assert(self.catalog()[i as int] == self.entries@[i as int]@);
                assert(stale == is_stale(cat0[i as int], cutoff));
                lemma_filter_take_step(cat0, pred, i as int);
            }
            if stale {
                let mut updated = self.entries[i].duplicate();
                updated.alive = false;
                proof {
                    assert(updated@ == stale_sweep(cat0[i as int], cutoff));
                }
                let ghost entries_before = self.entries@;
                self.entries.set(i, updated);
                proof {
                    assert(self.entries@ == entries_before.update(i as int, updated));
                    assert forall|k: int|
                        0 <= k < cat0.len() && k != i as int implies #[trigger] self.catalog()[k]
                        == entry_models(entries_before)[k] by {
                        assert(self.catalog()[k] == self.entries@[k]@);
                        assert(self.entries@[k] == entries_before[k]);
                    }
                    assert(self.catalog()[i as int] == updated@);
                }
                count = count + 1;
            }
            proof {
                assert(cat0.take(i as int + 1).filter(pred).len() == count);
            }
            i = i + 1;
        }
        proof {
            assert(cat0.take(cat0.len() as int) =~= cat0);
            assert(self.catalog() =~= spec_mark_stale(cat0, cutoff));
            assert(unique_names(self.catalog())) by {
                assert forall|p: int, q: int|
                    0 <= p < q < self.catalog().len() implies (#[trigger] self.catalog()[
                p]).instance_name != (#[trigger] self.catalog()[q]).instance_name by {
                    assert(cat0[p].instance_name != cat0[q].instance_name);
                    assert(self.catalog()[p].instance_name == cat0[p].instance_name);
                    assert(self.catalog()[q].instance_name == cat0[q].instance_name);
                }
            }
        }
        count
    }

    /// Deletes every row not seen since `now − prune_after_secs`, alive or
    /// not; every other row survives unchanged, in order. Returns how many
    /// rows were deleted.
    pub fn prune_stale(&mut self, prune_after_secs: u64, now: i64) -> (count: u64)
        requires
            old(self).wf(),
        ensures
            final(self).wf(),
            final(self).catalog() == spec_prune(old(self).catalog(), now - prune_after_secs),
            count == old(self).catalog().len() - final(self).catalog().len(),
    {
        let ghost cat0 = self.catalog();
        let ghost cutoff = now - prune_after_secs as int;
        let ghost pred = |e: ServiceEntryModel| !is_expired(e, cutoff);
        let cutoff_exec: i128 = (now as i128) - (prune_after_secs as i128);
        let mut kept: Vec<ServiceEntry> = Vec::new();
        let mut i: usize = 0;
        proof {
            assert(cat0.take(0).filter(pred) =~= Seq::<ServiceEntryModel>::empty());
            assert(entry_models(kept@) =~= cat0.take(0).filter(pred));
        }
        while i < self.entries.len()
            invariant
                cat0 == self.catalog(),
                cutoff == now - prune_after_secs as int,
                pred == (|e: ServiceEntryModel| !is_expired(e, cutoff)),
                cutoff_exec as int == cutoff,
                self.entries@.len() == cat0.len(),
                i <= cat0.len(),
                entry_models(kept@) == cat0.take(i as int).filter(pred),
                kept@.len() <= i,
            decreases cat0.len() - i,
        {
            let last = self.entries[i].last_seen;
            let keep = !((last as i128) < cutoff_exec);
            proof {
                assert(self.catalog()[i as int] == self.entries@[i as int]@);
                assert(keep == pred(cat0[i as int]));
                lemma_filter_take_step(cat0, pred, i as int);
            }
            if keep {
                let copy = self.entries[i].duplicate();
                let ghost kept0 = kept@;
                kept.push(copy);
                proof {
                    assert(entry_models(kept@) =~= cat0.take(i as int + 1).filter(pred)) by {
                        assert(kept@ == kept0.push(copy));
                        assert(entry_models(kept0).len() == kept0.len());
                        assert(cat0.take(i as int + 1).filter(pred) == entry_models(kept0).push(
                            cat0[i as int],
                        ));
                        assert forall|t: int|
                            0 <= t < kept@.len() implies entry_models(kept@)[t] == entry_models(
                        kept0).push(cat0[i as int])[t] by {
                            assert(entry_models(kept@)[t] == kept@[t]@);
                            if t < kept0.len() {
                                assert(kept@[t] == kept0[t]);
                                assert(entry_models(kept0)[t] == kept0[t]@);
                            } else {
                                assert(kept@[t] == copy);
                                assert(copy@ == cat0[i as int]);
                            }
                        }
                    }
                }
            }
            i = i + 1;
        }
        proof {
            assert(cat0.take(cat0.len() as int) =~= cat0);
            assert(entry_models(kept@) == spec_prune(cat0, cutoff));
            assert(entry_models(kept@).len() == kept@.len());
        }
        let removed = self.entries.len() - kept.len();
        self.entries = kept;
        proof {
            lemma_unique_names_filter(cat0, pred);
        }
        removed as u64
    }

    /// Returns a copy of the row under the given instance name, if any.
    pub fn get_service(&self, instance_name: &str) -> (r: Option<ServiceEntry>)
        requires
            self.wf(),
        ensures
            match r {
                Some(e) => get_by_name(self.catalog(), instance_name@) == Some(e@),
                None => !has_name(self.catalog(), instance_name@),
            },
    {
        match self.find_index(instance_name) {
            Some(i) => Some(self.entries[i].duplicate()),
            None => None,
        }
    }
}

proof fn lemma_filter_members(s: Seq<ServiceEntryModel>, pred: spec_fn(ServiceEntryModel) -> bool)
    ensures
        forall|x: ServiceEntryModel| #[trigger] s.filter(pred).contains(x) ==> s.contains(x),
    decreases s.len(),
{
    reveal(Seq::filter);
    if s.len() > 0 {
        let sub = s.drop_last();
        lemma_filter_members(sub, pred);
        assert forall|x: ServiceEntryModel| #[trigger] s.filter(pred).contains(x) implies s.contains(
            x,
        ) by {
            if pred(s.last()) {
                assert(s.filter(pred) == sub.filter(pred).push(s.last()));
                if x == s.last() {
                    assert(s[s.len() - 1] == x);
                } else {
                    let t = choose|t: int|
                        0 <= t < s.filter(pred).len() && s.filter(pred)[t] == x;
                    assert(sub.filter(pred)[t] == x);
                    assert(sub.filter(pred).contains(x));
                    assert(sub.contains(x));
                    let j = choose|j: int| 0 <= j < sub.len() && sub[j] == x;
                    assert(s[j] == x);
                }
            } else {
                assert(s.filter(pred) == sub.filter(pred));
                assert(sub.contains(x));
                let j = choose|j: int| 0 <= j < sub.len() && sub[j] == x;
                assert(s[j] == x);
            }
        }
    }
}

proof fn lemma_unique_names_filter(
    s: Seq<ServiceEntryModel>,
    pred: spec_fn(ServiceEntryModel) -> bool,
)
    requires
        unique_names(s),
    ensures
        unique_names(s.filter(pred)),
    decreases s.len(),
{
    reveal(Seq::filter);
    if s.len() > 0 {
        let sub = s.drop_last();
        assert(unique_names(sub)) by {
            assert forall|p: int, q: int|
                0 <= p < q < sub.len() implies (#[trigger] sub[p]).instance_name != (
            #[trigger] sub[q]).instance_name by {
                assert(s[p].instance_name != s[q].instance_name);
            }
        }
        lemma_unique_names_filter(sub, pred);
        lemma_filter_members(sub, pred);
        let f0 = sub.filter(pred);
        if pred(s.last()) {
            assert(s.filter(pred) == f0.push(s.last()));
            assert forall|p: int, q: int|
                0 <= p < q < f0.push(s.last()).len() implies (#[trigger] f0.push(s.last())[
            p]).instance_name != (#[trigger] f0.push(s.last())[q]).instance_name by {
                if q < f0.len() {
                    assert(f0[p].instance_name != f0[q].instance_name);
                } else {
                    assert(f0.push(s.last())[q] == s.last());
                    assert(f0.push(s.last())[p] == f0[p]);
                    assert(f0.contains(f0[p]));
                    assert(sub.contains(f0[p]));
                    let j = choose|j: int| 0 <= j < sub.len() && sub[j] == f0[p];
                    assert(s[j] == f0[p]);
                    assert(s[j].instance_name != s[s.len() - 1].instance_name);
                }
            }
        } else {
            assert(s.filter(pred) == f0);
        }
    }
}

/// Law: upserting the same entry twice reports a change only the first
/// time. A name absent from the catalog always reports `true`; repeating
/// an identical upsert on the catalog the first call produced reports
/// `false`.
pub proof fn lemma_upsert_same_twice(cat: Seq<ServiceEntryModel>, e: ServiceEntryModel)
    requires
        unique_names(cat),
    ensures
        !has_name(cat, e.instance_name) ==> spec_upsert_changed(cat, e),
        !spec_upsert_changed(spec_upsert(cat, e), e),
{
    let name = e.instance_name;
    let cat1 = spec_upsert(cat, e);
    if has_name(cat, name) {
        let i = index_of_name(cat, name);
        assert(0 <= i < cat.len() && cat[i].instance_name == name);
        let stored = with_first_seen(e, cat[i].first_seen);
        assert(cat1 == cat.update(i, stored));
        assert(cat1[i].instance_name == name);
        assert(has_name(cat1, name));
        let j = index_of_name(cat1, name);
        assert(0 <= j < cat1.len() && cat1[j].instance_name == name);
        if j != i {
            assert(cat1[j] == cat[j]);
            assert(cat[j].instance_name == name);
            if j < i {
                assert(cat[j].instance_name != cat[i].instance_name);
            } else {
                assert(cat[i].instance_name != cat[j].instance_name);
            }
        }
        assert(j == i);
        assert(get_by_name(cat1, name) == Some(stored));
        assert(!data_changed(stored, e));
    } else {
        assert(cat1 == cat.push(e));
        assert(cat1[cat.len() as int].instance_name == name);
        assert(has_name(cat1, name));
        let j = index_of_name(cat1, name);
        assert(0 <= j < cat1.len() && cat1[j].instance_name == name);
        if j < cat.len() {
            assert(cat1[j] == cat[j]);
            assert(has_name(cat, name));
        }
        assert(j == cat.len());
        assert(get_by_name(cat1, name) == Some(e));
        assert(!data_changed(e, e));
    }
}

/// Law: the order in which fresh entries are submitted does not matter.
/// Upserting two entries with distinct, previously unknown names in
/// either order yields catalogs with the same fingerprint.
pub proof fn lemma_insert_order_irrelevant(
    cat: Seq<ServiceEntryModel>,
    a: ServiceEntryModel,
    b: ServiceEntryModel,
)
    requires
        unique_names(cat),
        a.instance_name != b.instance_name,
        !has_name(cat, a.instance_name),
        !has_name(cat, b.instance_name),
    ensures
        crate::hash::hash_of_catalog(spec_upsert(spec_upsert(cat, a), b))
            == crate::hash::hash_of_catalog(spec_upsert(spec_upsert(cat, b), a)),
{
    broadcast use vstd::seq_lib::group_to_multiset_ensures;
    broadcast use vstd::multiset::group_multiset_axioms;

    assert(spec_upsert(cat, a) == cat.push(a));
    assert(!has_name(cat.push(a), b.instance_name)) by {
        if has_name(cat.push(a), b.instance_name) {
            let i = choose|i: int|
                0 <= i < cat.push(a).len() && (#[trigger] cat.push(a)[i]).instance_name
                    == b.instance_name;
            if i < cat.len() {
                assert(cat[i].instance_name == b.instance_name);
                assert(has_name(cat, b.instance_name));
            } else {
                assert(cat.push(a)[i] == a);
            }
        }
    }
    assert(spec_upsert(spec_upsert(cat, a), b) == cat.push(a).push(b));
    assert(spec_upsert(cat, b) == cat.push(b));
    assert(!has_name(cat.push(b), a.instance_name)) by {
        if has_name(cat.push(b), a.instance_name) {
            let i = choose|i: int|
                0 <= i < cat.push(b).len() && (#[trigger] cat.push(b)[i]).instance_name
                    == a.instance_name;
            if i < cat.len() {
                assert(cat[i].instance_name == a.instance_name);
                assert(has_name(cat, a.instance_name));
            } else {
                assert(cat.push(b)[i] == b);
            }
        }
    }
    assert(spec_upsert(spec_upsert(cat, b), a) == cat.push(b).push(a));
    assert(cat.push(a).push(b).to_multiset() =~= cat.push(b).push(a).to_multiset());
    crate::hash::lemma_hash_permutation_invariant(cat.push(a).push(b), cat.push(b).push(a));
}

/// Law: marking a name dead is idempotent. After marking it dead twice, at
/// any two times, the row — if the name is known at all — is still present
/// and still dead, and neither call can fail; an unknown name leaves the
/// catalog untouched both times.
pub proof fn lemma_mark_dead_idempotent(
    cat: Seq<ServiceEntryModel>,
    name: Seq<char>,
    t1: i64,
    t2: i64,
)
    requires
        unique_names(cat),
    ensures
        ({
            let cat2 = spec_mark_dead(spec_mark_dead(cat, name, t1), name, t2);
            &&& has_name(cat, name) ==> get_by_name(cat2, name) == Some(
                marked_dead(cat[index_of_name(cat, name)], t2),
            )
            &&& !has_name(cat, name) ==> cat2 == cat
        }),
{
    let cat1 = spec_mark_dead(cat, name, t1);
    let cat2 = spec_mark_dead(cat1, name, t2);
    if has_name(cat, name) {
        let i = index_of_name(cat, name);
        assert(0 <= i < cat.len() && cat[i].instance_name == name);
        assert(cat1 == cat.update(i, marked_dead(cat[i], t1)));
        assert(cat1[i].instance_name == name);
        assert(has_name(cat1, name));
        let j = index_of_name(cat1, name);
        assert(0 <= j < cat1.len() && cat1[j].instance_name == name);
        if j != i {
            assert(cat1[j] == cat[j]);
            if j < i {
                assert(cat[j].instance_name != cat[i].instance_name);
            } else {
                assert(cat[i].instance_name != cat[j].instance_name);
            }
        }
        assert(j == i);
        assert(cat2 == cat1.update(i, marked_dead(cat1[i], t2)));
        assert(cat1[i] == marked_dead(cat[i], t1));
        assert(marked_dead(marked_dead(cat[i], t1), t2) == marked_dead(cat[i], t2));
        assert(cat2[i].instance_name == name);
        assert(has_name(cat2, name));
        let k = index_of_name(cat2, name);
        assert(0 <= k < cat2.len() && cat2[k].instance_name == name);
        if k != i {
            assert(cat2[k] == cat[k]);
            if k < i {
                assert(cat[k].instance_name != cat[i].instance_name);
            } else {
                assert(cat[i].instance_name != cat[k].instance_name);
            }
        }
        assert(k == i);
        assert(get_by_name(cat2, name) == Some(marked_dead(cat[i], t2)));
    } else {
        assert(cat1 == cat);
        assert(cat2 == cat);
    }
}

proof fn lemma_filter_take_step(
    s: Seq<ServiceEntryModel>,
    pred: spec_fn(ServiceEntryModel) -> bool,
    i: int,
)
    requires
        0 <= i < s.len(),
    ensures
        s.take(i + 1).filter(pred) == if pred(s[i]) {
            s.take(i).filter(pred).push(s[i])
        } else {
            s.take(i).filter(pred)
        },
{
    reveal(Seq::filter);
    assert(s.take(i + 1) =~= s.take(i).push(s[i]));
    assert(s.take(i).push(s[i]).drop_last() =~= s.take(i));
    assert(s.take(i).push(s[i]).last() == s[i]);
}

} // verus!
