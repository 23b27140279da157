//! The cache actor's decision core.
//!
//! Every catalog mutation is serialized through one command stream; this
//! module holds the state machine the single consumer of that stream
//! drives. Each command is applied to the owned catalog store, and the
//! published fingerprint is recomputed exactly when a command meaningfully
//! mutated persisted data — a no-op mutation provably leaves the
//! fingerprint unchanged, so recomputation is safely skipped. The channel
//! plumbing, the dedicated thread and the reply routing live in the
//! embedding program; nothing here depends on them.
use vstd::prelude::*;
use crate::db::{
    by_type, get_by_name, has_name, index_of_name, is_expired, is_stale, spec_mark_dead,
    spec_mark_stale, spec_prune, spec_upsert, spec_upsert_changed, stale_count, stale_sweep,
    unique_names, with_first_seen, CacheDb,
};
use crate::hash::{compute_hash, content_eq, hash_of_catalog, lemma_hash_ignores_freshness};
use crate::types::{entry_models, ServiceEntry, ServiceEntryModel};

verus! {

/// A command sent to the cache actor. Commands that need the current time
/// carry it, so that applying a command is a pure function of state and
/// command.
pub enum CacheCommand {
    /// Insert or update a row; the reply says whether content changed.
    Upsert(ServiceEntry),
    /// Mark the named row dead at the given time.
    MarkDead(String, i64),
    /// Snapshot of the whole catalog.
    GetAll,
    /// Snapshot of the rows of one service type.
    GetByType(String),
    /// Point read of one row by instance name.
    GetOne(String),
    /// Staleness sweep then prune sweep, in that order, at the given time.
    Maintenance { stale_after_secs: u64, prune_after_secs: u64, now: i64 },
    /// Stop accepting commands after the ones already taken.
    Shutdown,
}

/// The reply to one command.
pub enum CacheReply {
    /// Whether an upsert meaningfully changed the catalog.
    Changed(bool),
    /// A write command completed.
    Done,
    /// A catalog snapshot.
    Entries(Vec<ServiceEntry>),
    /// A point read's result.
    OneEntry(Option<ServiceEntry>),
    /// The actor acknowledges shutdown; no further commands are taken.
    Stopping,
}

/// A no-change upsert never moves the fingerprint: the stored row keeps
/// its content, so the catalog hash is unchanged even though `last_seen`
/// advanced.
pub proof fn lemma_unchanged_upsert_keeps_hash(cat: Seq<ServiceEntryModel>, e: ServiceEntryModel)
    requires
        unique_names(cat),
        !spec_upsert_changed(cat, e),
    ensures
        hash_of_catalog(spec_upsert(cat, e)) == hash_of_catalog(cat),
{
    let name = e.instance_name;
    assert(has_name(cat, name));
    let i = index_of_name(cat, name);
    assert(0 <= i < cat.len() && cat[i].instance_name == name);
    let stored = with_first_seen(e, cat[i].first_seen);
    let cat1 = spec_upsert(cat, e);
    assert(cat1 == cat.update(i, stored));
    assert forall|k: int| 0 <= k < cat.len() implies content_eq(
        #[trigger] cat[k],
        #[trigger] cat1[k],
    ) by {
        if k == i {
            assert(!crate::db::data_changed(cat[i], e));
        }
    }
    lemma_hash_ignores_freshness(cat, cat1);
}

/// A staleness sweep that affects no row leaves the catalog unchanged.
pub proof fn lemma_stale_sweep_noop(cat: Seq<ServiceEntryModel>, cutoff: int)
    requires
        stale_count(cat, cutoff) == 0,
    ensures
        spec_mark_stale(cat, cutoff) == cat,
{
    broadcast use vstd::seq_lib::group_filter_ensures;

    let pred = |x: ServiceEntryModel| is_stale(x, cutoff);
    assert forall|k: int| 0 <= k < cat.len() implies !is_stale(#[trigger] cat[k], cutoff) by {
        if is_stale(cat[k], cutoff) {
            assert(cat.filter(pred).contains(cat[k]));
            assert(cat.filter(pred).len() > 0);
        }
    }
    assert(spec_mark_stale(cat, cutoff) =~= cat) by {
        assert forall|k: int| 0 <= k < cat.len() implies #[trigger] spec_mark_stale(cat, cutoff)[k]
            == cat[k] by {
            assert(stale_sweep(cat[k], cutoff) == cat[k]);
        }
    }
}

proof fn lemma_filter_all(s: Seq<ServiceEntryModel>, pred: spec_fn(ServiceEntryModel) -> bool)
    requires
        s.filter(pred).len() == s.len(),
    ensures
        s.filter(pred) == s,
    decreases s.len(),
{
    reveal(Seq::filter);
    if s.len() > 0 {
        let sub = s.drop_last();
        sub.lemma_filter_len(pred);
        if pred(s.last()) {
            assert(s.filter(pred) == sub.filter(pred).push(s.last()));
            lemma_filter_all(sub, pred);
            assert(s.filter(pred) =~= s);
        } else {
            assert(s.filter(pred) == sub.filter(pred));
            assert(s.filter(pred).len() <= sub.len());
            assert(false);
        }
    } else {
        assert(s.filter(pred) =~= s);
    }
}

/// A prune sweep that deletes no row leaves the catalog unchanged.
pub proof fn lemma_prune_noop(cat: Seq<ServiceEntryModel>, cutoff: int)
    requires
        spec_prune(cat, cutoff).len() == cat.len(),
    ensures
        spec_prune(cat, cutoff) == cat,
{
    let pred = |x: ServiceEntryModel| !is_expired(x, cutoff);
    lemma_filter_all(cat, pred);
}

/// The cache actor's state: the owned catalog store and the currently
/// published fingerprint. Between commands the fingerprint always equals
/// the hash of the current catalog.
pub struct CacheState {
    db: CacheDb,
    fingerprint: String,
}

impl CacheState {
    /// The catalog held by the actor.
    pub closed spec fn catalog(&self) -> Seq<ServiceEntryModel> {
        self.db.catalog()
    }

    /// The fingerprint the actor last published.
    pub closed spec fn fingerprint_view(&self) -> Seq<char> {
        self.fingerprint@
    }

    /// The actor's invariant: the catalog is well-keyed and the published
    /// fingerprint is the hash of the current catalog.
    pub open spec fn wf(&self) -> bool {
        &&& unique_names(self.catalog())
        &&& self.fingerprint_view() == hash_of_catalog(self.catalog())
    }

    /// Takes ownership of the store and publishes the initial fingerprint.
    pub fn init(db: CacheDb) -> (s: CacheState)
        requires
            db.wf(),
        ensures
            s.wf(),
            s.catalog() == db.catalog(),
    {
        let services = db.get_all_services();
        let fingerprint = compute_hash(&services);
        CacheState { db, fingerprint }
    }

    /// The currently published fingerprint.
    pub fn current_fingerprint(&self) -> (r: String)
        ensures
            r@ == self.fingerprint_view(),
    {
        self.fingerprint.clone()
    }

    fn republish(&mut self)
        requires
            unique_names(old(self).catalog()),
        ensures
            final(self).catalog() == old(self).catalog(),
            unique_names(final(self).catalog()),
            final(self).fingerprint_view() == hash_of_catalog(final(self).catalog()),
    {
        let services = self.db.get_all_services();
        self.fingerprint = compute_hash(&services);
    }

    /// Applies one command: mutates the catalog as the command demands,
    /// republishes the fingerprint exactly when persisted content changed,
    /// and returns the command's reply together with whether a new
    /// fingerprint was published.
    pub fn apply(&mut self, cmd: CacheCommand) -> (r: (CacheReply, bool))
        requires
            old(self).wf(),
        ensures
            final(self).wf(),
            match cmd {
                CacheCommand::Upsert(entry) => {
                    &&& final(self).catalog() == spec_upsert(old(self).catalog(), entry@)
                    &&& r.0 == CacheReply::Changed(
                        spec_upsert_changed(old(self).catalog(), entry@),
                    )
                    &&& r.1 == spec_upsert_changed(old(self).catalog(), entry@)
                },
                CacheCommand::MarkDead(name, now) => {
                    &&& final(self).catalog() == spec_mark_dead(old(self).catalog(), name@, now)
                    &&& r.0 == CacheReply::Done
                    &&& r.1 == has_name(old(self).catalog(), name@)
                },
                CacheCommand::GetAll => {
                    &&& *final(self) == *old(self)
                    &&& r.0 matches CacheReply::Entries(es) && entry_models(es@) == old(
                        self,
                    ).catalog()
                    &&& r.1 == false
                },
                CacheCommand::GetByType(t) => {
                    &&& *final(self) == *old(self)
                    &&& r.0 matches CacheReply::Entries(es) && entry_models(es@) == by_type(
                        old(self).catalog(),
                        t@,
                    )
                    &&& r.1 == false
                },
                CacheCommand::GetOne(name) => {
                    &&& *final(self) == *old(self)
                    &&& r.0 matches CacheReply::OneEntry(o) && (match o {
                        Some(e) => get_by_name(old(self).catalog(), name@) == Some(e@),
                        None => !has_name(old(self).catalog(), name@),
                    })
                    &&& r.1 == false
                },
                CacheCommand::Maintenance { stale_after_secs, prune_after_secs, now } => ({
                    let mid = spec_mark_stale(old(self).catalog(), now - stale_after_secs);
                    let fin = spec_prune(mid, now - prune_after_secs);
                    &&& final(self).catalog() == fin
                    &&& r.0 == CacheReply::Done
                    &&& r.1 == (stale_count(old(self).catalog(), now - stale_after_secs) > 0
                        || fin.len() < mid.len())
                }),
                CacheCommand::Shutdown => {
                    &&& *final(self) == *old(self)
                    &&& r.0 == CacheReply::Stopping
                    &&& r.1 == false
                },
            },
    {
        match cmd {
            CacheCommand::Upsert(entry) => {
                let changed = self.db.upsert_service(&entry);
                if changed {
                    self.republish();
                } else {
                    proof {
                        lemma_unchanged_upsert_keeps_hash(old(self).catalog(), entry@);
                    }
                }
                (CacheReply::Changed(changed), changed)
            },
            CacheCommand::MarkDead(name, now) => {
                let written = self.db.mark_dead(name.as_str(), now);
                if written {
                    self.republish();
                }
                (CacheReply::Done, written)
            },
            CacheCommand::GetAll => (CacheReply::Entries(self.db.get_all_services()), false),
            CacheCommand::GetByType(t) => (
                CacheReply::Entries(self.db.get_services_by_type(t.as_str())),
                false,
            ),
            CacheCommand::GetOne(name) => (
                CacheReply::OneEntry(self.db.get_service(name.as_str())),
                false,
            ),
            CacheCommand::Maintenance { stale_after_secs, prune_after_secs, now } => {
                let ghost cat0 = self.catalog();
                let stale_n = self.db.mark_stale(stale_after_secs, now);
                let ghost mid = self.catalog();
                let prune_n = self.db.prune_stale(prune_after_secs, now);
                let mutated = stale_n > 0 || prune_n > 0;
                if mutated {
                    self.republish();
                } else {
                    proof {
                        lemma_stale_sweep_noop(cat0, now - stale_after_secs as int);
                        lemma_prune_noop(mid, now - prune_after_secs as int);
                    }
                }
                (CacheReply::Done, mutated)
            },
            CacheCommand::Shutdown => (CacheReply::Stopping, false),
        }
    }
}

} // verus!
