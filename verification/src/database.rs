//! The per-database handle: the key/value store together with its expiration
//! queue, executing each key operation as one atomic step and scheduling the
//! matching expiration update.
use vstd::prelude::*;

use crate::error::Error;
use crate::expiration::{
    insert_by_deadline, remove_tracked_key, ExpirationQueue,
};
use crate::kv::{
    check_passes, kept_expiration, namespace_view, set_output, set_stored_entry, spec_decrement,
    spec_full_key, spec_increment, stored_numeric, Command, EntryV, KeyOperation, KeyStatus,
    KeyValueStore, Output, OutputV, Timestamp, ValueV,
};
use crate::kv::full_key;

verus! {

/// The expiration queue after an `ExpirationUpdate{key, expiration}` is
/// integrated: the key's old deadline leaves; a new one is inserted in
/// deadline order; `None` leaves the key untracked.
pub open spec fn queue_after_update(
    q: Seq<(Seq<char>, Timestamp)>,
    k: Seq<char>,
    expiration: Option<Timestamp>,
) -> Seq<(Seq<char>, Timestamp)> {
    match expiration {
        Some(d) => insert_by_deadline(remove_tracked_key(q, k), k, d),
        None => remove_tracked_key(q, k),
    }
}

/// The consistency invariant between a database's store and its expiration
/// queue: the queue tracks exactly the stored keys that carry an expiration,
/// each under its stored deadline. With it, a sweep at `now` removes exactly
/// the entries whose expiration lies at or before `now`, so an expired
/// entry's disappearance is observable as soon as a sweep runs.
pub open spec fn expirations_tracked(
    kv: Map<Seq<char>, EntryV>,
    q: Seq<(Seq<char>, Timestamp)>,
) -> bool {
    &&& forall|x: (Seq<char>, Timestamp)| #[trigger] q.contains(x) ==> kv.contains_key(x.0)
        && kv[x.0].expiration == Some(x.1)
    &&& forall|k: Seq<char>| #![trigger kv.contains_key(k)]
        kv.contains_key(k) && kv[k].expiration is Some ==> q.contains((k, kv[k].expiration->0))
}

/// A `set` (or a restore of a persisted entry) keeps the store and the queue
/// consistent: the stored entry and the scheduled update carry one
/// expiration.
pub proof fn lemma_update_preserves_tracking(
    kv: Map<Seq<char>, EntryV>,
    q: Seq<(Seq<char>, Timestamp)>,
    fk: Seq<char>,
    e: EntryV,
)
    requires
        expirations_tracked(kv, q),
        crate::expiration::distinct_tracked_keys(q),
    ensures expirations_tracked(kv.insert(fk, e), queue_after_update(q, fk, e.expiration)),
{
    crate::expiration::lemma_remove_tracked_key_membership(q, fk);
    let q1 = remove_tracked_key(q, fk);
    let kv1 = kv.insert(fk, e);
    match e.expiration {
        Some(d) => {
            crate::expiration::lemma_insert_by_deadline_membership(q1, fk, d);
            let q2 = insert_by_deadline(q1, fk, d);
            assert forall|x: (Seq<char>, Timestamp)| #[trigger] q2.contains(x) implies
                kv1.contains_key(x.0) && kv1[x.0].expiration == Some(x.1) by {
                if x != (fk, d) {
                    assert(q1.contains(x));
                    assert(q.contains(x));
                }
            }
            assert forall|k: Seq<char>| kv1.contains_key(k) && kv1[k].expiration is Some
                implies q2.contains((k, kv1[k].expiration->0)) by {
                if k != fk {
                    assert(kv.contains_key(k));
                    assert(q.contains((k, kv[k].expiration->0)));
                    assert(q1.contains((k, kv[k].expiration->0)));
                }
            }
        },
        None => {
            assert forall|x: (Seq<char>, Timestamp)| #[trigger] q1.contains(x) implies
                kv1.contains_key(x.0) && kv1[x.0].expiration == Some(x.1) by {
                assert(q.contains(x));
            }
            assert forall|k: Seq<char>| kv1.contains_key(k) && kv1[k].expiration is Some
                implies q1.contains((k, kv1[k].expiration->0)) by {
                if k != fk {
                    assert(kv.contains_key(k));
                    assert(q.contains((k, kv[k].expiration->0)));
                }
            }
        },
    }
}

/// Removing an entry (a `delete` or a consuming `get`) keeps the store and
/// the queue consistent.
pub proof fn lemma_removal_preserves_tracking(
    kv: Map<Seq<char>, EntryV>,
    q: Seq<(Seq<char>, Timestamp)>,
    fk: Seq<char>,
)
    requires
        expirations_tracked(kv, q),
        crate::expiration::distinct_tracked_keys(q),
    ensures expirations_tracked(kv.remove(fk), remove_tracked_key(q, fk)),
{
    crate::expiration::lemma_remove_tracked_key_membership(q, fk);
    let q1 = remove_tracked_key(q, fk);
    let kv1 = kv.remove(fk);
    assert forall|x: (Seq<char>, Timestamp)| #[trigger] q1.contains(x) implies
        kv1.contains_key(x.0) && kv1[x.0].expiration == Some(x.1) by {
        assert(q.contains(x));
    }
    assert forall|k: Seq<char>| kv1.contains_key(k) && kv1[k].expiration is Some implies
        q1.contains((k, kv1[k].expiration->0)) by {
        assert(kv.contains_key(k));
        assert(q.contains((k, kv[k].expiration->0)));
    }
}

/// A numeric operation keeps the store and the queue consistent: it replaces
/// the value but leaves the entry's expiration in place.
pub proof fn lemma_numeric_preserves_tracking(
    kv: Map<Seq<char>, EntryV>,
    q: Seq<(Seq<char>, Timestamp)>,
    fk: Seq<char>,
    value: ValueV,
)
    requires expirations_tracked(kv, q),
    ensures expirations_tracked(
        kv.insert(fk, EntryV { value, expiration: kept_expiration(kv, fk) }),
        q,
    ),
{
    let kv1 = kv.insert(fk, EntryV { value, expiration: kept_expiration(kv, fk) });
    assert forall|x: (Seq<char>, Timestamp)| #[trigger] q.contains(x) implies
        kv1.contains_key(x.0) && kv1[x.0].expiration == Some(x.1) by {}
    assert forall|k: Seq<char>| kv1.contains_key(k) && kv1[k].expiration is Some implies
        q.contains((k, kv1[k].expiration->0)) by {
        if k == fk {
            assert(kv.contains_key(fk));
            assert(kv1[fk].expiration == kv[fk].expiration);
        }
    }
}

/// An expiry sweep keeps the store and the queue consistent: exactly the
/// popped keys leave both.
pub proof fn lemma_sweep_preserves_tracking(
    kv: Map<Seq<char>, EntryV>,
    q: Seq<(Seq<char>, Timestamp)>,
    popped: Seq<(Seq<char>, Timestamp)>,
    rest: Seq<(Seq<char>, Timestamp)>,
)
    requires
        expirations_tracked(kv, q),
        crate::expiration::distinct_tracked_keys(q),
        q =~= popped + rest,
    ensures expirations_tracked(
        kv.remove_keys(crate::expiration::popped_keys(popped)),
        rest,
    ),
{
    let removed = crate::expiration::popped_keys(popped);
    let kv1 = kv.remove_keys(removed);
    assert forall|x: (Seq<char>, Timestamp)| #[trigger] rest.contains(x) implies
        kv1.contains_key(x.0) && kv1[x.0].expiration == Some(x.1) by {
        let i = choose|i: int| 0 <= i < rest.len() && #[trigger] rest[i] == x;
        assert(q[popped.len() + i] == x);
        assert(q.contains(x));
        if removed.contains(x.0) {
            let j = choose|j: int| 0 <= j < popped.len() && #[trigger] popped[j].0 == x.0;
            assert(q[j] == popped[j]);
            assert(q[j].0 == q[popped.len() + i].0);
        }
    }
    assert forall|k: Seq<char>| kv1.contains_key(k) && kv1[k].expiration is Some implies
        rest.contains((k, kv1[k].expiration->0)) by {
        assert(kv.contains_key(k));
        assert(q.contains((k, kv[k].expiration->0)));
        let i = choose|i: int| 0 <= i < q.len() && #[trigger] q[i] == (k, kv[k].expiration->0);
        if i < popped.len() {
            assert(popped[i] == q[i]);
            assert(removed.contains(k));
        } else {
            assert(rest[i - popped.len()] == q[i]);
        }
    }
}

/// A named database: its key/value store and the expiration queue that
/// tracks the store's deadlines.
#[derive(Debug)]
pub struct Database {
    pub name: String,
    pub schema: String,
    kv: KeyValueStore,
    expiration: ExpirationQueue,
}

impl Database {
    /// Well-formed: the store has distinct keys and the queue is an ordered
    /// deadline schedule.
    pub closed spec fn wf(&self) -> bool {
        self.kv.wf() && self.expiration.wf() && expirations_tracked(self.kv@, self.expiration@)
    }

    /// The database's name.
    pub closed spec fn spec_name(&self) -> Seq<char> {
        self.name@
    }

    /// The database's schema name.
    pub closed spec fn spec_schema(&self) -> Seq<char> {
        self.schema@
    }

    /// The stored key-to-entry map.
    pub closed spec fn kv_map(&self) -> Map<Seq<char>, EntryV> {
        self.kv@
    }

    /// The tracked deadlines, ascending.
    pub closed spec fn expiration_queue(&self) -> Seq<(Seq<char>, Timestamp)> {
        self.expiration@
    }

    /// An empty database under `name` with schema `schema`.
    pub fn new(name: String, schema: String) -> (r: Database)
        ensures
            r.wf(),
            r.spec_name() == name@,
            r.spec_schema() == schema@,
            r.kv_map() == Map::<Seq<char>, EntryV>::empty(),
            r.expiration_queue() == Seq::<(Seq<char>, Timestamp)>::empty(),
    {
        let db = Database {
            name,
            schema,
            kv: KeyValueStore::new(),
            expiration: ExpirationQueue::new(),
        };
        proof {
            assert forall|x: (Seq<char>, Timestamp)| #[trigger] db.expiration@.contains(x)
                implies db.kv@.contains_key(x.0) && db.kv@[x.0].expiration == Some(x.1) by {}
        }
        db
    }

    /// One expiry sweep at `now`: every entry due at `now` leaves the queue
    /// and the store in a single batch, and nothing else moves.
    pub fn sweep_expired(&mut self, now: Timestamp) -> (r: Vec<crate::expiration::ExpEntry>)
        requires old(self).wf(),
        ensures
            final(self).wf(),
            final(self).spec_name() == old(self).spec_name(),
            final(self).spec_schema() == old(self).spec_schema(),
            old(self).expiration_queue() =~= Seq::new(r@.len() as nat, |i: int| r@[i]@)
                + final(self).expiration_queue(),
            forall|i: int| 0 <= i < r@.len() ==> r@[i]@.1.micros <= now.micros,
            forall|i: int| 0 <= i < final(self).expiration_queue().len()
                ==> final(self).expiration_queue()[i].1.micros > now.micros,
            forall|i: int| 0 <= i < old(self).expiration_queue().len()
                && old(self).expiration_queue()[i].1.micros <= now.micros ==> i < r@.len(),
            final(self).kv_map() == old(self).kv_map().remove_keys(
                crate::expiration::popped_keys(Seq::new(r@.len() as nat, |i: int| r@[i]@)),
            ),
            forall|k: Seq<char>| final(self).kv_map().contains_key(k)
                && (#[trigger] final(self).kv_map()[k]).expiration is Some
                ==> final(self).kv_map()[k].expiration->0.micros > now.micros,
    {
        let ghost kv_before = self.kv@;
        let ghost q_before = self.expiration@;
        let popped = self.expiration.remove_expired(&mut self.kv, now);
        proof {
            lemma_sweep_preserves_tracking(
                kv_before,
                q_before,
                Seq::new(popped@.len() as nat, |i: int| popped@[i]@),
                self.expiration@,
            );
            assert forall|k: Seq<char>| self.kv@.contains_key(k)
                && (#[trigger] self.kv@[k]).expiration is Some implies
                self.kv@[k].expiration->0.micros > now.micros by {
                let d = self.kv@[k].expiration->0;
                assert(self.expiration@.contains((k, d)));
                let i = choose|i: int| 0 <= i < self.expiration@.len()
                    && #[trigger] self.expiration@[i] == (k, d);
            }
        }
        popped
    }

    /// Executes one key operation: one atomic transformation of the stored
    /// map, with the matching expiration update integrated into the queue.
    pub fn execute_key_operation(&mut self, op: KeyOperation) -> (r: Result<Output, Error>)
        requires old(self).wf(),
        ensures
            final(self).wf(),
            final(self).spec_name() == old(self).spec_name(),
            final(self).spec_schema() == old(self).spec_schema(),
            ({
                let fk = spec_full_key(namespace_view(op.namespace), op.key@);
                match op.command {
                    Command::SetValue { value, expiration, keep_existing_expiration, check,
                        return_previous_value } => {
                        if check_passes(check, old(self).kv_map().contains_key(fk)) {
                            let stored = set_stored_entry(
                                old(self).kv_map(),
                                fk,
                                value@,
                                expiration,
                                keep_existing_expiration,
                            );
                            &&& final(self).kv_map() == old(self).kv_map().insert(fk, stored)
                            &&& final(self).expiration_queue() == queue_after_update(
                                old(self).expiration_queue(),
                                fk,
                                stored.expiration,
                            )
                            &&& r is Ok && r->Ok_0@ == set_output(
                                old(self).kv_map(),
                                fk,
                                return_previous_value,
                            )
                        } else {
                            &&& final(self).kv_map() == old(self).kv_map()
                            &&& final(self).expiration_queue() == old(self).expiration_queue()
                            &&& r is Ok && r->Ok_0@ == OutputV::Status(KeyStatus::NotChanged)
                        }
                    },
                    Command::Get { delete } => {
                        &&& r is Ok
                        &&& r->Ok_0@ == OutputV::Value(
                            if old(self).kv_map().contains_key(fk) {
                                Some(old(self).kv_map()[fk].value)
                            } else {
                                None
                            },
                        )
                        &&& if delete && old(self).kv_map().contains_key(fk) {
                            final(self).kv_map() == old(self).kv_map().remove(fk)
                                && final(self).expiration_queue() == remove_tracked_key(
                                old(self).expiration_queue(),
                                fk,
                            )
                        } else {
                            final(self).kv_map() == old(self).kv_map()
                                && final(self).expiration_queue() == old(self).expiration_queue()
                        }
                    },
                    Command::Delete => {
                        if old(self).kv_map().contains_key(fk) {
                            &&& final(self).kv_map() == old(self).kv_map().remove(fk)
                            &&& final(self).expiration_queue() == remove_tracked_key(
                                old(self).expiration_queue(),
                                fk,
                            )
                            &&& r is Ok && r->Ok_0@ == OutputV::Status(KeyStatus::Deleted)
                        } else {
                            &&& final(self).kv_map() == old(self).kv_map()
                            &&& final(self).expiration_queue() == old(self).expiration_queue()
                            &&& r is Ok && r->Ok_0@ == OutputV::Status(KeyStatus::NotChanged)
                        }
                    },
                    Command::Increment { amount, saturating } => {
                        &&& final(self).expiration_queue() == old(self).expiration_queue()
                        &&& match stored_numeric(old(self).kv_map(), fk) {
                            Some(existing) => {
                                let stored = spec_increment(existing, amount, saturating);
                                r is Ok && r->Ok_0@ == OutputV::Value(
                                    Some(ValueV::Numeric(stored)),
                                ) && final(self).kv_map() == old(self).kv_map().insert(
                                    fk,
                                    EntryV {
                                        value: ValueV::Numeric(stored),
                                        expiration: kept_expiration(old(self).kv_map(), fk),
                                    },
                                )
                            },
                            None => r is Err && r->Err_0 is Database && final(self).kv_map()
                                == old(self).kv_map(),
                        }
                    },
                    Command::Decrement { amount, saturating } => {
                        &&& final(self).expiration_queue() == old(self).expiration_queue()
                        &&& match stored_numeric(old(self).kv_map(), fk) {
                            Some(existing) => {
                                let stored = spec_decrement(existing, amount, saturating);
                                r is Ok && r->Ok_0@ == OutputV::Value(
                                    Some(ValueV::Numeric(stored)),
                                ) && final(self).kv_map() == old(self).kv_map().insert(
                                    fk,
                                    EntryV {
                                        value: ValueV::Numeric(stored),
                                        expiration: kept_expiration(old(self).kv_map(), fk),
                                    },
                                )
                            },
                            None => r is Err && r->Err_0 is Database && final(self).kv_map()
                                == old(self).kv_map(),
                        }
                    },
                }
            }),
    {
        let KeyOperation { namespace, key, command } = op;
        let fk = full_key(namespace, key);
        match command {
            Command::SetValue { value, expiration, keep_existing_expiration, check,
                return_previous_value } => {
                let existed = self.kv.contains_key(&fk);
                let passes = match check {
                    Some(crate::kv::KeyCheck::OnlyIfPresent) => existed,
                    Some(crate::kv::KeyCheck::OnlyIfVacant) => !existed,
                    None => true,
                };
                let scheduled_expiration = if keep_existing_expiration && existed {
                    self.kv.get_expiration(&fk)
                } else {
                    expiration
                };
                let ghost kv_before = self.kv@;
                let ghost q_before = self.expiration@;
                let output = self.kv.set(
                    &fk,
                    value,
                    expiration,
                    keep_existing_expiration,
                    check,
                    return_previous_value,
                );
                if passes {
                    let ghost stored = self.kv@[fk@];
                    self.expiration.handle_update(fk, scheduled_expiration);
                    proof {
                        lemma_update_preserves_tracking(kv_before, q_before, fk@, stored);
                    }
                }
                Ok(output)
            },
            Command::Get { delete } => {
                if delete {
                    let ghost kv_before = self.kv@;
                    let ghost q_before = self.expiration@;
                    match self.kv.take(&fk) {
                        Some(entry) => {
                            self.expiration.handle_update(fk, None);
                            proof {
                                lemma_removal_preserves_tracking(kv_before, q_before, fk@);
                            }
                            Ok(Output::Value(Some(entry.value)))
                        },
                        None => Ok(Output::Value(None)),
                    }
                } else {
                    Ok(Output::Value(self.kv.get(&fk)))
                }
            },
            Command::Delete => {
                let ghost kv_before = self.kv@;
                let ghost q_before = self.expiration@;
                match self.kv.take(&fk) {
                    Some(_) => {
                        self.expiration.handle_update(fk, None);
                        proof {
                            lemma_removal_preserves_tracking(kv_before, q_before, fk@);
                        }
                        Ok(Output::Status(KeyStatus::Deleted))
                    },
                    None => Ok(Output::Status(KeyStatus::NotChanged)),
                }
            },
            Command::Increment { amount, saturating } => {
                let ghost kv_before = self.kv@;
                let ghost q_before = self.expiration@;
                match self.kv.increment_key(&fk, &amount, saturating) {
                    Ok(v) => {
                        proof {
                            lemma_numeric_preserves_tracking(kv_before, q_before, fk@, v@);
                        }
                        Ok(Output::Value(Some(v)))
                    },
                    Err(e) => Err(e),
                }
            },
            Command::Decrement { amount, saturating } => {
                let ghost kv_before = self.kv@;
                let ghost q_before = self.expiration@;
                match self.kv.decrement_key(&fk, &amount, saturating) {
                    Ok(v) => {
                        proof {
                            lemma_numeric_preserves_tracking(kv_before, q_before, fk@, v@);
                        }
                        Ok(Output::Value(Some(v)))
                    },
                    Err(e) => Err(e),
                }
            },
        }
    }

}

} // verus!
