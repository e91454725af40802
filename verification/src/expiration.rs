//! The key/value expiration engine: a queue of full keys ordered by
//! ascending deadline, driven by update events from writers and by timer
//! expiry. The queue decides what the single expirer task waits for and which
//! keys it deletes; an outer loop performs the waiting and the deletion.
use vstd::prelude::*;

use crate::kv::{KeyValueStore, Timestamp};

verus! {

/// One tracked key and its deadline.
#[derive(Debug)]
pub struct ExpEntry {
    pub key: String,
    pub deadline: Timestamp,
}

/// Deadlines never decrease along the queue.
pub open spec fn sorted_by_deadline(s: Seq<(Seq<char>, Timestamp)>) -> bool {
    forall|i: int, j: int| 0 <= i < j < s.len() ==> s[i].1.micros <= s[j].1.micros
}

/// No key is tracked twice.
pub open spec fn distinct_tracked_keys(s: Seq<(Seq<char>, Timestamp)>) -> bool {
    forall|i: int, j: int| 0 <= i < j < s.len() ==> s[i].0 != s[j].0
}

/// The queue with the one occurrence of `k` (if any) removed.
pub open spec fn remove_tracked_key(
    s: Seq<(Seq<char>, Timestamp)>,
    k: Seq<char>,
) -> Seq<(Seq<char>, Timestamp)>
    decreases s.len(),
{
    if s.len() == 0 {
        s
    } else if s.first().0 == k {
        s.drop_first()
    } else {
        seq![s.first()] + remove_tracked_key(s.drop_first(), k)
    }
}

/// The queue with `(k, d)` inserted before the first entry whose deadline
/// exceeds `d`; ties keep the earlier insertion in front.
pub open spec fn insert_by_deadline(
    s: Seq<(Seq<char>, Timestamp)>,
    k: Seq<char>,
    d: Timestamp,
) -> Seq<(Seq<char>, Timestamp)>
    decreases s.len(),
{
    if s.len() == 0 {
        seq![(k, d)]
    } else if s.first().1.micros > d.micros {
        seq![(k, d)] + s
    } else {
        seq![s.first()] + insert_by_deadline(s.drop_first(), k, d)
    }
}

/// The deadline scheduler of the expiration engine.
#[derive(Debug)]
pub struct ExpirationQueue {
    entries: Vec<ExpEntry>,
}

impl View for ExpirationQueue {
    type V = Seq<(Seq<char>, Timestamp)>;

    closed spec fn view(&self) -> Seq<(Seq<char>, Timestamp)> {
        Seq::new(self.entries@.len(), |i: int| (self.entries@[i].key@, self.entries@[i].deadline))
    }
}

/// Removing the key at its first occurrence index is what the recursion says.
proof fn lemma_remove_tracked_key_at(s: Seq<(Seq<char>, Timestamp)>, k: Seq<char>, i: int)
    requires
        0 <= i < s.len(),
        s[i].0 == k,
        forall|j: int| 0 <= j < i ==> s[j].0 != k,
    ensures remove_tracked_key(s, k) =~= s.remove(i),
    decreases s.len(),
{
    if i == 0 {
        assert(s.drop_first() =~= s.remove(0));
    } else {
        lemma_remove_tracked_key_at(s.drop_first(), k, i - 1);
        assert(seq![s.first()] + s.drop_first().remove(i - 1) =~= s.remove(i));
    }
}

/// A queue without the key is unchanged by removing it.
proof fn lemma_remove_tracked_key_absent(s: Seq<(Seq<char>, Timestamp)>, k: Seq<char>)
    requires forall|j: int| 0 <= j < s.len() ==> s[j].0 != k,
    ensures remove_tracked_key(s, k) =~= s,
    decreases s.len(),
{
    if s.len() > 0 {
        assert(s[0].0 != k);
        lemma_remove_tracked_key_absent(s.drop_first(), k);
        assert(seq![s.first()] + s.drop_first() =~= s);
    }
}

/// Inserting at the first index whose deadline exceeds `d` is what the
/// recursion says.
proof fn lemma_insert_by_deadline_at(
    s: Seq<(Seq<char>, Timestamp)>,
    k: Seq<char>,
    d: Timestamp,
    i: int,
)
    requires
        0 <= i <= s.len(),
        forall|j: int| 0 <= j < i ==> s[j].1.micros <= d.micros,
        i < s.len() ==> s[i].1.micros > d.micros,
    ensures insert_by_deadline(s, k, d) =~= s.insert(i, (k, d)),
    decreases s.len(),
{
    if s.len() == 0 {
        assert(s.insert(0, (k, d)) =~= seq![(k, d)]);
    } else if i == 0 {
        assert(seq![(k, d)] + s =~= s.insert(0, (k, d)));
    } else {
        assert(s[0].1.micros <= d.micros);
        lemma_insert_by_deadline_at(s.drop_first(), k, d, i - 1);
        assert(seq![s.first()] + s.drop_first().insert(i - 1, (k, d)) =~= s.insert(i, (k, d)));
    }
}

/// Inserting a fresh key at the boundary position keeps the queue sorted and
/// its keys distinct.
proof fn lemma_insert_preserves_wf(
    s: Seq<(Seq<char>, Timestamp)>,
    k: Seq<char>,
    d: Timestamp,
    i: int,
)
    requires
        0 <= i <= s.len(),
        forall|j: int| 0 <= j < i ==> s[j].1.micros <= d.micros,
        i < s.len() ==> s[i].1.micros > d.micros,
        sorted_by_deadline(s),
        distinct_tracked_keys(s),
        forall|j: int| 0 <= j < s.len() ==> s[j].0 != k,
    ensures
        sorted_by_deadline(s.insert(i, (k, d))),
        distinct_tracked_keys(s.insert(i, (k, d))),
{
    s.insert_ensures(i, (k, d));
    let v = s.insert(i, (k, d));
    assert forall|a: int, b: int| 0 <= a < b < v.len() implies
        v[a].1.micros <= v[b].1.micros && v[a].0 != v[b].0 by {
        if b < i {
            assert(v[a] == s[a] && v[b] == s[b]);
        } else if b == i {
            assert(v[a] == s[a]);
        } else if a < i {
            assert(v[a] == s[a] && v[b] == s[b - 1]);
            if b - 1 > i || i < s.len() {
                assert(s[i].1.micros > d.micros);
                assert(s[i].1.micros <= s[b - 1].1.micros);
            }
        } else if a == i {
            assert(v[b] == s[b - 1]);
            assert(s[i].1.micros > d.micros);
            assert(s[i].1.micros <= s[b - 1].1.micros);
        } else {
            assert(v[a] == s[a - 1] && v[b] == s[b - 1]);
        }
    }
}

impl ExpirationQueue {
    /// Well-formed: ascending deadlines, each key tracked at most once.
    pub open spec fn wf(&self) -> bool {
        sorted_by_deadline(self@) && distinct_tracked_keys(self@)
    }

    /// An empty queue.
    pub fn new() -> (r: ExpirationQueue)
        ensures
            r.wf(),
            r@ == Seq::<(Seq<char>, Timestamp)>::empty(),
    {
        let q = ExpirationQueue { entries: Vec::new() };
        proof { assert(q@ =~= Seq::<(Seq<char>, Timestamp)>::empty()); }
        q
    }

    /// How many keys are tracked.
    pub fn len(&self) -> (r: usize)
        ensures r == self@.len(),
    {
        self.entries.len()
    }

    /// The deadline the expirer should wait for: the front of the queue.
    pub fn next_deadline(&self) -> (r: Option<Timestamp>)
        requires self.wf(),
        ensures
            self@.len() == 0 ==> r is None,
            self@.len() > 0 ==> r == Some(self@[0].1),
    {
        if self.entries.len() == 0 {
            None
        } else {
            Some(self.entries[0].deadline)
        }
    }

    /// The index of the tracked occurrence of `key`, if any.
    fn position_of(&self, key: &String) -> (r: Option<usize>)
        ensures
            match r {
                Some(i) => i < self@.len() && self@[i as int].0 == key@
                    && forall|j: int| 0 <= j < i ==> self@[j].0 != key@,
                None => forall|j: int| 0 <= j < self@.len() ==> self@[j].0 != key@,
            },
    {
        let mut i: usize = 0;
        while i < self.entries.len()
            invariant
                0 <= i <= self@.len(),
                self@.len() == self.entries@.len(),
                forall|j: int| 0 <= j < i ==> self@[j].0 != key@,
                forall|j: int| 0 <= j < self@.len() ==> self@[j]
                    == (self.entries@[j].key@, self.entries@[j].deadline),
            decreases self.entries@.len() - i,
        {
            if self.entries[i].key == *key {
                return Some(i);
            }
            i = i + 1;
        }
        None
    }

    /// Integrates one `ExpirationUpdate{key, expiration}`: the key's old
    /// deadline (if tracked) is dropped; a new deadline is inserted in
    /// ascending order, ties behind earlier entries; `None` stops tracking
    /// the key, so the expirer will never remove it.
    pub fn handle_update(&mut self, key: String, expiration: Option<Timestamp>)
        requires old(self).wf(),
        ensures
            final(self).wf(),
            match expiration {
                Some(d) => final(self)@ == insert_by_deadline(
                    remove_tracked_key(old(self)@, key@),
                    key@,
                    d,
                ),
                None => final(self)@ == remove_tracked_key(old(self)@, key@),
            },
    {
        let ghost old_view = self@;
        match self.position_of(&key) {
            Some(i) => {
                proof { lemma_remove_tracked_key_at(old_view, key@, i as int); }
                self.entries.remove(i);
            },
            None => {
                proof { lemma_remove_tracked_key_absent(old_view, key@); }
            },
        }
        proof {
            lemma_removed_is_subsequence_facts(old_view, key@);
            assert(self@ =~= remove_tracked_key(old_view, key@));
        }
        if let Some(d) = expiration {
            let ghost removed_view = self@;
            // Find the first position whose deadline exceeds the new one.
            let mut i: usize = 0;
            while i < self.entries.len() && self.entries[i].deadline.micros <= d.micros
                invariant
                    0 <= i <= self@.len(),
                    self@.len() == self.entries@.len(),
                    forall|j: int| 0 <= j < i ==> self@[j].1.micros <= d.micros,
                    forall|j: int| 0 <= j < self@.len() ==> self@[j]
                        == (self.entries@[j].key@, self.entries@[j].deadline),
                    self@ == removed_view,
                decreases self.entries@.len() - i,
            {
                i = i + 1;
            }
            proof {
                lemma_insert_by_deadline_at(removed_view, key@, d, i as int);
                lemma_insert_preserves_wf(removed_view, key@, d, i as int);
            }
            self.entries.insert(i, ExpEntry { key, deadline: d });
            proof {
                assert(self@ =~= removed_view.insert(i as int, (key@, d)));
            }
        }
    }

    /// Removes and returns every front entry whose deadline is at or before
    /// `now`. Exactly the expired keys leave: everything with a later
    /// deadline stays, in order.
    pub fn pop_expired(&mut self, now: Timestamp) -> (r: Vec<ExpEntry>)
        requires old(self).wf(),
        ensures
            final(self).wf(),
            r@.len() <= old(self)@.len(),
            old(self)@ =~= Seq::new(r@.len() as nat, |i: int| r@[i]@) + final(self)@,
            forall|i: int| 0 <= i < r@.len() ==> r@[i]@.1.micros <= now.micros,
            forall|i: int| 0 <= i < final(self)@.len() ==> final(self)@[i].1.micros > now.micros,
            forall|i: int| 0 <= i < old(self)@.len() && old(self)@[i].1.micros <= now.micros
                ==> i < r@.len(),
    {
        let mut popped: Vec<ExpEntry> = Vec::new();
        let ghost orig = self@;
        while self.entries.len() > 0 && self.entries[0].deadline.micros <= now.micros
            invariant
                sorted_by_deadline(self@),
                distinct_tracked_keys(self@),
                popped@.len() + self@.len() == orig.len(),
                orig =~= Seq::new(popped@.len() as nat, |i: int| popped@[i]@) + self@,
                forall|i: int| 0 <= i < popped@.len() ==> popped@[i]@.1.micros <= now.micros,
            decreases self.entries@.len(),
        {
            let ghost before = self@;
            let e = self.entries.remove(0);
            proof {
                assert(self@ =~= before.drop_first());
            }
            popped.push(e);
            proof {
                assert(orig =~= Seq::new(popped@.len() as nat, |i: int| popped@[i]@) + self@);
            }
        }
        proof {
            if self@.len() > 0 {
                assert(self@[0].1.micros > now.micros);
                assert forall|i: int| 0 <= i < self@.len() implies self@[i].1.micros > now.micros
                by {
                    if i > 0 {
                        assert(self@[0].1.micros <= self@[i].1.micros);
                    }
                }
            }
            assert forall|i: int| 0 <= i < orig.len() && orig[i].1.micros <= now.micros implies
                i < popped@.len() by {
                if i >= popped@.len() {
                    assert(orig[i] == self@[i - popped@.len()]);
                }
            }
        }
        popped
    }
}

impl View for ExpEntry {
    type V = (Seq<char>, Timestamp);

    open spec fn view(&self) -> (Seq<char>, Timestamp) {
        (self.key@, self.deadline)
    }
}

/// What the expirer task should do next.
#[derive(Debug)]
pub enum ExpirerWait {
    /// Nothing is tracked: block until the next update arrives.
    Idle,
    /// Wait for an update, but no longer than until this deadline.
    Until(Timestamp),
    /// The front deadline has passed: sweep the expired keys now.
    SweepNow,
}

/// The set of keys named by a popped batch.
pub open spec fn popped_keys(r: Seq<(Seq<char>, Timestamp)>) -> Set<Seq<char>> {
    Set::new(|k: Seq<char>| exists|i: int| 0 <= i < r.len() && r[i].0 == k)
}

impl ExpirationQueue {
    /// Decides what the expirer waits for: idle when nothing is tracked,
    /// until the front deadline while it lies ahead, an immediate sweep once
    /// it has passed.
    pub fn wait_decision(&self, now: Timestamp) -> (r: ExpirerWait)
        requires self.wf(),
        ensures
            self@.len() == 0 ==> r is Idle,
            self@.len() > 0 && self@[0].1.micros > now.micros ==> r == ExpirerWait::Until(
                self@[0].1,
            ),
            self@.len() > 0 && self@[0].1.micros <= now.micros ==> r is SweepNow,
    {
        if self.entries.len() == 0 {
            ExpirerWait::Idle
        } else if self.entries[0].deadline.micros > now.micros {
            ExpirerWait::Until(self.entries[0].deadline)
        } else {
            ExpirerWait::SweepNow
        }
    }

    /// One expiry sweep: pops every entry due at `now` and deletes exactly
    /// those keys from the store in one batch.
    pub fn remove_expired(
        &mut self,
        store: &mut KeyValueStore,
        now: Timestamp,
    ) -> (r: Vec<ExpEntry>)
        requires
            old(self).wf(),
            old(store).wf(),
        ensures
            final(self).wf(),
            final(store).wf(),
            old(self)@ =~= Seq::new(r@.len() as nat, |i: int| r@[i]@) + final(self)@,
            forall|i: int| 0 <= i < r@.len() ==> r@[i]@.1.micros <= now.micros,
            forall|i: int| 0 <= i < final(self)@.len() ==> final(self)@[i].1.micros > now.micros,
            forall|i: int| 0 <= i < old(self)@.len() && old(self)@[i].1.micros <= now.micros
                ==> i < r@.len(),
            final(store)@ == old(store)@.remove_keys(
                popped_keys(Seq::new(r@.len() as nat, |i: int| r@[i]@)),
            ),
    {
        let popped = self.pop_expired(now);
        let ghost popped_views = Seq::new(popped@.len() as nat, |i: int| popped@[i]@);
        let ghost store_orig = store@;
        let mut i: usize = 0;
        while i < popped.len()
            invariant
                store.wf(),
                0 <= i <= popped@.len(),
                popped_views == Seq::new(popped@.len() as nat, |j: int| popped@[j]@),
                store@ == store_orig.remove_keys(popped_keys(popped_views.take(i as int))),
            decreases popped@.len() - i,
        {
            let ghost before = store@;
            let _ = store.take(&popped[i].key);
            proof {
                assert(popped_views[i as int].0 == popped@[i as int].key@);
                lemma_popped_keys_extend(popped_views, i as int);
                assert(store@ =~~= store_orig.remove_keys(
                    popped_keys(popped_views.take(i + 1 as int)),
                ));
            }
            i = i + 1;
        }
        proof {
            assert(popped_views.take(popped@.len() as int) =~= popped_views);
        }
        popped
    }
}

/// The keys of one more popped entry: the prefix's keys plus that entry's.
proof fn lemma_popped_keys_extend(s: Seq<(Seq<char>, Timestamp)>, i: int)
    requires 0 <= i < s.len(),
    ensures popped_keys(s.take(i + 1)) =~~= popped_keys(s.take(i)).insert(s[i].0),
{
    assert forall|k: Seq<char>| popped_keys(s.take(i + 1)).contains(k) implies popped_keys(
        s.take(i),
    ).insert(s[i].0).contains(k) by {
        let j = choose|j: int| 0 <= j < s.take(i + 1).len() && #[trigger] s.take(i + 1)[j].0 == k;
        if j < i {
            assert(s.take(i)[j].0 == k);
            assert(popped_keys(s.take(i)).contains(k));
        } else {
            assert(k == s[i].0);
        }
    }
    assert forall|k: Seq<char>| popped_keys(s.take(i)).insert(s[i].0).contains(k) implies
        popped_keys(s.take(i + 1)).contains(k) by {
        if popped_keys(s.take(i)).contains(k) {
            let j = choose|j: int| 0 <= j < s.take(i).len() && #[trigger] s.take(i)[j].0 == k;
            assert(s.take(i + 1)[j].0 == k);
        } else {
            assert(k == s[i].0);
            assert(s.take(i + 1)[i].0 == k);
        }
    }
}

/// Removing a key removes exactly its entry: the remainder holds an element
/// exactly when the queue held it under a different key.
pub proof fn lemma_remove_tracked_key_membership(s: Seq<(Seq<char>, Timestamp)>, k: Seq<char>)
    requires distinct_tracked_keys(s),
    ensures
        forall|x: (Seq<char>, Timestamp)|
            #![trigger remove_tracked_key(s, k).contains(x)]
            remove_tracked_key(s, k).contains(x) <==> (s.contains(x) && x.0 != k),
    decreases s.len(),
{
    if s.len() > 0 {
        let r = remove_tracked_key(s, k);
        if s.first().0 == k {
            assert forall|x: (Seq<char>, Timestamp)| r.contains(x) implies (s.contains(x) && x.0
                != k) by {
                let w = choose|w: int| 0 <= w < r.len() && #[trigger] r[w] == x;
                assert(s[w + 1] == x);
                assert(s.contains(x));
                assert(s[0].0 != s[w + 1].0);
            }
            assert forall|x: (Seq<char>, Timestamp)| s.contains(x) && x.0 != k implies
                r.contains(x) by {
                let w = choose|w: int| 0 <= w < s.len() && #[trigger] s[w] == x;
                assert(w != 0);
                assert(r[w - 1] == x);
                assert(r.contains(x));
            }
        } else {
            assert forall|a: int, b: int| 0 <= a < b < s.drop_first().len() implies
                s.drop_first()[a].0 != s.drop_first()[b].0 by {
                assert(s.drop_first()[a] == s[a + 1]);
                assert(s.drop_first()[b] == s[b + 1]);
            }
            lemma_remove_tracked_key_membership(s.drop_first(), k);
            let rt = remove_tracked_key(s.drop_first(), k);
            assert(r =~= seq![s.first()] + rt);
            assert forall|x: (Seq<char>, Timestamp)| r.contains(x) implies (s.contains(x) && x.0
                != k) by {
                let w = choose|w: int| 0 <= w < r.len() && #[trigger] r[w] == x;
                if w == 0 {
                    assert(s[0] == x);
                    assert(s.contains(x));
                } else {
                    assert(rt[w - 1] == x);
                    assert(remove_tracked_key(s.drop_first(), k).contains(x));
                    assert(s.drop_first().contains(x) && x.0 != k);
                    let v = choose|v: int| 0 <= v < s.drop_first().len()
                        && #[trigger] s.drop_first()[v] == x;
                    assert(s[v + 1] == x);
                    assert(s.contains(x));
                }
            }
            assert forall|x: (Seq<char>, Timestamp)| s.contains(x) && x.0 != k implies
                r.contains(x) by {
                let w = choose|w: int| 0 <= w < s.len() && #[trigger] s[w] == x;
                if w == 0 {
                    assert(r[0] == x);
                    assert(r.contains(x));
                } else {
                    assert(s.drop_first()[w - 1] == x);
                    assert(s.drop_first().contains(x));
                    assert(rt.contains(x));
                    let v = choose|v: int| 0 <= v < rt.len() && #[trigger] rt[v] == x;
                    assert(r[v + 1] == x);
                    assert(r.contains(x));
                }
            }
        }
    }
}

/// Inserting a deadline adds exactly that entry.
pub proof fn lemma_insert_by_deadline_membership(
    s: Seq<(Seq<char>, Timestamp)>,
    k: Seq<char>,
    d: Timestamp,
)
    ensures
        forall|x: (Seq<char>, Timestamp)|
            #![trigger insert_by_deadline(s, k, d).contains(x)]
            insert_by_deadline(s, k, d).contains(x) <==> (s.contains(x) || x == (k, d)),
    decreases s.len(),
{
    let r = insert_by_deadline(s, k, d);
    if s.len() == 0 {
        assert(r[0] == (k, d));
        assert forall|x: (Seq<char>, Timestamp)| r.contains(x) implies (s.contains(x) || x == (
            k,
            d,
        )) by {
            let w = choose|w: int| 0 <= w < r.len() && #[trigger] r[w] == x;
        }
        assert(r.contains((k, d)));
    } else if s.first().1.micros > d.micros {
        assert(r =~= seq![(k, d)] + s);
        assert forall|x: (Seq<char>, Timestamp)| r.contains(x) implies (s.contains(x) || x == (
            k,
            d,
        )) by {
            let w = choose|w: int| 0 <= w < r.len() && #[trigger] r[w] == x;
            if w > 0 {
                assert(s[w - 1] == x);
                assert(s.contains(x));
            }
        }
        assert forall|x: (Seq<char>, Timestamp)| s.contains(x) || x == (k, d) implies
            r.contains(x) by {
            if x == (k, d) {
                assert(r[0] == x);
                assert(r.contains(x));
            } else {
                let w = choose|w: int| 0 <= w < s.len() && #[trigger] s[w] == x;
                assert(r[w + 1] == x);
                assert(r.contains(x));
            }
        }
    } else {
        lemma_insert_by_deadline_membership(s.drop_first(), k, d);
        let rt = insert_by_deadline(s.drop_first(), k, d);
        assert(r =~= seq![s.first()] + rt);
        assert forall|x: (Seq<char>, Timestamp)| r.contains(x) implies (s.contains(x) || x == (
            k,
            d,
        )) by {
            let w = choose|w: int| 0 <= w < r.len() && #[trigger] r[w] == x;
            if w == 0 {
                assert(s[0] == x);
                assert(s.contains(x));
            } else {
                assert(rt[w - 1] == x);
                assert(rt.contains(x));
                if s.drop_first().contains(x) {
                    let v = choose|v: int| 0 <= v < s.drop_first().len()
                        && #[trigger] s.drop_first()[v] == x;
                    assert(s[v + 1] == x);
                    assert(s.contains(x));
                }
            }
        }
        assert forall|x: (Seq<char>, Timestamp)| s.contains(x) || x == (k, d) implies
            r.contains(x) by {
            if x == (k, d) || !s.contains(x) {
                assert(insert_by_deadline(s.drop_first(), k, d).contains(x));
                let v = choose|v: int| 0 <= v < rt.len() && #[trigger] rt[v] == x;
                assert(r[v + 1] == x);
                assert(r.contains(x));
            } else {
                let w = choose|w: int| 0 <= w < s.len() && #[trigger] s[w] == x;
                if w == 0 {
                    assert(r[0] == x);
                    assert(r.contains(x));
                } else {
                    assert(s.drop_first()[w - 1] == x);
                    assert(s.drop_first().contains(x));
                    assert(rt.contains(x));
                    let v = choose|v: int| 0 <= v < rt.len() && #[trigger] rt[v] == x;
                    assert(r[v + 1] == x);
                    assert(r.contains(x));
                }
            }
        }
    }
}

/// The expiration-cancel law: clearing a key's expiration stops tracking it,
/// so no expiry sweep removes it — a sweep only pops tracked entries.
pub proof fn lemma_expiration_cancel(s: Seq<(Seq<char>, Timestamp)>, k: Seq<char>)
    requires
        sorted_by_deadline(s),
        distinct_tracked_keys(s),
    ensures
        forall|j: int| 0 <= j < remove_tracked_key(s, k).len()
            ==> #[trigger] remove_tracked_key(s, k)[j].0 != k,
{
    lemma_removed_is_subsequence_facts(s, k);
}

/// The expiration-liveness law at the queue level: every key whose deadline
/// lies at or before `now` is in the batch an expiry sweep at `now` pops, and
/// so is deleted from the store.
pub proof fn lemma_due_keys_swept(
    before: Seq<(Seq<char>, Timestamp)>,
    popped: Seq<(Seq<char>, Timestamp)>,
    after: Seq<(Seq<char>, Timestamp)>,
    now: Timestamp,
    i: int,
)
    requires
        before =~= popped + after,
        forall|j: int| 0 <= j < before.len() && before[j].1.micros <= now.micros
            ==> j < popped.len(),
        0 <= i < before.len(),
        before[i].1.micros <= now.micros,
    ensures popped_keys(popped).contains(before[i].0),
{
    assert(popped[i] == before[i]);
}

/// The updates the loader integrates, oldest first, folded over the queue.
pub open spec fn integrate_updates(
    q: Seq<(Seq<char>, Timestamp)>,
    upds: Seq<(Seq<char>, Timestamp)>,
) -> Seq<(Seq<char>, Timestamp)>
    decreases upds.len(),
{
    if upds.len() == 0 {
        q
    } else {
        insert_by_deadline(
            remove_tracked_key(integrate_updates(q, upds.drop_last()), upds.last().0),
            upds.last().0,
            upds.last().1,
        )
    }
}

/// The expiration-loader job, run once per database open: it scans the store
/// and forwards every persisted expiration to the expiration queue.
pub struct ExpirationLoader {}

impl ExpirationLoader {
    /// Scans `store` and integrates every stored key that carries an
    /// expiration into `queue`, returning the forwarded pairs.
    pub fn execute(store: &KeyValueStore, queue: &mut ExpirationQueue) -> (r: Vec<
        (String, Timestamp),
    >)
        requires
            store.wf(),
            old(queue).wf(),
        ensures
            final(queue).wf(),
            forall|i: int| 0 <= i < r@.len() ==> store@.contains_key(#[trigger] r@[i].0@)
                && store@[r@[i].0@].expiration == Some(r@[i].1),
            forall|k: Seq<char>| store@.contains_key(k) && store@[k].expiration is Some
                ==> exists|i: int| 0 <= i < r@.len() && #[trigger] r@[i].0@ == k,
            forall|a: int, b: int| 0 <= a < b < r@.len()
                ==> (#[trigger] r@[a]).0@ != (#[trigger] r@[b]).0@,
            final(queue)@ == integrate_updates(
                old(queue)@,
                Seq::new(r@.len() as nat, |i: int| (r@[i].0@, r@[i].1)),
            ),
    {
        let updates = store.expiring_entries();
        let ghost update_views = Seq::new(updates@.len() as nat, |i: int| (
            updates@[i].0@,
            updates@[i].1,
        ));
        let ghost queue_orig = queue@;
        let mut i: usize = 0;
        while i < updates.len()
            invariant
                queue.wf(),
                0 <= i <= updates@.len(),
                update_views == Seq::new(updates@.len() as nat, |j: int| (
                    updates@[j].0@,
                    updates@[j].1,
                )),
                queue@ == integrate_updates(queue_orig, update_views.take(i as int)),
            decreases updates@.len() - i,
        {
            let (key, deadline) = (updates[i].0.clone(), updates[i].1);
            queue.handle_update(key, Some(deadline));
            proof {
                assert(update_views.take(i + 1 as int).drop_last() =~= update_views.take(i as int));
                assert(update_views.take(i + 1 as int).last() == update_views[i as int]);
            }
            i = i + 1;
        }
        proof {
            assert(update_views.take(updates@.len() as int) =~= update_views);
        }
        updates
    }
}

/// Removing a key keeps order and distinctness: the remainder is the original
/// with one element dropped.
proof fn lemma_removed_is_subsequence_facts(s: Seq<(Seq<char>, Timestamp)>, k: Seq<char>)
    requires
        sorted_by_deadline(s),
        distinct_tracked_keys(s),
    ensures
        sorted_by_deadline(remove_tracked_key(s, k)),
        distinct_tracked_keys(remove_tracked_key(s, k)),
        forall|j: int| 0 <= j < remove_tracked_key(s, k).len()
            ==> #[trigger] remove_tracked_key(s, k)[j].0 != k,
    decreases s.len(),
{
    if s.len() > 0 {
        if s.first().0 == k {
            assert forall|j: int| 0 <= j < s.drop_first().len() implies
                #[trigger] s.drop_first()[j].0 != k by {
                assert(s[j + 1].0 != s[0].0);
            }
        } else {
            lemma_removed_is_subsequence_facts(s.drop_first(), k);
            let r = remove_tracked_key(s, k);
            let rt = remove_tracked_key(s.drop_first(), k);
            assert(r =~= seq![s.first()] + rt);
            lemma_remove_is_from_original(s.drop_first(), k);
        }
    }
}

/// Every element of the remainder stood in the original queue.
proof fn lemma_remove_is_from_original(s: Seq<(Seq<char>, Timestamp)>, k: Seq<char>)
    ensures
        forall|j: int| 0 <= j < remove_tracked_key(s, k).len()
            ==> exists|i: int| 0 <= i < s.len() && s[i] == #[trigger] remove_tracked_key(s, k)[j],
    decreases s.len(),
{
    if s.len() > 0 {
        if s.first().0 == k {
            assert forall|j: int| 0 <= j < remove_tracked_key(s, k).len() implies
                exists|i: int| 0 <= i < s.len() && s[i] == #[trigger] remove_tracked_key(s, k)[j]
            by {
                assert(s[j + 1] == remove_tracked_key(s, k)[j]);
            }
        } else {
            lemma_remove_is_from_original(s.drop_first(), k);
            let r = remove_tracked_key(s, k);
            assert forall|j: int| 0 <= j < r.len() implies
                exists|i: int| 0 <= i < s.len() && s[i] == #[trigger] r[j]
            by {
                if j == 0 {
                    assert(s[0] == r[0]);
                } else {
                    let rt = remove_tracked_key(s.drop_first(), k);
                    assert(r[j] == rt[j - 1]);
                    let i = choose|i: int| 0 <= i < s.drop_first().len()
                        && s.drop_first()[i] == rt[j - 1];
                    assert(s[i + 1] == r[j]);
                }
            }
        }
    }
}

} // verus!
