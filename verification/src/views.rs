//! View maintenance: the per-instance status tables, the deduplicating job
//! registry, the integrity scanner's missing-document computation, and the
//! driver that reindexes a view up to a transaction watermark before a query
//! is served.
use vstd::prelude::*;


verus! {

/// Names one view: the database, its collection, and the view's name.
#[derive(Debug, Clone)]
pub struct ViewKey {
    pub database: String,
    pub collection: String,
    pub view_name: String,
}

impl View for ViewKey {
    type V = (Seq<char>, Seq<char>, Seq<char>);

    open spec fn view(&self) -> (Seq<char>, Seq<char>, Seq<char>) {
        (self.database@, self.collection@, self.view_name@)
    }
}

/// Whether two view keys name the same view.
pub fn view_key_eq(a: &ViewKey, b: &ViewKey) -> (r: bool)
    ensures r == (a@ == b@),
{
    a.database == b.database && a.collection == b.collection && a.view_name == b.view_name
}

/// The status a table records for `k`: the transaction id at `k`'s slot.
pub closed spec fn status_of(
    s: Seq<(ViewKey, u64)>,
    k: (Seq<char>, Seq<char>, Seq<char>),
) -> Option<u64> {
    if exists|i: int| 0 <= i < s.len() && s[i].0@ == k {
        let i = choose|i: int| 0 <= i < s.len() && s[i].0@ == k;
        Some(s[i].1)
    } else {
        None
    }
}

/// The in-memory status tables of the task manager: which views have passed
/// an integrity check, and the last transaction id each view has indexed.
#[derive(Debug)]
pub struct Statuses {
    completed_integrity_checks: Vec<ViewKey>,
    view_update_last_status: Vec<(ViewKey, u64)>,
}

impl Statuses {
    /// Whether the view has completed an integrity check.
    pub closed spec fn integrity_checked(
        &self,
        k: (Seq<char>, Seq<char>, Seq<char>),
    ) -> bool {
        exists|i: int| 0 <= i < self.completed_integrity_checks@.len()
            && self.completed_integrity_checks@[i]@ == k
    }

    /// The last transaction id the view's index reflects, if recorded.
    pub closed spec fn last_status(
        &self,
        k: (Seq<char>, Seq<char>, Seq<char>),
    ) -> Option<u64> {
        status_of(self.view_update_last_status@, k)
    }

    /// Well-formed: the status table names a view at most once.
    pub closed spec fn wf(&self) -> bool {
        forall|i: int, j: int|
            0 <= i < j < self.view_update_last_status@.len()
                ==> self.view_update_last_status@[i].0@ != self.view_update_last_status@[j].0@
    }

    /// Empty tables.
    pub fn new() -> (r: Statuses)
        ensures
            r.wf(),
            forall|k: (Seq<char>, Seq<char>, Seq<char>)| !r.integrity_checked(k),
            forall|k: (Seq<char>, Seq<char>, Seq<char>)| r.last_status(k) is None,
    {
        let r = Statuses {
            completed_integrity_checks: Vec::new(),
            view_update_last_status: Vec::new(),
        };
        proof {
            assert forall|k: (Seq<char>, Seq<char>, Seq<char>)| r.last_status(k) is None by {
                lemma_status_of_absent(r.view_update_last_status@, k);
            }
        }
        r
    }

    /// Whether `key`'s view has completed an integrity check.
    pub fn view_integrity_checked(&self, key: &ViewKey) -> (r: bool)
        ensures r == self.integrity_checked(key@),
    {
        let mut i: usize = 0;
        while i < self.completed_integrity_checks.len()
            invariant
                0 <= i <= self.completed_integrity_checks@.len(),
                forall|j: int| 0 <= j < i ==> self.completed_integrity_checks@[j]@ != key@,
            decreases self.completed_integrity_checks@.len() - i,
        {
            if view_key_eq(&self.completed_integrity_checks[i], key) {
                return true;
            }
            i = i + 1;
        }
        false
    }

    /// Records that `key`'s view passed its integrity check.
    pub fn mark_integrity_check_complete(&mut self, key: ViewKey)
        requires old(self).wf(),
        ensures
            final(self).wf(),
            forall|k: (Seq<char>, Seq<char>, Seq<char>)|
                final(self).integrity_checked(k) <==> (old(self).integrity_checked(k) || k
                    == key@),
            forall|k: (Seq<char>, Seq<char>, Seq<char>)| final(self).last_status(k) == old(
                self,
            ).last_status(k),
    {
        let ghost before = self.completed_integrity_checks@;
        self.completed_integrity_checks.push(key);
        proof {
            assert forall|k: (Seq<char>, Seq<char>, Seq<char>)|
                final(self).integrity_checked(k) <==> (old(self).integrity_checked(k) || k
                    == key@) by {
                if old(self).integrity_checked(k) {
                    let i = choose|i: int| 0 <= i < before.len() && before[i]@ == k;
                    assert(self.completed_integrity_checks@[i]@ == k);
                }
                if k == key@ {
                    assert(self.completed_integrity_checks@[before.len() as int]@ == k);
                }
                if self.integrity_checked(k) {
                    let i = choose|i: int| 0 <= i < self.completed_integrity_checks@.len()
                        && self.completed_integrity_checks@[i]@ == k;
                    if i < before.len() {
                        assert(before[i]@ == k);
                    }
                }
            }
        }
    }

    /// Records that `key`'s view has indexed every transaction up to
    /// `transaction_id`.
    pub fn mark_view_updated(&mut self, key: ViewKey, transaction_id: u64)
        requires old(self).wf(),
        ensures
            final(self).wf(),
            final(self).last_status(key@) == Some(transaction_id),
            forall|k: (Seq<char>, Seq<char>, Seq<char>)| k != key@
                ==> final(self).last_status(k) == old(self).last_status(k),
            forall|k: (Seq<char>, Seq<char>, Seq<char>)|
                final(self).integrity_checked(k) == old(self).integrity_checked(k),
    {
        let ghost before = self.view_update_last_status@;
        let mut i: usize = 0;
        let mut found: bool = false;
        while i < self.view_update_last_status.len() && !found
            invariant
                0 <= i <= self.view_update_last_status@.len(),
                self.view_update_last_status@ == before,
                !found ==> forall|j: int| 0 <= j < i ==> before[j].0@ != key@,
                found ==> i < before.len() && before[i as int].0@ == key@,
            decreases before.len() - i, (if found { 0int } else { 1int }),
        {
            if view_key_eq(&self.view_update_last_status[i].0, &key) {
                found = true;
            } else {
                i = i + 1;
            }
        }
        if found {
            let ghost gkey = key@;
            self.view_update_last_status.set(i, (key, transaction_id));
            proof {
                let after = self.view_update_last_status@;
                assert forall|a: int, b: int| 0 <= a < b < after.len() implies
                    after[a].0@ != after[b].0@ by {
                    if a != i && b != i {
                        assert(after[a] == before[a] && after[b] == before[b]);
                    } else if a == i {
                        assert(after[b] == before[b]);
                        assert(before[b].0@ != before[i as int].0@);
                    } else {
                        assert(after[a] == before[a]);
                        assert(before[a].0@ != before[i as int].0@);
                    }
                }
                lemma_status_of_at(after, gkey, i as int);
                assert forall|k2: (Seq<char>, Seq<char>, Seq<char>)| k2 != gkey implies
                    status_of(after, k2) == status_of(before, k2) by {
                    lemma_status_unchanged_elsewhere(before, after, i as int, k2);
                }
            }
        } else {
            let ghost gkey = key@;
            self.view_update_last_status.push((key, transaction_id));
            proof {
                let after = self.view_update_last_status@;
                assert forall|a: int, b: int| 0 <= a < b < after.len() implies
                    after[a].0@ != after[b].0@ by {
                    if b < before.len() {
                        assert(after[a] == before[a] && after[b] == before[b]);
                    } else {
                        assert(after[a] == before[a]);
                        assert(before[a].0@ != gkey);
                    }
                }
                lemma_status_of_at(after, gkey, before.len() as int);
                assert forall|k2: (Seq<char>, Seq<char>, Seq<char>)| k2 != gkey implies
                    status_of(after, k2) == status_of(before, k2) by {
                    lemma_status_unchanged_elsewhere(before, after, before.len() as int, k2);
                }
            }
        }
        proof {
            let now_checked = self.completed_integrity_checks@;
            let was_checked = old(self).completed_integrity_checks@;
            assert(now_checked == was_checked);
            assert forall|k: (Seq<char>, Seq<char>, Seq<char>)|
                self.integrity_checked(k) == old(self).integrity_checked(k) by {
                if old(self).integrity_checked(k) {
                    let w = choose|w: int| 0 <= w < was_checked.len() && was_checked[w]@ == k;
                    assert(now_checked[w]@ == k);
                }
                if self.integrity_checked(k) {
                    let w = choose|w: int| 0 <= w < now_checked.len() && now_checked[w]@ == k;
                    assert(was_checked[w]@ == k);
                }
            }
        }
    }

    /// Whether the view must be reindexed to reflect `current_transaction_id`:
    /// yes when no status is recorded or the recorded one is older.
    pub fn needs_reindex(&self, key: &ViewKey, current_transaction_id: u64) -> (r: bool)
        requires self.wf(),
        ensures
            r == match self.last_status(key@) {
                Some(last) => last < current_transaction_id,
                None => true,
            },
    {
        let mut i: usize = 0;
        while i < self.view_update_last_status.len()
            invariant
                0 <= i <= self.view_update_last_status@.len(),
                self.wf(),
                forall|j: int| 0 <= j < i ==> self.view_update_last_status@[j].0@ != key@,
            decreases self.view_update_last_status@.len() - i,
        {
            if view_key_eq(&self.view_update_last_status[i].0, key) {
                proof {
                    let w = choose|w: int| 0 <= w < self.view_update_last_status@.len()
                        && self.view_update_last_status@[w].0@ == key@;
                    assert(w == i);
                }
                return self.view_update_last_status[i].1 < current_transaction_id;
            }
            i = i + 1;
        }
        true
    }
}

/// Names one integrity-scan job: the view key plus the view's code version.
#[derive(Debug, Clone)]
pub struct IntegrityScan {
    pub view_version: u64,
    pub database: String,
    pub collection: String,
    pub view_name: String,
}

impl View for IntegrityScan {
    type V = (u64, Seq<char>, Seq<char>, Seq<char>);

    open spec fn view(&self) -> (u64, Seq<char>, Seq<char>, Seq<char>) {
        (self.view_version, self.database@, self.collection@, self.view_name@)
    }
}

/// The view key an integrity scan is about.
pub open spec fn scan_view_key(
    scan: (u64, Seq<char>, Seq<char>, Seq<char>),
) -> (Seq<char>, Seq<char>, Seq<char>) {
    (scan.1, scan.2, scan.3)
}

/// One background job, keyed for deduplication.
#[derive(Debug)]
pub enum Task {
    /// Verify a view's index against its collection and code version.
    IntegrityScan(IntegrityScan),
    /// Replay a database's persisted expirations into the expiration queue.
    ExpirationLoad(String),
    /// Compact one collection of a database.
    Compaction { database: String, collection: String },
}

/// The mathematical model of a `Task`.
pub enum TaskV {
    IntegrityScan((u64, Seq<char>, Seq<char>, Seq<char>)),
    ExpirationLoad(Seq<char>),
    Compaction(Seq<char>, Seq<char>),
}

impl View for Task {
    type V = TaskV;

    open spec fn view(&self) -> TaskV {
        match self {
            Task::IntegrityScan(scan) => TaskV::IntegrityScan(scan@),
            Task::ExpirationLoad(db) => TaskV::ExpirationLoad(db@),
            Task::Compaction { database, collection } => TaskV::Compaction(
                database@,
                collection@,
            ),
        }
    }
}

/// Whether two tasks share one deduplication key.
pub fn task_eq(a: &Task, b: &Task) -> (r: bool)
    ensures r == (a@ == b@),
{
    match (a, b) {
        (Task::IntegrityScan(x), Task::IntegrityScan(y)) => {
            x.view_version == y.view_version && x.database == y.database
                && x.collection == y.collection && x.view_name == y.view_name
        },
        (Task::ExpirationLoad(x), Task::ExpirationLoad(y)) => *x == *y,
        (
            Task::Compaction { database: da, collection: ca },
            Task::Compaction { database: db, collection: cb },
        ) => *da == *db && *ca == *cb,
        _ => false,
    }
}

/// Whether a job under key `k` is registered.
pub open spec fn has_job(s: Seq<(TaskV, u64)>, k: TaskV) -> bool {
    exists|i: int| 0 <= i < s.len() && s[i].0 == k
}

/// The id of the registered job under `k`.
pub closed spec fn job_id_of(s: Seq<(TaskV, u64)>, k: TaskV) -> u64 {
    let i = choose|i: int| 0 <= i < s.len() && s[i].0 == k;
    s[i].1
}

/// What one `lookup_or_enqueue` leaves registered: nothing new when the key
/// is already there, else the key under a fresh id.
pub open spec fn enqueued(s: Seq<(TaskV, u64)>, k: TaskV, fresh_id: u64) -> Seq<(TaskV, u64)> {
    if has_job(s, k) {
        s
    } else {
        s.push((k, fresh_id))
    }
}

/// The job-dedup law: enqueueing a key that is already registered changes
/// nothing, so any number of concurrent callers with one key share a single
/// execution.
pub proof fn lemma_enqueue_idempotent(s: Seq<(TaskV, u64)>, k: TaskV, id1: u64, id2: u64)
    ensures enqueued(enqueued(s, k, id1), k, id2) == enqueued(s, k, id1),
{
    let s1 = enqueued(s, k, id1);
    if has_job(s, k) {
        assert(has_job(s1, k));
    } else {
        assert(s1[s.len() as int].0 == k);
        assert(has_job(s1, k));
    }
}

/// The deduplicating job registry: each key runs at most one job at a time;
/// callers that look up an already-registered key receive its id.
#[derive(Debug)]
pub struct JobRegistry {
    jobs: Vec<(Task, u64)>,
    next_id: u64,
}

impl JobRegistry {
    /// The registered jobs, as key/id pairs.
    pub closed spec fn jobs_view(&self) -> Seq<(TaskV, u64)> {
        Seq::new(self.jobs@.len(), |i: int| (self.jobs@[i].0@, self.jobs@[i].1))
    }

    /// The next id a fresh job receives.
    pub closed spec fn spec_next_id(&self) -> u64 {
        self.next_id
    }

    /// Well-formed: keys distinct, ids below the id counter.
    pub closed spec fn wf(&self) -> bool {
        &&& forall|i: int, j: int| 0 <= i < j < self.jobs_view().len()
            ==> self.jobs_view()[i].0 != self.jobs_view()[j].0
        &&& forall|i: int| 0 <= i < self.jobs_view().len()
            ==> self.jobs_view()[i].1 < self.next_id
    }

    /// An empty registry.
    pub fn new() -> (r: JobRegistry)
        ensures
            r.wf(),
            r.jobs_view() == Seq::<(TaskV, u64)>::empty(),
            r.spec_next_id() == 0,
    {
        let r = JobRegistry { jobs: Vec::new(), next_id: 0 };
        proof { assert(r.jobs_view() =~= Seq::<(TaskV, u64)>::empty()); }
        r
    }

    /// Returns the job registered under `key`'s deduplication key, enqueueing
    /// a fresh one only when none is: concurrent callers with one key share
    /// one execution. Returns the job id and whether this call created it.
    pub fn lookup_or_enqueue(&mut self, key: Task) -> (r: (u64, bool))
        requires
            old(self).wf(),
            old(self).spec_next_id() < u64::MAX,
        ensures
            final(self).wf(),
            r.1 <==> !has_job(old(self).jobs_view(), key@),
            final(self).jobs_view() == enqueued(old(self).jobs_view(), key@, old(
                self,
            ).spec_next_id()),
            has_job(final(self).jobs_view(), key@),
            job_id_of(final(self).jobs_view(), key@) == r.0,
            !r.1 ==> final(self).spec_next_id() == old(self).spec_next_id(),
            r.1 ==> r.0 == old(self).spec_next_id() && final(self).spec_next_id() == old(
                self,
            ).spec_next_id() + 1,
    {
        let ghost before = self.jobs_view();
        let mut i: usize = 0;
        while i < self.jobs.len()
            invariant
                0 <= i <= self.jobs@.len(),
                self.jobs_view() == before,
                before.len() == self.jobs@.len(),
                forall|j: int| 0 <= j < self.jobs@.len() ==> before[j]
                    == (self.jobs@[j].0@, self.jobs@[j].1),
                forall|j: int| 0 <= j < i ==> before[j].0 != key@,
                forall|a: int, b: int| 0 <= a < b < before.len() ==> before[a].0 != before[b].0,
                forall|j: int| 0 <= j < before.len() ==> before[j].1 < self.next_id,
            decreases self.jobs@.len() - i,
        {
            if task_eq(&self.jobs[i].0, &key) {
                proof {
                    lemma_job_id_at(before, key@, i as int);
                }
                return (self.jobs[i].1, false);
            }
            i = i + 1;
        }
        let id = self.next_id;
        self.next_id = self.next_id + 1;
        self.jobs.push((key, id));
        proof {
            let after = self.jobs_view();
            assert(after =~= before.push((key@, id)));
            assert(after[before.len() as int].0 == key@);
            assert forall|a: int, b: int| 0 <= a < b < after.len() implies
                after[a].0 != after[b].0 by {
                if b < before.len() {
                    assert(after[a] == before[a] && after[b] == before[b]);
                } else {
                    assert(after[a] == before[a]);
                }
            }
            lemma_job_id_at(after, key@, before.len() as int);
        }
        (id, true)
    }
}

/// Under distinct keys, the id registered for `k` is the one at its slot.
proof fn lemma_job_id_at(s: Seq<(TaskV, u64)>, k: TaskV, i: int)
    requires
        forall|a: int, b: int| 0 <= a < b < s.len() ==> s[a].0 != s[b].0,
        0 <= i < s.len(),
        s[i].0 == k,
    ensures
        has_job(s, k),
        job_id_of(s, k) == s[i].1,
{
    let w = choose|w: int| 0 <= w < s.len() && s[w].0 == k;
    if w != i {
        if w < i {
            assert(s[w].0 != s[i].0);
        } else {
            assert(s[i].0 != s[w].0);
        }
    }
}

/// Whether `v` holds `x`.
fn vec_contains_u64(v: &Vec<u64>, x: u64) -> (r: bool)
    ensures r == v@.contains(x),
{
    let mut i: usize = 0;
    while i < v.len()
        invariant
            0 <= i <= v@.len(),
            forall|j: int| 0 <= j < i ==> v@[j] != x,
        decreases v@.len() - i,
    {
        if v[i] == x {
            return true;
        }
        i = i + 1;
    }
    false
}

/// The documents an integrity scan queues for remapping: those the keep
/// predicate admits, in document order, duplicates as in the input.
pub open spec fn missing_documents(
    document_ids: Seq<u64>,
    stored: Seq<u64>,
    version_current: bool,
) -> Seq<u64> {
    document_ids.filter(|x: u64| !version_current || !stored.contains(x))
}

/// The integrity scanner's core: which documents must be (re)mapped. When the
/// persisted view version matches the view's code version, the documents
/// missing from the document map; otherwise every document.
pub fn integrity_scan_missing(
    document_ids: &Vec<u64>,
    stored_document_ids: &Vec<u64>,
    persisted_version: Option<u64>,
    view_version: u64,
) -> (missing: Vec<u64>)
    ensures
        missing@ == missing_documents(
            document_ids@,
            stored_document_ids@,
            persisted_version == Some(view_version),
        ),
        ({
            let version_current = persisted_version == Some(view_version);
            forall|x: u64| missing@.contains(x) <==> (document_ids@.contains(x)
                && (!version_current || !stored_document_ids@.contains(x)))
        }),
{
    let version_current = match persisted_version {
        Some(v) => v == view_version,
        None => false,
    };
    let mut missing: Vec<u64> = Vec::new();
    let mut i: usize = 0;
    while i < document_ids.len()
        invariant
            0 <= i <= document_ids@.len(),
            version_current == (persisted_version == Some(view_version)),
            missing@ == missing_documents(
                document_ids@.take(i as int),
                stored_document_ids@,
                version_current,
            ),
            forall|x: u64| missing@.contains(x) <==> (document_ids@.take(i as int).contains(x)
                && (!version_current || !stored_document_ids@.contains(x))),
        decreases document_ids@.len() - i,
    {
        let ghost missing_before = missing@;
        let x = document_ids[i];
        if !version_current || !vec_contains_u64(stored_document_ids, x) {
            missing.push(x);
        }
        proof {
            assert(document_ids@.take(i + 1 as int).drop_last() =~= document_ids@.take(i as int));
            assert(document_ids@.take(i + 1 as int).last() == document_ids@[i as int]);
            reveal_with_fuel(Seq::filter, 2);
            assert(missing@ == missing_documents(
                document_ids@.take(i + 1 as int),
                stored_document_ids@,
                version_current,
            ));
            assert forall|y: u64| missing@.contains(y) <==> (document_ids@.take(
                i + 1 as int,
            ).contains(y) && (!version_current || !stored_document_ids@.contains(y))) by {
                assert(document_ids@.take(i + 1 as int).drop_last() =~= document_ids@.take(
                    i as int,
                ));
                if missing@.contains(y) {
                    let w = choose|w: int| 0 <= w < missing@.len() && missing@[w] == y;
                    if w < missing_before.len() {
                        assert(missing_before.contains(y));
                        let v = choose|v: int| 0 <= v < i && document_ids@.take(i as int)[v] == y;
                        assert(document_ids@.take(i + 1 as int)[v] == y);
                    } else {
                        assert(y == x);
                        assert(document_ids@.take(i + 1 as int)[i as int] == y);
                    }
                }
                if document_ids@.take(i + 1 as int).contains(y) && (!version_current
                    || !stored_document_ids@.contains(y)) {
                    let v = choose|v: int| 0 <= v < i + 1 && #[trigger] document_ids@.take(
                        i + 1 as int,
                    )[v] == y;
                    if v < i {
                        assert(document_ids@.take(i as int)[v] == y);
                        assert(missing_before.contains(y));
                        let w = choose|w: int| 0 <= w < missing_before.len()
                            && missing_before[w] == y;
                        assert(missing@[w] == y);
                    } else {
                        assert(y == x);
                        assert(missing@[missing@.len() - 1] == y);
                    }
                }
            }
        }
        i = i + 1;
    }
    proof {
        assert(document_ids@.take(document_ids@.len() as int) =~= document_ids@);
    }
    missing
}

/// What an integrity-scan pass must do next.
#[derive(Clone, Copy, PartialEq, Eq, Structural, Debug)]
pub enum ScanAction {
    /// Documents are missing: in one transaction, write the new view version
    /// and invalidate them, then run the mapper and await it.
    WriteInvalidationsAndMap,
    /// Record the completed check; nothing else remains.
    MarkComplete,
}

/// Tracks one integrity-scan pass: first the missing documents are computed;
/// a non-empty set goes through the invalidation write and a mapper run; an
/// empty set writes nothing and runs no mapper; and only then is the check
/// recorded as complete.
#[derive(Debug)]
pub struct IntegrityScanPass {
    had_missing: Option<bool>,
    mapper_done: bool,
    marked: bool,
}

impl IntegrityScanPass {
    /// Whether documents were missing, once computed.
    pub closed spec fn spec_had_missing(&self) -> Option<bool> {
        self.had_missing
    }

    /// Whether the mapper has reported back.
    pub closed spec fn spec_mapper_done(&self) -> bool {
        self.mapper_done
    }

    /// Whether the completed check has been recorded.
    pub closed spec fn spec_marked(&self) -> bool {
        self.marked
    }

    /// Well-formed: the mapper runs only for a non-empty missing set, and a
    /// recorded check had its missing set computed and, when non-empty,
    /// mapped.
    pub closed spec fn wf(&self) -> bool {
        &&& self.mapper_done ==> self.had_missing == Some(true)
        &&& self.marked ==> self.had_missing is Some
        &&& self.marked && self.had_missing == Some(true) ==> self.mapper_done
    }

    /// A fresh pass: nothing computed, mapped or recorded yet.
    pub fn new() -> (r: IntegrityScanPass)
        ensures
            r.wf(),
            r.spec_had_missing() is None,
            !r.spec_mapper_done(),
            !r.spec_marked(),
    {
        IntegrityScanPass { had_missing: None, mapper_done: false, marked: false }
    }

    /// Integrates the computed missing set: an empty one goes straight to the
    /// mark, so nothing is written and no mapper is enqueued; a non-empty one
    /// demands the invalidation write and a mapper run first.
    pub fn on_missing_computed(&mut self, missing_count: usize) -> (a: ScanAction)
        requires
            old(self).wf(),
            old(self).spec_had_missing() is None,
        ensures
            final(self).wf(),
            final(self).spec_had_missing() == Some(missing_count > 0),
            !final(self).spec_mapper_done(),
            !final(self).spec_marked(),
            a == (if missing_count == 0 {
                ScanAction::MarkComplete
            } else {
                ScanAction::WriteInvalidationsAndMap
            }),
    {
        self.had_missing = Some(missing_count > 0);
        if missing_count == 0 {
            ScanAction::MarkComplete
        } else {
            ScanAction::WriteInvalidationsAndMap
        }
    }

    /// Integrates the mapper's completion; only a pass with missing documents
    /// awaits one. All that remains is the mark.
    pub fn on_mapper_completed(&mut self) -> (a: ScanAction)
        requires
            old(self).wf(),
            old(self).spec_had_missing() == Some(true),
            !old(self).spec_marked(),
        ensures
            final(self).wf(),
            final(self).spec_had_missing() == old(self).spec_had_missing(),
            final(self).spec_mapper_done(),
            !final(self).spec_marked(),
            a == ScanAction::MarkComplete,
    {
        self.mapper_done = true;
        ScanAction::MarkComplete
    }

    /// Records the completed check, finishing the pass: the missing set was
    /// computed and, when non-empty, mapped. This is the only way a pass
    /// finishes, so a finished scan has always been recorded.
    pub fn mark_complete(&mut self, tasks: &mut TaskManager, key: ViewKey)
        requires
            old(self).wf(),
            old(self).spec_had_missing() is Some,
            old(self).spec_had_missing() == Some(true) ==> old(self).spec_mapper_done(),
            !old(self).spec_marked(),
            old(tasks).wf(),
        ensures
            final(self).wf(),
            final(self).spec_marked(),
            final(self).spec_had_missing() == old(self).spec_had_missing(),
            final(self).spec_mapper_done() == old(self).spec_mapper_done(),
            final(tasks).wf(),
            final(tasks).spec_jobs() == old(tasks).spec_jobs(),
            final(tasks).spec_next_job_id() == old(tasks).spec_next_job_id(),
            forall|k: (Seq<char>, Seq<char>, Seq<char>)|
                final(tasks).spec_statuses().integrity_checked(k) <==> (old(
                    tasks,
                ).spec_statuses().integrity_checked(k) || k == key@),
            forall|k: (Seq<char>, Seq<char>, Seq<char>)|
                final(tasks).spec_statuses().last_status(k) == old(tasks).spec_statuses()
                    .last_status(k),
    {
        tasks.mark_integrity_check_complete(key);
        self.marked = true;
    }
}

/// The empty-scan law: a finished pass whose missing set was empty never ran
/// the mapper — and, by `on_missing_computed`'s contract, was never told to
/// write the invalidation transaction.
pub proof fn lemma_empty_scan_writes_nothing(p: &IntegrityScanPass)
    requires
        p.wf(),
        p.spec_marked(),
        p.spec_had_missing() == Some(false),
    ensures !p.spec_mapper_done(),
{
}

/// Tracks one `update_view_if_needed` pass: mapper jobs run until one reports
/// having indexed at least the transaction watermark observed at entry.
#[derive(Debug)]
pub struct ViewUpdateDriver {
    watermark: u64,
    last_mapped: Option<u64>,
    finished: bool,
}

impl ViewUpdateDriver {
    /// The transaction id the pass must reach before a query is served.
    pub closed spec fn spec_watermark(&self) -> u64 {
        self.watermark
    }

    /// The last transaction id a mapper reported.
    pub closed spec fn spec_last_mapped(&self) -> Option<u64> {
        self.last_mapped
    }

    /// Whether the pass is complete.
    pub closed spec fn spec_finished(&self) -> bool {
        self.finished
    }

    /// Well-formed: a finished pass has a mapper report at or past the
    /// watermark.
    pub closed spec fn wf(&self) -> bool {
        self.finished ==> match self.last_mapped {
            Some(m) => m >= self.watermark,
            None => false,
        }
    }

    /// A fresh pass that must reach `watermark`.
    pub fn new(watermark: u64) -> (r: ViewUpdateDriver)
        ensures
            r.wf(),
            !r.spec_finished(),
            r.spec_watermark() == watermark,
    {
        ViewUpdateDriver { watermark, last_mapped: None, finished: false }
    }

    /// Integrates one mapper completion: the pass finishes exactly when the
    /// mapper has indexed every transaction up to the watermark.
    pub fn on_mapper_completion(&mut self, mapped_up_to: u64) -> (done: bool)
        requires old(self).wf(),
        ensures
            final(self).wf(),
            final(self).spec_watermark() == old(self).spec_watermark(),
            final(self).spec_last_mapped() == Some(mapped_up_to),
            done <==> mapped_up_to >= old(self).spec_watermark(),
            final(self).spec_finished() == done,
    {
        self.last_mapped = Some(mapped_up_to);
        self.finished = mapped_up_to >= self.watermark;
        self.finished
    }
}

/// The view-freshness law: when an `update_view_if_needed` pass has finished,
/// the view's index reflects every transaction up to the watermark observed
/// when the pass began, so a query served now sees every document committed
/// before the call.
pub proof fn lemma_view_freshness(d: &ViewUpdateDriver)
    requires
        d.wf(),
        d.spec_finished(),
    ensures
        d.spec_last_mapped() is Some,
        d.spec_last_mapped()->0 >= d.spec_watermark(),
{
}

/// The task manager of one storage instance: the deduplicating job registry
/// and the status tables the jobs report into.
#[derive(Debug)]
pub struct TaskManager {
    jobs: JobRegistry,
    statuses: Statuses,
}

impl TaskManager {
    /// The registered jobs.
    pub closed spec fn spec_jobs(&self) -> Seq<(TaskV, u64)> {
        self.jobs.jobs_view()
    }

    /// The status tables.
    pub closed spec fn spec_statuses(&self) -> Statuses {
        self.statuses
    }

    /// Well-formed: registry keys and status slots are unique.
    pub closed spec fn wf(&self) -> bool {
        self.jobs.wf() && self.statuses.wf()
    }

    /// The id space left for fresh jobs.
    pub closed spec fn spec_next_job_id(&self) -> u64 {
        self.jobs.spec_next_id()
    }

    /// A manager with no jobs and empty status tables.
    pub fn new() -> (r: TaskManager)
        ensures
            r.wf(),
            r.spec_jobs() == Seq::<(TaskV, u64)>::empty(),
            r.spec_next_job_id() == 0,
            forall|k: (Seq<char>, Seq<char>, Seq<char>)| !r.spec_statuses().integrity_checked(k),
            forall|k: (Seq<char>, Seq<char>, Seq<char>)| r.spec_statuses().last_status(k) is None,
    {
        TaskManager { jobs: JobRegistry::new(), statuses: Statuses::new() }
    }

    /// Whether the view has completed an integrity check.
    pub fn view_integrity_checked(&self, key: &ViewKey) -> (r: bool)
        ensures r == self.spec_statuses().integrity_checked(key@),
    {
        self.statuses.view_integrity_checked(key)
    }

    /// Records a completed integrity check.
    pub fn mark_integrity_check_complete(&mut self, key: ViewKey)
        requires old(self).wf(),
        ensures
            final(self).wf(),
            final(self).spec_jobs() == old(self).spec_jobs(),
            final(self).spec_next_job_id() == old(self).spec_next_job_id(),
            forall|k: (Seq<char>, Seq<char>, Seq<char>)|
                final(self).spec_statuses().integrity_checked(k) <==> (old(
                    self,
                ).spec_statuses().integrity_checked(k) || k == key@),
            forall|k: (Seq<char>, Seq<char>, Seq<char>)|
                final(self).spec_statuses().last_status(k) == old(self).spec_statuses()
                    .last_status(k),
    {
        self.statuses.mark_integrity_check_complete(key);
    }

    /// Records the last transaction id a view has indexed.
    pub fn mark_view_updated(&mut self, key: ViewKey, transaction_id: u64)
        requires old(self).wf(),
        ensures
            final(self).wf(),
            final(self).spec_jobs() == old(self).spec_jobs(),
            final(self).spec_next_job_id() == old(self).spec_next_job_id(),
            final(self).spec_statuses().last_status(key@) == Some(transaction_id),
            forall|k: (Seq<char>, Seq<char>, Seq<char>)| k != key@
                ==> final(self).spec_statuses().last_status(k) == old(self).spec_statuses()
                    .last_status(k),
            forall|k: (Seq<char>, Seq<char>, Seq<char>)|
                final(self).spec_statuses().integrity_checked(k) == old(self).spec_statuses()
                    .integrity_checked(k),
    {
        self.statuses.mark_view_updated(key, transaction_id);
    }

    /// Enqueues an integrity scan unless the view has already passed one.
    /// Callers with one key coalesce onto a single job; `None` means nothing
    /// needs waiting on.
    pub fn spawn_integrity_check(&mut self, scan: IntegrityScan) -> (r: Option<(u64, bool)>)
        requires
            old(self).wf(),
            old(self).spec_next_job_id() < u64::MAX,
        ensures
            final(self).wf(),
            final(self).spec_statuses() == old(self).spec_statuses(),
            ({
                let key = scan_view_key(scan@);
                if old(self).spec_statuses().integrity_checked(key) {
                    r is None && final(self).spec_jobs() == old(self).spec_jobs()
                        && final(self).spec_next_job_id() == old(self).spec_next_job_id()
                } else {
                    &&& r is Some
                    &&& final(self).spec_jobs() == enqueued(
                        old(self).spec_jobs(),
                        TaskV::IntegrityScan(scan@),
                        old(self).spec_next_job_id(),
                    )
                    &&& (r->0).1 <==> !has_job(old(self).spec_jobs(), TaskV::IntegrityScan(scan@))
                    &&& job_id_of(final(self).spec_jobs(), TaskV::IntegrityScan(scan@)) == (r->0).0
                    &&& final(self).spec_next_job_id() == (if (r->0).1 {
                        old(self).spec_next_job_id() + 1
                    } else {
                        old(self).spec_next_job_id() as int
                    })
                }
            }),
    {
        let key = ViewKey {
            database: scan.database.clone(),
            collection: scan.collection.clone(),
            view_name: scan.view_name.clone(),
        };
        if self.statuses.view_integrity_checked(&key) {
            None
        } else {
            Some(self.jobs.lookup_or_enqueue(Task::IntegrityScan(scan)))
        }
    }

    /// Plans one `update_view_if_needed` pass: enqueues the (deduplicated)
    /// integrity scan when the view has not passed one, and hands back a
    /// reindex driver exactly when the database holds transactions the view
    /// has not indexed. A database without transactions is up to date.
    pub fn update_view_if_needed(
        &mut self,
        scan: IntegrityScan,
        current_transaction_id: Option<u64>,
    ) -> (r: (Option<(u64, bool)>, Option<ViewUpdateDriver>))
        requires
            old(self).wf(),
            old(self).spec_next_job_id() < u64::MAX,
        ensures
            final(self).wf(),
            final(self).spec_statuses() == old(self).spec_statuses(),
            ({
                let key = scan_view_key(scan@);
                if old(self).spec_statuses().integrity_checked(key) {
                    r.0 is None && final(self).spec_jobs() == old(self).spec_jobs()
                        && final(self).spec_next_job_id() == old(self).spec_next_job_id()
                } else {
                    &&& r.0 is Some
                    &&& final(self).spec_jobs() == enqueued(
                        old(self).spec_jobs(),
                        TaskV::IntegrityScan(scan@),
                        old(self).spec_next_job_id(),
                    )
                    &&& final(self).spec_next_job_id() <= old(self).spec_next_job_id() + 1
                }
            }),
            ({
                let key = scan_view_key(scan@);
                let needs = match current_transaction_id {
                    Some(txid) => match old(self).spec_statuses().last_status(key) {
                        Some(last) => last < txid,
                        None => true,
                    },
                    None => false,
                };
                if needs {
                    r.1 is Some && !(r.1->0).spec_finished() && (r.1->0).wf()
                        && (r.1->0).spec_watermark() == current_transaction_id->0
                } else {
                    r.1 is None
                }
            }),
    {
        let key = ViewKey {
            database: scan.database.clone(),
            collection: scan.collection.clone(),
            view_name: scan.view_name.clone(),
        };
        let job = self.spawn_integrity_check(scan);
        let driver = match current_transaction_id {
            Some(txid) => {
                if self.statuses.needs_reindex(&key, txid) {
                    Some(ViewUpdateDriver::new(txid))
                } else {
                    None
                }
            },
            None => None,
        };
        (job, driver)
    }
}

/// Where a table records `k`, under distinct keys, its status is that slot's.
proof fn lemma_status_of_at(s: Seq<(ViewKey, u64)>, k: (Seq<char>, Seq<char>, Seq<char>), i: int)
    requires
        forall|a: int, b: int| 0 <= a < b < s.len() ==> s[a].0@ != s[b].0@,
        0 <= i < s.len(),
        s[i].0@ == k,
    ensures status_of(s, k) == Some(s[i].1),
{
    let w = choose|w: int| 0 <= w < s.len() && s[w].0@ == k;
    if w != i {
        if w < i {
            assert(s[w].0@ != s[i].0@);
        } else {
            assert(s[i].0@ != s[w].0@);
        }
    }
}

/// A key no slot records has no status.
proof fn lemma_status_of_absent(s: Seq<(ViewKey, u64)>, k: (Seq<char>, Seq<char>, Seq<char>))
    requires forall|j: int| 0 <= j < s.len() ==> s[j].0@ != k,
    ensures status_of(s, k) is None,
{
}

/// A change confined to the slot of one key leaves every other key's status
/// as it was.
proof fn lemma_status_unchanged_elsewhere(
    before: Seq<(ViewKey, u64)>,
    after: Seq<(ViewKey, u64)>,
    i: int,
    k2: (Seq<char>, Seq<char>, Seq<char>),
)
    requires
        forall|a: int, b: int| 0 <= a < b < before.len() ==> before[a].0@ != before[b].0@,
        forall|a: int, b: int| 0 <= a < b < after.len() ==> after[a].0@ != after[b].0@,
        0 <= i < after.len(),
        before.len() <= after.len() <= before.len() + 1,
        after.len() == before.len() + 1 ==> i == before.len(),
        forall|j: int| 0 <= j < after.len() && j != i ==> after[j] == before[j],
        after[i].0@ != k2,
        i < before.len() ==> before[i].0@ != k2,
    ensures status_of(after, k2) == status_of(before, k2),
{
    if exists|j: int| 0 <= j < before.len() && before[j].0@ == k2 {
        let j = choose|j: int| 0 <= j < before.len() && before[j].0@ == k2;
        assert(j != i);
        assert(after[j] == before[j]);
        lemma_status_of_at(before, k2, j);
        lemma_status_of_at(after, k2, j);
    } else {
        assert forall|j: int| 0 <= j < after.len() implies after[j].0@ != k2 by {
            if j != i && j < before.len() {
                assert(after[j] == before[j]);
            }
        }
        lemma_status_of_absent(before, k2);
        lemma_status_of_absent(after, k2);
    }
}

} // verus!
