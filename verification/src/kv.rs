//! The key/value side store: typed entries under namespaced keys, the set
//! algorithm with its presence checks, and the numeric increment/decrement
//! operations, all modelled as one atomic transformation of a key-to-entry
//! map per operation.
use vstd::prelude::*;
use vstd::string::StringExecFns;

use crate::error::Error;

verus! {

/// A point in time, in microseconds since an arbitrary epoch. Entries whose
/// expiration lies at or before "now" are eligible for deletion.
#[derive(Clone, Copy, PartialEq, Eq, Structural, Debug)]
pub struct Timestamp {
    pub micros: u64,
}

/// A numeric key/value payload. Arithmetic widens to the representation of
/// the operand's variant.
#[derive(Clone, Copy, PartialEq, Eq, Structural, Debug)]
pub enum Numeric {
    /// A signed 64-bit integer.
    Integer(i64),
    /// An unsigned 64-bit integer.
    UnsignedInteger(u64),
}

/// What `Numeric::as_i64_lossy` returns: unsigned values above `i64::MAX`
/// clamp when saturating, else reinterpret modulo 2^64.
pub open spec fn spec_as_i64_lossy(n: Numeric, saturating: bool) -> i64 {
    match n {
        Numeric::Integer(i) => i,
        Numeric::UnsignedInteger(u) => if u <= i64::MAX as u64 {
            u as i64
        } else if saturating {
            i64::MAX
        } else {
            (u - 0x1_0000_0000_0000_0000) as i64
        },
    }
}

/// What `Numeric::as_u64_lossy` returns: negative values clamp to zero when
/// saturating, else reinterpret modulo 2^64.
pub open spec fn spec_as_u64_lossy(n: Numeric, saturating: bool) -> u64 {
    match n {
        Numeric::UnsignedInteger(u) => u,
        Numeric::Integer(i) => if i >= 0 {
            i as u64
        } else if saturating {
            0
        } else {
            (i + 0x1_0000_0000_0000_0000) as u64
        },
    }
}

impl Numeric {
    /// Converts to `i64`, losing information for out-of-range values: clamps
    /// when `saturating`, wraps otherwise.
    pub fn as_i64_lossy(self, saturating: bool) -> (r: i64)
        ensures r == spec_as_i64_lossy(self, saturating),
    {
        match self {
            Numeric::Integer(i) => i,
            Numeric::UnsignedInteger(u) => {
                if u <= i64::MAX as u64 {
                    #[verifier::truncate] (u as i64)
                } else if saturating {
                    i64::MAX
                } else {
                    let r = #[verifier::truncate] (u as i64);
                    assert(r == (u - 0x1_0000_0000_0000_0000) as i64) by (bit_vector)
                        requires u > i64::MAX as u64 && r == u as i64;
                    r
                }
            },
        }
    }

    /// Converts to `u64`, losing information for negative values: clamps when
    /// `saturating`, wraps otherwise.
    pub fn as_u64_lossy(self, saturating: bool) -> (r: u64)
        ensures r == spec_as_u64_lossy(self, saturating),
    {
        match self {
            Numeric::UnsignedInteger(u) => u,
            Numeric::Integer(i) => {
                if i >= 0 {
                    #[verifier::truncate] (i as u64)
                } else if saturating {
                    0
                } else {
                    let r = #[verifier::truncate] (i as u64);
                    assert(r == (i + 0x1_0000_0000_0000_0000) as u64) by (bit_vector)
                        requires i < 0 && r == i as u64;
                    r
                }
            },
        }
    }
}

/// Signed addition clamped to the `i64` range.
pub open spec fn sat_add_i64(a: i64, b: i64) -> i64 {
    if a + b > i64::MAX {
        i64::MAX
    } else if a + b < i64::MIN {
        i64::MIN
    } else {
        (a + b) as i64
    }
}

/// Signed subtraction clamped to the `i64` range.
pub open spec fn sat_sub_i64(a: i64, b: i64) -> i64 {
    if a - b > i64::MAX {
        i64::MAX
    } else if a - b < i64::MIN {
        i64::MIN
    } else {
        (a - b) as i64
    }
}

/// Adds two signed values, clamping at the `i64` bounds.
pub fn i64_saturating_add(a: i64, b: i64) -> (r: i64)
    ensures r == sat_add_i64(a, b),
{
    let wide: i128 = a as i128 + b as i128;
    if wide > i64::MAX as i128 {
        i64::MAX
    } else if wide < i64::MIN as i128 {
        i64::MIN
    } else {
        wide as i64
    }
}

/// Subtracts two signed values, clamping at the `i64` bounds.
pub fn i64_saturating_sub(a: i64, b: i64) -> (r: i64)
    ensures r == sat_sub_i64(a, b),
{
    let wide: i128 = a as i128 - b as i128;
    if wide > i64::MAX as i128 {
        i64::MAX
    } else if wide < i64::MIN as i128 {
        i64::MIN
    } else {
        wide as i64
    }
}

/// The value `increment` stores: the existing value widened to the variant of
/// `amount`, then a saturating or wrapping addition.
pub open spec fn spec_increment(existing: Numeric, amount: Numeric, saturating: bool) -> Numeric {
    match amount {
        Numeric::Integer(a) => {
            let e = spec_as_i64_lossy(existing, saturating);
            Numeric::Integer(
                if saturating {
                    sat_add_i64(e, a)
                } else {
                    vstd::wrapping::i64_specs::wrapping_add(e, a)
                },
            )
        },
        Numeric::UnsignedInteger(a) => {
            let e = spec_as_u64_lossy(existing, saturating);
            Numeric::UnsignedInteger(
                if saturating {
                    e.saturating_add(a)
                } else {
                    vstd::wrapping::u64_specs::wrapping_add(e, a)
                },
            )
        },
    }
}

/// The value `decrement` stores, mirroring `spec_increment` with subtraction.
pub open spec fn spec_decrement(existing: Numeric, amount: Numeric, saturating: bool) -> Numeric {
    match amount {
        Numeric::Integer(a) => {
            let e = spec_as_i64_lossy(existing, saturating);
            Numeric::Integer(
                if saturating {
                    sat_sub_i64(e, a)
                } else {
                    vstd::wrapping::i64_specs::wrapping_sub(e, a)
                },
            )
        },
        Numeric::UnsignedInteger(a) => {
            let e = spec_as_u64_lossy(existing, saturating);
            Numeric::UnsignedInteger(
                if saturating {
                    e.saturating_sub(a)
                } else {
                    vstd::wrapping::u64_specs::wrapping_sub(e, a)
                },
            )
        },
    }
}

/// Adds `amount` to `existing`, widened to `amount`'s variant; saturating or
/// wrapping per the flag.
pub fn increment(existing: &Numeric, amount: &Numeric, saturating: bool) -> (r: Numeric)
    ensures r == spec_increment(*existing, *amount, saturating),
{
    match amount {
        Numeric::Integer(a) => {
            let e = existing.as_i64_lossy(saturating);
            Numeric::Integer(if saturating { i64_saturating_add(e, *a) } else { e.wrapping_add(*a) })
        },
        Numeric::UnsignedInteger(a) => {
            let e = existing.as_u64_lossy(saturating);
            Numeric::UnsignedInteger(
                if saturating { e.saturating_add(*a) } else { e.wrapping_add(*a) },
            )
        },
    }
}

/// Subtracts `amount` from `existing`, widened to `amount`'s variant;
/// saturating or wrapping per the flag.
pub fn decrement(existing: &Numeric, amount: &Numeric, saturating: bool) -> (r: Numeric)
    ensures r == spec_decrement(*existing, *amount, saturating),
{
    match amount {
        Numeric::Integer(a) => {
            let e = existing.as_i64_lossy(saturating);
            Numeric::Integer(if saturating { i64_saturating_sub(e, *a) } else { e.wrapping_sub(*a) })
        },
        Numeric::UnsignedInteger(a) => {
            let e = existing.as_u64_lossy(saturating);
            Numeric::UnsignedInteger(
                if saturating { e.saturating_sub(*a) } else { e.wrapping_sub(*a) },
            )
        },
    }
}

/// A stored key/value payload: a number or raw bytes.
#[derive(Debug)]
pub enum Value {
    /// A numeric payload, usable with `increment`/`decrement`.
    Numeric(Numeric),
    /// An opaque byte payload.
    Bytes(Vec<u8>),
}

/// The mathematical model of a `Value`.
pub enum ValueV {
    Numeric(Numeric),
    Bytes(Seq<u8>),
}

impl View for Value {
    type V = ValueV;

    open spec fn view(&self) -> ValueV {
        match self {
            Value::Numeric(n) => ValueV::Numeric(*n),
            Value::Bytes(b) => ValueV::Bytes(b@),
        }
    }
}

impl Value {
    /// A deep copy of the value.
    pub fn duplicate(&self) -> (r: Value)
        ensures r@ == self@,
    {
        match self {
            Value::Numeric(n) => Value::Numeric(*n),
            Value::Bytes(b) => {
                let mut copy: Vec<u8> = Vec::new();
                let mut i: usize = 0;
                while i < b.len()
                    invariant
                        0 <= i <= b@.len(),
                        copy@ == b@.take(i as int),
                    decreases b@.len() - i,
                {
                    copy.push(b[i]);
                    proof {
                        assert(copy@ =~= b@.take(i + 1 as int));
                    }
                    i = i + 1;
                }
                proof {
                    assert(copy@ =~= b@);
                }
                Value::Bytes(copy)
            },
        }
    }
}

/// One stored entry: a value and an optional expiration.
#[derive(Debug)]
pub struct Entry {
    pub value: Value,
    pub expiration: Option<Timestamp>,
}

/// The mathematical model of an `Entry`.
pub struct EntryV {
    pub value: ValueV,
    pub expiration: Option<Timestamp>,
}

impl View for Entry {
    type V = EntryV;

    open spec fn view(&self) -> EntryV {
        EntryV { value: self.value@, expiration: self.expiration }
    }
}

impl Entry {
    /// A deep copy of the entry.
    pub fn duplicate(&self) -> (r: Entry)
        ensures r@ == self@,
    {
        Entry { value: self.value.duplicate(), expiration: self.expiration }
    }
}

/// The view of an optional namespace.
pub open spec fn namespace_view(ns: Option<String>) -> Option<Seq<char>> {
    match ns {
        Some(s) => Some(s@),
        None => None,
    }
}

/// The full key of an entry: the namespace (possibly absent) joined to the
/// key with a `.` separator.
pub open spec fn spec_full_key(namespace: Option<Seq<char>>, key: Seq<char>) -> Seq<char> {
    match namespace {
        Some(ns) => ns + seq!['.'] + key,
        None => seq!['.'] + key,
    }
}

/// Concatenates a namespace and key into the full tree key.
pub fn full_key(namespace: Option<String>, key: String) -> (r: String)
    ensures
        r@ == spec_full_key(
            match namespace { Some(ns) => Some(ns@), None => None },
            key@,
        ),
{
    proof {
        reveal_strlit(".");
        assert("."@ =~= seq!['.']);
    }
    match namespace {
        Some(mut ns) => {
            ns.append(".");
            ns.append(key.as_str());
            ns
        },
        None => {
            let mut r = String::from_str(".");
            r.append(key.as_str());
            r
        },
    }
}

/// One stored pair of the key/value tree.
#[derive(Debug)]
pub struct KvPair {
    pub key: String,
    pub entry: Entry,
}

/// The map a sequence of pairs stands for; later pairs shadow earlier ones,
/// which never happens under `distinct_keys`.
pub open spec fn map_of(s: Seq<KvPair>) -> Map<Seq<char>, EntryV>
    decreases s.len(),
{
    if s.len() == 0 {
        Map::empty()
    } else {
        map_of(s.drop_last()).insert(s.last().key@, s.last().entry@)
    }
}

/// No two pairs share a key.
pub open spec fn distinct_keys(s: Seq<KvPair>) -> bool {
    forall|i: int, j: int| 0 <= i < j < s.len() ==> s[i].key@ != s[j].key@
}

/// `map_of(s)` holds a key exactly when some pair carries it.
pub proof fn lemma_map_of_contains(s: Seq<KvPair>, k: Seq<char>)
    ensures map_of(s).contains_key(k) <==> exists|i: int| 0 <= i < s.len() && s[i].key@ == k,
    decreases s.len(),
{
    if s.len() > 0 {
        lemma_map_of_contains(s.drop_last(), k);
        if s.last().key@ == k {
            assert(s[s.len() - 1].key@ == k);
        } else if map_of(s).contains_key(k) {
            let i = choose|i: int| 0 <= i < s.drop_last().len() && s.drop_last()[i].key@ == k;
            assert(s[i].key@ == k);
        } else if exists|i: int| 0 <= i < s.len() && s[i].key@ == k {
            let i = choose|i: int| 0 <= i < s.len() && s[i].key@ == k;
            assert(s.drop_last()[i].key@ == k);
        }
    }
}

/// Under distinct keys, the map agrees with the pair that carries the key.
pub proof fn lemma_map_of_index(s: Seq<KvPair>, i: int)
    requires
        distinct_keys(s),
        0 <= i < s.len(),
    ensures
        map_of(s).contains_key(s[i].key@),
        map_of(s)[s[i].key@] == s[i].entry@,
    decreases s.len(),
{
    lemma_map_of_contains(s, s[i].key@);
    if i < s.len() - 1 {
        assert(s[i].key@ != s.last().key@);
        assert(s.drop_last()[i] == s[i]);
        lemma_map_of_index(s.drop_last(), i);
    }
}

/// Replacing the entry of the pair that carries `k` updates the map at `k`.
pub proof fn lemma_map_of_update(s: Seq<KvPair>, i: int, p: KvPair)
    requires
        distinct_keys(s),
        0 <= i < s.len(),
        p.key@ == s[i].key@,
    ensures
        map_of(s.update(i, p)) =~= map_of(s).insert(p.key@, p.entry@),
        distinct_keys(s.update(i, p)),
    decreases s.len(),
{
    let t = s.update(i, p);
    if i == s.len() - 1 {
        assert(t.drop_last() =~= s.drop_last());
    } else {
        assert(t.drop_last() =~= s.drop_last().update(i, p));
        lemma_map_of_update(s.drop_last(), i, p);
        assert(s.last().key@ != p.key@);
        assert(t.last() == s.last());
    }
}

/// Appending a pair with a fresh key extends the map and keeps keys distinct.
pub proof fn lemma_map_of_push(s: Seq<KvPair>, p: KvPair)
    requires
        distinct_keys(s),
        forall|i: int| 0 <= i < s.len() ==> s[i].key@ != p.key@,
    ensures
        map_of(s.push(p)) =~= map_of(s).insert(p.key@, p.entry@),
        distinct_keys(s.push(p)),
{
    assert(s.push(p).drop_last() =~= s);
}

/// Removing the pair that carries `k` removes `k` from the map.
pub proof fn lemma_map_of_remove(s: Seq<KvPair>, i: int)
    requires
        distinct_keys(s),
        0 <= i < s.len(),
    ensures
        map_of(s.remove(i)) =~= map_of(s).remove(s[i].key@),
        distinct_keys(s.remove(i)),
    decreases s.len(),
{
    let t = s.remove(i);
    lemma_map_of_contains(s, s[i].key@);
    if i == s.len() - 1 {
        assert(t =~= s.drop_last());
        lemma_map_of_contains(s.drop_last(), s[i].key@);
        assert(!map_of(s.drop_last()).contains_key(s[i].key@));
        assert(map_of(t) =~= map_of(s).remove(s[i].key@));
    } else {
        assert(t.drop_last() =~= s.drop_last().remove(i));
        lemma_map_of_remove(s.drop_last(), i);
        assert(t.last() == s.last());
        assert(s[i].key@ != s.last().key@);
    }
}

/// The key/value store of one database: a keyed set of entries, each
/// operation one atomic transformation of the stored map.
#[derive(Debug)]
pub struct KeyValueStore {
    entries: Vec<KvPair>,
}

impl View for KeyValueStore {
    type V = Map<Seq<char>, EntryV>;

    closed spec fn view(&self) -> Map<Seq<char>, EntryV> {
        map_of(self.entries@)
    }
}

impl KeyValueStore {
    /// Well-formed: no key occurs twice.
    pub closed spec fn wf(&self) -> bool {
        distinct_keys(self.entries@)
    }

    /// An empty store.
    pub fn new() -> (r: KeyValueStore)
        ensures
            r.wf(),
            r@ == Map::<Seq<char>, EntryV>::empty(),
    {
        KeyValueStore { entries: Vec::new() }
    }

    /// The index of the pair carrying `key`, if the key is stored.
    fn position_of(&self, key: &String) -> (r: Option<usize>)
        requires self.wf(),
        ensures
            match r {
                Some(i) => i < self.entries@.len() && self.entries@[i as int].key@ == key@
                    && self@.contains_key(key@)
                    && self@[key@] == self.entries@[i as int].entry@,
                None => !self@.contains_key(key@),
            },
    {
        let mut i: usize = 0;
        while i < self.entries.len()
            invariant
                self.wf(),
                0 <= i <= self.entries@.len(),
                forall|j: int| 0 <= j < i ==> self.entries@[j].key@ != key@,
            decreases self.entries@.len() - i,
        {
            if self.entries[i].key == *key {
                proof { lemma_map_of_index(self.entries@, i as int); }
                return Some(i);
            }
            i = i + 1;
        }
        proof { lemma_map_of_contains(self.entries@, key@); }
        None
    }

    /// Whether an entry is stored under `full_key`.
    pub fn contains_key(&self, full_key: &String) -> (r: bool)
        requires self.wf(),
        ensures r == self@.contains_key(full_key@),
    {
        self.position_of(full_key).is_some()
    }

    /// The expiration of the entry under `full_key`; `None` when the key is
    /// absent or the entry never expires.
    pub fn get_expiration(&self, full_key: &String) -> (r: Option<Timestamp>)
        requires self.wf(),
        ensures
            self@.contains_key(full_key@) ==> r == self@[full_key@].expiration,
            !self@.contains_key(full_key@) ==> r is None,
    {
        match self.position_of(full_key) {
            Some(i) => self.entries[i].entry.expiration,
            None => None,
        }
    }

    /// Returns the stored value under `full_key`, if any.
    pub fn get(&self, full_key: &String) -> (r: Option<Value>)
        requires self.wf(),
        ensures
            match r {
                Some(v) => self@.contains_key(full_key@) && v@ == self@[full_key@].value,
                None => !self@.contains_key(full_key@),
            },
    {
        match self.position_of(full_key) {
            Some(i) => Some(self.entries[i].entry.value.duplicate()),
            None => None,
        }
    }

    /// Removes and returns the entry under `full_key`, if any.
    pub fn take(&mut self, full_key: &String) -> (r: Option<Entry>)
        requires old(self).wf(),
        ensures
            final(self).wf(),
            match r {
                Some(e) => old(self)@.contains_key(full_key@) && e@ == old(self)@[full_key@]
                    && final(self)@ == old(self)@.remove(full_key@),
                None => !old(self)@.contains_key(full_key@) && final(self)@ == old(self)@,
            },
    {
        match self.position_of(full_key) {
            Some(i) => {
                proof { lemma_map_of_remove(self.entries@, i as int); }
                let pair = self.entries.remove(i);
                Some(pair.entry)
            },
            None => None,
        }
    }

    /// Stores `entry` under `full_key`, inserting or replacing.
    pub fn put(&mut self, full_key: &String, entry: Entry)
        requires old(self).wf(),
        ensures
            final(self).wf(),
            final(self)@ == old(self)@.insert(full_key@, entry@),
    {
        match self.position_of(full_key) {
            Some(i) => {
                let pair = KvPair { key: full_key.clone(), entry };
                proof { lemma_map_of_update(self.entries@, i as int, pair); }
                self.entries.set(i, pair);
            },
            None => {
                let pair = KvPair { key: full_key.clone(), entry };
                proof {
                    lemma_map_of_contains(self.entries@, full_key@);
                    lemma_map_of_push(self.entries@, pair);
                }
                self.entries.push(pair);
            },
        }
    }
}

/// One key/value command, addressed to a namespace and key.
#[derive(Debug)]
pub struct KeyOperation {
    pub namespace: Option<String>,
    pub key: String,
    pub command: Command,
}

/// The command of a `KeyOperation`.
#[derive(Debug)]
pub enum Command {
    /// Store a value, subject to a presence check.
    SetValue {
        value: Value,
        expiration: Option<Timestamp>,
        keep_existing_expiration: bool,
        check: Option<KeyCheck>,
        return_previous_value: bool,
    },
    /// Read the value, optionally deleting it.
    Get { delete: bool },
    /// Delete the entry.
    Delete,
    /// Add to the stored numeric value.
    Increment { amount: Numeric, saturating: bool },
    /// Subtract from the stored numeric value.
    Decrement { amount: Numeric, saturating: bool },
}

/// A condition a `set` imposes on the presence of the key.
#[derive(Clone, Copy, PartialEq, Eq, Structural, Debug)]
pub enum KeyCheck {
    /// Only update an existing entry.
    OnlyIfPresent,
    /// Only insert a missing entry.
    OnlyIfVacant,
}

/// What a key operation did to the stored entry.
#[derive(Clone, Copy, PartialEq, Eq, Structural, Debug)]
pub enum KeyStatus {
    /// The key had no entry and one was stored.
    Inserted,
    /// The key's entry was replaced.
    Updated,
    /// The key's entry was removed.
    Deleted,
    /// Nothing changed.
    NotChanged,
}

/// The result a key operation hands back.
#[derive(Debug)]
pub enum Output {
    Status(KeyStatus),
    Value(Option<Value>),
}

/// The mathematical model of an `Output`.
pub enum OutputV {
    Status(KeyStatus),
    Value(Option<ValueV>),
}

impl View for Output {
    type V = OutputV;

    open spec fn view(&self) -> OutputV {
        match self {
            Output::Status(s) => OutputV::Status(*s),
            Output::Value(v) => OutputV::Value(
                match v {
                    Some(value) => Some(value@),
                    None => None,
                },
            ),
        }
    }
}

/// Whether a `set` with this check proceeds against a key that is present or
/// absent.
pub open spec fn check_passes(check: Option<KeyCheck>, key_present: bool) -> bool {
    match check {
        Some(KeyCheck::OnlyIfPresent) => key_present,
        Some(KeyCheck::OnlyIfVacant) => !key_present,
        None => true,
    }
}

/// The entry a passing `set` stores: the new value, with the prior entry's
/// expiration kept when so asked and the key was present.
pub open spec fn set_stored_entry(
    m: Map<Seq<char>, EntryV>,
    k: Seq<char>,
    value: ValueV,
    expiration: Option<Timestamp>,
    keep_existing_expiration: bool,
) -> EntryV {
    EntryV {
        value,
        expiration: if keep_existing_expiration && m.contains_key(k) {
            m[k].expiration
        } else {
            expiration
        },
    }
}

/// The output a passing `set` returns: the previous value when so asked, else
/// whether the entry was inserted or updated.
pub open spec fn set_output(
    m: Map<Seq<char>, EntryV>,
    k: Seq<char>,
    return_previous_value: bool,
) -> OutputV {
    if return_previous_value {
        OutputV::Value(if m.contains_key(k) { Some(m[k].value) } else { None })
    } else if m.contains_key(k) {
        OutputV::Status(KeyStatus::Updated)
    } else {
        OutputV::Status(KeyStatus::Inserted)
    }
}

/// The numeric value an increment or decrement starts from: a missing entry
/// counts as unsigned zero; a byte entry has none.
pub open spec fn stored_numeric(m: Map<Seq<char>, EntryV>, k: Seq<char>) -> Option<Numeric> {
    if !m.contains_key(k) {
        Some(Numeric::UnsignedInteger(0))
    } else {
        match m[k].value {
            ValueV::Numeric(n) => Some(n),
            ValueV::Bytes(_) => None,
        }
    }
}

/// The expiration an increment or decrement leaves in place: the prior
/// entry's, or none for a fresh entry.
pub open spec fn kept_expiration(m: Map<Seq<char>, EntryV>, k: Seq<char>) -> Option<Timestamp> {
    if m.contains_key(k) {
        m[k].expiration
    } else {
        None
    }
}

impl KeyValueStore {
    /// The `set` operation: checks presence, stores the value (keeping the
    /// prior expiration when asked), and reports what happened. One atomic
    /// transformation of the stored map.
    pub fn set(
        &mut self,
        full_key: &String,
        value: Value,
        expiration: Option<Timestamp>,
        keep_existing_expiration: bool,
        check: Option<KeyCheck>,
        return_previous_value: bool,
    ) -> (r: Output)
        requires old(self).wf(),
        ensures
            final(self).wf(),
            check_passes(check, old(self)@.contains_key(full_key@)) ==> (
                final(self)@ == old(self)@.insert(
                    full_key@,
                    set_stored_entry(
                        old(self)@,
                        full_key@,
                        value@,
                        expiration,
                        keep_existing_expiration,
                    ),
                ) && r@ == set_output(old(self)@, full_key@, return_previous_value)
            ),
            !check_passes(check, old(self)@.contains_key(full_key@)) ==> (
                final(self)@ == old(self)@ && r@ == OutputV::Status(KeyStatus::NotChanged)
            ),
    {
        let position = self.position_of(full_key);
        let existed = position.is_some();
        let passes = match check {
            Some(KeyCheck::OnlyIfPresent) => existed,
            Some(KeyCheck::OnlyIfVacant) => !existed,
            None => true,
        };
        if !passes {
            return Output::Status(KeyStatus::NotChanged);
        }
        let mut entry = Entry { value, expiration };
        let previous_value: Option<Value> = match position {
            Some(i) => {
                if keep_existing_expiration {
                    entry.expiration = self.entries[i].entry.expiration;
                }
                if return_previous_value {
                    Some(self.entries[i].entry.value.duplicate())
                } else {
                    None
                }
            },
            None => None,
        };
        self.put(full_key, entry);
        if return_previous_value {
            Output::Value(previous_value)
        } else if existed {
            Output::Status(KeyStatus::Updated)
        } else {
            Output::Status(KeyStatus::Inserted)
        }
    }

    /// The `delete` operation: removes the entry, reporting `Deleted` exactly
    /// when the key was present.
    pub fn delete(&mut self, full_key: &String) -> (r: Output)
        requires old(self).wf(),
        ensures
            final(self).wf(),
            old(self)@.contains_key(full_key@) ==> (
                final(self)@ == old(self)@.remove(full_key@)
                    && r@ == OutputV::Status(KeyStatus::Deleted)
            ),
            !old(self)@.contains_key(full_key@) ==> (
                final(self)@ == old(self)@ && r@ == OutputV::Status(KeyStatus::NotChanged)
            ),
    {
        match self.take(full_key) {
            Some(_) => Output::Status(KeyStatus::Deleted),
            None => Output::Status(KeyStatus::NotChanged),
        }
    }

    /// The shared core of `increment_key` and `decrement_key`.
    fn apply_numeric(
        &mut self,
        full_key: &String,
        amount: &Numeric,
        saturating: bool,
        add: bool,
    ) -> (r: Result<Value, Error>)
        requires old(self).wf(),
        ensures
            final(self).wf(),
            match stored_numeric(old(self)@, full_key@) {
                Some(existing) => {
                    let stored = if add {
                        spec_increment(existing, *amount, saturating)
                    } else {
                        spec_decrement(existing, *amount, saturating)
                    };
                    r is Ok && r->Ok_0@ == ValueV::Numeric(stored) && final(self)@ == old(
                        self,
                    )@.insert(
                        full_key@,
                        EntryV {
                            value: ValueV::Numeric(stored),
                            expiration: kept_expiration(old(self)@, full_key@),
                        },
                    )
                },
                None => r is Err && r->Err_0 is Database && final(self)@ == old(self)@,
            },
    {
        let position = self.position_of(full_key);
        let (existing, expiration): (Numeric, Option<Timestamp>) = match position {
            Some(i) => {
                match &self.entries[i].entry.value {
                    Value::Numeric(n) => (*n, self.entries[i].entry.expiration),
                    Value::Bytes(_) => {
                        proof { reveal_strlit("type of stored `Value` is not `Numeric`"); }
                        return Err(Error::Database(
                            String::from_str("type of stored `Value` is not `Numeric`"),
                        ));
                    },
                }
            },
            None => (Numeric::UnsignedInteger(0), None),
        };
        let stored = if add {
            increment(&existing, amount, saturating)
        } else {
            decrement(&existing, amount, saturating)
        };
        self.put(full_key, Entry { value: Value::Numeric(stored), expiration });
        Ok(Value::Numeric(stored))
    }

    /// The `increment` operation: widens the stored number to `amount`'s
    /// variant and adds, keeping the entry's expiration; a missing entry
    /// counts as unsigned zero; a byte entry is a typed error.
    pub fn increment_key(
        &mut self,
        full_key: &String,
        amount: &Numeric,
        saturating: bool,
    ) -> (r: Result<Value, Error>)
        requires old(self).wf(),
        ensures
            final(self).wf(),
            match stored_numeric(old(self)@, full_key@) {
                Some(existing) => {
                    let stored = spec_increment(existing, *amount, saturating);
                    r is Ok && r->Ok_0@ == ValueV::Numeric(stored) && final(self)@ == old(
                        self,
                    )@.insert(
                        full_key@,
                        EntryV {
                            value: ValueV::Numeric(stored),
                            expiration: kept_expiration(old(self)@, full_key@),
                        },
                    )
                },
                None => r is Err && r->Err_0 is Database && final(self)@ == old(self)@,
            },
    {
        self.apply_numeric(full_key, amount, saturating, true)
    }

    /// The pairs the expiration loader forwards: exactly the stored keys that
    /// carry an expiration, each with its deadline.
    pub fn expiring_entries(&self) -> (r: Vec<(String, Timestamp)>)
        requires self.wf(),
        ensures
            forall|i: int| 0 <= i < r@.len() ==> self@.contains_key(#[trigger] r@[i].0@)
                && self@[r@[i].0@].expiration == Some(r@[i].1),
            forall|k: Seq<char>| self@.contains_key(k) && self@[k].expiration is Some
                ==> exists|i: int| 0 <= i < r@.len() && #[trigger] r@[i].0@ == k,
            forall|a: int, b: int| 0 <= a < b < r@.len()
                ==> (#[trigger] r@[a]).0@ != (#[trigger] r@[b]).0@,
    {
        let mut r: Vec<(String, Timestamp)> = Vec::new();
        let mut i: usize = 0;
        while i < self.entries.len()
            invariant
                self.wf(),
                0 <= i <= self.entries@.len(),
                forall|j: int| 0 <= j < r@.len() ==> self@.contains_key(#[trigger] r@[j].0@)
                    && self@[r@[j].0@].expiration == Some(r@[j].1),
                forall|j: int| 0 <= j < i ==> (self.entries@[j].entry.expiration is Some
                    ==> exists|n: int| 0 <= n < r@.len()
                        && #[trigger] r@[n].0@ == self.entries@[j].key@),
                forall|n: int| 0 <= n < r@.len() ==> exists|j: int| 0 <= j < i
                    && (#[trigger] r@[n]).0@ == self.entries@[j].key@,
                forall|a: int, b: int| 0 <= a < b < r@.len()
                    ==> (#[trigger] r@[a]).0@ != (#[trigger] r@[b]).0@,
            decreases self.entries@.len() - i,
        {
            let ghost r_before = r@;
            if let Some(ts) = self.entries[i].entry.expiration {
                proof { lemma_map_of_index(self.entries@, i as int); }
                r.push((self.entries[i].key.clone(), ts));
                proof {
                    assert forall|n: int| 0 <= n < r@.len() implies exists|j: int| 0 <= j < i + 1
                        && (#[trigger] r@[n]).0@ == self.entries@[j].key@ by {
                        if n < r_before.len() {
                            assert(r@[n] == r_before[n]);
                            let j = choose|j: int| 0 <= j < i
                                && (#[trigger] r_before[n]).0@ == self.entries@[j].key@;
                        } else {
                            assert(r@[n].0@ == self.entries@[i as int].key@);
                        }
                    }
                    assert forall|a: int, b: int| 0 <= a < b < r@.len() implies
                        (#[trigger] r@[a]).0@ != (#[trigger] r@[b]).0@ by {
                        if b < r_before.len() {
                            assert(r@[a] == r_before[a] && r@[b] == r_before[b]);
                        } else {
                            assert(r@[a] == r_before[a]);
                            let j = choose|j: int| 0 <= j < i
                                && (#[trigger] r_before[a]).0@ == self.entries@[j].key@;
                            assert(self.entries@[j].key@ != self.entries@[i as int].key@);
                            assert(r@[b].0@ == self.entries@[i as int].key@);
                        }
                    }
                }
            }
            proof {
                assert forall|j: int| 0 <= j < i + 1 implies
                    (self.entries@[j].entry.expiration is Some ==> exists|n: int|
                        0 <= n < r@.len() && #[trigger] r@[n].0@ == self.entries@[j].key@) by {
                    if self.entries@[j].entry.expiration is Some {
                        if j < i {
                            let n = choose|n: int| 0 <= n < r_before.len()
                                && #[trigger] r_before[n].0@ == self.entries@[j].key@;
                            assert(r@[n] == r_before[n]);
                            assert(r@[n].0@ == self.entries@[j].key@);
                        } else {
                            assert(r@[r@.len() - 1].0@ == self.entries@[i as int].key@);
                        }
                    }
                }
            }
            i = i + 1;
        }
        proof {
            assert forall|k: Seq<char>| self@.contains_key(k) && self@[k].expiration is Some
                implies exists|n: int| 0 <= n < r@.len() && #[trigger] r@[n].0@ == k by {
                lemma_map_of_contains(self.entries@, k);
                let j = choose|j: int| 0 <= j < self.entries@.len()
                    && self.entries@[j].key@ == k;
                lemma_map_of_index(self.entries@, j);
            }
        }
        r
    }

    /// The `decrement` operation, mirroring `increment_key` with subtraction.
    pub fn decrement_key(
        &mut self,
        full_key: &String,
        amount: &Numeric,
        saturating: bool,
    ) -> (r: Result<Value, Error>)
        requires old(self).wf(),
        ensures
            final(self).wf(),
            match stored_numeric(old(self)@, full_key@) {
                Some(existing) => {
                    let stored = spec_decrement(existing, *amount, saturating);
                    r is Ok && r->Ok_0@ == ValueV::Numeric(stored) && final(self)@ == old(
                        self,
                    )@.insert(
                        full_key@,
                        EntryV {
                            value: ValueV::Numeric(stored),
                            expiration: kept_expiration(old(self)@, full_key@),
                        },
                    )
                },
                None => r is Err && r->Err_0 is Database && final(self)@ == old(self)@,
            },
    {
        self.apply_numeric(full_key, amount, saturating, false)
    }
}

} // verus!
