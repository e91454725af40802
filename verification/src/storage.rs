//! The storage core: instance identity (the persisted `server-id`), database
//! and schema registries, sessions, and user records with their group and
//! role memberships.
use vstd::prelude::*;
use vstd::string::StrSliceExecFns;
use vstd::string::StringExecFns;

use crate::error::Error;
use crate::pubsub::Relay;

verus! {

/// The unique id of a storage instance, persisted as an ASCII decimal in a
/// `server-id` file on first launch.
#[derive(Clone, Copy, Eq, PartialEq, Hash, Debug, Structural)]
pub struct StorageId(pub u64);

impl StorageId {
    /// Returns the id as a u64.
    pub fn as_u64(self) -> (r: u64)
        ensures r == self.0,
    {
        self.0
    }
}

/// Whether `c` may stand at position `index` of a database name: ASCII
/// alphanumerics anywhere, `_` only first, `.` and `-` only after the first.
pub open spec fn valid_name_char(c: char, index: int) -> bool {
    ||| ('a' <= c && c <= 'z')
    ||| ('A' <= c && c <= 'Z')
    ||| ('0' <= c && c <= '9')
    ||| (index == 0 && c == '_')
    ||| (index > 0 && (c == '.' || c == '-'))
}

/// A database name is valid when it is non-empty and every character is
/// allowed at its position.
pub open spec fn valid_name(s: Seq<char>) -> bool {
    s.len() > 0 && forall|i: int| 0 <= i < s.len() ==> valid_name_char(s[i], i)
}

/// Validates a database name, returning `InvalidDatabaseName` exactly when
/// some position holds a character that is not allowed there, or the name is
/// empty.
pub fn validate_name(name: &str) -> (r: Result<(), Error>)
    ensures
        r is Ok <==> valid_name(name@),
        r is Err ==> r->Err_0 is InvalidDatabaseName,
{
    let len = name.unicode_len();
    if len == 0 {
        return Err(Error::InvalidDatabaseName(name.to_owned()));
    }
    let mut i: usize = 0;
    while i < len
        invariant
            len == name@.len(),
            0 <= i <= len,
            forall|j: int| 0 <= j < i ==> valid_name_char(name@[j], j),
        decreases len - i,
    {
        let c = name.get_char(i);
        let ok = (('a' <= c && c <= 'z')
            || ('A' <= c && c <= 'Z')
            || ('0' <= c && c <= '9')
            || (i == 0 && c == '_')
            || (i > 0 && (c == '.' || c == '-')));
        if !ok {
            return Err(Error::InvalidDatabaseName(name.to_owned()));
        }
        i = i + 1;
    }
    Ok(())
}

/// Whether two string slices hold the same characters.
pub fn str_eq(a: &str, b: &str) -> (r: bool)
    ensures r == (a@ == b@),
{
    let la = a.unicode_len();
    let lb = b.unicode_len();
    if la != lb {
        return false;
    }
    let mut i: usize = 0;
    while i < la
        invariant
            la == a@.len(),
            la == b@.len(),
            0 <= i <= la,
            forall|j: int| 0 <= j < i ==> a@[j] == b@[j],
        decreases la - i,
    {
        if a.get_char(i) != b.get_char(i) {
            return false;
        }
        i = i + 1;
    }
    proof {
        assert(a@ =~= b@);
    }
    true
}

/// The case-folded value of one character: ASCII capital letters fold to
/// their lowercase counterparts; everything else stands for itself.
pub open spec fn fold_char(c: char) -> u32 {
    if 'A' <= c && c <= 'Z' {
        ((c as int) + 32) as u32
    } else {
        c as u32
    }
}

/// Whether two names name the same database: equal after ASCII case folding,
/// as the admin collection keys its records.
pub open spec fn same_name(a: Seq<char>, b: Seq<char>) -> bool {
    a.len() == b.len() && forall|i: int| 0 <= i < a.len() ==> fold_char(a[i]) == fold_char(b[i])
}

/// Names that fold like a third name fold alike.
pub proof fn lemma_same_name_joins(a: Seq<char>, b: Seq<char>, c: Seq<char>)
    requires
        same_name(a, c),
        same_name(b, c),
    ensures same_name(a, b),
{
}

/// Whether two names are the same database name after ASCII case folding.
pub fn name_eq_fold(a: &str, b: &str) -> (r: bool)
    ensures r == same_name(a@, b@),
{
    let la = a.unicode_len();
    let lb = b.unicode_len();
    if la != lb {
        return false;
    }
    let mut i: usize = 0;
    while i < la
        invariant
            la == a@.len(),
            la == b@.len(),
            0 <= i <= la,
            forall|j: int| 0 <= j < i ==> fold_char(a@[j]) == fold_char(b@[j]),
        decreases la - i,
    {
        let ca = a.get_char(i);
        let cb = b.get_char(i);
        let va: u32 = if 'A' <= ca && ca <= 'Z' { ca as u32 + 32 } else { ca as u32 };
        let vb: u32 = if 'A' <= cb && cb <= 'Z' { cb as u32 + 32 } else { cb as u32 };
        if va != vb {
            return false;
        }
        i = i + 1;
    }
    true
}

/// Whether every byte is an ASCII decimal digit.
pub open spec fn all_digits(s: Seq<u8>) -> bool {
    forall|i: int| 0 <= i < s.len() ==> 48 <= #[trigger] s[i] <= 57
}

/// The number an ASCII decimal numeral denotes.
pub open spec fn decimal_value(s: Seq<u8>) -> nat
    decreases s.len(),
{
    if s.len() == 0 {
        0
    } else {
        decimal_value(s.drop_last()) * 10 + (s.last() - 48) as nat
    }
}

/// Parses the contents of a `server-id` file: a non-empty ASCII decimal that
/// fits a u64. Anything else is corrupt and refused.
pub fn parse_server_id(bytes: &[u8]) -> (r: Option<u64>)
    ensures
        r is Some <==> (bytes@.len() > 0 && all_digits(bytes@) && decimal_value(bytes@)
            <= u64::MAX),
        r is Some ==> r->0 == decimal_value(bytes@),
{
    if bytes.len() == 0 {
        return None;
    }
    let mut value: u64 = 0;
    let mut i: usize = 0;
    while i < bytes.len()
        invariant
            0 <= i <= bytes@.len(),
            all_digits(bytes@.take(i as int)),
            value == decimal_value(bytes@.take(i as int)),
            decimal_value(bytes@.take(i as int)) <= u64::MAX,
        decreases bytes@.len() - i,
    {
        let b = bytes[i];
        if b < 48 || b > 57 {
            proof {
                assert(!all_digits(bytes@));
            }
            return None;
        }
        let digit = (b - 48) as u64;
        let shifted = match value.checked_mul(10) {
            Some(v) => v,
            None => {
                proof { lemma_decimal_prefix_monotonic(bytes@, i as int); }
                return None;
            },
        };
        let next = match shifted.checked_add(digit) {
            Some(v) => v,
            None => {
                proof { lemma_decimal_prefix_monotonic(bytes@, i as int); }
                return None;
            },
        };
        proof {
            assert(bytes@.take(i + 1 as int).drop_last() =~= bytes@.take(i as int));
            assert(bytes@.take(i + 1 as int).last() == bytes@[i as int]);
        }
        value = next;
        i = i + 1;
    }
    proof {
        assert(bytes@.take(bytes@.len() as int) =~= bytes@);
    }
    Some(value)
}

/// A numeral's value only grows as digits are appended.
proof fn lemma_decimal_prefix_monotonic(s: Seq<u8>, i: int)
    requires
        0 <= i < s.len(),
        all_digits(s) ==> decimal_value(s.take(i)) * 10 + (s[i] - 48) > u64::MAX,
    ensures all_digits(s) ==> decimal_value(s) > u64::MAX,
{
    if all_digits(s) {
        lemma_decimal_extend_monotonic(s, i + 1);
        assert(s.take(i + 1).drop_last() =~= s.take(i));
        assert(s.take(i + 1).last() == s[i]);
    }
}

/// A numeral's value is at least the value of any prefix.
proof fn lemma_decimal_extend_monotonic(s: Seq<u8>, i: int)
    requires
        0 <= i <= s.len(),
        all_digits(s),
    ensures decimal_value(s) >= decimal_value(s.take(i)),
    decreases s.len() - i,
{
    if i < s.len() {
        lemma_decimal_extend_monotonic(s, i + 1);
        assert(s.take(i + 1).drop_last() =~= s.take(i));
        assert(decimal_value(s.take(i + 1)) >= decimal_value(s.take(i)));
    } else {
        assert(s.take(i) =~= s);
    }
}

/// The numeral read low digit first.
spec fn reversed_decimal_value(s: Seq<u8>) -> nat
    decreases s.len(),
{
    if s.len() == 0 {
        0
    } else {
        (s.first() - 48) as nat + 10 * reversed_decimal_value(s.drop_first())
    }
}

/// Reversing a low-first numeral reads it high-first.
proof fn lemma_reverse_decimal(s: Seq<u8>)
    ensures decimal_value(s.reverse()) == reversed_decimal_value(s),
    decreases s.len(),
{
    if s.len() > 0 {
        lemma_reverse_decimal(s.drop_first());
        assert(s.reverse().drop_last() =~= s.drop_first().reverse());
        assert(s.reverse().last() == s.first());
    }
}

/// Writes `id` as the ASCII decimal the `server-id` file holds.
pub fn format_server_id(id: u64) -> (r: Vec<u8>)
    ensures
        r@.len() > 0,
        all_digits(r@),
        decimal_value(r@) == id,
{
    let mut low_first: Vec<u8> = Vec::new();
    let mut n: u64 = id;
    proof {
        assert(low_first@ =~= Seq::<u8>::empty());
        assert(pow10(0) == 1);
        assert(reversed_decimal_value(Seq::<u8>::empty()) == 0);
        assert(n * pow10(low_first@.len() as nat) == n) by (nonlinear_arith)
            requires pow10(low_first@.len() as nat) == 1;
    }
    loop
        invariant
            reversed_decimal_value(low_first@) + n * pow10(low_first@.len() as nat) == id,
            all_digits(low_first@),
        ensures
            n == 0,
            low_first@.len() > 0,
            reversed_decimal_value(low_first@) + n * pow10(low_first@.len() as nat) == id,
            all_digits(low_first@),
        decreases n,
    {
        let digit = (n % 10) as u8 + 48;
        let next = n / 10;
        let ghost before = low_first@;
        low_first.push(digit);
        proof {
            lemma_reversed_push(before, digit);
            assert(n == 10 * (n / 10) + n % 10) by (nonlinear_arith);
            assert(pow10((before.len() + 1) as nat) == 10 * pow10(before.len() as nat));
            assert(reversed_decimal_value(low_first@) + next * pow10(low_first@.len() as nat)
                == id) by {
                assert(reversed_decimal_value(low_first@) == reversed_decimal_value(before)
                    + (digit - 48) * pow10(before.len() as nat));
                assert((digit - 48) as nat == (n % 10) as nat);
                assert((n % 10) * pow10(before.len() as nat) + (n / 10) * (10 * pow10(
                    before.len() as nat,
                )) == n * pow10(before.len() as nat)) by (nonlinear_arith);
            }
        }
        n = next;
        if n == 0 {
            break;
        }
    }
    let mut r: Vec<u8> = Vec::new();
    let mut i: usize = low_first.len();
    while i > 0
        invariant
            0 <= i <= low_first@.len(),
            r@ =~= low_first@.skip(i as int).reverse(),
            all_digits(low_first@),
        decreases i,
    {
        i = i - 1;
        let b = low_first[i];
        r.push(b);
        proof {
            assert(low_first@.skip(i as int).first() == low_first@[i as int]);
            assert(r@ =~= low_first@.skip(i as int).reverse());
        }
    }
    proof {
        assert(low_first@.skip(0) =~= low_first@);
        assert(r@ =~= low_first@.reverse());
        lemma_reverse_decimal(low_first@);
        assert(decimal_value(r@) == reversed_decimal_value(low_first@));
        assert(all_digits(r@)) by {
            assert forall|j: int| 0 <= j < r@.len() implies 48 <= #[trigger] r@[j] <= 57 by {
                assert(r@[j] == low_first@[low_first@.len() - 1 - j]);
            }
        }
    }
    r
}

/// Ten to the `n`.
pub open spec fn pow10(n: nat) -> nat
    decreases n,
{
    if n == 0 {
        1
    } else {
        10 * pow10((n - 1) as nat)
    }
}

/// Appending a high digit adds its weighted value.
proof fn lemma_reversed_push(s: Seq<u8>, d: u8)
    requires 48 <= d,
    ensures reversed_decimal_value(s.push(d)) == reversed_decimal_value(s) + (d - 48) * pow10(
        s.len() as nat,
    ),
    decreases s.len(),
{
    if s.len() == 0 {
        assert(s.push(d).drop_first() =~= Seq::<u8>::empty());
        assert(s.push(d).first() == d);
        assert(reversed_decimal_value(Seq::<u8>::empty()) == 0);
        assert(pow10(0) == 1);
        assert(((d - 48) as nat) * pow10(s.len() as nat) == (d - 48) as nat) by (nonlinear_arith)
            requires pow10(s.len() as nat) == 1;
    } else {
        assert(s.push(d).drop_first() =~= s.drop_first().push(d));
        lemma_reversed_push(s.drop_first(), d);
        assert(s.push(d).first() == s.first());
        assert(reversed_decimal_value(s.push(d)) == (s.first() - 48) as nat + 10
            * reversed_decimal_value(s.drop_first().push(d)));
        assert(10 * ((d - 48) * pow10(s.drop_first().len() as nat)) == (d - 48) * (10 * pow10(
            s.drop_first().len() as nat,
        ))) by (nonlinear_arith);
        assert(pow10(s.len() as nat) == 10 * pow10(s.drop_first().len() as nat));
        assert(reversed_decimal_value(s) == (s.first() - 48) as nat + 10 * reversed_decimal_value(
            s.drop_first(),
        ));
        assert(10 * (reversed_decimal_value(s.drop_first()) + ((d - 48) as nat) * pow10(
            s.drop_first().len() as nat,
        )) == 10 * reversed_decimal_value(s.drop_first()) + 10 * (((d - 48) as nat) * pow10(
            s.drop_first().len() as nat,
        ))) by (nonlinear_arith);
    }
}

/// Relies on rand::random (the thread-local generator): nothing is promised
/// of the drawn value; callers state what holds of every outcome.
pub assume_specification<T>[ rand::random::<T> ]() -> (r: T)
    where
        rand::distributions::Standard: rand::distributions::Distribution<T>,
;

/// Relies on itertools::Itertools::unique: it yields each distinct element
/// once, keeping first occurrences in order.
#[verifier::external_body]
fn unique_strings(v: Vec<String>) -> (r: Vec<String>)
    ensures Seq::new(r@.len(), |i: int| r@[i]@) == dedup_first(Seq::new(v@.len(), |i: int| v@[i]@)),
{
    itertools::Itertools::unique(v.into_iter()).collect()
}

/// The subsequence keeping the first occurrence of each element.
pub open spec fn dedup_first(s: Seq<Seq<char>>) -> Seq<Seq<char>>
    decreases s.len(),
{
    if s.len() == 0 {
        s
    } else if s.drop_last().contains(s.last()) {
        dedup_first(s.drop_last())
    } else {
        dedup_first(s.drop_last()) + seq![s.last()]
    }
}

/// The effective permissions of a session: every action allowed, or exactly
/// a listed set of action names.
#[derive(Debug)]
pub struct Permissions {
    allow_all: bool,
    allowed: Vec<String>,
}

/// The mathematical model of a `Permissions` value.
pub struct PermissionsV {
    pub allow_all: bool,
    pub allowed: Seq<Seq<char>>,
}

impl View for Permissions {
    type V = PermissionsV;

    closed spec fn view(&self) -> PermissionsV {
        PermissionsV {
            allow_all: self.allow_all,
            allowed: Seq::new(self.allowed@.len(), |i: int| self.allowed@[i]@),
        }
    }
}

impl Permissions {
    /// Whether every action is allowed.
    pub closed spec fn spec_allow_all(&self) -> bool {
        self.allow_all
    }

    /// The allowed action names.
    pub closed spec fn spec_allowed(&self) -> Seq<Seq<char>> {
        Seq::new(self.allowed@.len(), |i: int| self.allowed@[i]@)
    }

    /// Permissions that allow everything.
    pub fn allow_all() -> (r: Permissions)
        ensures r.spec_allow_all(),
    {
        Permissions { allow_all: true, allowed: Vec::new() }
    }

    /// Permissions that allow exactly the listed actions.
    pub fn allowing(allowed: Vec<String>) -> (r: Permissions)
        ensures
            !r.spec_allow_all(),
            r.spec_allowed() =~= Seq::new(allowed@.len(), |i: int| allowed@[i]@),
    {
        Permissions { allow_all: false, allowed }
    }

    /// Whether `action` is allowed.
    pub fn allows(&self, action: &str) -> (r: bool)
        ensures r == (self.spec_allow_all() || self.spec_allowed().contains(action@)),
    {
        if self.allow_all {
            return true;
        }
        let mut i: usize = 0;
        while i < self.allowed.len()
            invariant
                0 <= i <= self.allowed@.len(),
                forall|j: int| 0 <= j < i ==> self.allowed@[j]@ != action@,
            decreases self.allowed@.len() - i,
        {
            if str_eq(self.allowed[i].as_str(), action) {
                proof { assert(self.spec_allowed()[i as int] == action@); }
                return true;
            }
            i = i + 1;
        }
        proof {
            assert forall|j: int| 0 <= j < self.spec_allowed().len() implies
                self.spec_allowed()[j] != action@ by {
                assert(self.spec_allowed()[j] == self.allowed@[j]@);
            }
        }
        false
    }

    /// Checks `action` against these permissions, exactly as the dispatcher
    /// does before executing a request: denial has no side effects.
    pub fn check_permission(&self, action: &str) -> (r: Result<(), Error>)
        ensures
            r is Ok <==> (self.spec_allow_all() || self.spec_allowed().contains(action@)),
            r is Err ==> r->Err_0 is PermissionDenied,
    {
        if self.allows(action) {
            Ok(())
        } else {
            Err(Error::PermissionDenied)
        }
    }

    /// A copy that allows exactly the same actions.
    pub fn duplicate(&self) -> (r: Permissions)
        ensures r@ == self@,
    {
        let mut allowed: Vec<String> = Vec::new();
        let mut i: usize = 0;
        while i < self.allowed.len()
            invariant
                0 <= i <= self.allowed@.len(),
                allowed@ =~= self.allowed@.take(i as int),
            decreases self.allowed@.len() - i,
        {
            allowed.push(self.allowed[i].clone());
            proof {
                assert(allowed@ =~= self.allowed@.take(i + 1 as int));
            }
            i = i + 1;
        }
        let r = Permissions { allow_all: self.allow_all, allowed };
        proof {
            assert(r@.allowed =~= self@.allowed);
        }
        r
    }
}

/// One user record of the admin database.
#[derive(Debug)]
pub struct UserRecord {
    pub id: u64,
    pub username: String,
    pub groups: Vec<u64>,
    pub roles: Vec<u64>,
    pub password_hash: Option<Vec<u8>>,
}

/// The mathematical model of a user record.
pub struct UserV {
    pub id: u64,
    pub username: Seq<char>,
    pub groups: Seq<u64>,
    pub roles: Seq<u64>,
    pub has_password: bool,
}

impl View for UserRecord {
    type V = UserV;

    open spec fn view(&self) -> UserV {
        UserV {
            id: self.id,
            username: self.username@,
            groups: self.groups@,
            roles: self.roles@,
            has_password: self.password_hash is Some,
        }
    }
}

/// One authenticated session: its id, the identity it speaks for (the user's
/// id and username), and its effective permissions.
#[derive(Debug)]
pub struct Session {
    pub id: u64,
    pub user_id: u64,
    pub username: String,
    pub permissions: Permissions,
}

/// The mathematical model of a `Session`.
pub struct SessionV {
    pub id: u64,
    pub user_id: u64,
    pub username: Seq<char>,
    pub permissions: PermissionsV,
}

impl View for Session {
    type V = SessionV;

    open spec fn view(&self) -> SessionV {
        SessionV {
            id: self.id,
            user_id: self.user_id,
            username: self.username@,
            permissions: self.permissions@,
        }
    }
}

impl Session {
    /// A copy of the session.
    pub fn duplicate(&self) -> (r: Session)
        ensures r@ == self@,
    {
        Session {
            id: self.id,
            user_id: self.user_id,
            username: self.username.clone(),
            permissions: self.permissions.duplicate(),
        }
    }
}

/// The storage core of one instance: its identity, the schema registry, the
/// database registry, the session table, and the user records.
#[derive(Debug)]
pub struct Storage {
    pub id: StorageId,
    path: String,
    schemas: Vec<String>,
    databases: Vec<(String, String)>,
    sessions: Vec<Session>,
    last_session_id: u64,
    users: Vec<UserRecord>,
    next_user_id: u64,
}

/// The schema a registry records under a name's case folding.
pub closed spec fn registered_schema_of(
    s: Seq<(String, String)>,
    name: Seq<char>,
) -> Option<Seq<char>> {
    if exists|i: int| 0 <= i < s.len() && same_name(s[i].0@, name) {
        let i = choose|i: int| 0 <= i < s.len() && same_name(s[i].0@, name);
        Some(s[i].1@)
    } else {
        None
    }
}

/// Where a registry records a name folding like `name`, and no two recorded
/// names fold alike, its schema is that slot's.
proof fn lemma_registered_schema_at(s: Seq<(String, String)>, name: Seq<char>, i: int)
    requires
        forall|a: int, b: int| 0 <= a < b < s.len() ==> !same_name(s[a].0@, s[b].0@),
        0 <= i < s.len(),
        same_name(s[i].0@, name),
    ensures registered_schema_of(s, name) == Some(s[i].1@),
{
    let w = choose|w: int| 0 <= w < s.len() && same_name(s[w].0@, name);
    if w != i {
        lemma_same_name_joins(s[w].0@, s[i].0@, name);
        if w < i {
            assert(!same_name(s[w].0@, s[i].0@));
        } else {
            assert(!same_name(s[i].0@, s[w].0@));
            lemma_same_name_joins(s[i].0@, s[w].0@, name);
        }
    }
}

/// A name whose folding no slot records has no schema.
proof fn lemma_registered_schema_absent(s: Seq<(String, String)>, name: Seq<char>)
    requires forall|j: int| 0 <= j < s.len() ==> !same_name(s[j].0@, name),
    ensures registered_schema_of(s, name) is None,
{
}

impl Storage {
    /// The instance id.
    pub closed spec fn spec_id(&self) -> StorageId {
        self.id
    }

    /// The directory the instance stores its data under.
    pub closed spec fn spec_path(&self) -> Seq<char> {
        self.path@
    }

    /// The registered schema names.
    pub closed spec fn spec_schemas(&self) -> Seq<Seq<char>> {
        Seq::new(self.schemas@.len(), |i: int| self.schemas@[i]@)
    }

    /// Whether a schema name is registered.
    pub open spec fn schema_registered(&self, name: Seq<char>) -> bool {
        self.spec_schemas().contains(name)
    }

    /// The database registry, in creation order.
    pub closed spec fn spec_databases(&self) -> Seq<(Seq<char>, Seq<char>)> {
        Seq::new(self.databases@.len(), |i: int| (self.databases@[i].0@, self.databases@[i].1@))
    }

    /// The schema a database name is recorded under.
    pub closed spec fn database_schema(&self, name: Seq<char>) -> Option<Seq<char>> {
        registered_schema_of(self.databases@, name)
    }

    /// The live sessions.
    pub closed spec fn spec_sessions(&self) -> Seq<SessionV> {
        Seq::new(self.sessions@.len(), |i: int| self.sessions@[i]@)
    }

    /// The id the most recent session received.
    pub closed spec fn spec_last_session_id(&self) -> u64 {
        self.last_session_id
    }

    /// The user records.
    pub closed spec fn spec_users(&self) -> Seq<UserV> {
        Seq::new(self.users@.len(), |i: int| self.users@[i]@)
    }

    /// The id the next created user receives.
    pub closed spec fn spec_next_user_id(&self) -> u64 {
        self.next_user_id
    }

    /// Well-formed: names, session ids and user ids are unique, and ids stay
    /// at or below their counters.
    pub closed spec fn wf(&self) -> bool {
        &&& forall|a: int, b: int| 0 <= a < b < self.databases@.len()
            ==> !same_name(self.databases@[a].0@, self.databases@[b].0@)
        &&& forall|a: int, b: int| 0 <= a < b < self.sessions@.len()
            ==> self.sessions@[a].id != self.sessions@[b].id
        &&& forall|i: int| 0 <= i < self.sessions@.len()
            ==> #[trigger] self.sessions@[i].id <= self.last_session_id
        &&& forall|a: int, b: int| 0 <= a < b < self.users@.len()
            ==> self.users@[a].id != self.users@[b].id
        &&& forall|i: int| 0 <= i < self.users@.len()
            ==> #[trigger] self.users@[i].id < self.next_user_id
    }

    /// Opens a storage core: resolves the instance id (drawing and persisting
    /// a fresh one when none exists), registers the admin schema, and ensures
    /// the admin database exists under its fixed name. A corrupt `server-id`
    /// aborts the open.
    pub fn open(
        directory: String,
        configured_id: Option<u64>,
        server_id_file: Option<&Vec<u8>>,
    ) -> (r: Result<(Storage, Option<Vec<u8>>), Error>)
        ensures
            match r {
                Ok((storage, file)) => {
                    &&& storage.wf()
                    &&& storage.spec_path() == directory@
                    &&& storage.spec_schemas() =~= seq!["admin"@]
                    &&& storage.spec_databases() =~= seq![("_admin"@, "admin"@)]
                    &&& storage.schema_registered("admin"@)
                    &&& storage.database_schema("_admin"@) == Some("admin"@)
                    &&& storage.spec_sessions() =~= Seq::<SessionV>::empty()
                    &&& storage.spec_last_session_id() == 0
                    &&& storage.spec_users() =~= Seq::<UserV>::empty()
                    &&& storage.spec_next_user_id() == 0
                    &&& match configured_id {
                        Some(id) => storage.spec_id() == StorageId(id) && file is None,
                        None => match server_id_file {
                            Some(bytes) => storage.spec_id() == StorageId(
                                decimal_value(bytes@) as u64,
                            ) && file is None,
                            None => file is Some && file->0@.len() > 0 && all_digits(file->0@)
                                && decimal_value(file->0@) == storage.spec_id().0,
                        },
                    }
                },
                Err(e) => e is Configuration && configured_id is None && server_id_file is Some
                    && !(server_id_file->0@.len() > 0 && all_digits(server_id_file->0@)
                    && decimal_value(server_id_file->0@) <= u64::MAX),
            },
    {
        let outcome = match lookup_or_create_id(configured_id, server_id_file) {
            Ok(o) => o,
            Err(e) => {
                return Err(e);
            },
        };
        proof {
            reveal_strlit("admin");
            reveal_strlit("_admin");
        }
        let mut schemas: Vec<String> = Vec::new();
        schemas.push(<String as StringExecFns>::from_str("admin"));
        let mut databases: Vec<(String, String)> = Vec::new();
        databases.push((
            <String as StringExecFns>::from_str("_admin"),
            <String as StringExecFns>::from_str("admin"),
        ));
        let storage = Storage {
            id: outcome.id,
            path: directory,
            schemas,
            databases,
            sessions: Vec::new(),
            last_session_id: 0,
            users: Vec::new(),
            next_user_id: 0,
        };
        proof {
            assert(storage.spec_schemas()[0] == "admin"@);
            lemma_registered_schema_at(storage.databases@, "_admin"@, 0);
        }
        Ok((storage, outcome.file_to_write))
    }

    /// Rebuilds the database registry from the admin collection's records, as
    /// a reopened instance does.
    pub fn cache_available_databases(&mut self, records: Vec<(String, String)>)
        requires
            old(self).wf(),
            forall|a: int, b: int| 0 <= a < b < records@.len()
                ==> !same_name((#[trigger] records@[a]).0@, (#[trigger] records@[b]).0@),
        ensures
            final(self).wf(),
            final(self).spec_databases() =~= Seq::new(
                records@.len(),
                |i: int| (records@[i].0@, records@[i].1@),
            ),
            final(self).spec_schemas() == old(self).spec_schemas(),
            final(self).spec_sessions() == old(self).spec_sessions(),
            final(self).spec_users() == old(self).spec_users(),
    {
        self.databases = records;
    }

    /// Registers a schema name, refusing a second registration of the same
    /// name.
    pub fn register_schema(&mut self, name: String) -> (r: Result<(), Error>)
        requires old(self).wf(),
        ensures
            final(self).wf(),
            old(self).schema_registered(name@) ==> (
                r is Err && r->Err_0 is SchemaAlreadyRegistered && final(self).spec_schemas()
                    == old(self).spec_schemas()
            ),
            !old(self).schema_registered(name@) ==> (
                r is Ok && final(self).spec_schemas() =~= old(self).spec_schemas().push(name@)
            ),
            final(self).spec_databases() == old(self).spec_databases(),
            final(self).spec_sessions() == old(self).spec_sessions(),
            final(self).spec_users() == old(self).spec_users(),
    {
        let mut i: usize = 0;
        while i < self.schemas.len()
            invariant
                *self == *old(self),
                self.wf(),
                0 <= i <= self.schemas@.len(),
                forall|j: int| 0 <= j < i ==> self.schemas@[j]@ != name@,
            decreases self.schemas@.len() - i,
        {
            if self.schemas[i] == name {
                proof {
                    assert(self.spec_schemas()[i as int] == name@);
                }
                return Err(Error::SchemaAlreadyRegistered(name));
            }
            i = i + 1;
        }
        proof {
            assert forall|j: int| 0 <= j < self.spec_schemas().len() implies
                self.spec_schemas()[j] != name@ by {
                assert(self.spec_schemas()[j] == self.schemas@[j]@);
            }
        }
        self.schemas.push(name);
        Ok(())
    }

    /// Whether `name` is a registered schema.
    fn schema_is_registered(&self, name: &String) -> (r: bool)
        ensures r == self.schema_registered(name@),
    {
        let mut i: usize = 0;
        while i < self.schemas.len()
            invariant
                0 <= i <= self.schemas@.len(),
                forall|j: int| 0 <= j < i ==> self.schemas@[j]@ != name@,
            decreases self.schemas@.len() - i,
        {
            if self.schemas[i] == *name {
                proof { assert(self.spec_schemas()[i as int] == name@); }
                return true;
            }
            i = i + 1;
        }
        proof {
            assert forall|j: int| 0 <= j < self.spec_schemas().len() implies
                self.spec_schemas()[j] != name@ by {
                assert(self.spec_schemas()[j] == self.schemas@[j]@);
            }
        }
        false
    }

    /// The slot whose recorded name folds like `name`, if any.
    fn database_position(&self, name: &str) -> (r: Option<usize>)
        requires self.wf(),
        ensures
            match r {
                Some(i) => i < self.databases@.len()
                    && same_name(self.databases@[i as int].0@, name@)
                    && self.database_schema(name@) == Some(self.databases@[i as int].1@),
                None => self.database_schema(name@) is None,
            },
    {
        let mut i: usize = 0;
        while i < self.databases.len()
            invariant
                self.wf(),
                0 <= i <= self.databases@.len(),
                forall|j: int| 0 <= j < i ==> !same_name(self.databases@[j].0@, name@),
            decreases self.databases@.len() - i,
        {
            if name_eq_fold(self.databases[i].0.as_str(), name) {
                proof {
                    lemma_registered_schema_at(self.databases@, name@, i as int);
                }
                return Some(i);
            }
            i = i + 1;
        }
        proof { lemma_registered_schema_absent(self.databases@, name@); }
        None
    }

    /// Creates a database record under `name` with `schema`: the name must
    /// validate, the schema must be registered, and a name whose ASCII case
    /// folding is already taken is an error unless the caller asked
    /// `only_if_needed`.
    pub fn create_database_with_schema(
        &mut self,
        name: &str,
        schema: String,
        only_if_needed: bool,
    ) -> (r: Result<(), Error>)
        requires old(self).wf(),
        ensures
            final(self).wf(),
            final(self).spec_schemas() == old(self).spec_schemas(),
            final(self).spec_sessions() == old(self).spec_sessions(),
            final(self).spec_users() == old(self).spec_users(),
            !valid_name(name@) ==> (
                r is Err && r->Err_0 is InvalidDatabaseName && final(self).spec_databases()
                    == old(self).spec_databases()
            ),
            valid_name(name@) && !old(self).schema_registered(schema@) ==> (
                r is Err && r->Err_0 is SchemaNotRegistered && final(self).spec_databases()
                    == old(self).spec_databases()
            ),
            valid_name(name@) && old(self).schema_registered(schema@) && old(
                self,
            ).database_schema(name@) is Some ==> (
                final(self).spec_databases() == old(self).spec_databases() && if only_if_needed {
                    r is Ok
                } else {
                    r is Err && r->Err_0 is DatabaseNameAlreadyTaken
                }
            ),
            valid_name(name@) && old(self).schema_registered(schema@) && old(
                self,
            ).database_schema(name@) is None ==> (
                r is Ok && final(self).spec_databases() =~= old(self).spec_databases().push(
                    (name@, schema@),
                ) && final(self).database_schema(name@) == Some(schema@)
            ),
    {
        if let Err(e) = validate_name(name) {
            return Err(e);
        }
        if !self.schema_is_registered(&schema) {
            return Err(Error::SchemaNotRegistered(schema));
        }
        match self.database_position(name) {
            Some(_) => {
                if only_if_needed {
                    Ok(())
                } else {
                    Err(Error::DatabaseNameAlreadyTaken(name.to_owned()))
                }
            },
            None => {
                let ghost before = self.databases@;
                self.databases.push((name.to_owned(), schema));
                proof {
                    assert forall|a: int, b: int| 0 <= a < b < self.databases@.len() implies
                        !same_name(self.databases@[a].0@, self.databases@[b].0@) by {
                        if b < before.len() {
                            assert(self.databases@[a] == before[a]);
                            assert(self.databases@[b] == before[b]);
                        } else {
                            assert(self.databases@[a] == before[a]);
                            if same_name(before[a].0@, name@) {
                                lemma_registered_schema_at(before, name@, a);
                            }
                        }
                    }
                    lemma_registered_schema_at(self.databases@, name@, before.len() as int);
                }
                Ok(())
            },
        }
    }

    /// Deletes the database record whose name folds like `name`; a missing
    /// name is `DatabaseNotFound`.
    pub fn delete_database(&mut self, name: &str) -> (r: Result<(), Error>)
        requires old(self).wf(),
        ensures
            final(self).wf(),
            final(self).spec_schemas() == old(self).spec_schemas(),
            final(self).spec_sessions() == old(self).spec_sessions(),
            final(self).spec_users() == old(self).spec_users(),
            old(self).database_schema(name@) is None ==> (
                r is Err && r->Err_0 is DatabaseNotFound && final(self).spec_databases() == old(
                    self,
                ).spec_databases()
            ),
            old(self).database_schema(name@) is Some ==> (
                r is Ok && final(self).database_schema(name@) is None && exists|i: int|
                    0 <= i < old(self).spec_databases().len()
                    && same_name(#[trigger] old(self).spec_databases()[i].0, name@)
                    && final(self).spec_databases() =~= old(self).spec_databases().remove(i)
            ),
    {
        match self.database_position(name) {
            Some(i) => {
                let ghost before = self.databases@;
                self.databases.remove(i);
                proof {
                    assert(self.databases@ =~= before.remove(i as int));
                    assert forall|j: int| 0 <= j < self.databases@.len() implies
                        !same_name(self.databases@[j].0@, name@) by {
                        if j < i {
                            assert(self.databases@[j] == before[j]);
                            assert(!same_name(before[j].0@, before[i as int].0@));
                            if same_name(before[j].0@, name@) {
                                lemma_same_name_joins(before[j].0@, before[i as int].0@, name@);
                            }
                        } else {
                            assert(self.databases@[j] == before[j + 1]);
                            assert(!same_name(before[i as int].0@, before[j + 1].0@));
                            if same_name(before[j + 1].0@, name@) {
                                lemma_same_name_joins(
                                    before[i as int].0@,
                                    before[j + 1].0@,
                                    name@,
                                );
                            }
                        }
                    }
                    lemma_registered_schema_absent(self.databases@, name@);
                    assert(self.spec_databases() =~= old(self).spec_databases().remove(i as int));
                    assert(same_name(old(self).spec_databases()[i as int].0, name@));
                }
                Ok(())
            },
            None => Err(Error::DatabaseNotFound(name.to_owned())),
        }
    }

    /// The database records, each name with its schema.
    pub fn list_databases(&self) -> (r: Vec<(String, String)>)
        requires self.wf(),
        ensures
            Seq::new(r@.len(), |i: int| (r@[i].0@, r@[i].1@)) =~= self.spec_databases(),
            forall|a: int, b: int| 0 <= a < b < r@.len()
                ==> !same_name((#[trigger] r@[a]).0@, (#[trigger] r@[b]).0@),
    {
        let mut r: Vec<(String, String)> = Vec::new();
        let mut i: usize = 0;
        while i < self.databases.len()
            invariant
                0 <= i <= self.databases@.len(),
                r@.len() == i,
                forall|j: int| 0 <= j < i ==> (#[trigger] r@[j]).0@ == self.databases@[j].0@
                    && r@[j].1@ == self.databases@[j].1@,
            decreases self.databases@.len() - i,
        {
            r.push((self.databases[i].0.clone(), self.databases[i].1.clone()));
            i = i + 1;
        }
        r
    }

    /// The distinct schemas of the recorded databases, first occurrences in
    /// order.
    pub fn list_available_schemas(&self) -> (r: Vec<String>)
        ensures Seq::new(r@.len(), |i: int| r@[i]@) == dedup_first(
            Seq::new(self.spec_databases().len(), |i: int| self.spec_databases()[i].1),
        ),
    {
        let mut schemas: Vec<String> = Vec::new();
        let mut i: usize = 0;
        while i < self.databases.len()
            invariant
                0 <= i <= self.databases@.len(),
                schemas@.len() == i,
                forall|j: int| 0 <= j < i ==> (#[trigger] schemas@[j])@
                    == self.databases@[j].1@,
            decreases self.databases@.len() - i,
        {
            schemas.push(self.databases[i].1.clone());
            i = i + 1;
        }
        let r = unique_strings(schemas);
        proof {
            assert(Seq::new(schemas@.len(), |j: int| schemas@[j]@) =~= Seq::new(
                self.spec_databases().len(),
                |j: int| self.spec_databases()[j].1,
            ));
        }
        r
    }

    /// Checks that the database recorded under `name`'s case folding carries
    /// `schema`: a missing name is `DatabaseNotFound`; a different stored
    /// schema is `SchemaMismatch`.
    pub fn check_database_schema(&self, name: &str, schema: &String) -> (r: Result<(), Error>)
        requires self.wf(),
        ensures
            match self.database_schema(name@) {
                Some(stored) => if stored == schema@ {
                    r is Ok
                } else {
                    r is Err && r->Err_0 is SchemaMismatch
                },
                None => r is Err && r->Err_0 is DatabaseNotFound,
            },
    {
        match self.database_position(name) {
            Some(i) => {
                if self.databases[i].1 == *schema {
                    Ok(())
                } else {
                    Err(Error::SchemaMismatch {
                        database_name: name.to_owned(),
                        schema: schema.clone(),
                        stored_schema: self.databases[i].1.clone(),
                    })
                }
            },
            None => Err(Error::DatabaseNotFound(name.to_owned())),
        }
    }
}

impl Storage {
    /// The slot of the user with `user_id`.
    fn user_position(&self, user_id: u64) -> (r: Option<usize>)
        requires self.wf(),
        ensures
            match r {
                Some(i) => i < self.users@.len() && self.users@[i as int].id == user_id,
                None => forall|j: int| 0 <= j < self.spec_users().len()
                    ==> self.spec_users()[j].id != user_id,
            },
    {
        let mut i: usize = 0;
        while i < self.users.len()
            invariant
                0 <= i <= self.users@.len(),
                forall|j: int| 0 <= j < i ==> self.users@[j].id != user_id,
            decreases self.users@.len() - i,
        {
            if self.users[i].id == user_id {
                return Some(i);
            }
            i = i + 1;
        }
        proof {
            assert forall|j: int| 0 <= j < self.spec_users().len() implies
                self.spec_users()[j].id != user_id by {
                assert(self.spec_users()[j] == self.users@[j]@);
            }
        }
        None
    }

    /// Creates a user with a fresh id and no credentials, groups or roles.
    pub fn create_user(&mut self, username: String) -> (r: u64)
        requires
            old(self).wf(),
            old(self).spec_next_user_id() < u64::MAX,
        ensures
            final(self).wf(),
            r == old(self).spec_next_user_id(),
            final(self).spec_next_user_id() == r + 1,
            final(self).spec_users() =~= old(self).spec_users().push(
                UserV {
                    id: r,
                    username: username@,
                    groups: Seq::empty(),
                    roles: Seq::empty(),
                    has_password: false,
                },
            ),
            final(self).spec_databases() == old(self).spec_databases(),
            final(self).spec_sessions() == old(self).spec_sessions(),
    {
        let id = self.next_user_id;
        self.next_user_id = self.next_user_id + 1;
        let record = UserRecord {
            id,
            username,
            groups: Vec::new(),
            roles: Vec::new(),
            password_hash: None,
        };
        let ghost before = self.users@;
        self.users.push(record);
        proof {
            assert forall|a: int, b: int| 0 <= a < b < self.users@.len() implies
                self.users@[a].id != self.users@[b].id by {
                if b < before.len() {
                    assert(self.users@[a] == before[a] && self.users@[b] == before[b]);
                } else {
                    assert(self.users@[a] == before[a]);
                }
            }
        }
        id
    }

    /// Deletes the user with `user_id`; a missing user is `UserNotFound`.
    pub fn delete_user(&mut self, user_id: u64) -> (r: Result<(), Error>)
        requires old(self).wf(),
        ensures
            final(self).wf(),
            final(self).spec_databases() == old(self).spec_databases(),
            final(self).spec_sessions() == old(self).spec_sessions(),
            (forall|j: int| 0 <= j < old(self).spec_users().len()
                ==> old(self).spec_users()[j].id != user_id) ==> (
                r is Err && r->Err_0 is UserNotFound && final(self).spec_users() == old(
                    self,
                ).spec_users()
            ),
            forall|i: int| 0 <= i < old(self).spec_users().len() && old(self).spec_users()[i].id
                == user_id ==> (r is Ok && final(self).spec_users() =~= old(
                self,
            ).spec_users().remove(i)),
    {
        let ghost before = self.users@;
        match self.user_position(user_id) {
            Some(i) => {
                proof { assert(self.spec_users()[i as int].id == user_id); }
                self.users.remove(i);
                proof {
                    assert(self.users@ =~= before.remove(i as int));
                    assert forall|w: int| 0 <= w < before.len() && before[w]@.id == user_id
                        implies self.spec_users() =~= Seq::new(
                        before.len(),
                        |j: int| before[j]@,
                    ).remove(w) by {
                        if w != i {
                            if w < i {
                                assert(before[w].id != before[i as int].id);
                            } else {
                                assert(before[i as int].id != before[w].id);
                            }
                        }
                        assert(self.spec_users() =~= Seq::new(
                            before.len(),
                            |j: int| before[j]@,
                        ).remove(i as int));
                    }
                }
                Ok(())
            },
            None => Err(Error::UserNotFound),
        }
    }

    /// Stores the argon2 hash of a user's new password; a missing user is
    /// `UserNotFound`. The hash is computed outside and handed in as bytes.
    pub fn set_user_password(&mut self, user_id: u64, password_hash: Vec<u8>) -> (r: Result<
        (),
        Error,
    >)
        requires old(self).wf(),
        ensures
            final(self).wf(),
            final(self).spec_databases() == old(self).spec_databases(),
            final(self).spec_sessions() == old(self).spec_sessions(),
            final(self).spec_users().len() == old(self).spec_users().len(),
            (forall|j: int| 0 <= j < old(self).spec_users().len()
                ==> old(self).spec_users()[j].id != user_id) ==> (
                r is Err && r->Err_0 is UserNotFound && final(self).spec_users() == old(
                    self,
                ).spec_users()
            ),
            forall|i: int| 0 <= i < old(self).spec_users().len()
                && old(self).spec_users()[i].id == user_id ==> (
                r is Ok && final(self).spec_users()[i] == (UserV {
                    has_password: true,
                    ..old(self).spec_users()[i]
                }) && forall|j: int| 0 <= j < old(self).spec_users().len() && j != i
                    ==> final(self).spec_users()[j] == old(self).spec_users()[j]
            ),
    {
        let ghost before = self.users@;
        match self.user_position(user_id) {
            Some(i) => {
                proof { assert(self.spec_users()[i as int].id == user_id); }
                let mut record = self.users.remove(i);
                let ghost record_before = record;
                record.password_hash = Some(password_hash);
                proof {
                    assert(record@ == UserV { has_password: true, ..record_before@ });
                }
                self.users.insert(i, record);
                proof {
                    before.remove_ensures(i as int);
                    before.remove(i as int).insert_ensures(i as int, record);
                    assert(self.users@ =~= before.remove(i as int).insert(i as int, record));
                    assert forall|j: int| 0 <= j < before.len() && j != i implies
                        self.users@[j] == before[j] by {
                        if j < i {
                            assert(self.users@[j] == before.remove(i as int)[j]);
                        } else {
                            assert(self.users@[(j - 1) + 1] == before.remove(i as int)[j - 1]);
                            assert(before.remove(i as int)[j - 1] == before[(j - 1) + 1]);
                        }
                    }
                    assert(self.users@[i as int] == record);
                    assert forall|a: int, b: int| 0 <= a < b < self.users@.len() implies
                        self.users@[a].id != self.users@[b].id by {
                        assert(self.users@[a].id == before[a].id);
                        assert(self.users@[b].id == before[b].id);
                    }
                    assert forall|j: int| 0 <= j < self.users@.len() implies
                        #[trigger] self.users@[j].id < self.next_user_id by {
                        assert(self.users@[j].id == before[j].id);
                    }
                }
                Ok(())
            },
            None => Err(Error::UserNotFound),
        }
    }

    /// The password-verification decision: authentication succeeds only for a
    /// known user whose stored hash exists and was verified outside; success
    /// allocates a fresh session carrying the user's identity and the
    /// effective permissions computed for them. Everything else is
    /// `InvalidCredentials`.
    pub fn authenticate(
        &mut self,
        user_id: u64,
        password_verified: bool,
        permissions: Permissions,
    ) -> (r: Result<Session, Error>)
        requires
            old(self).wf(),
            old(self).spec_last_session_id() < u64::MAX,
        ensures
            final(self).wf(),
            final(self).spec_databases() == old(self).spec_databases(),
            final(self).spec_users() == old(self).spec_users(),
            ({
                let known = exists|i: int| 0 <= i < old(self).spec_users().len()
                    && (#[trigger] old(self).spec_users()[i].id) == user_id && old(
                    self,
                ).spec_users()[i].has_password;
                if known && password_verified {
                    &&& r is Ok
                    &&& r->Ok_0@.user_id == user_id
                    &&& r->Ok_0@.id == old(self).spec_last_session_id() + 1
                    &&& r->Ok_0@.permissions == permissions@
                    &&& forall|i: int| 0 <= i < old(self).spec_users().len()
                        && (#[trigger] old(self).spec_users()[i].id) == user_id
                        ==> r->Ok_0@.username == old(self).spec_users()[i].username
                    &&& final(self).spec_sessions() =~= old(self).spec_sessions().push(r->Ok_0@)
                    &&& final(self).spec_last_session_id() == old(self).spec_last_session_id()
                        + 1
                } else {
                    &&& r is Err && r->Err_0 is InvalidCredentials
                    &&& final(self).spec_sessions() == old(self).spec_sessions()
                    &&& final(self).spec_last_session_id() == old(self).spec_last_session_id()
                }
            }),
    {
        let known = match self.user_position(user_id) {
            Some(i) => {
                let has = self.users[i].password_hash.is_some();
                proof {
                    if has {
                        assert(self.spec_users()[i as int].id == user_id
                            && self.spec_users()[i as int].has_password);
                    }
                }
                has
            },
            None => false,
        };
        proof {
            if !known {
                assert forall|i: int| 0 <= i < self.spec_users().len()
                    && (#[trigger] self.spec_users()[i].id) == user_id implies
                    !self.spec_users()[i].has_password by {}
            }
        }
        if known && password_verified {
            match self.assume_user(user_id, permissions) {
                Ok(session) => Ok(session),
                Err(_) => Err(Error::InvalidCredentials),
            }
        } else {
            Err(Error::InvalidCredentials)
        }
    }

    /// Allocates a session for `user_id` without checking credentials, as the
    /// permission-gated assume-identity path does: the session carries the
    /// stored user's identity and the effective permissions handed in (their
    /// computation from groups and roles is the admin collections' work). An
    /// unknown user is `InvalidCredentials`.
    pub fn assume_user(&mut self, user_id: u64, permissions: Permissions) -> (r: Result<
        Session,
        Error,
    >)
        requires
            old(self).wf(),
            old(self).spec_last_session_id() < u64::MAX,
        ensures
            final(self).wf(),
            final(self).spec_databases() == old(self).spec_databases(),
            final(self).spec_users() == old(self).spec_users(),
            final(self).spec_schemas() == old(self).spec_schemas(),
            (forall|i: int| 0 <= i < old(self).spec_users().len()
                ==> (#[trigger] old(self).spec_users()[i].id) != user_id) ==> (
                r is Err && r->Err_0 is InvalidCredentials && final(self).spec_sessions() == old(
                    self,
                ).spec_sessions() && final(self).spec_last_session_id() == old(
                    self,
                ).spec_last_session_id()
            ),
            (exists|i: int| 0 <= i < old(self).spec_users().len()
                && (#[trigger] old(self).spec_users()[i].id) == user_id) ==> ({
                &&& r is Ok
                &&& r->Ok_0@.user_id == user_id
                &&& r->Ok_0@.id == old(self).spec_last_session_id() + 1
                &&& r->Ok_0@.permissions == permissions@
                &&& forall|i: int| 0 <= i < old(self).spec_users().len()
                    && (#[trigger] old(self).spec_users()[i].id) == user_id
                    ==> r->Ok_0@.username == old(self).spec_users()[i].username
                &&& final(self).spec_last_session_id() == old(self).spec_last_session_id() + 1
                &&& final(self).spec_sessions() =~= old(self).spec_sessions().push(r->Ok_0@)
                &&& forall|i: int| 0 <= i < old(self).spec_sessions().len()
                    ==> old(self).spec_sessions()[i].id != r->Ok_0@.id
            }),
    {
        let username = match self.user_position(user_id) {
            Some(i) => {
                proof { assert(self.spec_users()[i as int].id == user_id); }
                self.users[i].username.clone()
            },
            None => {
                return Err(Error::InvalidCredentials);
            },
        };
        self.last_session_id = self.last_session_id + 1;
        let session = Session { id: self.last_session_id, user_id, username, permissions };
        let stored = session.duplicate();
        let ghost before = self.sessions@;
        let ghost before_views = self.spec_sessions();
        self.sessions.push(stored);
        proof {
            assert(self.spec_sessions() =~= before_views.push(session@));
            assert forall|a: int, b: int| 0 <= a < b < self.sessions@.len() implies
                self.sessions@[a].id != self.sessions@[b].id by {
                if b < before.len() {
                    assert(self.sessions@[a] == before[a] && self.sessions@[b] == before[b]);
                } else {
                    assert(self.sessions@[a] == before[a]);
                }
            }
            assert forall|i: int| 0 <= i < before_views.len() implies
                before_views[i].id != session.id by {
                assert(before_views[i].id == before[i].id);
            }
        }
        Ok(session)
    }

    /// Ends a session: the entry leaves the table and every subscriber the
    /// session owned leaves the relay.
    pub fn end_session(&mut self, session_id: u64, relay: &mut Relay)
        requires
            old(self).wf(),
            old(relay).wf(),
        ensures
            final(self).wf(),
            final(relay).wf(),
            final(self).spec_databases() == old(self).spec_databases(),
            final(self).spec_users() == old(self).spec_users(),
            forall|i: int| 0 <= i < final(self).spec_sessions().len()
                ==> final(self).spec_sessions()[i].id != session_id,
            forall|i: int| 0 <= i < old(self).spec_sessions().len()
                && old(self).spec_sessions()[i].id != session_id
                ==> final(self).spec_sessions().contains(old(self).spec_sessions()[i]),
            final(relay)@ =~= crate::pubsub::without_session(old(relay)@, session_id),
    {
        let ghost before = self.sessions@;
        let mut i: usize = 0;
        let mut found: Option<usize> = None;
        while i < self.sessions.len() && found.is_none()
            invariant
                *self == *old(self),
                0 <= i <= self.sessions@.len(),
                found is None ==> forall|j: int| 0 <= j < i ==> self.sessions@[j].id
                    != session_id,
                match found {
                    Some(w) => w < self.sessions@.len() && self.sessions@[w as int].id
                        == session_id,
                    None => true,
                },
            decreases self.sessions@.len() - i, (if found is None { 1int } else { 0int }),
        {
            if self.sessions[i].id == session_id {
                found = Some(i);
            } else {
                i = i + 1;
            }
        }
        if let Some(w) = found {
            self.sessions.remove(w);
            proof {
                assert(self.sessions@ =~= before.remove(w as int));
                before.remove_ensures(w as int);
                assert forall|j: int| 0 <= j < self.sessions@.len() implies
                    self.sessions@[j].id != session_id by {
                    if j < w {
                        assert(self.sessions@[j] == before[j]);
                        assert(before[j].id != before[w as int].id);
                    } else {
                        assert(self.sessions@[j] == before[j + 1]);
                        assert(before[w as int].id != before[j + 1].id);
                    }
                }
                assert forall|j: int| 0 <= j < old(self).spec_sessions().len()
                    && old(self).spec_sessions()[j].id != session_id implies
                    self.spec_sessions().contains(old(self).spec_sessions()[j]) by {
                    assert(old(self).spec_sessions()[j] == before[j]@);
                    if j < w {
                        assert(self.sessions@[j] == before[j]);
                        assert(self.spec_sessions()[j] == before[j]@);
                    } else {
                        assert(before[j].id != before[w as int].id);
                        assert(self.sessions@[j - 1] == before[j]);
                        assert(self.spec_sessions()[j - 1] == before[j]@);
                    }
                }
            }
        } else {
            proof {
                assert forall|j: int| 0 <= j < self.spec_sessions().len()
                    && self.spec_sessions()[j].id != session_id implies
                    self.spec_sessions().contains(self.spec_sessions()[j]) by {
                    assert(self.spec_sessions()[j] == self.spec_sessions()[j]);
                }
            }
        }
        relay.purge_session(session_id);
    }

    /// Adds `group_id` to a user's permission groups; adding it twice is the
    /// same as once. A missing user is `UserNotFound`.
    pub fn add_permission_group_to_user(&mut self, user_id: u64, group_id: u64) -> (r: Result<
        (),
        Error,
    >)
        requires old(self).wf(),
        ensures
            final(self).wf(),
            final(self).spec_databases() == old(self).spec_databases(),
            final(self).spec_sessions() == old(self).spec_sessions(),
            final(self).spec_users().len() == old(self).spec_users().len(),
            (forall|j: int| 0 <= j < old(self).spec_users().len()
                ==> old(self).spec_users()[j].id != user_id) ==> (
                r is Err && r->Err_0 is UserNotFound && final(self).spec_users() == old(
                    self,
                ).spec_users()
            ),
            forall|i: int| 0 <= i < old(self).spec_users().len()
                && old(self).spec_users()[i].id == user_id ==> (
                r is Ok && (forall|j: int| 0 <= j < old(self).spec_users().len() && j != i
                    ==> final(self).spec_users()[j] == old(self).spec_users()[j]) && ({
                    let u = old(self).spec_users()[i];
                    if u.groups.contains(group_id) {
                        final(self).spec_users()[i] == u
                    } else {
                        final(self).spec_users()[i] == (UserV {
                            groups: u.groups.push(group_id),
                            ..u
                        })
                    }
                })
            ),
    {
        self.alter_membership(user_id, group_id, true, true)
    }

    /// Removes `group_id` from a user's permission groups; removing an absent
    /// group changes nothing. A missing user is `UserNotFound`.
    pub fn remove_permission_group_from_user(
        &mut self,
        user_id: u64,
        group_id: u64,
    ) -> (r: Result<(), Error>)
        requires old(self).wf(),
        ensures
            final(self).wf(),
            final(self).spec_databases() == old(self).spec_databases(),
            final(self).spec_sessions() == old(self).spec_sessions(),
            final(self).spec_users().len() == old(self).spec_users().len(),
            (forall|j: int| 0 <= j < old(self).spec_users().len()
                ==> old(self).spec_users()[j].id != user_id) ==> (
                r is Err && r->Err_0 is UserNotFound && final(self).spec_users() == old(
                    self,
                ).spec_users()
            ),
            forall|i: int| 0 <= i < old(self).spec_users().len()
                && old(self).spec_users()[i].id == user_id ==> (
                r is Ok && (forall|j: int| 0 <= j < old(self).spec_users().len() && j != i
                    ==> final(self).spec_users()[j] == old(self).spec_users()[j]) && ({
                    let u = old(self).spec_users()[i];
                    final(self).spec_users()[i] == (UserV {
                        groups: without_member(u.groups, group_id),
                        ..u
                    })
                })
            ),
    {
        self.alter_membership(user_id, group_id, true, false)
    }

    /// Adds `role_id` to a user's roles; adding it twice is the same as once.
    /// A missing user is `UserNotFound`.
    pub fn add_role_to_user(&mut self, user_id: u64, role_id: u64) -> (r: Result<(), Error>)
        requires old(self).wf(),
        ensures
            final(self).wf(),
            final(self).spec_databases() == old(self).spec_databases(),
            final(self).spec_sessions() == old(self).spec_sessions(),
            final(self).spec_users().len() == old(self).spec_users().len(),
            (forall|j: int| 0 <= j < old(self).spec_users().len()
                ==> old(self).spec_users()[j].id != user_id) ==> (
                r is Err && r->Err_0 is UserNotFound && final(self).spec_users() == old(
                    self,
                ).spec_users()
            ),
            forall|i: int| 0 <= i < old(self).spec_users().len()
                && old(self).spec_users()[i].id == user_id ==> (
                r is Ok && (forall|j: int| 0 <= j < old(self).spec_users().len() && j != i
                    ==> final(self).spec_users()[j] == old(self).spec_users()[j]) && ({
                    let u = old(self).spec_users()[i];
                    if u.roles.contains(role_id) {
                        final(self).spec_users()[i] == u
                    } else {
                        final(self).spec_users()[i] == (UserV {
                            roles: u.roles.push(role_id),
                            ..u
                        })
                    }
                })
            ),
    {
        self.alter_membership(user_id, role_id, false, true)
    }

    /// Removes `role_id` from a user's roles; removing an absent role changes
    /// nothing. A missing user is `UserNotFound`.
    pub fn remove_role_from_user(&mut self, user_id: u64, role_id: u64) -> (r: Result<(), Error>)
        requires old(self).wf(),
        ensures
            final(self).wf(),
            final(self).spec_databases() == old(self).spec_databases(),
            final(self).spec_sessions() == old(self).spec_sessions(),
            final(self).spec_users().len() == old(self).spec_users().len(),
            (forall|j: int| 0 <= j < old(self).spec_users().len()
                ==> old(self).spec_users()[j].id != user_id) ==> (
                r is Err && r->Err_0 is UserNotFound && final(self).spec_users() == old(
                    self,
                ).spec_users()
            ),
            forall|i: int| 0 <= i < old(self).spec_users().len()
                && old(self).spec_users()[i].id == user_id ==> (
                r is Ok && (forall|j: int| 0 <= j < old(self).spec_users().len() && j != i
                    ==> final(self).spec_users()[j] == old(self).spec_users()[j]) && ({
                    let u = old(self).spec_users()[i];
                    final(self).spec_users()[i] == (UserV {
                        roles: without_member(u.roles, role_id),
                        ..u
                    })
                })
            ),
    {
        self.alter_membership(user_id, role_id, false, false)
    }

    /// The shared body of the four membership mutations.
    fn alter_membership(
        &mut self,
        user_id: u64,
        member_id: u64,
        groups: bool,
        add: bool,
    ) -> (r: Result<(), Error>)
        requires old(self).wf(),
        ensures
            final(self).wf(),
            final(self).spec_databases() == old(self).spec_databases(),
            final(self).spec_sessions() == old(self).spec_sessions(),
            final(self).spec_users().len() == old(self).spec_users().len(),
            (forall|j: int| 0 <= j < old(self).spec_users().len()
                ==> old(self).spec_users()[j].id != user_id) ==> (
                r is Err && r->Err_0 is UserNotFound && final(self).spec_users() == old(
                    self,
                ).spec_users()
            ),
            forall|i: int| 0 <= i < old(self).spec_users().len()
                && old(self).spec_users()[i].id == user_id ==> (
                r is Ok && (forall|j: int| 0 <= j < old(self).spec_users().len() && j != i
                    ==> final(self).spec_users()[j] == old(self).spec_users()[j]) && ({
                    let u = old(self).spec_users()[i];
                    let members = if groups { u.groups } else { u.roles };
                    let updated = if add {
                        if members.contains(member_id) {
                            members
                        } else {
                            members.push(member_id)
                        }
                    } else {
                        without_member(members, member_id)
                    };
                    if groups {
                        final(self).spec_users()[i] == (UserV { groups: updated, ..u })
                    } else {
                        final(self).spec_users()[i] == (UserV { roles: updated, ..u })
                    }
                })
            ),
    {
        let ghost before = self.users@;
        match self.user_position(user_id) {
            Some(i) => {
                proof { assert(self.spec_users()[i as int].id == user_id); }
                let mut record = self.users.remove(i);
                let ghost record_before = record;
                if groups {
                    alter_ids(&mut record.groups, member_id, add);
                    proof {
                        assert(record@ == UserV { groups: record@.groups, ..record_before@ });
                    }
                } else {
                    alter_ids(&mut record.roles, member_id, add);
                    proof {
                        assert(record@ == UserV { roles: record@.roles, ..record_before@ });
                    }
                }
                self.users.insert(i, record);
                proof {
                    before.remove_ensures(i as int);
                    before.remove(i as int).insert_ensures(i as int, record);
                    assert(self.users@ =~= before.remove(i as int).insert(i as int, record));
                    assert forall|j: int| 0 <= j < before.len() && j != i implies
                        self.users@[j] == before[j] by {
                        if j < i {
                            assert(self.users@[j] == before.remove(i as int)[j]);
                        } else {
                            assert(self.users@[(j - 1) + 1] == before.remove(i as int)[j - 1]);
                            assert(before.remove(i as int)[j - 1] == before[(j - 1) + 1]);
                        }
                    }
                    assert(self.users@[i as int] == record);
                    assert forall|a: int, b: int| 0 <= a < b < self.users@.len() implies
                        self.users@[a].id != self.users@[b].id by {
                        assert(self.users@[a].id == before[a].id);
                        assert(self.users@[b].id == before[b].id);
                    }
                    assert forall|j: int| 0 <= j < self.users@.len() implies
                        #[trigger] self.users@[j].id < self.next_user_id by {
                        assert(self.users@[j].id == before[j].id);
                    }
                }
                Ok(())
            },
            None => Err(Error::UserNotFound),
        }
    }
}

/// The membership list without `member_id`.
pub open spec fn without_member(s: Seq<u64>, member_id: u64) -> Seq<u64> {
    s.filter(|g: u64| g != member_id)
}

/// Adds `member_id` (if absent) to or removes every occurrence of it from a
/// membership list.
fn alter_ids(ids: &mut Vec<u64>, member_id: u64, add: bool)
    ensures
        add && old(ids)@.contains(member_id) ==> final(ids)@ == old(ids)@,
        add && !old(ids)@.contains(member_id) ==> final(ids)@ == old(ids)@.push(member_id),
        !add ==> final(ids)@ == without_member(old(ids)@, member_id),
{
    if add {
        let mut i: usize = 0;
        while i < ids.len()
            invariant
                add,
                *ids == *old(ids),
                0 <= i <= ids@.len(),
                forall|j: int| 0 <= j < i ==> ids@[j] != member_id,
            decreases ids@.len() - i,
        {
            if ids[i] == member_id {
                return;
            }
            i = i + 1;
        }
        ids.push(member_id);
    } else {
        let mut kept: Vec<u64> = Vec::new();
        let mut i: usize = 0;
        while i < ids.len()
            invariant
                *ids == *old(ids),
                0 <= i <= ids@.len(),
                kept@ == without_member(ids@.take(i as int), member_id),
            decreases ids@.len() - i,
        {
            let g = ids[i];
            proof {
                assert(ids@.take(i + 1 as int).drop_last() =~= ids@.take(i as int));
                assert(ids@.take(i + 1 as int).last() == ids@[i as int]);
                reveal_with_fuel(Seq::filter, 2);
                assert(without_member(ids@.take(i + 1 as int), member_id) == if ids@[i as int]
                    != member_id {
                    without_member(ids@.take(i as int), member_id).push(ids@[i as int])
                } else {
                    without_member(ids@.take(i as int), member_id)
                });
            }
            if g != member_id {
                kept.push(g);
            }
            i = i + 1;
        }
        proof {
            assert(ids@.take(ids@.len() as int) =~= ids@);
        }
        *ids = kept;
    }
}

/// The storage operations that are safe without the blocking pool.
pub trait StorageNonBlocking {
    /// The directory the storage keeps its data under.
    fn path(&self) -> &str;
}

impl StorageNonBlocking for Storage {
    /// The directory this instance was opened at.
    fn path(&self) -> (r: &str)
        ensures r@ == self.spec_path(),
    {
        self.path.as_str()
    }
}

/// The outcome of looking up or creating the instance id: the id, and the
/// file contents to persist when a fresh id was drawn.
pub struct ServerIdOutcome {
    pub id: StorageId,
    pub file_to_write: Option<Vec<u8>>,
}

/// The load-or-create step of opening a storage: a configured id wins and is
/// not persisted; otherwise the persisted numeral is parsed, a corrupt file
/// aborts the open, and a missing file draws a random id to be persisted.
pub fn lookup_or_create_id(configured: Option<u64>, file: Option<&Vec<u8>>) -> (r: Result<
    ServerIdOutcome,
    Error,
>)
    ensures
        match configured {
            Some(id) => r is Ok && r->Ok_0.id == StorageId(id) && r->Ok_0.file_to_write is None,
            None => match file {
                Some(bytes) => {
                    if bytes@.len() > 0 && all_digits(bytes@) && decimal_value(bytes@)
                        <= u64::MAX {
                        r is Ok && r->Ok_0.id == StorageId(decimal_value(bytes@) as u64)
                            && r->Ok_0.file_to_write is None
                    } else {
                        r is Err && r->Err_0 is Configuration
                    }
                },
                None => r is Ok && r->Ok_0.file_to_write is Some
                    && r->Ok_0.file_to_write->0@.len() > 0 && all_digits(
                    r->Ok_0.file_to_write->0@,
                ) && decimal_value(r->Ok_0.file_to_write->0@) == r->Ok_0.id.0,
            },
        },
{
    match configured {
        Some(id) => Ok(ServerIdOutcome { id: StorageId(id), file_to_write: None }),
        None => {
            match file {
                Some(bytes) => {
                    match parse_server_id(bytes.as_slice()) {
                        Some(id) => Ok(
                            ServerIdOutcome { id: StorageId(id), file_to_write: None },
                        ),
                        None => {
                            proof { reveal_strlit("server-id file is not a u64 numeral"); }
                            Err(Error::Configuration(
                                <String as StringExecFns>::from_str(
                                    "server-id file is not a u64 numeral",
                                ),
                            ))
                        },
                    }
                },
                None => {
                    let id: u64 = rand::random::<u64>();
                    let contents = format_server_id(id);
                    Ok(
                        ServerIdOutcome {
                            id: StorageId(id),
                            file_to_write: Some(contents),
                        },
                    )
                },
            }
        },
    }
}

} // verus!
