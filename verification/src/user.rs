//! User accounts: password hashes and the sender addresses each user may send as.

use crate::text::{ends_with, spec_str_to_lowercase, text_eq, text_ends_with, to_lowercase};
use crate::text_set::{texts, TextSet};
use argon2::{Argon2, PasswordHasher, PasswordVerifier};
use vstd::prelude::*;

verus! {

/// Why a user operation failed.
#[derive(Clone, Copy, Debug, PartialEq, Eq, Structural)]
pub enum UserError {
    /// No user of that name is configured.
    UserNotFound,
    /// The password could not be hashed.
    PasswordHashFailed,
    /// The password does not match the user's password hash.
    InvalidPassword,
    /// The user may not send as the given address.
    SendAsNotAllowed,
    /// A stored password hash is not a PHC string.
    InvalidPasswordHash,
}

/// What the library knows of a user: the PHC string of the password hash, and the
/// sender entries (exact addresses or `*@domain` patterns) the user may send as.
pub struct UserRecord {
    pub password_hash: Seq<char>,
    pub send_as: Set<Seq<char>>,
}

/// Does Argon2 accept `password` against the password hash in PHC string form?
pub uninterp spec fn spec_password_matches(password: Seq<char>, phc_hash: Seq<char>) -> bool;

/// Is the text a password hash in PHC string form?
pub uninterp spec fn spec_is_phc_string(text: Seq<char>) -> bool;

#[verifier::external_type_specification]
#[verifier::external_body]
pub struct ExPasswordHashError(password_hash::Error);

/// Calls `argon2::PasswordHash::new` (the PHC string parser of the `phc` crate);
/// `true` when the text parses. The result is named `spec_is_phc_string`.
#[verifier::external_body]
fn is_phc_string(text: &str) -> (r: bool)
    ensures
        r == spec_is_phc_string(text@),
{
    argon2::PasswordHash::new(text).is_ok()
}

/// Calls `PasswordHasher::hash_password` of the default `argon2::Argon2` context on
/// the bytes of `password` and gives the PHC string of the hash. The salt is drawn
/// at random, so the hash itself is not named; the contract claims only that
/// `verify_password` accepts the password against a hash made here, and that the
/// displayed hash parses back as a PHC string.
#[verifier::external_body]
fn hash_password(password: &str) -> (r: Result<String, password_hash::Error>)
    ensures
        r matches Ok(hash) ==> spec_password_matches(password@, hash@),
        r matches Ok(hash) ==> spec_is_phc_string(hash@),
{
    match Argon2::default().hash_password(password.as_bytes()) {
        Ok(hash) => Ok(hash.to_string()),
        Err(e) => Err(e),
    }
}

/// Calls `PasswordVerifier::<str>::verify_password` of the default `argon2::Argon2`
/// context with the bytes of `password` and a PHC string; `true` when it returns
/// `Ok`. The result is named `spec_password_matches`.
#[verifier::external_body]
fn verify_password(password: &str, phc_hash: &str) -> (r: bool)
    ensures
        r == spec_password_matches(password@, phc_hash@),
{
    Argon2::default().verify_password(password.as_bytes(), phc_hash).is_ok()
}

/// Does a lower-cased sender entry permit a lower-cased sender address? The entry
/// `*@*` permits every address; a whole-domain entry `*@domain` permits every address
/// that ends with `@domain`; any other entry permits exactly itself.
pub open spec fn entry_permits(entry: Seq<char>, sender: Seq<char>) -> bool {
    if entry.len() >= 2 && entry[0] == '*' && entry[1] == '@' {
        entry.skip(2) == "*"@ || ends_with(sender, "@"@ + entry.skip(2))
    } else {
        entry == sender
    }
}

/// Whether `username` may send as `sender` under `users`: always as the username
/// itself, else as what one of the user's sender entries permits, all compared in
/// lower case.
pub open spec fn send_as_verdict(users: Map<Seq<char>, UserRecord>, username: Seq<char>, sender: Seq<char>) -> Result<(), UserError> {
    if spec_str_to_lowercase(sender) == spec_str_to_lowercase(username) {
        Ok(())
    } else if !users.contains_key(username) {
        Err(UserError::UserNotFound)
    } else if exists|entry: Seq<char>|
        users[username].send_as.contains(entry) && entry_permits(
            #[trigger] spec_str_to_lowercase(entry),
            spec_str_to_lowercase(sender),
        ) {
        Ok(())
    } else {
        Err(UserError::SendAsNotAllowed)
    }
}

/// Whether `password` is the password of `username` under `users`.
pub open spec fn password_verdict(users: Map<Seq<char>, UserRecord>, username: Seq<char>, password: Seq<char>) -> Result<(), UserError> {
    if !users.contains_key(username) {
        Err(UserError::UserNotFound)
    } else if spec_password_matches(password, users[username].password_hash) {
        Ok(())
    } else {
        Err(UserError::InvalidPassword)
    }
}

/// Does a lower-cased sender entry permit a lower-cased sender address?
pub fn sender_entry_permits(entry: &str, sender: &str) -> (r: bool)
    ensures
        r == entry_permits(entry@, sender@),
{
    let n = entry.unicode_len();
    if n >= 2 && entry.get_char(0) == '*' && entry.get_char(1) == '@' {
        let domain = entry.substring_char(2, n);
        if text_eq(domain, "*") {
            true
        } else {
            let mut suffix = String::from_str("@");
            suffix.append(domain);
            text_ends_with(sender, suffix.as_str())
        }
    } else {
        text_eq(entry, sender)
    }
}

/// One configured user.
#[derive(Debug)]
struct UserEntry {
    name: String,
    password_hash: String,
    send_as: TextSet,
}

spec fn entry_record(entry: UserEntry) -> UserRecord {
    UserRecord { password_hash: entry.password_hash@, send_as: entry.send_as@ }
}

spec fn has_name(entries: Seq<UserEntry>, name: Seq<char>, i: int) -> bool {
    0 <= i < entries.len() && entries[i].name@ == name
}

spec fn names_unique(entries: Seq<UserEntry>) -> bool {
    forall|i: int, j: int| 0 <= i < entries.len() && 0 <= j < entries.len() && i != j ==> entries[i].name@ != entries[j].name@
}

/// Names are unique and every password hash is a PHC string.
spec fn entries_wf(entries: Seq<UserEntry>) -> bool {
    &&& names_unique(entries)
    &&& forall|i: int| 0 <= i < entries.len() ==> spec_is_phc_string(#[trigger] entries[i].password_hash@)
}

spec fn users_map(entries: Seq<UserEntry>) -> Map<Seq<char>, UserRecord> {
    Map::new(
        |name: Seq<char>| exists|i: int| has_name(entries, name, i),
        |name: Seq<char>| entry_record(entries[choose|i: int| has_name(entries, name, i)]),
    )
}

proof fn lemma_users_map_at(entries: Seq<UserEntry>, i: int)
    requires
        names_unique(entries),
        0 <= i < entries.len(),
    ensures
        users_map(entries).contains_key(entries[i].name@),
        users_map(entries)[entries[i].name@] == entry_record(entries[i]),
{
    let name = entries[i].name@;
    assert(has_name(entries, name, i));
    let j = choose|j: int| has_name(entries, name, j);
    assert(j == i);
}

proof fn lemma_users_map_push(entries: Seq<UserEntry>, entry: UserEntry)
    requires
        names_unique(entries),
        !users_map(entries).contains_key(entry.name@),
    ensures
        names_unique(entries.push(entry)),
        users_map(entries.push(entry)) == users_map(entries).insert(entry.name@, entry_record(entry)),
{
    let grown = entries.push(entry);
    assert forall|i: int| 0 <= i < entries.len() implies grown[i].name@ != entry.name@ by {
        assert(has_name(entries, entries[i].name@, i));
    }
    assert(names_unique(grown));
    assert forall|name: Seq<char>| #[trigger] users_map(grown).contains_key(name) <==> users_map(entries).insert(entry.name@, entry_record(entry)).contains_key(name) by {
        if users_map(grown).contains_key(name) {
            let i = choose|i: int| has_name(grown, name, i);
            if i < entries.len() {
                assert(has_name(entries, name, i));
            }
        }
        if users_map(entries).contains_key(name) {
            let i = choose|i: int| has_name(entries, name, i);
            assert(has_name(grown, name, i));
        }
        if name == entry.name@ {
            assert(has_name(grown, name, entries.len() as int));
        }
    }
    assert forall|name: Seq<char>| #[trigger] users_map(grown).contains_key(name) implies users_map(grown)[name] == users_map(entries).insert(entry.name@, entry_record(entry))[name] by {
        let i = choose|i: int| has_name(grown, name, i);
        lemma_users_map_at(grown, i);
        if i < entries.len() {
            lemma_users_map_at(entries, i);
        }
    }
    assert(users_map(grown) =~= users_map(entries).insert(entry.name@, entry_record(entry)));
}

proof fn lemma_users_map_update(entries: Seq<UserEntry>, i: int, entry: UserEntry)
    requires
        names_unique(entries),
        0 <= i < entries.len(),
        entry.name@ == entries[i].name@,
    ensures
        names_unique(entries.update(i, entry)),
        users_map(entries.update(i, entry)) == users_map(entries).insert(entry.name@, entry_record(entry)),
{
    let changed = entries.update(i, entry);
    assert(names_unique(changed)) by {
        assert forall|a: int, b: int| 0 <= a < changed.len() && 0 <= b < changed.len() && a != b implies changed[a].name@ != changed[b].name@ by {
            assert(changed[a].name@ == entries[a].name@);
            assert(changed[b].name@ == entries[b].name@);
        }
    }
    assert forall|name: Seq<char>| #[trigger] users_map(changed).contains_key(name) <==> users_map(entries).insert(entry.name@, entry_record(entry)).contains_key(name) by {
        if users_map(changed).contains_key(name) {
            let k = choose|k: int| has_name(changed, name, k);
            assert(has_name(entries, name, k));
        }
        if users_map(entries).contains_key(name) {
            let k = choose|k: int| has_name(entries, name, k);
            assert(has_name(changed, name, k));
        }
        if name == entry.name@ {
            assert(has_name(changed, name, i));
        }
    }
    assert forall|name: Seq<char>| #[trigger] users_map(changed).contains_key(name) implies users_map(changed)[name] == users_map(entries).insert(entry.name@, entry_record(entry))[name] by {
        let k = choose|k: int| has_name(changed, name, k);
        lemma_users_map_at(changed, k);
        if k != i {
            lemma_users_map_at(entries, k);
        }
    }
    assert(users_map(changed) =~= users_map(entries).insert(entry.name@, entry_record(entry)));
}

proof fn lemma_users_map_remove(entries: Seq<UserEntry>, i: int)
    requires
        names_unique(entries),
        0 <= i < entries.len(),
    ensures
        names_unique(entries.remove(i)),
        users_map(entries.remove(i)) == users_map(entries).remove(entries[i].name@),
{
    let shrunk = entries.remove(i);
    let gone = entries[i].name@;
    assert forall|k: int| 0 <= k < shrunk.len() implies #[trigger] shrunk[k] == entries[if k < i { k } else { k + 1 }] by {}
    assert(names_unique(shrunk)) by {
        assert forall|a: int, b: int| 0 <= a < shrunk.len() && 0 <= b < shrunk.len() && a != b implies shrunk[a].name@ != shrunk[b].name@ by {
            assert(shrunk[a] == entries[if a < i { a } else { a + 1 }]);
            assert(shrunk[b] == entries[if b < i { b } else { b + 1 }]);
        }
    }
    assert forall|name: Seq<char>| #[trigger] users_map(shrunk).contains_key(name) <==> users_map(entries).remove(gone).contains_key(name) by {
        if users_map(shrunk).contains_key(name) {
            let k = choose|k: int| has_name(shrunk, name, k);
            let m = if k < i { k } else { k + 1 };
            assert(shrunk[k] == entries[m]);
            assert(has_name(entries, name, m));
            assert(m != i);
        }
        if users_map(entries).contains_key(name) && name != gone {
            let k = choose|k: int| has_name(entries, name, k);
            assert(k != i);
            let m = if k < i { k } else { k - 1 };
            assert(shrunk[m] == entries[k]);
            assert(has_name(shrunk, name, m));
        }
    }
    assert forall|name: Seq<char>| #[trigger] users_map(shrunk).contains_key(name) implies users_map(shrunk)[name] == users_map(entries).remove(gone)[name] by {
        let k = choose|k: int| has_name(shrunk, name, k);
        let m = if k < i { k } else { k + 1 };
        assert(shrunk[k] == entries[m]);
        lemma_users_map_at(shrunk, k);
        lemma_users_map_at(entries, m);
    }
    assert(users_map(shrunk) =~= users_map(entries).remove(gone));
}

/// A user in stored form: the name, the PHC string of the password hash, and the
/// allowed sender entries.
#[derive(Debug)]
pub struct StoredUser {
    pub name: String,
    pub password_hash: String,
    pub send_as: Vec<String>,
}

/// What the library knows of a stored user.
pub open spec fn stored_record(user: StoredUser) -> UserRecord {
    UserRecord { password_hash: user.password_hash@, send_as: texts(user.send_as@).to_set() }
}

/// The users that a list of stored users describes; a later entry for a name replaces
/// an earlier one.
pub open spec fn stored_users_map(stored: Seq<StoredUser>) -> Map<Seq<char>, UserRecord>
    decreases stored.len(),
{
    if stored.len() == 0 {
        Map::empty()
    } else {
        stored_users_map(stored.drop_last()).insert(stored.last().name@, stored_record(stored.last()))
    }
}

/// `stored` lists every user of `users` once, with its record and a PHC password hash.
pub open spec fn stored_describes(stored: Seq<StoredUser>, users: Map<Seq<char>, UserRecord>) -> bool {
    &&& forall|i: int, j: int| 0 <= i < j < stored.len() ==> stored[i].name@ != stored[j].name@
    &&& forall|i: int|
        0 <= i < stored.len() ==> users.contains_key(#[trigger] stored[i].name@) && users[stored[i].name@]
            == stored_record(stored[i]) && spec_is_phc_string(stored[i].password_hash@)
    &&& forall|name: Seq<char>| users.contains_key(name) ==> exists|i: int| 0 <= i < stored.len() && #[trigger] stored[i].name@ == name
}

/// Storing and restoring gives back the users: a list that describes `users` restores
/// to exactly `users`, and every hash in it is a PHC string.
pub proof fn lemma_stored_users_restore(stored: Seq<StoredUser>, users: Map<Seq<char>, UserRecord>)
    requires
        stored_describes(stored, users),
    ensures
        stored_users_map(stored) == users,
        forall|i: int| 0 <= i < stored.len() ==> spec_is_phc_string(#[trigger] stored[i].password_hash@),
    decreases stored.len(),
{
    if stored.len() == 0 {
        assert forall|name: Seq<char>| !users.contains_key(name) by {
            if users.contains_key(name) {
                let i = choose|i: int| 0 <= i < stored.len() && #[trigger] stored[i].name@ == name;
            }
        }
        assert(users =~= Map::<Seq<char>, UserRecord>::empty());
    } else {
        let rest = stored.drop_last();
        let last = stored.last();
        let n = stored.len() - 1;
        let fewer = users.remove(last.name@);
        assert(stored[n] == last);
        assert forall|i: int| 0 <= i < rest.len() implies fewer.contains_key(#[trigger] rest[i].name@) && fewer[rest[i].name@]
            == stored_record(rest[i]) && spec_is_phc_string(rest[i].password_hash@) by {
            assert(rest[i] == stored[i]);
            assert(stored[i].name@ != stored[n].name@);
        }
        assert forall|name: Seq<char>| fewer.contains_key(name) implies exists|i: int| 0 <= i < rest.len() && #[trigger] rest[i].name@ == name by {
            let i = choose|i: int| 0 <= i < stored.len() && #[trigger] stored[i].name@ == name;
            assert(i != n);
            assert(rest[i] == stored[i]);
        }
        assert forall|i: int, j: int| 0 <= i < j < rest.len() implies rest[i].name@ != rest[j].name@ by {
            assert(rest[i] == stored[i]);
            assert(rest[j] == stored[j]);
        }
        lemma_stored_users_restore(rest, fewer);
        assert(stored_users_map(stored) =~= users);
    }
}

/// Two lists of entries with the same names and records at every position describe
/// the same users.
proof fn lemma_users_map_same_records(a: Seq<UserEntry>, b: Seq<UserEntry>)
    requires
        names_unique(a),
        a.len() == b.len(),
        forall|i: int| 0 <= i < a.len() ==> #[trigger] a[i].name@ == b[i].name@ && entry_record(a[i]) == entry_record(b[i]),
    ensures
        names_unique(b),
        users_map(a) == users_map(b),
{
    assert(names_unique(b)) by {
        assert forall|i: int, j: int| 0 <= i < b.len() && 0 <= j < b.len() && i != j implies b[i].name@ != b[j].name@ by {
            assert(a[i].name@ == b[i].name@);
            assert(a[j].name@ == b[j].name@);
        }
    }
    assert forall|name: Seq<char>| #[trigger] users_map(a).contains_key(name) <==> users_map(b).contains_key(name) by {
        if users_map(a).contains_key(name) {
            let k = choose|k: int| has_name(a, name, k);
            assert(a[k].name@ == b[k].name@);
            assert(has_name(b, name, k));
        }
        if users_map(b).contains_key(name) {
            let k = choose|k: int| has_name(b, name, k);
            assert(a[k].name@ == b[k].name@);
            assert(has_name(a, name, k));
        }
    }
    assert forall|name: Seq<char>| #[trigger] users_map(a).contains_key(name) implies users_map(a)[name] == users_map(b)[name] by {
        let k = choose|k: int| has_name(a, name, k);
        assert(a[k].name@ == b[k].name@);
        lemma_users_map_at(a, k);
        lemma_users_map_at(b, k);
    }
    assert(users_map(a) =~= users_map(b));
}

/// The configured users.
#[derive(Debug)]
pub struct UserList {
    users: Vec<UserEntry>,
}

impl Clone for UserList {
    fn clone(&self) -> (r: Self)
        ensures
            r@ == self@,
    {
        proof {
            use_type_invariant(self);
        }
        let n = self.users.len();
        let mut users: Vec<UserEntry> = Vec::new();
        let mut i: usize = 0;
        while i < n
            invariant
                n == self.users@.len(),
                i <= n,
                users@.len() == i,
                forall|j: int| 0 <= j < i ==> #[trigger] users@[j].name@ == self.users@[j].name@ && entry_record(users@[j]) == entry_record(self.users@[j]),
            decreases n - i,
        {
            let entry = &self.users[i];
            users.push(UserEntry {
                name: entry.name.clone(),
                password_hash: entry.password_hash.clone(),
                send_as: entry.send_as.clone(),
            });
            i = i + 1;
        }
        proof {
            use_type_invariant(self);
            lemma_users_map_same_records(self.users@, users@);
            assert forall|j: int| 0 <= j < users@.len() implies spec_is_phc_string(#[trigger] users@[j].password_hash@) by {
                assert(users@[j].name@ == self.users@[j].name@);
                assert(entry_record(users@[j]) == entry_record(self.users@[j]));
                assert(spec_is_phc_string(self.users@[j].password_hash@));
            }
        }
        UserList { users }
    }
}

impl View for UserList {
    type V = Map<Seq<char>, UserRecord>;

    /// The users by name.
    closed spec fn view(&self) -> Map<Seq<char>, UserRecord> {
        users_map(self.users@)
    }
}

impl Default for UserList {
    /// A UserList without any users.
    fn default() -> (r: Self)
        ensures
            r@ == Map::<Seq<char>, UserRecord>::empty(),
    {
        let r = UserList { users: Vec::new() };
        assert(r@ =~= Map::<Seq<char>, UserRecord>::empty());
        r
    }
}

impl UserList {
    #[verifier::type_invariant]
    closed spec fn wf(self) -> bool {
        entries_wf(self.users@)
    }

    /// The position of the user named `username`, if there is one.
    fn position(&self, username: &str) -> (r: Option<usize>)
        ensures
            match r {
                Some(i) => i < self.users@.len() && self.users@[i as int].name@ == username@,
                None => !self@.contains_key(username@),
            },
    {
        let n = self.users.len();
        let mut i: usize = 0;
        while i < n
            invariant
                n == self.users@.len(),
                i <= n,
                forall|j: int| 0 <= j < i ==> self.users@[j].name@ != username@,
            decreases n - i,
        {
            if text_eq(self.users[i].name.as_str(), username) {
                return Some(i);
            }
            i = i + 1;
        }
        None
    }

    /// Add or update the user `username` with a password hash in PHC string form; an
    /// existing user keeps their sender entries.
    fn store_password_hash(&mut self, username: &str, password_hash: &str)
        requires
            spec_is_phc_string(password_hash@),
        ensures
            final(self)@ == old(self)@.insert(username@, UserRecord {
                password_hash: password_hash@,
                send_as: if old(self)@.contains_key(username@) {
                    old(self)@[username@].send_as
                } else {
                    Set::empty()
                },
            }),
    {
        proof {
            use_type_invariant(&*self);
        }
        let ghost before = self.users@;
        let found = self.position(username);
        let mut users = Vec::new();
        std::mem::swap(&mut users, &mut self.users);
        match found {
            Some(i) => {
                proof {
                    lemma_users_map_at(before, i as int);
                }
                let mut entry = users.remove(i);
                entry.password_hash = String::from_str(password_hash);
                users.insert(i, entry);
                assert(users@ =~= before.update(i as int, entry));
                proof {
                    lemma_users_map_update(before, i as int, entry);
                }
            },
            None => {
                let entry = UserEntry {
                    name: String::from_str(username),
                    password_hash: String::from_str(password_hash),
                    send_as: TextSet::new(),
                };
                users.push(entry);
                proof {
                    lemma_users_map_push(before, entry);
                }
            },
        }
        self.users = users;
    }

    /// Add or update the user `username` with the password hash `password_hash`, which
    /// must be in PHC string form; an existing user keeps their sender entries. Fails,
    /// changing nothing, when the hash is not a PHC string.
    pub fn set_user_password_hash(&mut self, username: &str, password_hash: &str) -> (r: Result<(), UserError>)
        ensures
            r is Ok <==> spec_is_phc_string(password_hash@),
            r matches Err(e) ==> e == UserError::InvalidPasswordHash && final(self)@ == old(self)@,
            r is Ok ==> final(self)@ == old(self)@.insert(username@, UserRecord {
                password_hash: password_hash@,
                send_as: if old(self)@.contains_key(username@) {
                    old(self)@[username@].send_as
                } else {
                    Set::empty()
                },
            }),
    {
        if is_phc_string(password_hash) {
            self.store_password_hash(username, password_hash);
            Ok(())
        } else {
            Err(UserError::InvalidPasswordHash)
        }
    }

    /// Add a user, or set the password of an existing user, who keeps their sender
    /// entries. The password is stored as an Argon2 hash that the password verifies
    /// against. If hashing fails, nothing changes.
    pub fn set_user_password(&mut self, username: &str, password: &str) -> (r: Result<(), UserError>)
        ensures
            r matches Err(e) ==> e == UserError::PasswordHashFailed && final(self)@ == old(self)@,
            r is Ok ==> exists|hash: Seq<char>|
                final(self)@ == old(self)@.insert(username@, UserRecord {
                    password_hash: hash,
                    send_as: if old(self)@.contains_key(username@) {
                        old(self)@[username@].send_as
                    } else {
                        Set::empty()
                    },
                }) && spec_password_matches(password@, hash),
            r is Ok ==> password_verdict(final(self)@, username@, password@) == Ok::<(), UserError>(()),
    {
        match hash_password(password) {
            Ok(hash) => {
                self.store_password_hash(username, hash.as_str());
                Ok(())
            },
            Err(_) => Err(UserError::PasswordHashFailed),
        }
    }

    /// Add a stored user, replacing any user of that name with all their entries. Fails,
    /// changing nothing, when the hash is not a PHC string.
    pub fn insert_stored_user(&mut self, username: &str, password_hash: &str, send_as: &Vec<String>) -> (r: Result<(), UserError>)
        ensures
            r is Ok <==> spec_is_phc_string(password_hash@),
            r matches Err(e) ==> e == UserError::InvalidPasswordHash && final(self)@ == old(self)@,
            r is Ok ==> final(self)@ == old(self)@.insert(username@, UserRecord {
                password_hash: password_hash@,
                send_as: texts(send_as@).to_set(),
            }),
    {
        proof {
            use_type_invariant(&*self);
        }
        if !is_phc_string(password_hash) {
            return Err(UserError::InvalidPasswordHash);
        }
        let n = send_as.len();
        let mut senders = TextSet::new();
        let mut i: usize = 0;
        while i < n
            invariant
                n == send_as@.len(),
                i <= n,
                senders@ == texts(send_as@.take(i as int)).to_set(),
            decreases n - i,
        {
            senders.insert(send_as[i].as_str());
            proof {
                assert(texts(send_as@.take(i + 1)) =~= texts(send_as@.take(i as int)).push(send_as@[i as int]@));
                texts(send_as@.take(i as int)).lemma_push_to_set_commute(send_as@[i as int]@);
            }
            i = i + 1;
        }
        assert(send_as@.take(n as int) =~= send_as@);
        let entry = UserEntry {
            name: String::from_str(username),
            password_hash: String::from_str(password_hash),
            send_as: senders,
        };
        let ghost before = self.users@;
        let found = self.position(username);
        let mut users = Vec::new();
        std::mem::swap(&mut users, &mut self.users);
        match found {
            Some(i) => {
                users.set(i, entry);
                proof {
                    lemma_users_map_update(before, i as int, entry);
                }
            },
            None => {
                users.push(entry);
                proof {
                    lemma_users_map_push(before, entry);
                }
            },
        }
        self.users = users;
        Ok(())
    }

    /// The users in stored form, each once.
    pub fn to_stored(&self) -> (stored: Vec<StoredUser>)
        ensures
            stored_describes(stored@, self@),
    {
        proof {
            use_type_invariant(self);
        }
        let n = self.users.len();
        let mut stored: Vec<StoredUser> = Vec::new();
        let mut i: usize = 0;
        while i < n
            invariant
                n == self.users@.len(),
                i <= n,
                stored@.len() == i,
                forall|j: int| 0 <= j < i ==> #[trigger] stored@[j].name@ == self.users@[j].name@
                    && stored_record(stored@[j]) == entry_record(self.users@[j])
                    && stored@[j].password_hash@ == self.users@[j].password_hash@,
            decreases n - i,
        {
            let entry = &self.users[i];
            let items = entry.send_as.items();
            let senders = items.clone();
            assert(senders@ =~= items@);
            stored.push(StoredUser {
                name: entry.name.clone(),
                password_hash: entry.password_hash.clone(),
                send_as: senders,
            });
            i = i + 1;
        }
        proof {
            use_type_invariant(self);
            assert forall|a: int, b: int| 0 <= a < b < stored@.len() implies stored@[a].name@ != stored@[b].name@ by {
                assert(stored@[a].name@ == self.users@[a].name@);
                assert(stored@[b].name@ == self.users@[b].name@);
            }
            assert forall|j: int| 0 <= j < stored@.len() implies self@.contains_key(#[trigger] stored@[j].name@)
                && self@[stored@[j].name@] == stored_record(stored@[j]) && spec_is_phc_string(stored@[j].password_hash@) by {
                assert(stored@[j].name@ == self.users@[j].name@);
                lemma_users_map_at(self.users@, j);
            }
            assert forall|name: Seq<char>| self@.contains_key(name) implies exists|j: int| 0 <= j < stored@.len() && #[trigger] stored@[j].name@ == name by {
                let k = choose|k: int| has_name(self.users@, name, k);
                assert(stored@[k].name@ == self.users@[k].name@);
            }
        }
        stored
    }

    /// The users that a list of stored users describes, a later entry for a name
    /// replacing an earlier one. Fails when a password hash is not a PHC string. A list
    /// written by `to_stored` gives back the same users.
    pub fn from_stored(stored: &Vec<StoredUser>) -> (r: Result<UserList, UserError>)
        ensures
            r is Ok <==> forall|i: int| 0 <= i < stored@.len() ==> spec_is_phc_string(#[trigger] stored@[i].password_hash@),
            r matches Err(e) ==> e == UserError::InvalidPasswordHash,
            r matches Ok(list) ==> list@ == stored_users_map(stored@),
            forall|users: Map<Seq<char>, UserRecord>| stored_describes(stored@, users) ==> (r matches Ok(list) && list@ == users),
    {
        let n = stored.len();
        let mut list = UserList::default();
        let mut i: usize = 0;
        while i < n
            invariant
                n == stored@.len(),
                i <= n,
                list@ == stored_users_map(stored@.take(i as int)),
                forall|j: int| 0 <= j < i ==> spec_is_phc_string(#[trigger] stored@[j].password_hash@),
            decreases n - i,
        {
            let user = &stored[i];
            assert(stored@.take(i + 1).drop_last() =~= stored@.take(i as int));
            assert(stored@.take(i + 1).last() == stored@[i as int]);
            match list.insert_stored_user(user.name.as_str(), user.password_hash.as_str(), &user.send_as) {
                Ok(()) => {},
                Err(e) => {
                    proof {
                        assert forall|users: Map<Seq<char>, UserRecord>| stored_describes(stored@, users) implies false by {
                            assert(spec_is_phc_string(stored@[i as int].password_hash@));
                        }
                    }
                    return Err(e);
                },
            }
            i = i + 1;
        }
        assert(stored@.take(n as int) =~= stored@);
        proof {
            assert forall|users: Map<Seq<char>, UserRecord>| stored_describes(stored@, users) implies list@ == users by {
                lemma_stored_users_restore(stored@, users);
            }
        }
        Ok(list)
    }

    /// Remove an existing user entry; fails when there is no such user.
    pub fn remove_user(&mut self, username: &str) -> (r: Result<(), UserError>)
        ensures
            r is Ok <==> old(self)@.contains_key(username@),
            r matches Err(e) ==> e == UserError::UserNotFound && final(self)@ == old(self)@,
            r is Ok ==> final(self)@ == old(self)@.remove(username@),
    {
        proof {
            use_type_invariant(&*self);
        }
        let ghost before = self.users@;
        match self.position(username) {
            Some(i) => {
                proof {
                    lemma_users_map_at(before, i as int);
                    lemma_users_map_remove(before, i as int);
                }
                let mut users = Vec::new();
                std::mem::swap(&mut users, &mut self.users);
                let _ = users.remove(i);
                self.users = users;
                Ok(())
            },
            None => Err(UserError::UserNotFound),
        }
    }

    /// Check if a user exists.
    pub fn has_user(&self, username: &str) -> (r: bool)
        ensures
            r == self@.contains_key(username@),
    {
        proof {
            use_type_invariant(self);
        }
        match self.position(username) {
            Some(i) => {
                proof {
                    lemma_users_map_at(self.users@, i as int);
                }
                true
            },
            None => false,
        }
    }

    /// Are any users configured, enabling authentication?
    pub fn has_users(&self) -> (r: bool)
        ensures
            r == (self@.dom() != Set::<Seq<char>>::empty()),
    {
        proof {
            use_type_invariant(self);
        }
        if self.users.len() == 0 {
            assert(self@.dom() =~= Set::<Seq<char>>::empty());
            false
        } else {
            proof {
                lemma_users_map_at(self.users@, 0);
            }
            assert(self@.dom().contains(self.users@[0].name@));
            true
        }
    }

    /// The names of all users, each once.
    pub fn list_users(&self) -> (names: Vec<String>)
        ensures
            texts(names@).to_set() == self@.dom(),
            texts(names@).no_duplicates(),
    {
        proof {
            use_type_invariant(self);
        }
        let n = self.users.len();
        let mut names: Vec<String> = Vec::new();
        let mut i: usize = 0;
        while i < n
            invariant
                n == self.users@.len(),
                names_unique(self.users@),
                i <= n,
                names@.len() == i,
                forall|j: int| 0 <= j < i ==> #[trigger] names@[j]@ == self.users@[j].name@,
            decreases n - i,
        {
            names.push(self.users[i].name.clone());
            i = i + 1;
        }
        assert forall|name: Seq<char>| texts(names@).to_set().contains(name) <==> self@.dom().contains(name) by {
            if texts(names@).contains(name) {
                let k = choose|k: int| 0 <= k < texts(names@).len() && texts(names@)[k] == name;
                assert(has_name(self.users@, name, k));
            }
            if self@.dom().contains(name) {
                let k = choose|k: int| has_name(self.users@, name, k);
                assert(texts(names@)[k] == name);
            }
        }
        assert(texts(names@).to_set() =~= self@.dom());
        names
    }

    /// The PHC string of the password hash of a user, if the user exists.
    pub fn user_password_hash(&self, username: &str) -> (r: Option<String>)
        ensures
            r is Some <==> self@.contains_key(username@),
            r matches Some(hash) ==> hash@ == self@[username@].password_hash,
    {
        proof {
            use_type_invariant(self);
        }
        match self.position(username) {
            Some(i) => {
                proof {
                    lemma_users_map_at(self.users@, i as int);
                }
                Some(self.users[i].password_hash.clone())
            },
            None => None,
        }
    }

    /// Verify that the user exists and that the password is correct.
    pub fn verify_user_password(&self, username: &str, password: &str) -> (r: Result<(), UserError>)
        ensures
            r == password_verdict(self@, username@, password@),
    {
        proof {
            use_type_invariant(self);
        }
        match self.position(username) {
            Some(i) => {
                proof {
                    lemma_users_map_at(self.users@, i as int);
                }
                if verify_password(password, self.users[i].password_hash.as_str()) {
                    Ok(())
                } else {
                    Err(UserError::InvalidPassword)
                }
            },
            None => Err(UserError::UserNotFound),
        }
    }

    /// Applies `change` to the sender entries of the user at position `i`.
    fn change_send_as(&mut self, i: usize, sender: &str, add: bool)
        requires
            i < old(self).users@.len(),
        ensures
            final(self)@ == old(self)@.insert(
                old(self).users@[i as int].name@,
                UserRecord {
                    password_hash: old(self).users@[i as int].password_hash@,
                    send_as: if add {
                        old(self).users@[i as int].send_as@.insert(sender@)
                    } else {
                        old(self).users@[i as int].send_as@.remove(sender@)
                    },
                },
            ),
    {
        proof {
            use_type_invariant(&*self);
        }
        let ghost before = self.users@;
        let mut users = Vec::new();
        std::mem::swap(&mut users, &mut self.users);
        let mut entry = users.remove(i);
        if add {
            entry.send_as.insert(sender);
        } else {
            entry.send_as.remove(sender);
        }
        users.insert(i, entry);
        assert(users@ =~= before.update(i as int, entry));
        proof {
            lemma_users_map_update(before, i as int, entry);
        }
        self.users = users;
    }

    /// Add an entry to a user's allowed senders: an exact address or `*@domain`.
    /// Fails when there is no such user.
    pub fn add_user_send_as(&mut self, username: &str, sender: &str) -> (r: Result<(), UserError>)
        ensures
            r is Ok <==> old(self)@.contains_key(username@),
            r matches Err(e) ==> e == UserError::UserNotFound && final(self)@ == old(self)@,
            r is Ok ==> final(self)@ == old(self)@.insert(
                username@,
                UserRecord {
                    password_hash: old(self)@[username@].password_hash,
                    send_as: old(self)@[username@].send_as.insert(sender@),
                },
            ),
    {
        proof {
            use_type_invariant(&*self);
        }
        match self.position(username) {
            Some(i) => {
                proof {
                    lemma_users_map_at(self.users@, i as int);
                }
                self.change_send_as(i, sender, true);
                Ok(())
            },
            None => Err(UserError::UserNotFound),
        }
    }

    /// Remove an entry from a user's allowed senders. Fails when there is no such user.
    pub fn remove_user_send_as(&mut self, username: &str, sender: &str) -> (r: Result<(), UserError>)
        ensures
            r is Ok <==> old(self)@.contains_key(username@),
            r matches Err(e) ==> e == UserError::UserNotFound && final(self)@ == old(self)@,
            r is Ok ==> final(self)@ == old(self)@.insert(
                username@,
                UserRecord {
                    password_hash: old(self)@[username@].password_hash,
                    send_as: old(self)@[username@].send_as.remove(sender@),
                },
            ),
    {
        proof {
            use_type_invariant(&*self);
        }
        match self.position(username) {
            Some(i) => {
                proof {
                    lemma_users_map_at(self.users@, i as int);
                }
                self.change_send_as(i, sender, false);
                Ok(())
            },
            None => Err(UserError::UserNotFound),
        }
    }

    /// List all entries in a user's allowed senders, each once. Fails when there is no
    /// such user.
    pub fn list_user_send_as(&self, username: &str) -> (r: Result<Vec<String>, UserError>)
        ensures
            r is Ok <==> self@.contains_key(username@),
            r matches Err(e) ==> e == UserError::UserNotFound,
            r matches Ok(senders) ==> texts(senders@).to_set() == self@[username@].send_as && texts(
                senders@,
            ).no_duplicates(),
    {
        proof {
            use_type_invariant(self);
        }
        match self.position(username) {
            Some(i) => {
                proof {
                    lemma_users_map_at(self.users@, i as int);
                }
                let items = self.users[i].send_as.items();
                let copied = items.clone();
                assert(copied@ =~= items@);
                Ok(copied)
            },
            None => Err(UserError::UserNotFound),
        }
    }

    /// Verify that a user may send using the given address: always as their own
    /// username, otherwise as an entry of their allowed senders permits; case is
    /// ignored. Fails when the user does not exist or may not send as `sender`.
    pub fn verify_user_can_send_as(&self, username: &str, sender: &str) -> (r: Result<(), UserError>)
        ensures
            r == send_as_verdict(self@, username@, sender@),
    {
        proof {
            use_type_invariant(self);
        }
        let sender_lower = to_lowercase(sender);
        let username_lower = to_lowercase(username);
        if sender_lower == username_lower {
            return Ok(());
        }
        let i = match self.position(username) {
            Some(i) => i,
            None => return Err(UserError::UserNotFound),
        };
        proof {
            lemma_users_map_at(self.users@, i as int);
        }
        let entries = self.users[i].send_as.items();
        let ghost allowed = self@[username@].send_as;
        let n = entries.len();
        let mut k: usize = 0;
        while k < n
            invariant
                n == entries@.len(),
                k <= n,
                texts(entries@).to_set() == allowed,
                self@.contains_key(username@),
                allowed == self@[username@].send_as,
                spec_str_to_lowercase(sender@) != spec_str_to_lowercase(username@),
                sender_lower@ == spec_str_to_lowercase(sender@),
                forall|j: int| 0 <= j < k ==> !entry_permits(
                    #[trigger] spec_str_to_lowercase(entries@[j]@),
                    sender_lower@,
                ),
            decreases n - k,
        {
            let entry_lower = to_lowercase(entries[k].as_str());
            if sender_entry_permits(entry_lower.as_str(), sender_lower.as_str()) {
                assert(texts(entries@)[k as int] == entries@[k as int]@);
                assert(allowed.contains(entries@[k as int]@));
                assert(entry_permits(spec_str_to_lowercase(entries@[k as int]@), spec_str_to_lowercase(sender@)));
                return Ok(());
            }
            k = k + 1;
        }
        assert forall|entry: Seq<char>| allowed.contains(entry) implies !entry_permits(
            #[trigger] spec_str_to_lowercase(entry),
            spec_str_to_lowercase(sender@),
        ) by {
            let j = choose|j: int| 0 <= j < texts(entries@).len() && texts(entries@)[j] == entry;
            assert(entries@[j]@ == entry);
        }
        Err(UserError::SendAsNotAllowed)
    }
}


/// Every sender entry, compared in lower case, permits itself.
proof fn lemma_entry_permits_itself(entry: Seq<char>)
    ensures
        entry_permits(entry, entry),
{
    if entry.len() >= 2 && entry[0] == '*' && entry[1] == '@' {
        reveal_strlit("@");
        let suffix = "@"@ + entry.skip(2);
        assert(entry.skip(entry.len() - suffix.len()) =~= suffix);
    }
}

/// A user may always send as their own username.
pub proof fn lemma_send_as_own_username(users: Map<Seq<char>, UserRecord>, username: Seq<char>)
    ensures
        send_as_verdict(users, username, username) == Ok::<(), UserError>(()),
{
}

/// A user may send as every entry of their allowed senders.
pub proof fn lemma_send_as_listed_sender(
    users: Map<Seq<char>, UserRecord>,
    username: Seq<char>,
    sender: Seq<char>,
)
    requires
        users.contains_key(username),
        users[username].send_as.contains(sender),
    ensures
        send_as_verdict(users, username, sender) == Ok::<(), UserError>(()),
{
    lemma_entry_permits_itself(spec_str_to_lowercase(sender));
}

/// A user that is not configured can neither log in nor send as anyone but their
/// own username.
pub proof fn lemma_unknown_user_rejected(
    users: Map<Seq<char>, UserRecord>,
    username: Seq<char>,
    password: Seq<char>,
    sender: Seq<char>,
)
    requires
        !users.contains_key(username),
    ensures
        password_verdict(users, username, password) == Err::<(), UserError>(UserError::UserNotFound),
        spec_str_to_lowercase(sender) != spec_str_to_lowercase(username) ==> send_as_verdict(
            users,
            username,
            sender,
        ) == Err::<(), UserError>(UserError::UserNotFound),
{
}

/// A sender entry that does not start with `*@` permits exactly the one sender
/// address equal to it.
pub proof fn lemma_exact_entry_permits_only_itself(entry: Seq<char>, sender: Seq<char>)
    requires
        !"*@"@.is_prefix_of(entry),
    ensures
        entry_permits(entry, sender) <==> entry == sender,
{
    reveal_strlit("*@");
    if entry.len() >= 2 && entry[0] == '*' && entry[1] == '@' {
        assert("*@"@ =~= entry.subrange(0, 2));
    }
}

/// The entry `*@*` permits every sender address.
pub proof fn lemma_any_address_entry(sender: Seq<char>)
    ensures
        entry_permits("*@*"@, sender),
{
    reveal_strlit("*@*");
    reveal_strlit("*");
    assert("*@*"@.skip(2) =~= "*"@);
}

/// A whole-domain entry `*@domain` permits exactly the addresses at that domain: those
/// made of some local part, `@`, and the domain.
pub proof fn lemma_domain_entry(domain: Seq<char>, sender: Seq<char>)
    requires
        domain != "*"@,
    ensures
        entry_permits("*@"@ + domain, sender) <==> exists|local: Seq<char>| sender == local + "@"@ + domain,
{
    reveal_strlit("*@");
    reveal_strlit("@");
    let entry = "*@"@ + domain;
    let suffix = "@"@ + domain;
    assert(entry.skip(2) =~= domain);
    assert(entry.len() >= 2 && entry[0] == '*' && entry[1] == '@');
    if entry_permits(entry, sender) {
        assert(ends_with(sender, suffix));
        let local = sender.take(sender.len() - suffix.len());
        assert(sender.skip(sender.len() - suffix.len()) == suffix);
        assert(sender =~= local + suffix);
        assert(local + suffix =~= local + "@"@ + domain);
    }
    if exists|local: Seq<char>| sender == local + "@"@ + domain {
        let local = choose|local: Seq<char>| sender == local + "@"@ + domain;
        assert(sender.skip(sender.len() - suffix.len()) =~= suffix);
    }
}

} // verus!
