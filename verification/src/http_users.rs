//! Users of the HTTP endpoint: passwords, privileges and sessions.
//!
//! The built-in user `root` always holds every privilege, and can neither be
//! dropped nor have its privileges changed.

use crate::codec::{le64, push_le64};
use crate::error::{join2, join3};
use crate::fields::{hex16, hex_text, hex_value, law_hex_roundtrip, law_trimmed_has_no_white_ends, lemma_split_cons, lemma_split_one, lemma_trimmed, parse_hex, parsed_hex, split_on, split_text, trim_end, trim_text, trim_text_end, trimmed};
use crate::text::{before, chars_of, is_white, lemma_text_order, lists_texts, same, text_less, texts, texts_ascend};
use std::collections::hash_map::DefaultHasher;
use std::hash::Hasher;
use vstd::prelude::*;
use vstd::std_specs::hash::DefaultHasherAdditionalSpecFns;
use vstd::string::*;
use vstd::utf8::encode_utf8;

verus! {

/// The built-in user that holds every privilege.
pub const ROOT_USER: &'static str = "root";

/// How long a session lasts, in nanoseconds.
pub const SESSION_TTL: u64 = 86400000000000;

/// A privilege. The last one implies all others.
#[derive(Debug, Clone, Copy, PartialEq, Eq, PartialOrd, Ord, Structural)]
pub enum Privilege {
    Query,
    Load,
    Unload,
    Update,
    Backup,
    Restore,
    Export,
    Admin,
}

/// All privileges, in order.
pub open spec fn privileges() -> Seq<Privilege> {
    seq![Privilege::Query, Privilege::Load, Privilege::Unload, Privilege::Update, Privilege::Backup, Privilege::Restore, Privilege::Export, Privilege::Admin]
}

/// The name of a privilege.
pub open spec fn privilege_name(p: Privilege) -> Seq<char> {
    match p {
        Privilege::Query => "query"@,
        Privilege::Load => "load"@,
        Privilege::Unload => "unload"@,
        Privilege::Update => "update"@,
        Privilege::Backup => "backup"@,
        Privilege::Restore => "restore"@,
        Privilege::Export => "export"@,
        Privilege::Admin => "admin"@,
    }
}

/// The privilege that a text denotes by its name or its number.
pub open spec fn named_privilege(s: Seq<char>) -> Option<Privilege> {
    let t = trimmed(s);
    if t == "query"@ || t == "1"@ {
        Some(Privilege::Query)
    } else if t == "load"@ || t == "2"@ {
        Some(Privilege::Load)
    } else if t == "unload"@ || t == "3"@ {
        Some(Privilege::Unload)
    } else if t == "update"@ || t == "4"@ {
        Some(Privilege::Update)
    } else if t == "backup"@ || t == "5"@ {
        Some(Privilege::Backup)
    } else if t == "restore"@ || t == "6"@ {
        Some(Privilege::Restore)
    } else if t == "export"@ || t == "7"@ {
        Some(Privilege::Export)
    } else if t == "admin"@ || t == "8"@ {
        Some(Privilege::Admin)
    } else {
        None
    }
}

/// The privileges that some texts denote. Blank ones do not count; an unknown one
/// spoils all.
pub open spec fn listed(s: Seq<Seq<char>>) -> Option<Set<Privilege>>
    decreases s.len(),
{
    if s.len() == 0 {
        Some(Set::empty())
    } else {
        match listed(s.drop_last()) {
            None => None,
            Some(set) => if trimmed(s.last()).len() == 0 {
                Some(set)
            } else {
                match named_privilege(s.last()) {
                    None => None,
                    Some(p) => Some(set.insert(p)),
                }
            },
        }
    }
}

/// The privileges that a list of texts with commas denotes.
pub open spec fn parsed_list(s: Seq<char>) -> Option<Set<Privilege>> {
    listed(split_on(s, ','))
}

/// A set of privileges.
#[derive(Debug, Clone, Copy)]
pub struct PrivilegeSet {
    query: bool,
    load: bool,
    unload: bool,
    update: bool,
    backup: bool,
    restore: bool,
    export: bool,
    admin: bool,
}

impl View for PrivilegeSet {
    type V = Set<Privilege>;

    closed spec fn view(&self) -> Set<Privilege> {
        Set::new(|p: Privilege| self.holds(p))
    }
}

impl PrivilegeSet {
    closed spec fn holds(&self, p: Privilege) -> bool {
        match p {
            Privilege::Query => self.query,
            Privilege::Load => self.load,
            Privilege::Unload => self.unload,
            Privilege::Update => self.update,
            Privilege::Backup => self.backup,
            Privilege::Restore => self.restore,
            Privilege::Export => self.export,
            Privilege::Admin => self.admin,
        }
    }

    /// No privilege.
    pub fn new() -> (r: PrivilegeSet)
        ensures
            r@ == Set::<Privilege>::empty(),
    {
        let r = PrivilegeSet { query: false, load: false, unload: false, update: false, backup: false, restore: false, export: false, admin: false };
        assert(r@ =~= Set::<Privilege>::empty());
        r
    }

    /// One privilege.
    pub fn one(p: Privilege) -> (r: PrivilegeSet)
        ensures
            r@ == Set::<Privilege>::empty().insert(p),
    {
        let mut r: PrivilegeSet = PrivilegeSet::new();
        r.insert(p);
        r
    }

    /// Is the privilege in the set?
    pub fn contains(&self, p: Privilege) -> (b: bool)
        ensures
            b == self@.contains(p),
    {
        match p {
            Privilege::Query => self.query,
            Privilege::Load => self.load,
            Privilege::Unload => self.unload,
            Privilege::Update => self.update,
            Privilege::Backup => self.backup,
            Privilege::Restore => self.restore,
            Privilege::Export => self.export,
            Privilege::Admin => self.admin,
        }
    }

    fn put(&mut self, p: Privilege, b: bool)
        ensures
            forall|q: Privilege| #[trigger] final(self)@.contains(q) <==> if q == p { b } else { old(self)@.contains(q) },
    {
        match p {
            Privilege::Query => self.query = b,
            Privilege::Load => self.load = b,
            Privilege::Unload => self.unload = b,
            Privilege::Update => self.update = b,
            Privilege::Backup => self.backup = b,
            Privilege::Restore => self.restore = b,
            Privilege::Export => self.export = b,
            Privilege::Admin => self.admin = b,
        }
    }

    /// Add a privilege.
    pub fn insert(&mut self, p: Privilege)
        ensures
            final(self)@ == old(self)@.insert(p),
    {
        self.put(p, true);
        assert(self@ =~= old(self)@.insert(p));
    }

    /// Number of privileges in the set.
    pub fn len(&self) -> (n: usize)
        ensures
            n == self@.len(),
            self@.finite(),
    {
        let all: Vec<Privilege> = all_privileges();
        let mut n: usize = 0;
        let mut i: usize = 0;
        let ghost mut seen = Set::<Privilege>::empty();
        while i < all.len()
            invariant
                all@ == privileges(),
                i <= all.len(),
                n <= i,
                seen.finite(),
                n == seen.len(),
                forall|p: Privilege| #[trigger] seen.contains(p) <==> self@.contains(p) && privileges().take(i as int).contains(p),
            decreases all.len() - i,
        {
            proof {
                assert(privileges().take(i + 1) =~= privileges().take(i as int).push(privileges()[i as int]));
                assert forall|p: Privilege| privileges().take(i + 1).contains(p) <==> privileges().take(i as int).contains(p) || p == privileges()[i as int] by {
                    lemma_push_has(privileges().take(i as int), privileges()[i as int], p);
                }
                assert(!privileges().take(i as int).contains(privileges()[i as int])) by {
                    if privileges().take(i as int).contains(privileges()[i as int]) {
                        let k = choose|k: int| 0 <= k < i && privileges().take(i as int)[k] == privileges()[i as int];
                        assert(privileges()[k] == privileges()[i as int]);
                    }
                }
            }
            if self.contains(all[i]) {
                n = n + 1;
                proof {
                    seen = seen.insert(all@[i as int]);
                }
            }
            i = i + 1;
        }
        proof {
            assert(privileges().take(8) =~= privileges());
            assert forall|p: Privilege| #[trigger] seen.contains(p) <==> self@.contains(p) by {
                lemma_all_privileges(p);
            }
            assert(seen =~= self@);
        }
        n
    }

    /// All that are in either set.
    pub fn union(&self, other: &PrivilegeSet) -> (r: PrivilegeSet)
        ensures
            r@ == self@.union(other@),
    {
        let r = PrivilegeSet {
            query: self.query || other.query,
            load: self.load || other.load,
            unload: self.unload || other.unload,
            update: self.update || other.update,
            backup: self.backup || other.backup,
            restore: self.restore || other.restore,
            export: self.export || other.export,
            admin: self.admin || other.admin,
        };
        assert(r@ =~= self@.union(other@));
        r
    }

    /// All that are in this set and not in the other.
    pub fn minus(&self, other: &PrivilegeSet) -> (r: PrivilegeSet)
        ensures
            r@ == self@.difference(other@),
    {
        let r = PrivilegeSet {
            query: self.query && !other.query,
            load: self.load && !other.load,
            unload: self.unload && !other.unload,
            update: self.update && !other.update,
            backup: self.backup && !other.backup,
            restore: self.restore && !other.restore,
            export: self.export && !other.export,
            admin: self.admin && !other.admin,
        };
        assert(r@ =~= self@.difference(other@));
        r
    }
}

proof fn lemma_push_has(s: Seq<Privilege>, a: Privilege, p: Privilege)
    ensures
        s.push(a).contains(p) <==> s.contains(p) || p == a,
{
    let t = s.push(a);
    if s.contains(p) {
        let k = choose|k: int| 0 <= k < s.len() && s[k] == p;
        assert(t[k] == p);
    }
    if t.contains(p) && p != a {
        let k = choose|k: int| 0 <= k < t.len() && t[k] == p;
        assert(s[k] == p);
    }
    assert(t[s.len() as int] == a);
}

proof fn lemma_all_privileges(p: Privilege)
    ensures
        privileges().contains(p),
{
    let s = privileges();
    match p {
        Privilege::Query => assert(s[0] == p),
        Privilege::Load => assert(s[1] == p),
        Privilege::Unload => assert(s[2] == p),
        Privilege::Update => assert(s[3] == p),
        Privilege::Backup => assert(s[4] == p),
        Privilege::Restore => assert(s[5] == p),
        Privilege::Export => assert(s[6] == p),
        Privilege::Admin => assert(s[7] == p),
    }
}

fn all_privileges() -> (r: Vec<Privilege>)
    ensures
        r@ == privileges(),
{
    let mut r: Vec<Privilege> = Vec::new();
    r.push(Privilege::Query);
    r.push(Privilege::Load);
    r.push(Privilege::Unload);
    r.push(Privilege::Update);
    r.push(Privilege::Backup);
    r.push(Privilege::Restore);
    r.push(Privilege::Export);
    r.push(Privilege::Admin);
    assert(r@ =~= privileges());
    r
}

proof fn lemma_listed_none(s: Seq<Seq<char>>, k: int)
    requires
        0 <= k <= s.len(),
        listed(s.take(k)) is None,
    ensures
        listed(s) is None,
    decreases s.len() - k,
{
    if k < s.len() {
        assert(s.take(k + 1).drop_last() =~= s.take(k));
        lemma_listed_none(s, k + 1);
    } else {
        assert(s.take(k) =~= s);
    }
}

impl Privilege {
    /// The name of the privilege.
    pub fn as_str(self) -> (r: &'static str)
        ensures
            r@ == privilege_name(self),
    {
        match self {
            Privilege::Query => "query",
            Privilege::Load => "load",
            Privilege::Unload => "unload",
            Privilege::Update => "update",
            Privilege::Backup => "backup",
            Privilege::Restore => "restore",
            Privilege::Export => "export",
            Privilege::Admin => "admin",
        }
    }

    /// The privilege with the given name or number.
    pub fn parse(s: &str) -> (r: Option<Privilege>)
        ensures
            r == named_privilege(s@),
    {
        let t: String = trim_text(s);
        let t: &str = t.as_str();
        if same(t, "query") || same(t, "1") {
            Some(Privilege::Query)
        } else if same(t, "load") || same(t, "2") {
            Some(Privilege::Load)
        } else if same(t, "unload") || same(t, "3") {
            Some(Privilege::Unload)
        } else if same(t, "update") || same(t, "4") {
            Some(Privilege::Update)
        } else if same(t, "backup") || same(t, "5") {
            Some(Privilege::Backup)
        } else if same(t, "restore") || same(t, "6") {
            Some(Privilege::Restore)
        } else if same(t, "export") || same(t, "7") {
            Some(Privilege::Export)
        } else if same(t, "admin") || same(t, "8") {
            Some(Privilege::Admin)
        } else {
            None
        }
    }

    /// The privileges of a list with commas. Blanks are skipped; an unknown name
    /// makes the whole list invalid.
    pub fn parse_list(s: &str) -> (r: Option<PrivilegeSet>)
        ensures
            match parsed_list(s@) {
                Some(set) => r matches Some(v) && v@ == set,
                None => r is None,
            },
    {
        let pieces: Vec<String> = split_text(s, ',');
        let ghost all = texts(pieces@);
        let mut out: PrivilegeSet = PrivilegeSet::new();
        let mut i: usize = 0;
        assert(all.take(0) =~= Seq::<Seq<char>>::empty());
        while i < pieces.len()
            invariant
                i <= pieces@.len(),
                all == texts(pieces@),
                all == split_on(s@, ','),
                listed(all.take(i as int)) == Some(out@),
            decreases pieces.len() - i,
        {
            proof {
                assert(all.take(i + 1).drop_last() =~= all.take(i as int));
                assert(all.take(i + 1).last() == pieces@[i as int]@);
            }
            let t: String = trim_text(pieces[i].as_str());
            let empty: bool = same(t.as_str(), "");
            proof {
                reveal_strlit("");
                assert(empty <==> t@.len() == 0) by {
                    if t@.len() == 0 {
                        assert(t@ =~= ""@);
                    }
                }
            }
            if !empty {
                match Privilege::parse(pieces[i].as_str()) {
                    None => {
                        proof {
                            lemma_listed_none(all, i + 1);
                        }
                        return None;
                    },
                    Some(p) => {
                        out.insert(p);
                    },
                }
            }
            i = i + 1;
        }
        assert(all.take(i as int) =~= all);
        Some(out)
    }
}

/// The names of those of the first `n` privileges that are in a set.
pub open spec fn present(set: Set<Privilege>, n: nat) -> Seq<Seq<char>>
    decreases n,
{
    if n == 0 {
        Seq::empty()
    } else if set.contains(privileges()[n - 1]) {
        present(set, (n - 1) as nat).push(privilege_name(privileges()[n - 1]))
    } else {
        present(set, (n - 1) as nat)
    }
}

/// Texts with a separator between them.
pub open spec fn joined(s: Seq<Seq<char>>, c: char) -> Seq<char>
    decreases s.len(),
{
    if s.len() == 0 {
        Seq::empty()
    } else if s.len() == 1 {
        s[0]
    } else {
        s[0] + seq![c] + joined(s.skip(1), c)
    }
}

/// The names of the privileges in a set, in order, with commas between them.
pub open spec fn set_text(set: Set<Privilege>) -> Seq<char> {
    joined(present(set, 8), ',')
}

proof fn lemma_join_push(s: Seq<Seq<char>>, x: Seq<char>, c: char)
    requires
        s.len() > 0,
    ensures
        joined(s.push(x), c) == joined(s, c) + seq![c] + x,
    decreases s.len(),
{
    let t = s.push(x);
    assert(t.skip(1) =~= s.skip(1).push(x));
    if s.len() == 1 {
        assert(t.skip(1) =~= seq![x]);
        assert(joined(t.skip(1), c) == x);
    } else {
        lemma_join_push(s.skip(1), x, c);
        assert(joined(t, c) =~= joined(s, c) + seq![c] + x);
    }
}

/// One user of the endpoint, without the name.
pub ghost struct UserSpec {
    pub salt: u64,
    pub hash: u64,
    pub privileges: Set<Privilege>,
}

/// A user: name, salted password hash, and privileges.
#[derive(Debug)]
pub struct User {
    pub name: String,
    pub salt: u64,
    pub hash: u64,
    pub privileges: PrivilegeSet,
}

impl View for User {
    type V = UserSpec;

    open spec fn view(&self) -> UserSpec {
        UserSpec { salt: self.salt, hash: self.hash, privileges: self.privileges@ }
    }
}

/// Whether a user holds a privilege.
pub open spec fn user_has(name: Seq<char>, u: UserSpec, p: Privilege) -> bool {
    name == ROOT_USER@ || u.privileges.contains(Privilege::Admin) || u.privileges.contains(p)
}

impl User {
    /// Does the user hold the privilege? `root` and administrators hold all.
    pub fn has(&self, p: Privilege) -> (b: bool)
        ensures
            b == user_has(self.name@, self@, p),
    {
        same(self.name.as_str(), ROOT_USER) || self.privileges.contains(Privilege::Admin) || self.privileges.contains(p)
    }

    /// The names of the privileges, in order, with commas between them.
    pub fn privilege_str(&self) -> (r: String)
        ensures
            r@ == set_text(self@.privileges),
    {
        let all: Vec<Privilege> = all_privileges();
        let mut r: String = String::new();
        let mut first: bool = true;
        let ghost set = self.privileges@;
        let mut i: usize = 0;
        while i < all.len()
            invariant
                all@ == privileges(),
                i <= all.len(),
                set == self.privileges@,
                first == (present(set, i as nat).len() == 0),
                r@ == joined(present(set, i as nat), ','),
            decreases all.len() - i,
        {
            if self.privileges.contains(all[i]) {
                let ghost before = present(set, i as nat);
                let name: &'static str = all[i].as_str();
                if !first {
                    r.push(',');
                    proof {
                        lemma_join_push(before, name@, ',');
                    }
                }
                let ghost r0 = r@;
                r.append(name);
                proof {
                    assert(present(set, (i + 1) as nat) == before.push(name@));
                    if before.len() == 0 {
                        assert(before.push(name@) =~= seq![name@]);
                        assert(r@ =~= name@);
                    } else {
                        assert(r@ =~= joined(before.push(name@), ','));
                    }
                }
                first = false;
            }
            i = i + 1;
        }
        r
    }

    /// A copy of the user.
    pub fn duplicate(&self) -> (r: User)
        ensures
            r@ == self@,
            r.name@ == self.name@,
    {
        User { name: self.name.as_str().to_owned(), salt: self.salt, hash: self.hash, privileges: self.privileges }
    }
}

/// The state of a password hash after `n` rounds.
pub open spec fn hash_rounds(password: Seq<u8>, salt: u64, n: nat) -> u64
    decreases n,
{
    if n == 0 {
        salt ^ 0x9E37_79B9_7F4A_7C15
    } else {
        DefaultHasher::spec_finish(seq![le64(hash_rounds(password, salt, (n - 1) as nat)), le64(salt), password, seq![0xffu8], le64((n - 1) as u64)])
    }
}

/// The salted hash of a password.
pub open spec fn password_hash(password: Seq<char>, salt: u64) -> u64 {
    hash_rounds(encode_utf8(password), salt, 8192)
}

fn bytes64(v: u64) -> (r: Vec<u8>)
    ensures
        r@ == le64(v),
{
    let mut r: Vec<u8> = Vec::new();
    push_le64(&mut r, v);
    assert(r@ =~= le64(v));
    r
}

/// A salted hash with many rounds, so that guessing is slow.
pub fn hash_password(password: &str, salt: u64) -> (r: u64)
    ensures
        r == password_hash(password@, salt),
{
    let mut acc: u64 = salt ^ 0x9E37_79B9_7F4A_7C15;
    let mut end: Vec<u8> = Vec::new();
    end.push(0xff);
    let mut i: u64 = 0;
    while i < 8192
        invariant
            i <= 8192,
            end@ == seq![0xffu8],
            acc == hash_rounds(encode_utf8(password@), salt, i as nat),
        decreases 8192 - i,
    {
        let mut h: DefaultHasher = DefaultHasher::new();
        h.write(bytes64(acc).as_slice());
        h.write(bytes64(salt).as_slice());
        h.write(password.as_bytes());
        h.write(end.as_slice());
        h.write(bytes64(i).as_slice());
        assert(h@ =~= seq![le64(acc), le64(salt), encode_utf8(password@), seq![0xffu8], le64(i)]);
        acc = h.finish();
        i = i + 1;
    }
    acc
}

/// A salt with the hash of a password for it.
pub fn make_hash(password: &str, salt: u64) -> (r: (u64, u64))
    ensures
        r.0 == salt,
        r.1 == password_hash(password@, salt),
{
    (salt, hash_password(password, salt))
}

/// Does the password have the hash?
pub fn verify_hash(password: &str, salt: u64, expected: u64) -> (b: bool)
    ensures
        b == (password_hash(password@, salt) == expected),
{
    let got: u64 = hash_password(password, salt);
    assert(got ^ expected == 0 <==> got == expected) by (bit_vector);
    got ^ expected == 0
}

/// A session token made of two random numbers.
pub fn new_token(a: u64, b: u64) -> (r: String)
    ensures
        r@ == hex_text(a as nat, 16) + hex_text(b as nat, 16),
{
    join2(hex16(a).as_str(), hex16(b).as_str())
}

/// A character that a user name may have.
pub open spec fn name_char(c: char) -> bool {
    ('a' <= c <= 'z') || ('A' <= c <= 'Z') || ('0' <= c <= '9') || c == '_' || c == '-'
}

/// What is wrong with a user name.
pub open spec fn name_error(name: Seq<char>) -> Option<Seq<char>> {
    if name.len() == 0 || encode_utf8(name).len() > 64 {
        Some("username must be 1..64 characters"@)
    } else if exists|i: int| 0 <= i < name.len() && !name_char(#[trigger] name[i]) {
        Some("username may only contain [A-Za-z0-9_-]"@)
    } else {
        None
    }
}

/// Is the character one of those that names may have?
pub(crate) fn plain_char(c: char) -> (b: bool)
    ensures
        b == name_char(c),
{
    ('a' <= c && c <= 'z') || ('A' <= c && c <= 'Z') || ('0' <= c && c <= '9') || c == '_' || c == '-'
}

/// Check a user name.
pub fn validate_name(name: &str) -> (r: Result<(), String>)
    ensures
        match name_error(name@) {
            Some(m) => r matches Err(e) && e@ == m,
            None => r is Ok,
        },
{
    let chars: Vec<char> = chars_of(name);
    if chars.len() == 0 || name.as_bytes().len() > 64 {
        return Err("username must be 1..64 characters".to_owned());
    }
    let mut i: usize = 0;
    while i < chars.len()
        invariant
            i <= chars@.len(),
            chars@ == name@,
            0 < name@.len(),
            encode_utf8(name@).len() <= 64,
            forall|k: int| 0 <= k < i ==> name_char(#[trigger] name@[k]),
        decreases chars.len() - i,
    {
        if !plain_char(chars[i]) {
            assert(!name_char(name@[i as int]));
            return Err("username may only contain [A-Za-z0-9_-]".to_owned());
        }
        i = i + 1;
    }
    Ok(())
}

/// An open session.
pub ghost struct SessionSpec {
    pub user: Seq<char>,
    pub created: u64,
}

/// The users by name, and the sessions by token.
#[verifier::ext_equal]
pub ghost struct UserStoreSpec {
    pub users: Map<Seq<char>, UserSpec>,
    pub sessions: Map<Seq<char>, SessionSpec>,
}

/// An open session.
#[derive(Debug)]
pub struct Session {
    pub token: String,
    pub user: String,
    pub created: u64,
}

/// The names of some users.
pub open spec fn user_names(v: Seq<User>) -> Seq<Seq<char>> {
    v.map_values(|u: User| u.name@)
}

/// Users by name.
pub open spec fn users_map(v: Seq<User>) -> Map<Seq<char>, UserSpec> {
    Map::new(|n: Seq<char>| user_names(v).contains(n), |n: Seq<char>| v[user_names(v).index_of(n)]@)
}

/// The tokens of some sessions.
pub open spec fn tokens(v: Seq<Session>) -> Seq<Seq<char>> {
    v.map_values(|s: Session| s.token@)
}

/// Sessions by token.
pub open spec fn sessions_map(v: Seq<Session>) -> Map<Seq<char>, SessionSpec> {
    Map::new(|n: Seq<char>| tokens(v).contains(n), |n: Seq<char>| SessionSpec { user: v[tokens(v).index_of(n)].user@, created: v[tokens(v).index_of(n)].created })
}

/// A name that a line of the table can hold.
pub open spec fn clean_name(name: Seq<char>) -> bool {
    !name.contains('\t') && !name.contains('\n')
}

proof fn lemma_ascending_distinct(s: Seq<Seq<char>>)
    requires
        texts_ascend(s),
    ensures
        s.no_duplicates(),
{
    assert forall|i: int, j: int| 0 <= i < s.len() && 0 <= j < s.len() && i != j implies s[i] != s[j] by {
        lemma_text_order(s[i], s[j], s[i]);
    }
}

proof fn lemma_user_at(v: Seq<User>, i: int)
    requires
        user_names(v).no_duplicates(),
        0 <= i < v.len(),
    ensures
        users_map(v).contains_key(v[i].name@),
        users_map(v)[v[i].name@] == v[i]@,
{
    let n = user_names(v);
    assert(n[i] == v[i].name@);
    assert(n.contains(n[i]));
    assert(n.index_of(n[i]) == i);
}

proof fn lemma_session_at(v: Seq<Session>, i: int)
    requires
        tokens(v).no_duplicates(),
        0 <= i < v.len(),
    ensures
        sessions_map(v).contains_key(v[i].token@),
        sessions_map(v)[v[i].token@] == (SessionSpec { user: v[i].user@, created: v[i].created }),
{
    let n = tokens(v);
    assert(n[i] == v[i].token@);
    assert(n.contains(n[i]));
    assert(n.index_of(n[i]) == i);
}

/// The users of the endpoint with their sessions.
pub struct UserStore {
    users: Vec<User>,
    sessions: Vec<Session>,
}

impl View for UserStore {
    type V = UserStoreSpec;

    closed spec fn view(&self) -> UserStoreSpec {
        UserStoreSpec { users: users_map(self.users@), sessions: sessions_map(self.sessions@) }
    }
}

/// The text of a message about a user.
pub open spec fn about_user(name: Seq<char>, what: Seq<char>) -> Seq<char> {
    "user '"@ + name + what
}

/// How long ago a time was.
pub open spec fn elapsed(now: u64, created: u64) -> int {
    if now >= created {
        now - created
    } else {
        0
    }
}

impl UserStore {
    /// The users are sorted by name, their names fit in the table, and no token
    /// occurs twice.
    pub closed spec fn wf(&self) -> bool {
        &&& texts_ascend(user_names(self.users@))
        &&& forall|i: int| 0 <= i < self.users@.len() ==> clean_name(#[trigger] user_names(self.users@)[i])
        &&& tokens(self.sessions@).no_duplicates()
    }

    /// The number of users whose names come before the given one.
    fn place(&self, name: &str) -> (r: usize)
        requires
            self.wf(),
        ensures
            r <= self.users@.len(),
            forall|k: int| 0 <= k < r ==> text_less(#[trigger] user_names(self.users@)[k], name@),
            forall|k: int| r <= k < self.users@.len() ==> !text_less(#[trigger] user_names(self.users@)[k], name@),
    {
        let mut i: usize = 0;
        let ghost n = user_names(self.users@);
        while i < self.users.len() && before(self.users[i].name.as_str(), name)
            invariant
                i <= self.users@.len(),
                n == user_names(self.users@),
                forall|k: int| 0 <= k < i ==> text_less(#[trigger] n[k], name@),
            decreases self.users.len() - i,
        {
            assert(n[i as int] == self.users@[i as int].name@);
            i = i + 1;
        }
        proof {
            assert forall|k: int| i <= k < self.users@.len() implies !text_less(#[trigger] n[k], name@) by {
                assert(n[i as int] == self.users@[i as int].name@);
                lemma_text_order(n[i as int], n[k], name@);
            }
        }
        i
    }

    /// The place of the user with the given name.
    fn find(&self, name: &str) -> (r: Option<usize>)
        requires
            self.wf(),
        ensures
            r is Some <==> self@.users.contains_key(name@),
            r matches Some(i) ==> i < self.users@.len() && self.users@[i as int].name@ == name@ && self@.users[name@] == self.users@[i as int]@,
    {
        let i: usize = self.place(name);
        let ghost n = user_names(self.users@);
        proof {
            lemma_ascending_distinct(n);
            if n.contains(name@) {
                let k = choose|k: int| 0 <= k < n.len() && n[k] == name@;
                lemma_text_order(name@, name@, name@);
                assert(k >= i);
                if k > i {
                    assert(text_less(n[i as int], n[k]));
                }
            }
        }
        if i < self.users.len() && same(self.users[i].name.as_str(), name) {
            proof {
                lemma_user_at(self.users@, i as int);
            }
            Some(i)
        } else {
            proof {
                if i < n.len() {
                    assert(n[i as int] == self.users@[i as int].name@);
                }
            }
            None
        }
    }

    /// The place of the session with the given token.
    fn find_session(&self, token: &str) -> (r: Option<usize>)
        requires
            self.wf(),
        ensures
            r is Some <==> self@.sessions.contains_key(token@),
            r matches Some(i) ==> {
                &&& i < self.sessions@.len()
                &&& self.sessions@[i as int].token@ == token@
                &&& self@.sessions[token@] == (SessionSpec { user: self.sessions@[i as int].user@, created: self.sessions@[i as int].created })
            },
    {
        let ghost n = tokens(self.sessions@);
        let mut i: usize = 0;
        while i < self.sessions.len()
            invariant
                i <= self.sessions@.len(),
                n == tokens(self.sessions@),
                n.no_duplicates(),
                forall|k: int| 0 <= k < i ==> #[trigger] n[k] != token@,
            decreases self.sessions.len() - i,
        {
            assert(n[i as int] == self.sessions@[i as int].token@);
            if same(self.sessions[i].token.as_str(), token) {
                proof {
                    lemma_session_at(self.sessions@, i as int);
                }
                return Some(i);
            }
            i = i + 1;
        }
        None
    }

    /// Put a user in its place; one with the same name is replaced.
    fn put_user(&mut self, u: User)
        requires
            old(self).wf(),
            clean_name(u.name@),
        ensures
            final(self).wf(),
            final(self)@ == (UserStoreSpec { users: old(self)@.users.insert(u.name@, u@), ..old(self)@ }),
    {
        let i: usize = self.place(u.name.as_str());
        let ghost v0 = self.users@;
        let ghost n0 = user_names(v0);
        let ghost name = u.name@;
        let ghost spec = u@;
        proof {
            lemma_ascending_distinct(n0);
        }
        if i < self.users.len() && same(self.users[i].name.as_str(), u.name.as_str()) {
            self.users.set(i, u);
            proof {
                let v1 = self.users@;
                let n1 = user_names(v1);
                assert(n1 =~= n0);
                lemma_same_names(v0, v1, i as int);
                assert(self@ =~= (UserStoreSpec { users: old(self)@.users.insert(name, spec), ..old(self)@ }));
            }
        } else {
            proof {
                if i < n0.len() {
                    assert(n0[i as int] == v0[i as int].name@);
                }
            }
            self.users.insert(i, u);
            proof {
                let v1 = self.users@;
                let n1 = user_names(v1);
                assert(n1 =~= n0.insert(i as int, name));
                assert forall|a: int, b: int| 0 <= a < b < n1.len() implies text_less(#[trigger] n1[a], #[trigger] n1[b]) by {
                    if a < i && b > i {
                        assert(n1[b] == n0[b - 1]);
                    } else if a == i {
                        assert(n1[b] == n0[b - 1]);
                        lemma_text_order(name, n0[b - 1], name);
                        lemma_text_order(name, n0[i as int], n0[b - 1]);
                    } else if a > i {
                        assert(n1[a] == n0[a - 1] && n1[b] == n0[b - 1]);
                    }
                }
                assert forall|k: int| 0 <= k < n1.len() implies clean_name(#[trigger] n1[k]) by {
                    if k < i {
                        assert(n1[k] == n0[k]);
                    } else if k > i {
                        assert(n1[k] == n0[k - 1]);
                    }
                }
                lemma_ascending_distinct(n1);
                lemma_user_added(v0, v1, i as int);
                assert(self@ =~= (UserStoreSpec { users: old(self)@.users.insert(name, spec), ..old(self)@ }));
            }
        }
    }

    /// A store without users.
    fn empty() -> (r: UserStore)
        ensures
            r.wf(),
            r@ == (UserStoreSpec { users: Map::empty(), sessions: Map::empty() }),
    {
        let r = UserStore { users: Vec::new(), sessions: Vec::new() };
        proof {
            assert(user_names(r.users@).len() == 0);
            assert(tokens(r.sessions@).len() == 0);
            assert(r@ =~= (UserStoreSpec { users: Map::empty(), sessions: Map::empty() }));
        }
        r
    }
}

proof fn lemma_same_names(v0: Seq<User>, v1: Seq<User>, i: int)
    requires
        user_names(v0).no_duplicates(),
        user_names(v1) == user_names(v0),
        0 <= i < v0.len(),
        v1 == v0.update(i, v1[i]),
    ensures
        users_map(v1) == users_map(v0).insert(v1[i].name@, v1[i]@),
{
    let n = user_names(v0);
    assert(n[i] == v0[i].name@ && user_names(v1)[i] == v1[i].name@);
    assert forall|x: Seq<char>| n.contains(x) && x != v1[i].name@ implies #[trigger] users_map(v1)[x] == users_map(v0)[x] by {
        let k = n.index_of(x);
        assert(n[k] == x);
        assert(k != i);
    }
    lemma_user_at(v1, i);
    assert(n.contains(n[i]));
    assert(users_map(v1) =~= users_map(v0).insert(v1[i].name@, v1[i]@));
}

proof fn lemma_user_added(v0: Seq<User>, v1: Seq<User>, i: int)
    requires
        user_names(v0).no_duplicates(),
        user_names(v1).no_duplicates(),
        0 <= i < v1.len(),
        v1 == v0.insert(i, v1[i]),
        v1.len() == v0.len() + 1,
    ensures
        users_map(v1) == users_map(v0).insert(v1[i].name@, v1[i]@),
        !users_map(v0).contains_key(v1[i].name@),
{
    let n0 = user_names(v0);
    let n1 = user_names(v1);
    assert(n1 =~= n0.insert(i, n1[i]));
    assert forall|x: Seq<char>| n1.contains(x) <==> n0.contains(x) || x == n1[i] by {
        if n0.contains(x) {
            let k = choose|k: int| 0 <= k < n0.len() && n0[k] == x;
            assert(n1[if k < i { k } else { k + 1 }] == x);
        }
        if n1.contains(x) && x != n1[i] {
            let k = choose|k: int| 0 <= k < n1.len() && n1[k] == x;
            assert(n0[if k < i { k } else { k - 1 }] == x);
        }
        assert(n1.contains(n1[i]));
    }
    assert forall|x: Seq<char>| n0.contains(x) implies x != n1[i] && #[trigger] users_map(v1)[x] == users_map(v0)[x] by {
        let k = n0.index_of(x);
        assert(n0[k] == x);
        let j = if k < i { k } else { k + 1 };
        assert(n1[j] == x);
        assert(v1[j] == v0[k]);
        assert(j != i);
        lemma_user_at(v1, j);
        lemma_user_at(v0, k);
    }
    lemma_user_at(v1, i);
    if n0.contains(n1[i]) {
        assert(n1[i] != n1[i]);
    }
    assert(users_map(v1) =~= users_map(v0).insert(v1[i].name@, v1[i]@));
}

proof fn lemma_user_removed(v0: Seq<User>, v1: Seq<User>, i: int)
    requires
        user_names(v0).no_duplicates(),
        0 <= i < v0.len(),
        v1 == v0.remove(i),
    ensures
        user_names(v1).no_duplicates(),
        users_map(v1) == users_map(v0).remove(v0[i].name@),
{
    let n0 = user_names(v0);
    let n1 = user_names(v1);
    assert(n1 =~= n0.remove(i));
    assert forall|a: int, c: int| 0 <= a < n1.len() && 0 <= c < n1.len() && a != c implies n1[a] != n1[c] by {
        assert(n1[a] == n0[if a < i { a } else { a + 1 }]);
        assert(n1[c] == n0[if c < i { c } else { c + 1 }]);
    }
    assert(v1.insert(i, v0[i]) =~= v0);
    lemma_user_added(v1, v0, i);
    assert(users_map(v1) =~= users_map(v1).insert(v0[i].name@, v0[i]@).remove(v0[i].name@));
}

proof fn lemma_session_removed(v0: Seq<Session>, v1: Seq<Session>, i: int)
    requires
        tokens(v0).no_duplicates(),
        0 <= i < v0.len(),
        v1 == v0.remove(i),
    ensures
        tokens(v1).no_duplicates(),
        sessions_map(v1) == sessions_map(v0).remove(v0[i].token@),
{
    let n0 = tokens(v0);
    let n1 = tokens(v1);
    assert(n1 =~= n0.remove(i));
    assert forall|a: int, c: int| 0 <= a < n1.len() && 0 <= c < n1.len() && a != c implies n1[a] != n1[c] by {
        assert(n1[a] == n0[if a < i { a } else { a + 1 }]);
        assert(n1[c] == n0[if c < i { c } else { c + 1 }]);
    }
    assert forall|x: Seq<char>| n1.contains(x) <==> n0.contains(x) && x != n0[i] by {
        if n1.contains(x) {
            let k = choose|k: int| 0 <= k < n1.len() && n1[k] == x;
            let j = if k < i { k } else { k + 1 };
            assert(n0[j] == x);
        }
        if n0.contains(x) && x != n0[i] {
            let k = choose|k: int| 0 <= k < n0.len() && n0[k] == x;
            assert(n1[if k < i { k } else { k - 1 }] == x);
        }
    }
    assert forall|x: Seq<char>| n1.contains(x) implies #[trigger] sessions_map(v1)[x] == sessions_map(v0)[x] by {
        let k = choose|k: int| 0 <= k < n1.len() && n1[k] == x;
        let j = if k < i { k } else { k + 1 };
        assert(v1[k] == v0[j] && n0[j] == x);
        lemma_session_at(v1, k);
        lemma_session_at(v0, j);
    }
    assert(sessions_map(v1) =~= sessions_map(v0).remove(v0[i].token@));
}

proof fn lemma_session_pushed(v0: Seq<Session>, s: Session)
    requires
        tokens(v0).no_duplicates(),
        !tokens(v0).contains(s.token@),
    ensures
        tokens(v0.push(s)).no_duplicates(),
        sessions_map(v0.push(s)) == sessions_map(v0).insert(s.token@, SessionSpec { user: s.user@, created: s.created }),
{
    let v1 = v0.push(s);
    let n0 = tokens(v0);
    let n1 = tokens(v1);
    assert(n1 =~= n0.push(s.token@));
    assert forall|a: int, c: int| 0 <= a < n1.len() && 0 <= c < n1.len() && a != c implies n1[a] != n1[c] by {
        if a < n0.len() {
            assert(n0.contains(n0[a]));
        }
        if c < n0.len() {
            assert(n0.contains(n0[c]));
        }
    }
    assert(v1.remove(v0.len() as int) =~= v0);
    lemma_session_removed(v1, v0, v0.len() as int);
    lemma_session_at(v1, v0.len() as int);
    assert(sessions_map(v1) =~= sessions_map(v0).insert(s.token@, SessionSpec { user: s.user@, created: s.created }));
}

/// The sessions that are not of the given user.
pub open spec fn sessions_without(m: Map<Seq<char>, SessionSpec>, name: Seq<char>) -> Map<Seq<char>, SessionSpec> {
    m.restrict(Set::new(|t: Seq<char>| m.contains_key(t) && m[t].user != name))
}

/// The users after the privileges of one of them were changed.
pub open spec fn with_privileges(s: UserStoreSpec, name: Seq<char>, privileges: Set<Privilege>) -> UserStoreSpec {
    UserStoreSpec { users: s.users.insert(name, UserSpec { privileges, ..s.users[name] }), ..s }
}

/// What a change of privileges is refused for.
pub open spec fn change_error(s: UserStoreSpec, name: Seq<char>) -> Option<Seq<char>> {
    if name == ROOT_USER@ {
        Some("cannot change privileges for the root user"@)
    } else if !s.users.contains_key(name) {
        Some(about_user(name, "' does not exist"@))
    } else {
        None
    }
}

fn user_message(name: &str, what: &str) -> (r: String)
    ensures
        r@ == about_user(name@, what@),
{
    join3("user '", name, what)
}

impl UserStore {
    /// Is there a user with this name?
    pub fn has_user(&self, name: &str) -> (b: bool)
        requires
            self.wf(),
        ensures
            b == self@.users.contains_key(name@),
    {
        self.find(name).is_some()
    }

    /// The user with this name.
    pub fn get(&self, name: &str) -> (r: Option<&User>)
        requires
            self.wf(),
        ensures
            match r {
                Some(u) => self@.users.contains_key(name@) && u.name@ == name@ && u@ == self@.users[name@],
                None => !self@.users.contains_key(name@),
            },
    {
        match self.find(name) {
            Some(i) => Some(&self.users[i]),
            None => None,
        }
    }

    /// Number of users.
    pub fn count(&self) -> (n: usize)
        requires
            self.wf(),
        ensures
            self@.users.dom().finite(),
            n == self@.users.dom().len(),
    {
        proof {
            let names = user_names(self.users@);
            lemma_ascending_distinct(names);
            names.unique_seq_to_set();
            assert(self@.users.dom() =~= names.to_set());
        }
        self.users.len()
    }

    /// All users, sorted by name.
    pub fn list(&self) -> (r: Vec<&User>)
        requires
            self.wf(),
        ensures
            lists_texts(r@.map_values(|u: &User| u.name@), self@.users.dom()),
            forall|i: int| 0 <= i < r@.len() ==> (#[trigger] r@[i])@ == self@.users[r@[i].name@],
    {
        let mut r: Vec<&User> = Vec::new();
        let mut i: usize = 0;
        while i < self.users.len()
            invariant
                i <= self.users@.len(),
                r@.len() == i,
                forall|k: int| 0 <= k < i ==> #[trigger] r@[k] == self.users@[k],
            decreases self.users.len() - i,
        {
            r.push(&self.users[i]);
            i = i + 1;
        }
        proof {
            let names = r@.map_values(|u: &User| u.name@);
            assert(names =~= user_names(self.users@));
            lemma_ascending_distinct(names);
            assert forall|k: int| 0 <= k < r@.len() implies (#[trigger] r@[k])@ == self@.users[r@[k].name@] by {
                lemma_user_at(self.users@, k);
            }
            assert forall|x: Seq<char>| #[trigger] self@.users.dom().contains(x) <==> names.contains(x) by {}
        }
        r
    }

    /// Add a user. Fails on an invalid name, an empty password, and a name that is
    /// taken.
    pub fn add(&mut self, name: &str, password: &str, privileges: PrivilegeSet, salt: u64) -> (r: Result<(), String>)
        requires
            old(self).wf(),
        ensures
            final(self).wf(),
            match name_error(name@) {
                Some(m) => r matches Err(e) && e@ == m,
                None => if password@.len() == 0 {
                    r matches Err(e) && e@ == "password must not be empty"@
                } else if old(self)@.users.contains_key(name@) {
                    r matches Err(e) && e@ == about_user(name@, "' already exists"@)
                } else {
                    r is Ok
                },
            },
            r is Err ==> final(self)@ == old(self)@,
            r is Ok ==> final(self)@ == (UserStoreSpec {
                users: old(self)@.users.insert(name@, UserSpec { salt, hash: password_hash(password@, salt), privileges: privileges@ }),
                ..old(self)@
            }),
    {
        match validate_name(name) {
            Ok(u) => {},
            Err(e) => {
                return Err(e);
            },
        }
        if is_blank(password) {
            return Err("password must not be empty".to_owned());
        }
        if self.has_user(name) {
            return Err(user_message(name, "' already exists"));
        }
        proof {
            assert forall|c: char| name@.contains(c) implies name_char(c) by {
                let k = choose|k: int| 0 <= k < name@.len() && name@[k] == c;
                assert(name_char(name@[k]));
            }
        }
        let (s, h) = make_hash(password, salt);
        self.put_user(User { name: name.to_owned(), salt: s, hash: h, privileges });
        Ok(())
    }

    /// Drop a user and all sessions of it. `root` cannot be dropped.
    pub fn drop_user(&mut self, name: &str) -> (r: Result<(), String>)
        requires
            old(self).wf(),
        ensures
            final(self).wf(),
            if name@ == ROOT_USER@ {
                r matches Err(e) && e@ == "cannot drop the root user"@
            } else if !old(self)@.users.contains_key(name@) {
                r matches Err(e) && e@ == about_user(name@, "' does not exist"@)
            } else {
                r is Ok
            },
            r is Err ==> final(self)@ == old(self)@,
            r is Ok ==> final(self)@ == (UserStoreSpec {
                users: old(self)@.users.remove(name@),
                sessions: sessions_without(old(self)@.sessions, name@),
            }),
    {
        if same(name, ROOT_USER) {
            return Err("cannot drop the root user".to_owned());
        }
        let i: usize = match self.find(name) {
            Some(i) => i,
            None => {
                return Err(user_message(name, "' does not exist"));
            },
        };
        let ghost u0 = self.users@;
        let ghost n0 = user_names(u0);
        let removed: User = self.users.remove(i);
        proof {
            lemma_ascending_distinct(n0);
            lemma_user_removed(u0, self.users@, i as int);
            let n1 = user_names(self.users@);
            assert(n1 =~= n0.remove(i as int));
            assert forall|a: int, b: int| 0 <= a < b < n1.len() implies text_less(#[trigger] n1[a], #[trigger] n1[b]) by {
                assert(n1[a] == n0[if a < i { a } else { a + 1 }]);
                assert(n1[b] == n0[if b < i { b } else { b + 1 }]);
            }
            assert forall|k: int| 0 <= k < n1.len() implies clean_name(#[trigger] n1[k]) by {
                assert(n1[k] == n0[if k < i { k } else { k + 1 }]);
            }
        }
        let ghost s0 = self.sessions@;
        let ghost m0 = sessions_map(s0);
        let ghost users = self.users@;
        let mut k: usize = 0;
        while k < self.sessions.len()
            invariant
                k <= self.sessions@.len(),
                self.users@ == users,
                tokens(self.sessions@).no_duplicates(),
                forall|x: Seq<char>| #[trigger] sessions_map(self.sessions@).contains_key(x) ==> m0.contains_key(x) && sessions_map(self.sessions@)[x] == m0[x],
                forall|x: Seq<char>| #[trigger] m0.contains_key(x) && m0[x].user != name@ ==> sessions_map(self.sessions@).contains_key(x),
                forall|j: int| 0 <= j < k ==> (#[trigger] self.sessions@[j]).user@ != name@,
            decreases self.sessions.len() - k,
        {
            let ghost v = self.sessions@;
            proof {
                lemma_session_at(v, k as int);
            }
            if same(self.sessions[k].user.as_str(), name) {
                let gone: Session = self.sessions.remove(k);
                proof {
                    lemma_session_removed(v, self.sessions@, k as int);
                    assert forall|j: int| 0 <= j < k implies (#[trigger] self.sessions@[j]).user@ != name@ by {
                        assert(self.sessions@[j] == v[j]);
                    }
                }
            } else {
                k = k + 1;
            }
        }
        proof {
            let m1 = sessions_map(self.sessions@);
            assert forall|x: Seq<char>| m1.contains_key(x) <==> sessions_without(m0, name@).contains_key(x) by {
                if m1.contains_key(x) {
                    let j = tokens(self.sessions@).index_of(x);
                    assert(tokens(self.sessions@)[j] == x);
                    lemma_session_at(self.sessions@, j);
                    assert(self.sessions@[j].user@ != name@);
                }
            }
            assert(m1 =~= sessions_without(m0, name@));
            assert(self@ =~= (UserStoreSpec { users: old(self)@.users.remove(name@), sessions: sessions_without(old(self)@.sessions, name@) }));
        }
        Ok(())
    }

    /// Change the password of a user.
    pub fn set_password(&mut self, name: &str, password: &str, salt: u64) -> (r: Result<(), String>)
        requires
            old(self).wf(),
        ensures
            final(self).wf(),
            if password@.len() == 0 {
                r matches Err(e) && e@ == "password must not be empty"@
            } else if !old(self)@.users.contains_key(name@) {
                r matches Err(e) && e@ == about_user(name@, "' does not exist"@)
            } else {
                r is Ok
            },
            r is Err ==> final(self)@ == old(self)@,
            r is Ok ==> final(self)@ == (UserStoreSpec {
                users: old(self)@.users.insert(name@, UserSpec { salt, hash: password_hash(password@, salt), privileges: old(self)@.users[name@].privileges }),
                ..old(self)@
            }),
    {
        if is_blank(password) {
            return Err("password must not be empty".to_owned());
        }
        match self.find(name) {
            None => Err(user_message(name, "' does not exist")),
            Some(i) => {
                let (s, h) = make_hash(password, salt);
                let privileges: PrivilegeSet = self.users[i].privileges;
                proof {
                    assert(user_names(self.users@)[i as int] == name@);
                }
                self.put_user(User { name: name.to_owned(), salt: s, hash: h, privileges });
                Ok(())
            },
        }
    }

    fn put_privileges(&mut self, name: &str, i: usize, privileges: PrivilegeSet)
        requires
            old(self).wf(),
            i < old(self).users@.len(),
            old(self).users@[i as int].name@ == name@,
            old(self)@.users.contains_key(name@),
            old(self)@.users[name@] == old(self).users@[i as int]@,
        ensures
            final(self).wf(),
            final(self)@ == with_privileges(old(self)@, name@, privileges@),
    {
        let salt: u64 = self.users[i].salt;
        let hash: u64 = self.users[i].hash;
        proof {
            assert(user_names(self.users@)[i as int] == name@);
        }
        self.put_user(User { name: name.to_owned(), salt, hash, privileges });
    }

    /// Give a user more privileges. Those of `root` cannot be changed.
    pub fn grant(&mut self, name: &str, privs: &PrivilegeSet) -> (r: Result<(), String>)
        requires
            old(self).wf(),
        ensures
            final(self).wf(),
            match change_error(old(self)@, name@) {
                Some(m) => (r matches Err(e) && e@ == m) && final(self)@ == old(self)@,
                None => r is Ok && final(self)@ == with_privileges(old(self)@, name@, old(self)@.users[name@].privileges.union(privs@)),
            },
    {
        match self.changeable(name) {
            Err(e) => Err(e),
            Ok(i) => {
                let p: PrivilegeSet = self.users[i].privileges.union(privs);
                self.put_privileges(name, i, p);
                Ok(())
            },
        }
    }

    /// Take privileges from a user. Those of `root` cannot be changed.
    pub fn revoke(&mut self, name: &str, privs: &PrivilegeSet) -> (r: Result<(), String>)
        requires
            old(self).wf(),
        ensures
            final(self).wf(),
            match change_error(old(self)@, name@) {
                Some(m) => (r matches Err(e) && e@ == m) && final(self)@ == old(self)@,
                None => r is Ok && final(self)@ == with_privileges(old(self)@, name@, old(self)@.users[name@].privileges.difference(privs@)),
            },
    {
        match self.changeable(name) {
            Err(e) => Err(e),
            Ok(i) => {
                let p: PrivilegeSet = self.users[i].privileges.minus(privs);
                self.put_privileges(name, i, p);
                Ok(())
            },
        }
    }

    /// Take all privileges from a user. Those of `root` cannot be changed.
    pub fn clear_privileges(&mut self, name: &str) -> (r: Result<(), String>)
        requires
            old(self).wf(),
        ensures
            final(self).wf(),
            match change_error(old(self)@, name@) {
                Some(m) => (r matches Err(e) && e@ == m) && final(self)@ == old(self)@,
                None => r is Ok && final(self)@ == with_privileges(old(self)@, name@, Set::empty()),
            },
    {
        match self.changeable(name) {
            Err(e) => Err(e),
            Ok(i) => {
                let p: PrivilegeSet = PrivilegeSet::new();
                self.put_privileges(name, i, p);
                Ok(())
            },
        }
    }

    /// The place of a user whose privileges can be changed.
    fn changeable(&self, name: &str) -> (r: Result<usize, String>)
        requires
            self.wf(),
        ensures
            match change_error(self@, name@) {
                Some(m) => r matches Err(e) && e@ == m,
                None => r matches Ok(i) && i < self.users@.len() && self.users@[i as int].name@ == name@ && self@.users[name@] == self.users@[i as int]@,
            },
    {
        if same(name, ROOT_USER) {
            return Err("cannot change privileges for the root user".to_owned());
        }
        match self.find(name) {
            None => Err(user_message(name, "' does not exist")),
            Some(i) => Ok(i),
        }
    }

    /// Is this the password of the user?
    pub fn verify(&self, name: &str, password: &str) -> (b: bool)
        requires
            self.wf(),
        ensures
            b == knows(self@, name@, password@),
    {
        match self.find(name) {
            Some(i) => verify_hash(password, self.users[i].salt, self.users[i].hash),
            None => false,
        }
    }

    /// Check a password and open a session with the given token.
    pub fn login(&mut self, name: &str, password: &str, token: &str, now: u64) -> (r: Option<String>)
        requires
            old(self).wf(),
        ensures
            final(self).wf(),
            if knows(old(self)@, name@, password@) {
                &&& r matches Some(t) && t@ == token@
                &&& final(self)@ == (UserStoreSpec { sessions: old(self)@.sessions.insert(token@, SessionSpec { user: name@, created: now }), ..old(self)@ })
            } else {
                r is None && final(self)@ == old(self)@
            },
    {
        if !self.verify(name, password) {
            return None;
        }
        let ghost s0 = self@;
        match self.find_session(token) {
            None => {},
            Some(i) => {
                let ghost v = self.sessions@;
                let gone: Session = self.sessions.remove(i);
                proof {
                    lemma_session_removed(v, self.sessions@, i as int);
                }
            },
        }
        let ghost v = self.sessions@;
        proof {
            assert(sessions_map(v) =~= s0.sessions.remove(token@));
            if tokens(v).contains(token@) {
                assert(sessions_map(v).contains_key(token@));
            }
        }
        let s = Session { token: token.to_owned(), user: name.to_owned(), created: now };
        proof {
            lemma_session_pushed(v, s);
        }
        self.sessions.push(s);
        proof {
            assert(self@ =~= (UserStoreSpec { sessions: s0.sessions.insert(token@, SessionSpec { user: name@, created: now }), ..s0 }));
        }
        Some(token.to_owned())
    }

    /// The user of a session. A session that is too old, or whose user is gone, is
    /// removed.
    pub fn session_user(&mut self, token: &str, now: u64) -> (r: Option<String>)
        requires
            old(self).wf(),
        ensures
            final(self).wf(),
            match session_owner(old(self)@, token@, now) {
                Some(u) => (r matches Some(s) && s@ == u) && final(self)@ == old(self)@,
                None => r is None && final(self)@ == (UserStoreSpec { sessions: old(self)@.sessions.remove(token@), ..old(self)@ }),
            },
    {
        let i: usize = match self.find_session(token) {
            None => {
                assert(self@.sessions.remove(token@) =~= self@.sessions);
                return None;
            },
            Some(i) => i,
        };
        let created: u64 = self.sessions[i].created;
        let age: u64 = if now >= created { now - created } else { 0 };
        if age <= SESSION_TTL && self.has_user(self.sessions[i].user.as_str()) {
            return Some(self.sessions[i].user.as_str().to_owned());
        }
        let ghost v = self.sessions@;
        let gone: Session = self.sessions.remove(i);
        proof {
            lemma_session_removed(v, self.sessions@, i as int);
            assert(self@ =~= (UserStoreSpec { sessions: old(self)@.sessions.remove(token@), ..old(self)@ }));
        }
        None
    }

    /// Close a session, and say whether there was one.
    pub fn logout(&mut self, token: &str) -> (b: bool)
        requires
            old(self).wf(),
        ensures
            final(self).wf(),
            b == old(self)@.sessions.contains_key(token@),
            final(self)@ == (UserStoreSpec { sessions: old(self)@.sessions.remove(token@), ..old(self)@ }),
    {
        match self.find_session(token) {
            None => {
                assert(self@.sessions.remove(token@) =~= self@.sessions);
                false
            },
            Some(i) => {
                let ghost v = self.sessions@;
                let gone: Session = self.sessions.remove(i);
                proof {
                    lemma_session_removed(v, self.sessions@, i as int);
                    assert(self@ =~= (UserStoreSpec { sessions: old(self)@.sessions.remove(token@), ..old(self)@ }));
                }
                true
            },
        }
    }

    /// Does the user hold the privilege?
    pub fn has_priv(&self, name: &str, p: Privilege) -> (b: bool)
        requires
            self.wf(),
        ensures
            b == allowed(self@, name@, p),
    {
        match self.find(name) {
            Some(i) => self.users[i].has(p),
            None => false,
        }
    }
}

/// The password is that of the user.
pub open spec fn knows(s: UserStoreSpec, name: Seq<char>, password: Seq<char>) -> bool {
    s.users.contains_key(name) && password_hash(password, s.users[name].salt) == s.users[name].hash
}

/// The user holds the privilege.
pub open spec fn allowed(s: UserStoreSpec, name: Seq<char>, p: Privilege) -> bool {
    s.users.contains_key(name) && user_has(name, s.users[name], p)
}

/// The user of a session that is neither too old nor of a user who is gone.
pub open spec fn session_owner(s: UserStoreSpec, token: Seq<char>, now: u64) -> Option<Seq<char>> {
    if s.sessions.contains_key(token) && elapsed(now, s.sessions[token].created) <= SESSION_TTL && s.users.contains_key(s.sessions[token].user) {
        Some(s.sessions[token].user)
    } else {
        None
    }
}

fn is_blank(s: &str) -> (b: bool)
    ensures
        b == (s@.len() == 0),
{
    let b: bool = same(s, "");
    proof {
        reveal_strlit("");
        if s@.len() == 0 {
            assert(s@ =~= ""@);
        }
    }
    b
}

/// The user that a line of the table describes.
pub open spec fn line_user(line: Seq<char>) -> Option<(Seq<char>, UserSpec)> {
    let cols = split_on(trim_end(line), '\t');
    if trim_end(line).len() == 0 || cols.len() < 3 {
        None
    } else {
        match (parsed_hex(cols[1]), parsed_hex(cols[2])) {
            (Some(salt), Some(hash)) => Some((cols[0], UserSpec { salt, hash, privileges: column_set(cols) })),
            _ => None,
        }
    }
}

/// The privileges in the fourth column; none if it is missing or invalid.
pub open spec fn column_set(cols: Seq<Seq<char>>) -> Set<Privilege> {
    if cols.len() > 3 {
        match parsed_list(cols[3]) {
            Some(set) => set,
            None => Set::empty(),
        }
    } else {
        Set::empty()
    }
}

/// Users with those of some lines added; a later line wins.
pub open spec fn lines_read(m: Map<Seq<char>, UserSpec>, lines: Seq<Seq<char>>) -> Map<Seq<char>, UserSpec>
    decreases lines.len(),
{
    if lines.len() == 0 {
        m
    } else {
        lines_read(
            match line_user(lines[0]) {
                Some((name, u)) => m.insert(name, u),
                None => m,
            },
            lines.skip(1),
        )
    }
}

/// The users of a table.
pub open spec fn table_users(text: Seq<char>) -> Map<Seq<char>, UserSpec> {
    lines_read(Map::empty(), split_on(text, '\n'))
}

/// The line of a user.
pub open spec fn user_line(name: Seq<char>, u: UserSpec) -> Seq<char> {
    name + seq!['\t'] + hex_text(u.salt as nat, 16) + seq!['\t'] + hex_text(u.hash as nat, 16) + seq!['\t'] + set_text(u.privileges)
}

/// The table of some users.
pub open spec fn table_text(names: Seq<Seq<char>>, users: Map<Seq<char>, UserSpec>) -> Seq<char>
    decreases names.len(),
{
    if names.len() == 0 {
        Seq::empty()
    } else {
        user_line(names[0], users[names[0]]) + seq!['\n'] + table_text(names.skip(1), users)
    }
}

proof fn lemma_pieces_clean(s: Seq<char>, c: char, d: char)
    requires
        d == c || !s.contains(d),
    ensures
        forall|i: int| 0 <= i < split_on(s, c).len() ==> !(#[trigger] split_on(s, c)[i]).contains(d),
    decreases s.len(),
{
    let f = crate::fields::first_at(s, c) as int;
    crate::fields::lemma_first_at(s, c);
    if f < s.len() {
        let rest = s.skip(f + 1);
        if d != c && rest.contains(d) {
            let k = choose|k: int| 0 <= k < rest.len() && rest[k] == d;
            assert(s[k + f + 1] == d);
        }
        lemma_pieces_clean(rest, c, d);
        assert forall|i: int| 0 <= i < split_on(s, c).len() implies !(#[trigger] split_on(s, c)[i]).contains(d) by {
            if i == 0 {
                let a = s.take(f);
                if a.contains(d) {
                    let k = choose|k: int| 0 <= k < a.len() && a[k] == d;
                    assert(s[k] == d);
                }
            } else {
                assert(split_on(s, c)[i] == split_on(rest, c)[i - 1]);
            }
        }
    } else if s.contains(d) {
        let k = choose|k: int| 0 <= k < s.len() && s[k] == d;
        assert(s[k] != c);
    }
}

proof fn lemma_trim_end_part(s: Seq<char>)
    ensures
        trim_end(s).len() <= s.len(),
        trim_end(s) == s.take(trim_end(s).len() as int),
    decreases s.len(),
{
    if s.len() > 0 && is_white(s.last()) {
        lemma_trim_end_part(s.drop_last());
        assert(trim_end(s) =~= s.take(trim_end(s).len() as int));
    } else {
        assert(s.take(s.len() as int) =~= s);
    }
}

impl UserStore {
    /// Add the users of a table; lines that do not describe a user are skipped.
    fn read_file(&mut self, text: &str)
        requires
            old(self).wf(),
        ensures
            final(self).wf(),
            final(self)@ == (UserStoreSpec { users: lines_read(old(self)@.users, split_on(text@, '\n')), ..old(self)@ }),
    {
        let lines: Vec<String> = split_text(text, '\n');
        let ghost all = texts(lines@);
        let ghost s0 = self@;
        let mut i: usize = 0;
        assert(all.skip(0) =~= all);
        proof {
            lemma_pieces_clean(text@, '\n', '\n');
        }
        while i < lines.len()
            invariant
                i <= lines@.len(),
                all == texts(lines@),
                all == split_on(text@, '\n'),
                forall|k: int| 0 <= k < all.len() ==> !(#[trigger] all[k]).contains('\n'),
                self.wf(),
                s0 == old(self)@,
                self@.sessions == s0.sessions,
                lines_read(self@.users, all.skip(i as int)) == lines_read(s0.users, all),
            decreases lines.len() - i,
        {
            let ghost line = all[i as int];
            let ghost users = self@.users;
            proof {
                assert(line == lines@[i as int]@);
                assert(all.skip(i as int)[0] == line);
                assert(all.skip(i as int).skip(1) =~= all.skip(i + 1));
                assert(!line.contains('\n'));
            }
            let t: String = trim_text_end(lines[i].as_str());
            if !is_blank(t.as_str()) {
                let cols: Vec<String> = split_text(t.as_str(), '\t');
                let ghost c = texts(cols@);
                if cols.len() >= 3 {
                    assert(c[1] == cols@[1]@ && c[2] == cols@[2]@ && c[0] == cols@[0]@);
                    let privileges: PrivilegeSet = if cols.len() > 3 {
                        assert(c[3] == cols@[3]@);
                        match Privilege::parse_list(cols[3].as_str()) {
                            Some(p) => p,
                            None => PrivilegeSet::new(),
                        }
                    } else {
                        PrivilegeSet::new()
                    };
                    let salt: Option<u64> = parse_hex(cols[1].as_str());
                    let hash: Option<u64> = parse_hex(cols[2].as_str());
                    match (salt, hash) {
                        (Some(salt), Some(hash)) => {
                            proof {
                                lemma_trim_end_part(line);
                                if t@.contains('\n') {
                                    let k = choose|k: int| 0 <= k < t@.len() && t@[k] == '\n';
                                    assert(line[k] == '\n');
                                }
                                lemma_pieces_clean(t@, '\t', '\n');
                                lemma_pieces_clean(t@, '\t', '\t');
                                assert(!c[0].contains('\n') && !c[0].contains('\t'));
                            }
                            self.put_user(User { name: cols[0].as_str().to_owned(), salt, hash, privileges });
                        },
                        _ => {},
                    }
                }
            }
            i = i + 1;
        }
        proof {
            assert(all.skip(i as int).len() == 0);
            assert(self@ =~= (UserStoreSpec { users: lines_read(s0.users, all), ..s0 }));
        }
    }

    /// The users of a table, if there is one. `root` is added, with the given
    /// password and all privileges, if the table does not have it; the second part
    /// of the result says so, and the table has then to be written.
    pub fn open(text: Option<&str>, root_password: &str, salt: u64) -> (r: (UserStore, bool))
        ensures
            r.0.wf(),
            r.0@.users.contains_key(ROOT_USER@),
            ({
                let users = match text {
                    Some(t) => table_users(t@),
                    None => Map::empty(),
                };
                &&& r.1 == !users.contains_key(ROOT_USER@)
                &&& r.0@ == (UserStoreSpec {
                    users: if users.contains_key(ROOT_USER@) {
                        users
                    } else {
                        users.insert(ROOT_USER@, UserSpec { salt, hash: password_hash(root_password@, salt), privileges: set![Privilege::Admin] })
                    },
                    sessions: Map::empty(),
                })
            }),
    {
        let mut s: UserStore = UserStore::empty();
        match text {
            Some(t) => {
                s.read_file(t);
            },
            None => {},
        }
        if s.has_user(ROOT_USER) {
            return (s, false);
        }
        proof {
            reveal_strlit("root");
            assert(clean_name(ROOT_USER@));
        }
        let (salt, hash) = make_hash(root_password, salt);
        let privileges: PrivilegeSet = PrivilegeSet::one(Privilege::Admin);
        assert(privileges@ =~= set![Privilege::Admin]);
        s.put_user(User { name: ROOT_USER.to_owned(), salt, hash, privileges });
        (s, true)
    }

    /// The table of the users, sorted by name.
    pub fn save(&self) -> (r: String)
        requires
            self.wf(),
        ensures
            exists|names: Seq<Seq<char>>| #[trigger] lists_texts(names, self@.users.dom()) && r@ == table_text(names, self@.users),
    {
        let ghost names = user_names(self.users@);
        let ghost users = self@.users;
        let mut r: String = String::new();
        let mut i: usize = 0;
        proof {
            lemma_ascending_distinct(names);
            assert(names.skip(0) =~= names);
            assert(r@ + table_text(names, users) =~= table_text(names, users));
        }
        while i < self.users.len()
            invariant
                i <= self.users@.len(),
                names == user_names(self.users@),
                names.no_duplicates(),
                users == users_map(self.users@),
                r@ + table_text(names.skip(i as int), users) == table_text(names, users),
            decreases self.users.len() - i,
        {
            let ghost r0 = r@;
            let u: &User = &self.users[i];
            let priv_text: String = u.privilege_str();
            proof {
                lemma_user_at(self.users@, i as int);
                assert(names.skip(i as int)[0] == u.name@);
                assert(names.skip(i as int).skip(1) =~= names.skip(i + 1));
            }
            r.append(u.name.as_str());
            r.push('\t');
            r.append(hex16(u.salt).as_str());
            r.push('\t');
            r.append(hex16(u.hash).as_str());
            r.push('\t');
            r.append(priv_text.as_str());
            r.push('\n');
            proof {
                let rest = table_text(names.skip(i + 1), users);
                assert(r@ =~= r0 + user_line(u.name@, users[u.name@]) + seq!['\n']);
                assert(r@ + rest =~= r0 + (user_line(u.name@, users[u.name@]) + seq!['\n'] + rest));
            }
            i = i + 1;
        }
        proof {
            assert(names.skip(i as int).len() == 0);
            assert(r@ =~= table_text(names, users));
            assert forall|x: Seq<char>| #[trigger] users.dom().contains(x) <==> names.contains(x) by {}
            assert(lists_texts(names, users.dom()));
        }
        r
    }
}

/// `root` holds every privilege.
pub proof fn law_root_holds_all(s: UserStoreSpec, p: Privilege)
    requires
        s.users.contains_key(ROOT_USER@),
    ensures
        allowed(s, ROOT_USER@, p),
{
}

/// Who holds the last privilege holds all.
pub proof fn law_admin_implies_all(s: UserStoreSpec, name: Seq<char>, p: Privilege)
    requires
        allowed(s, name, Privilege::Admin),
    ensures
        allowed(s, name, p),
{
}

proof fn lemma_privilege_name(p: Privilege)
    ensures
        privilege_name(p).len() > 0,
        forall|i: int| 0 <= i < privilege_name(p).len() ==> 'a' <= #[trigger] privilege_name(p)[i] <= 'z',
        trimmed(privilege_name(p)) == privilege_name(p),
        named_privilege(privilege_name(p)) == Some(p),
{
    reveal_strlit("query");
    reveal_strlit("load");
    reveal_strlit("unload");
    reveal_strlit("update");
    reveal_strlit("backup");
    reveal_strlit("restore");
    reveal_strlit("export");
    reveal_strlit("admin");
    reveal_strlit("1");
    reveal_strlit("2");
    reveal_strlit("3");
    reveal_strlit("4");
    reveal_strlit("5");
    reveal_strlit("6");
    reveal_strlit("7");
    reveal_strlit("8");
    let n = privilege_name(p);
    assert(forall|i: int| 0 <= i < n.len() ==> 'a' <= #[trigger] n[i] <= 'z');
    lemma_trimmed(n);
    assert("query"@[0] == 'q' && "admin"@[0] == 'a');
    assert("unload"@[0] == 'u' && "unload"@[1] == 'n');
    assert("update"@[0] == 'u' && "update"@[1] == 'p');
    assert("backup"@[0] == 'b');
    assert("export"@[0] == 'e');
}

proof fn lemma_present(set: Set<Privilege>, n: nat)
    requires
        n <= 8,
    ensures
        listed(present(set, n)) == Some(set.intersect(privileges().take(n as int).to_set())),
        forall|i: int| 0 <= i < present(set, n).len() ==> {
            &&& (#[trigger] present(set, n)[i]).len() > 0
            &&& letters(present(set, n)[i])
        },
    decreases n,
{
    if n == 0 {
        assert(set.intersect(privileges().take(0).to_set()) =~= Set::<Privilege>::empty());
    } else {
        let m = (n - 1) as nat;
        let p = privileges()[m as int];
        lemma_present(set, m);
        lemma_privilege_name(p);
        let a = privileges().take(m as int);
        assert(privileges().take(n as int) =~= a.push(p));
        assert(a.push(p).to_set() =~= a.to_set().insert(p)) by {
            assert forall|q: Privilege| #[trigger] a.push(p).to_set().contains(q) <==> a.to_set().insert(p).contains(q) by {
                lemma_push_has(a, p, q);
            }
        }
        if set.contains(p) {
            assert(present(set, n).drop_last() =~= present(set, m));
            assert(set.intersect(a.push(p).to_set()) =~= set.intersect(a.to_set()).insert(p));
        } else {
            assert(set.intersect(a.push(p).to_set()) =~= set.intersect(a.to_set()));
        }
    }
}

/// Only lower-case letters.
pub open spec fn letters(s: Seq<char>) -> bool {
    forall|i: int| 0 <= i < s.len() ==> 'a' <= #[trigger] s[i] <= 'z'
}

proof fn lemma_joined(l: Seq<Seq<char>>)
    requires
        forall|i: int| 0 <= i < l.len() ==> (#[trigger] l[i]).len() > 0 && letters(l[i]),
    ensures
        forall|i: int| 0 <= i < joined(l, ',').len() ==> ('a' <= #[trigger] joined(l, ',')[i] <= 'z') || joined(l, ',')[i] == ',',
        l.len() > 0 ==> joined(l, ',').len() > 0 && split_on(joined(l, ','), ',') == l,
    decreases l.len(),
{
    if l.len() == 1 {
        assert(letters(l[0]));
        assert(!l[0].contains(','));
        lemma_split_one(l[0], ',');
        assert(seq![l[0]] =~= l);
    } else if l.len() > 1 {
        let rest = l.skip(1);
        assert forall|i: int| 0 <= i < rest.len() implies (#[trigger] rest[i]).len() > 0 && letters(rest[i]) by {
            assert(rest[i] == l[i + 1]);
        }
        lemma_joined(rest);
        assert(letters(l[0]));
        assert(!l[0].contains(','));
        lemma_split_cons(l[0], ',', joined(rest, ','));
        assert(seq![l[0]] + rest =~= l);
        let j = joined(l, ',');
        assert forall|i: int| 0 <= i < j.len() implies ('a' <= #[trigger] j[i] <= 'z') || j[i] == ',' by {
            if i > l[0].len() {
                assert(j[i] == joined(rest, ',')[i - l[0].len() - 1]);
            }
        }
    }
}

/// The privileges of a set survive being written and read.
pub proof fn law_privileges_roundtrip(set: Set<Privilege>)
    ensures
        parsed_list(set_text(set)) == Some(set),
{
    lemma_set_text(set);
}

proof fn lemma_set_text(set: Set<Privilege>)
    ensures
        parsed_list(set_text(set)) == Some(set),
        forall|i: int| 0 <= i < set_text(set).len() ==> ('a' <= #[trigger] set_text(set)[i] <= 'z') || set_text(set)[i] == ',',
        set_text(set).len() == 0 ==> set == Set::<Privilege>::empty(),
{
    let l = present(set, 8);
    lemma_present(set, 8);
    assert(privileges().take(8) =~= privileges());
    assert(set.intersect(privileges().to_set()) =~= set) by {
        assert forall|p: Privilege| set.contains(p) implies privileges().to_set().contains(p) by {
            lemma_all_privileges(p);
        }
    }
    lemma_joined(l);
    if l.len() == 0 {
        let e = Seq::<char>::empty();
        assert(set_text(set) =~= e);
        lemma_split_one(e, ',');
        assert(seq![e].drop_last() =~= Seq::<Seq<char>>::empty());
        assert(listed(seq![e].drop_last()) == Some(Set::<Privilege>::empty()));
        assert(listed(seq![e]) == Some(Set::<Privilege>::empty()));
        assert(l =~= Seq::<Seq<char>>::empty());
    }
}

proof fn lemma_hex_plain(v: u64)
    ensures
        !hex_text(v as nat, 16).contains('\t'),
        !hex_text(v as nat, 16).contains('\n'),
        !is_white(hex_text(v as nat, 16).last()),
        hex_text(v as nat, 16).len() == 16,
        parsed_hex(hex_text(v as nat, 16)) == Some(v),
{
    law_hex_roundtrip(v);
    let s = hex_text(v as nat, 16);
    assert(hex_value(s[15]) is Some);
    if s.contains('\t') {
        let k = choose|k: int| 0 <= k < s.len() && s[k] == '\t';
        assert(hex_value(s[k]) is Some);
    }
    if s.contains('\n') {
        let k = choose|k: int| 0 <= k < s.len() && s[k] == '\n';
        assert(hex_value(s[k]) is Some);
    }
}

proof fn lemma_line(name: Seq<char>, u: UserSpec)
    requires
        clean_name(name),
    ensures
        line_user(user_line(name, u)) == Some((name, u)),
        !user_line(name, u).contains('\n'),
{
    let s = hex_text(u.salt as nat, 16);
    let h = hex_text(u.hash as nat, 16);
    let p = set_text(u.privileges);
    let line = user_line(name, u);
    lemma_hex_plain(u.salt);
    lemma_hex_plain(u.hash);
    lemma_set_text(u.privileges);
    assert forall|c: char| p.contains(c) implies ('a' <= c <= 'z') || c == ',' by {
        let k = choose|k: int| 0 <= k < p.len() && p[k] == c;
        assert(('a' <= p[k] <= 'z') || p[k] == ',');
    }
    let three = name + seq!['\t'] + (s + seq!['\t'] + h);
    assert(line =~= three + seq!['\t'] + p);
    lemma_split_one(h, '\t');
    lemma_split_cons(s, '\t', h);
    lemma_split_cons(name, '\t', s + seq!['\t'] + h);
    assert(split_on(three, '\t') =~= seq![name, s, h]);
    assert(three.last() == h.last());
    if p.len() == 0 {
        assert(line.drop_last() =~= three);
        assert(is_white('\t'));
        assert(line.last() == '\t');
        assert(trim_end(three) == three);
        assert(trim_end(line) == three);
    } else {
        assert(line.last() == p[p.len() - 1]);
        assert(p.contains(p[p.len() - 1]));
        assert(!is_white(line.last()));
        assert(trim_end(line) == line);
        lemma_split_one(p, '\t');
        lemma_split_cons(h, '\t', p);
        lemma_split_cons(s, '\t', h + seq!['\t'] + p);
        lemma_split_cons(name, '\t', s + seq!['\t'] + (h + seq!['\t'] + p));
        assert(line =~= name + seq!['\t'] + (s + seq!['\t'] + (h + seq!['\t'] + p)));
        assert(split_on(line, '\t') =~= seq![name, s, h, p]);
    }
    if line.contains('\n') {
        let k = choose|k: int| 0 <= k < line.len() && line[k] == '\n';
        let a = name.len() as int;
        if k < a {
            assert(name[k] == '\n');
            assert(name.contains('\n'));
        } else if a < k < a + 17 {
            assert(s[k - a - 1] == '\n');
            assert(s.contains('\n'));
        } else if a + 17 < k < a + 34 {
            assert(h[k - a - 18] == '\n');
            assert(h.contains('\n'));
        } else if k > a + 34 {
            assert(p[k - a - 35] == '\n');
            assert(p.contains('\n'));
        }
    }
}

proof fn lemma_table(names: Seq<Seq<char>>, users: Map<Seq<char>, UserSpec>, m: Map<Seq<char>, UserSpec>)
    requires
        forall|i: int| 0 <= i < names.len() ==> clean_name(#[trigger] names[i]) && users.contains_key(names[i]),
    ensures
        ({
            let r = lines_read(m, split_on(table_text(names, users), '\n'));
            &&& forall|x: Seq<char>| #[trigger] r.contains_key(x) <==> m.contains_key(x) || names.contains(x)
            &&& forall|x: Seq<char>| #[trigger] r.contains_key(x) ==> r[x] == if names.contains(x) { users[x] } else { m[x] }
        }),
    decreases names.len(),
{
    let text = table_text(names, users);
    if names.len() == 0 {
        let e = Seq::<char>::empty();
        lemma_split_one(e, '\n');
        assert(trim_end(e) == e);
        assert(line_user(e) is None);
        assert(seq![e].skip(1) =~= Seq::<Seq<char>>::empty());
        reveal_with_fuel(lines_read, 2);
        assert(lines_read(m, seq![e]) == m);
        assert(lines_read(m, split_on(text, '\n')) == m);
        assert forall|x: Seq<char>| !(#[trigger] names.contains(x)) by {}
    } else {
        let n = names[0];
        let u = users[n];
        let rest = names.skip(1);
        let line = user_line(n, u);
        lemma_line(n, u);
        lemma_split_cons(line, '\n', table_text(rest, users));
        let tail = split_on(table_text(rest, users), '\n');
        let lines = seq![line] + tail;
        assert(lines.skip(1) =~= tail);
        assert(split_on(text, '\n') == lines);
        assert(lines_read(m, lines) == lines_read(m.insert(n, u), tail));
        assert forall|i: int| 0 <= i < rest.len() implies clean_name(#[trigger] rest[i]) && users.contains_key(rest[i]) by {
            assert(rest[i] == names[i + 1]);
        }
        lemma_table(rest, users, m.insert(n, u));
        assert forall|x: Seq<char>| #[trigger] names.contains(x) <==> x == n || rest.contains(x) by {
            if names.contains(x) && x != n {
                let k = choose|k: int| 0 <= k < names.len() && names[k] == x;
                assert(rest[k - 1] == x);
            }
            if rest.contains(x) {
                let k = choose|k: int| 0 <= k < rest.len() && rest[k] == x;
                assert(names[k + 1] == x);
            }
            assert(names[0] == n);
        }
    }
}

/// Users survive being written to a table and read from it.
pub proof fn law_users_roundtrip(names: Seq<Seq<char>>, users: Map<Seq<char>, UserSpec>)
    requires
        lists_texts(names, users.dom()),
        forall|n: Seq<char>| #[trigger] users.contains_key(n) ==> clean_name(n),
    ensures
        table_users(table_text(names, users)) == users,
{
    assert forall|i: int| 0 <= i < names.len() implies clean_name(#[trigger] names[i]) && users.contains_key(names[i]) by {
        assert(names.contains(names[i]));
        assert(users.dom().contains(names[i]));
    }
    lemma_table(names, users, Map::empty());
    let r = table_users(table_text(names, users));
    assert forall|x: Seq<char>| r.contains_key(x) <==> users.contains_key(x) by {
        assert(users.dom().contains(x) <==> names.contains(x));
    }
    assert(r =~= users);
}

/// Each privilege has a name and a number, and each of the two denotes it, with white
/// space around it or not.
pub proof fn law_privileges_are_denoted(front: Seq<char>, back: Seq<char>)
    requires
        forall|i: int| 0 <= i < front.len() ==> is_white(#[trigger] front[i]),
        forall|i: int| 0 <= i < back.len() ==> is_white(#[trigger] back[i]),
    ensures
        named_privilege(front + "query"@ + back) == Some(Privilege::Query) && named_privilege(front + "1"@ + back) == Some(Privilege::Query),
        named_privilege(front + "load"@ + back) == Some(Privilege::Load) && named_privilege(front + "2"@ + back) == Some(Privilege::Load),
        named_privilege(front + "unload"@ + back) == Some(Privilege::Unload) && named_privilege(front + "3"@ + back) == Some(Privilege::Unload),
        named_privilege(front + "update"@ + back) == Some(Privilege::Update) && named_privilege(front + "4"@ + back) == Some(Privilege::Update),
        named_privilege(front + "backup"@ + back) == Some(Privilege::Backup) && named_privilege(front + "5"@ + back) == Some(Privilege::Backup),
        named_privilege(front + "restore"@ + back) == Some(Privilege::Restore) && named_privilege(front + "6"@ + back) == Some(Privilege::Restore),
        named_privilege(front + "export"@ + back) == Some(Privilege::Export) && named_privilege(front + "7"@ + back) == Some(Privilege::Export),
        named_privilege(front + "admin"@ + back) == Some(Privilege::Admin) && named_privilege(front + "8"@ + back) == Some(Privilege::Admin),
        forall|p: Privilege| named_privilege(front + #[trigger] privilege_name(p) + back) == Some(p),
{
    reveal_strlit("query");
    reveal_strlit("load");
    reveal_strlit("unload");
    reveal_strlit("update");
    reveal_strlit("backup");
    reveal_strlit("restore");
    reveal_strlit("export");
    reveal_strlit("admin");
    reveal_strlit("1");
    reveal_strlit("2");
    reveal_strlit("3");
    reveal_strlit("4");
    reveal_strlit("5");
    reveal_strlit("6");
    reveal_strlit("7");
    reveal_strlit("8");
    assert("query"@[0] == 'q' && "load"@[0] == 'l' && "unload"@[1] == 'n' && "update"@[1] == 'p' && "backup"@[0] == 'b' && "restore"@[0] == 'r' && "export"@[0] == 'e' && "admin"@[0] == 'a');
    assert("1"@[0] == '1' && "2"@[0] == '2' && "3"@[0] == '3' && "4"@[0] == '4' && "5"@[0] == '5' && "6"@[0] == '6' && "7"@[0] == '7' && "8"@[0] == '8');
    assert("unload"@[0] == 'u' && "update"@[0] == 'u');
    law_trimmed_has_no_white_ends(front, "query"@, back);
    law_trimmed_has_no_white_ends(front, "load"@, back);
    law_trimmed_has_no_white_ends(front, "unload"@, back);
    law_trimmed_has_no_white_ends(front, "update"@, back);
    law_trimmed_has_no_white_ends(front, "backup"@, back);
    law_trimmed_has_no_white_ends(front, "restore"@, back);
    law_trimmed_has_no_white_ends(front, "export"@, back);
    law_trimmed_has_no_white_ends(front, "admin"@, back);
    law_trimmed_has_no_white_ends(front, "1"@, back);
    law_trimmed_has_no_white_ends(front, "2"@, back);
    law_trimmed_has_no_white_ends(front, "3"@, back);
    law_trimmed_has_no_white_ends(front, "4"@, back);
    law_trimmed_has_no_white_ends(front, "5"@, back);
    law_trimmed_has_no_white_ends(front, "6"@, back);
    law_trimmed_has_no_white_ends(front, "7"@, back);
    law_trimmed_has_no_white_ends(front, "8"@, back);
}

/// A user name has up to 64 bytes, of letters, digits, the underscore and the hyphen.
pub proof fn law_user_names_are_plain(name: Seq<char>, k: int)
    ensures
        name.len() == 0 ==> name_error(name) is Some,
        encode_utf8(name).len() > 64 ==> name_error(name) is Some,
        name_error(name) is None && 0 <= k < name.len() ==> {
            let c = name[k] as u32;
            0x30 <= c <= 0x39 || 0x41 <= c <= 0x5a || 0x61 <= c <= 0x7a || c == 0x5f || c == 0x2d
        },
        0 < name.len() && encode_utf8(name).len() <= 64 && (forall|i: int| 0 <= i < name.len() ==> {
            let c = #[trigger] name[i] as u32;
            0x30 <= c <= 0x39 || 0x41 <= c <= 0x5a || 0x61 <= c <= 0x7a || c == 0x5f || c == 0x2d
        }) ==> name_error(name) is None,
{
    if name_error(name) is None && 0 <= k < name.len() {
        assert(name_char(name[k]));
    }
    if forall|i: int| 0 <= i < name.len() ==> {
        let c = #[trigger] name[i] as u32;
        0x30 <= c <= 0x39 || 0x41 <= c <= 0x5a || 0x61 <= c <= 0x7a || c == 0x5f || c == 0x2d
    } {
        assert forall|i: int| 0 <= i < name.len() implies name_char(#[trigger] name[i]) by {
            let c = name[i] as u32;
            assert(0x30 <= c <= 0x39 || 0x41 <= c <= 0x5a || 0x61 <= c <= 0x7a || c == 0x5f || c == 0x2d);
            lemma_name_codes(name[i]);
        }
    }
}

proof fn lemma_name_codes(c: char)
    ensures
        0x30 <= c as u32 <= 0x39 || 0x41 <= c as u32 <= 0x5a || 0x61 <= c as u32 <= 0x7a || c as u32 == 0x5f || c as u32 == 0x2d ==> name_char(c),
{
    if c as u32 == 0x5f {
        assert(c == '_');
    }
    if c as u32 == 0x2d {
        assert(c == '-');
    }
}

/// The privileges of a user can be changed just if there is the user and it is not root.
pub proof fn law_root_keeps_its_privileges(s: UserStoreSpec, name: Seq<char>)
    ensures
        change_error(s, name) is None <==> s.users.contains_key(name) && name != "root"@,
{
}

/// The hash of a password takes 8192 rounds. Each hashes what the round before it gave with
/// the salt, the password and its own number.
pub proof fn law_password_is_hashed_in_rounds(password: Seq<char>, salt: u64, n: nat)
    requires
        n < 8192,
    ensures
        password_hash(password, salt) == hash_rounds(encode_utf8(password), salt, 8192),
        hash_rounds(encode_utf8(password), salt, 0) == salt ^ 0x9E37_79B9_7F4A_7C15u64,
        ({
            let acc = hash_rounds(encode_utf8(password), salt, n);
            hash_rounds(encode_utf8(password), salt, n + 1) == DefaultHasher::spec_finish(seq![le64(acc), le64(salt), encode_utf8(password), seq![0xffu8], le64(n as u64)])
        }),
{
}

/// A line of the user file has four fields with tabs between them: the name, the salt and the
/// hash as sixteen hexadecimal digits each, and the privileges by their names.
pub proof fn law_user_line_has_four_fields(name: Seq<char>, u: UserSpec)
    requires
        !name.contains('\t'),
    ensures
        split_on(user_line(name, u), '\t') == seq![name, hex_text(u.salt as nat, 16), hex_text(u.hash as nat, 16), set_text(u.privileges)],
        parsed_hex(split_on(user_line(name, u), '\t')[1]) == Some(u.salt),
        parsed_hex(split_on(user_line(name, u), '\t')[2]) == Some(u.hash),
        parsed_list(split_on(user_line(name, u), '\t')[3]) == Some(u.privileges),
{
    let (salt, hash, list) = (hex_text(u.salt as nat, 16), hex_text(u.hash as nat, 16), set_text(u.privileges));
    lemma_hex_plain(u.salt);
    lemma_hex_plain(u.hash);
    lemma_set_text(u.privileges);
    if list.contains('\t') {
        let i = choose|i: int| 0 <= i < list.len() && list[i] == '\t';
        assert(list[i] == '\t');
    }
    let last = hash + seq!['\t'] + list;
    let rest = salt + seq!['\t'] + last;
    assert(user_line(name, u) =~= name + seq!['\t'] + rest);
    lemma_split_cons(name, '\t', rest);
    lemma_split_cons(salt, '\t', last);
    lemma_split_cons(hash, '\t', list);
    lemma_split_one(list, '\t');
    assert(split_on(user_line(name, u), '\t') =~= seq![name, salt, hash, list]);
}

} // verus!
