use gstore::http_users::{make_hash, verify_hash, Privilege, PrivilegeSet, UserStore, ROOT_USER};

#[test]
fn hash_is_salted_and_verifies() {
    let (s1, h1) = make_hash("secret", 17);
    let (s2, h2) = make_hash("secret", 18);
    assert_ne!(s1, s2, "salts differ");
    assert_ne!(h1, h2, "same password hashes to different digests");
    assert!(verify_hash("secret", s1, h1));
    assert!(!verify_hash("wrong", s1, h1));
}

#[test]
fn privileges_parse_names_and_numbers() {
    assert_eq!(Privilege::parse("query"), Some(Privilege::Query));
    assert_eq!(Privilege::parse("4"), Some(Privilege::Update));
    assert_eq!(Privilege::parse("nope"), None);
    let set = Privilege::parse_list("1,update, 7 ,").unwrap();
    assert!(set.contains(Privilege::Query));
    assert!(set.contains(Privilege::Update));
    assert!(set.contains(Privilege::Export));
    assert_eq!(set.len(), 3);
}

#[test]
fn root_is_seeded_and_omnipotent() {
    let store = UserStore::open(None, "rootpw", 5).0;
    assert!(store.verify(ROOT_USER, "rootpw"));
    assert!(store.has_priv(ROOT_USER, Privilege::Update));
    assert!(store.has_priv(ROOT_USER, Privilege::Admin));
}

#[test]
fn add_drop_grant_revoke_and_persist() {
    let text = {
        let mut store = UserStore::open(None, "rootpw", 5).0;
        store
            .add("alice", "pw", PrivilegeSet::one(Privilege::Query), 7)
            .unwrap();
        assert!(store.add("alice", "x", PrivilegeSet::new(), 7).is_err());
        assert!(store.has_priv("alice", Privilege::Query));
        assert!(!store.has_priv("alice", Privilege::Update));
        store
            .grant("alice", &PrivilegeSet::one(Privilege::Update))
            .unwrap();
        assert!(store.has_priv("alice", Privilege::Update));
        store
            .revoke("alice", &PrivilegeSet::one(Privilege::Query))
            .unwrap();
        assert!(!store.has_priv("alice", Privilege::Query));
        store.save()
    };
    // Reload from the saved table: alice survives with her updated privileges.
    {
        let store = UserStore::open(Some(&text), "rootpw", 5).0;
        assert!(store.has_user("alice"));
        assert!(store.has_priv("alice", Privilege::Update));
        assert!(!store.has_priv("alice", Privilege::Query));
    }
}

#[test]
fn root_cannot_be_dropped_or_edited() {
    let mut store = UserStore::open(None, "rootpw", 5).0;
    assert!(store.drop_user(ROOT_USER).is_err());
    assert!(store
        .grant(ROOT_USER, &PrivilegeSet::one(Privilege::Query))
        .is_err());
}

#[test]
fn login_issues_and_resolves_session() {
    let mut store = UserStore::open(None, "rootpw", 5).0;
    store
        .add("bob", "pw", PrivilegeSet::one(Privilege::Query), 7)
        .unwrap();
    assert!(store.login("bob", "bad", "tok", 0).is_none());
    let token = store.login("bob", "pw", "tok", 0).unwrap();
    assert_eq!(store.session_user(&token, 1).as_deref(), Some("bob"));
    assert!(store.logout(&token));
    assert!(store.session_user(&token, 1).is_none());
}
