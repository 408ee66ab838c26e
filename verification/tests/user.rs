use mail_proxy::user::{sender_entry_permits, StoredUser, UserError, UserList};

#[test]
fn test_user_auth() {
    let mut auth = UserList::default();

    // add two users
    auth.set_user_password("alice", "hunter2").unwrap();
    auth.set_user_password("bob", "password").unwrap();

    // users are tested for
    assert!(auth.has_users());
    assert!(auth.has_user("alice"));
    assert!(auth.has_user("bob"));

    // correct passwords
    assert!(auth.verify_user_password("alice", "hunter2").is_ok());
    assert!(auth.verify_user_password("bob", "password").is_ok());

    // wrong password
    assert!(auth.verify_user_password("alice", "password").is_err());

    // cannot verify after removal
    auth.remove_user("alice").unwrap();
    assert!(auth.verify_user_password("alice", "hunter2").is_err());
}

#[test]
fn test_user_serialize() {
    let mut auth = UserList::default();

    auth.set_user_password("alice", "hunter2").unwrap();
    assert!(auth.verify_user_password("alice", "hunter2").is_ok());

    let stored = auth.to_stored();
    let auth = UserList::from_stored(&stored).unwrap();

    assert!(auth.verify_user_password("alice", "hunter2").is_ok());
}

#[test]
fn test_check_send_as() {
    let mut auth = UserList::default();

    auth.set_user_password("alice@example.com", "hunter2").unwrap();
    auth.add_user_send_as("alice@example.com", "bob@example.com").unwrap();

    assert!(auth.verify_user_can_send_as("alice@example.com", "alice@example.com").is_ok());
    assert!(auth.verify_user_can_send_as("alice@example.com", "bob@example.com").is_ok());
    assert!(auth.verify_user_can_send_as("alice@example.com", "eve@example.com").is_err());

    // don't case about case
    assert!(auth.verify_user_can_send_as("alice@example.com", "ALICE@Example.com").is_ok());
    assert!(auth.verify_user_can_send_as("alice@example.com", "BOB@example.com").is_ok());

    auth.remove_user_send_as("alice@example.com", "bob@example.com").unwrap();

    assert!(auth.verify_user_can_send_as("alice@example.com", "bob@example.com").is_err());
}

#[test]
fn test_check_send_as_domain() {
    let mut auth = UserList::default();

    auth.set_user_password("alice@example.com", "hunter2").unwrap();
    auth.add_user_send_as("alice@example.com", "*@example.com").unwrap();

    assert!(auth.verify_user_can_send_as("alice@example.com", "alice@example.com").is_ok());
    assert!(auth.verify_user_can_send_as("alice@example.com", "bob@example.com").is_ok());
    assert!(auth.verify_user_can_send_as("alice@example.com", "eve@example.com").is_ok());
    assert!(auth.verify_user_can_send_as("alice@example.com", "eve@example.org").is_err());

    // don't care about case
    assert!(auth.verify_user_can_send_as("alice@example.com", "BOB@Example.com").is_ok());
}

#[test]
fn user_errors() {
    let mut auth = UserList::default();
    assert!(!auth.has_users());
    assert_eq!(auth.remove_user("nobody"), Err(UserError::UserNotFound));
    assert_eq!(auth.verify_user_password("nobody", "x"), Err(UserError::UserNotFound));
    assert_eq!(auth.add_user_send_as("nobody", "a@b.c"), Err(UserError::UserNotFound));
    assert_eq!(auth.remove_user_send_as("nobody", "a@b.c"), Err(UserError::UserNotFound));
    assert_eq!(auth.list_user_send_as("nobody").err(), Some(UserError::UserNotFound));
    assert_eq!(auth.verify_user_can_send_as("nobody", "a@b.c"), Err(UserError::UserNotFound));
    // a user may always send as themselves, configured or not
    assert_eq!(auth.verify_user_can_send_as("Nobody@b.c", "nobody@B.C"), Ok(()));

    auth.set_user_password("carol", "secret").unwrap();
    assert_eq!(auth.verify_user_password("carol", "Secret"), Err(UserError::InvalidPassword));
    assert_eq!(auth.verify_user_can_send_as("carol", "dave@x.org"), Err(UserError::SendAsNotAllowed));
}

#[test]
fn password_is_stored_as_argon2_hash() {
    let mut auth = UserList::default();
    auth.set_user_password("alice", "hunter2").unwrap();
    let hash = auth.user_password_hash("alice").unwrap();
    assert!(hash.starts_with("$argon2"));
    assert_ne!(hash, "hunter2");
    assert!(auth.user_password_hash("bob").is_none());
}

#[test]
fn set_password_replaces_password_and_keeps_senders() {
    let mut auth = UserList::default();
    auth.set_user_password("alice", "one").unwrap();
    auth.add_user_send_as("alice", "x@y.z").unwrap();
    auth.add_user_send_as("alice", "x@y.z").unwrap();
    assert_eq!(auth.list_user_send_as("alice").unwrap(), vec!["x@y.z".to_string()]);

    auth.set_user_password("alice", "two").unwrap();
    assert_eq!(auth.list_users(), vec!["alice".to_string()]);
    assert_eq!(auth.list_user_send_as("alice").unwrap(), vec!["x@y.z".to_string()]);
    assert!(auth.verify_user_password("alice", "one").is_err());
    assert!(auth.verify_user_password("alice", "two").is_ok());
}

#[test]
fn list_users_and_senders() {
    let mut auth = UserList::default();
    auth.set_user_password("alice", "a").unwrap();
    auth.set_user_password("bob", "b").unwrap();
    let mut users = auth.list_users();
    users.sort();
    assert_eq!(users, vec!["alice".to_string(), "bob".to_string()]);

    auth.add_user_send_as("bob", "*@example.com").unwrap();
    auth.add_user_send_as("bob", "carol@example.org").unwrap();
    let mut senders = auth.list_user_send_as("bob").unwrap();
    senders.sort();
    assert_eq!(senders, vec!["*@example.com".to_string(), "carol@example.org".to_string()]);
}

#[test]
fn sender_entry_matching() {
    assert!(sender_entry_permits("*@example.com", "bob@example.com"));
    // a whole-domain entry covers only that domain
    assert!(!sender_entry_permits("*@example.com", "bob@myexample.com"));
    assert!(!sender_entry_permits("*@example.com", "eve@badexample.com"));
    assert!(!sender_entry_permits("*@example.com", "bob@example.org"));
    assert!(sender_entry_permits("bob@example.com", "bob@example.com"));
    assert!(!sender_entry_permits("bob@example.com", "rob@example.com"));
    // `*@*` allows any address
    assert!(sender_entry_permits("*@*", "bob@example.org"));
    assert!(sender_entry_permits("*@*", "anything"));
    assert!(!sender_entry_permits("*@", "anything"));
    assert!(sender_entry_permits("*", "*"));
}

#[test]
fn listed_sender_always_permitted() {
    let mut auth = UserList::default();
    auth.set_user_password("alice", "a").unwrap();
    for sender in ["*@Example.com", "Bob@Example.com", "*@*"] {
        auth.add_user_send_as("alice", sender).unwrap();
        assert!(auth.verify_user_can_send_as("alice", sender).is_ok());
    }
}

#[test]
fn user_list_clone_is_independent() {
    let mut auth = UserList::default();
    auth.set_user_password("alice", "a").unwrap();
    auth.add_user_send_as("alice", "x@y.z").unwrap();
    let copy = auth.clone();
    auth.remove_user("alice").unwrap();
    assert!(copy.has_user("alice"));
    assert!(copy.verify_user_password("alice", "a").is_ok());
    assert!(copy.verify_user_can_send_as("alice", "X@Y.Z").is_ok());
    assert!(!auth.has_user("alice"));
}

#[test]
fn send_as_any_address_and_domain_boundary() {
    let mut auth = UserList::default();
    auth.set_user_password("alice@example.com", "hunter2").unwrap();
    auth.add_user_send_as("alice@example.com", "*@example.com").unwrap();
    assert!(auth.verify_user_can_send_as("alice@example.com", "eve@badexample.com").is_err());
    assert!(auth.verify_user_can_send_as("alice@example.com", "bob@example.org").is_err());

    auth.add_user_send_as("alice@example.com", "*@*").unwrap();
    assert!(auth.verify_user_can_send_as("alice@example.com", "bob@example.org").is_ok());
    assert!(auth.verify_user_can_send_as("alice@example.com", "eve@badexample.com").is_ok());
}

#[test]
fn password_hash_must_be_phc_string() {
    let mut auth = UserList::default();
    assert_eq!(auth.set_user_password_hash("alice", "hunter2"), Err(UserError::InvalidPasswordHash));
    assert!(!auth.has_user("alice"));

    let mut source = UserList::default();
    source.set_user_password("bob", "pw").unwrap();
    let hash = source.user_password_hash("bob").unwrap();
    assert_eq!(auth.set_user_password_hash("alice", &hash), Ok(()));
    assert!(auth.verify_user_password("alice", "pw").is_ok());
    assert_eq!(
        auth.insert_stored_user("carol", "not a hash", &vec![]),
        Err(UserError::InvalidPasswordHash)
    );
    assert!(!auth.has_user("carol"));
}

#[test]
fn stored_users_restore() {
    let mut auth = UserList::default();
    auth.set_user_password("alice", "a").unwrap();
    auth.set_user_password("bob", "b").unwrap();
    auth.add_user_send_as("bob", "*@example.com").unwrap();
    let stored = auth.to_stored();
    assert_eq!(stored.len(), 2);
    let restored = UserList::from_stored(&stored).unwrap();
    assert!(restored.verify_user_password("alice", "a").is_ok());
    assert!(restored.verify_user_password("bob", "b").is_ok());
    assert!(restored.verify_user_can_send_as("bob", "x@example.com").is_ok());
    assert!(restored.list_user_send_as("alice").unwrap().is_empty());

    // a later entry for a name replaces an earlier one
    let hash = auth.user_password_hash("alice").unwrap();
    let twice = vec![
        StoredUser { name: "dave".to_string(), password_hash: hash.clone(), send_as: vec!["x@y.z".to_string()] },
        StoredUser { name: "dave".to_string(), password_hash: hash.clone(), send_as: vec![] },
    ];
    let list = UserList::from_stored(&twice).unwrap();
    assert!(list.list_user_send_as("dave").unwrap().is_empty());

    let bad = vec![StoredUser { name: "eve".to_string(), password_hash: "plain".to_string(), send_as: vec![] }];
    assert_eq!(UserList::from_stored(&bad).err(), Some(UserError::InvalidPasswordHash));
}
