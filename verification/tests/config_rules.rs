use mail_proxy::config_rules::{
    add_to_peer_list, check_peer_lists, fail2ban_after_update, insecure_auth_after_change,
    insecure_auth_warning, max_message_size_setting, message_size_note, remove_from_peer_list,
    requested_insecure_auth, username_accepted, Fail2BanSettings, InsecureAuthWarning,
    MessageSizeNote, PeerListVerdict,
};
use mail_proxy::ip::{IpAddr, IpNet};
use mail_proxy::ip_net_list::IpNetList;
use mail_proxy::user::UserList;

fn net(text: &str) -> IpNet {
    IpNet::parse(text).expect("valid network")
}

#[test]
fn peer_lists_verdicts() {
    let mut allowed: Option<IpNetList> = None;
    let mut denied: Option<IpNetList> = None;
    let ip = IpAddr::v4(10, 1, 2, 3);
    assert_eq!(check_peer_lists(allowed.as_ref(), denied.as_ref(), &ip), PeerListVerdict::Accepted);

    add_to_peer_list(&mut allowed, net("192.168.0.0/16"));
    assert_eq!(check_peer_lists(allowed.as_ref(), denied.as_ref(), &ip), PeerListVerdict::NotInAllowList);

    add_to_peer_list(&mut allowed, net("10.0.0.0/8"));
    add_to_peer_list(&mut denied, net("10.1.0.0/16"));
    assert_eq!(check_peer_lists(allowed.as_ref(), denied.as_ref(), &ip), PeerListVerdict::InDenyList);
    assert_eq!(
        check_peer_lists(allowed.as_ref(), denied.as_ref(), &IpAddr::v4(10, 2, 0, 1)),
        PeerListVerdict::Accepted
    );

    remove_from_peer_list(&mut denied, net("10.1.0.0/16"));
    assert!(denied.is_none());
    remove_from_peer_list(&mut allowed, net("10.0.0.0/8"));
    assert!(allowed.is_some());
    remove_from_peer_list(&mut allowed, net("192.168.0.0/16"));
    assert!(allowed.is_none());
}

#[test]
fn insecure_auth_rules() {
    let mut users = UserList::default();
    assert!(!insecure_auth_after_change(true, false, &users));
    assert_eq!(insecure_auth_warning(false, true, &users), InsecureAuthWarning::NoWarning);

    users.set_user_password("alice", "hunter2").unwrap();
    assert!(insecure_auth_after_change(true, false, &users));
    assert!(!insecure_auth_after_change(true, true, &users));
    assert!(!insecure_auth_after_change(false, false, &users));
    assert_eq!(insecure_auth_warning(false, true, &users), InsecureAuthWarning::CredentialsInPlainText);
    assert_eq!(insecure_auth_warning(false, false, &users), InsecureAuthWarning::AuthenticationDisabled);
    assert_eq!(insecure_auth_warning(true, false, &users), InsecureAuthWarning::NoWarning);

    assert!(!requested_insecure_auth(false, true, true, true));
    assert!(requested_insecure_auth(true, true, false, false));
    assert!(requested_insecure_auth(false, false, true, true));
    assert!(!requested_insecure_auth(false, false, true, false));
    assert!(!requested_insecure_auth(true, false, false, false));
}

#[test]
fn username_and_message_size_rules() {
    let mut users = UserList::default();
    assert!(!username_accepted(&users, "alice", false));
    assert!(username_accepted(&users, "alice", true));
    assert!(username_accepted(&users, "alice@example.com", false));
    users.set_user_password("alice", "hunter2").unwrap();
    assert!(username_accepted(&users, "alice", false));

    assert_eq!(max_message_size_setting(0), None);
    assert_eq!(max_message_size_setting(1024), Some(1024));
}

#[test]
fn fail2ban_updates() {
    let none: Option<Fail2BanSettings<u64>> = None;
    let set = fail2ban_after_update(none, Some(5), None, Some(60), false).unwrap();
    assert_eq!(set, Fail2BanSettings { max_connections: Some(5), max_failures: None, ban_duration: Some(60) });

    let again = fail2ban_after_update(Some(set), None, Some(3), None, false).unwrap();
    assert_eq!(again, Fail2BanSettings { max_connections: Some(5), max_failures: Some(3), ban_duration: Some(60) });

    assert_eq!(fail2ban_after_update(Some(again), Some(1), Some(1), Some(1), true), None);
}

#[test]
fn message_size_notes() {
    assert_eq!(message_size_note(100, 1000, 500), MessageSizeNote::Fine);
    assert_eq!(message_size_note(500, 1000, 500), MessageSizeNote::Fine);
    assert_eq!(message_size_note(501, 1000, 500), MessageSizeNote::AboveRecommended);
    assert_eq!(message_size_note(1001, 1000, 500), MessageSizeNote::AboveApiMaximum);
}
