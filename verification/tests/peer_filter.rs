use mail_proxy::ip::{IpAddr, IpNet};
use mail_proxy::peer_filter::{FilterRule, PeerAction, PeerFilter, RuleParseError};
use std::cmp::Ordering;

fn net(text: &str) -> IpNet {
    IpNet::parse(text).expect("valid network")
}

#[test]
fn test_rule_ordering() {
    let host_allow = FilterRule::new(PeerAction::Allow, net("10.0.0.1/32"));
    let host_deny = FilterRule::new(PeerAction::Deny, net("10.0.0.1/32"));
    let net_allow = FilterRule::new(PeerAction::Allow, net("10.10.0.1/16"));
    let net_deny = FilterRule::new(PeerAction::Deny, net("10.10.0.1/16"));
    let any_allow = FilterRule::new(PeerAction::Allow, net("0.0.0.0/0"));
    let any_deny = FilterRule::new(PeerAction::Deny, net("0.0.0.0/0"));

    // ordering should be most specific first, allow before deny
    assert_eq!(PeerFilter::filter_rule_cmp(&host_allow, &host_deny), Ordering::Less);
    assert_eq!(PeerFilter::filter_rule_cmp(&host_deny, &net_allow), Ordering::Less);
    assert_eq!(PeerFilter::filter_rule_cmp(&net_allow, &net_deny), Ordering::Less);
    assert_eq!(PeerFilter::filter_rule_cmp(&net_deny, &any_allow), Ordering::Less);
    assert_eq!(PeerFilter::filter_rule_cmp(&any_allow, &any_deny), Ordering::Less);

    // check against behaviour of PeerFilter iter()
    let mut filter = PeerFilter::default();
    filter.add(host_allow.clone());
    filter.add(host_deny.clone());
    filter.add(net_allow.clone());
    filter.add(net_deny.clone());
    filter.add(any_allow.clone());
    filter.add(any_deny.clone());

    let filter: Vec<_> = filter.iter();
    assert_eq!(filter[0], host_allow);
    assert_eq!(filter[1], host_deny);
    assert_eq!(filter[2], net_allow);
    assert_eq!(filter[3], net_deny);
    assert_eq!(filter[4], any_allow);
    assert_eq!(filter[5], any_deny);
}

#[test]
fn test_filter_rule_from_to_string() {
    let rule = FilterRule::from_string("ALLOW:0.0.0.0/0").unwrap();
    assert_eq!(rule.action(), PeerAction::Allow);
    assert_eq!(rule.target(), net("0.0.0.0/0"));

    let rule = FilterRule::from_string("DENY:10.10.0.10/32").unwrap();
    assert_eq!(rule.action(), PeerAction::Deny);
    assert_eq!(rule.target(), net("10.10.0.10/32"));

    let rule = FilterRule::from_string("ALLOW:10.10.1.1/16").unwrap();
    assert_eq!(rule.action(), PeerAction::Allow);
    assert_eq!(rule.target(), net("10.10.1.1/16"));

    assert!(FilterRule::from_string("").is_err()); // empty string
    assert!(FilterRule::from_string("DENY").is_err()); // no target
    assert!(FilterRule::from_string("DENY:10.10.0.1").is_err()); // target not a subnet
    assert!(FilterRule::from_string("DENY:10.10.0.1/33").is_err()); // subnet prefix invalid
    assert!(FilterRule::from_string(":10.10.0.1/32").is_err()); // no action
    assert!(FilterRule::from_string("BOB:10.10.0.1/32").is_err()); // invalid action
}

#[test]
fn test_peer_filtering() {
    let mut filter = PeerFilter::default();

    // allow all peers in subnet 10.10.0.0/16 EXCEPT for subnet 10.10.1.0/24 and host 10.10.2.1/32.
    // also allow host 192.168.100.1.
    filter.add(FilterRule::new(PeerAction::Deny, net("10.10.1.0/24")));
    filter.add(FilterRule::new(PeerAction::Deny, net("10.10.2.1/32")));
    filter.add(FilterRule::new(PeerAction::Allow, net("10.10.0.0/16")));
    filter.add(FilterRule::new(PeerAction::Allow, net("192.168.100.1/32")));

    assert_eq!(filter.evaluate(&IpAddr::v4(10, 10, 10, 1)), PeerAction::Allow);
    assert_eq!(filter.evaluate(&IpAddr::v4(10, 10, 10, 10)), PeerAction::Allow);
    assert_eq!(filter.evaluate(&IpAddr::v4(10, 10, 1, 11)), PeerAction::Deny);
    assert_eq!(filter.evaluate(&IpAddr::v4(10, 10, 2, 1)), PeerAction::Deny);
    assert_eq!(filter.evaluate(&IpAddr::v4(192, 168, 100, 1)), PeerAction::Allow);
    assert_eq!(filter.evaluate(&IpAddr::v4(80, 10, 1, 1)), PeerAction::Deny);
}

#[test]
fn test_peer_filtering_precedence() {
    let mut filter = PeerFilter::default();

    // adding an ALLOW:0.0.0.0/0 will still allow denies for more specific entries
    filter.add(FilterRule::new(PeerAction::Allow, net("0.0.0.0/0")));
    filter.add(FilterRule::new(PeerAction::Deny, net("10.10.2.1/32")));

    assert_eq!(filter.evaluate(&IpAddr::v4(10, 10, 10, 1)), PeerAction::Allow);
    assert_eq!(filter.evaluate(&IpAddr::v4(10, 10, 1, 11)), PeerAction::Allow);
    assert_eq!(filter.evaluate(&IpAddr::v4(10, 10, 2, 1)), PeerAction::Deny);
}

#[test]
fn test_peer_filter_add_remove() {
    let mut filter = PeerFilter::default();

    filter.add(FilterRule::new(PeerAction::Allow, net("10.10.1.1/32")));
    filter.add(FilterRule::new(PeerAction::Allow, net("192.168.100.1/32")));

    assert_eq!(filter.evaluate(&IpAddr::v4(10, 10, 1, 1)), PeerAction::Allow);
    assert_eq!(filter.evaluate(&IpAddr::v4(192, 168, 100, 1)), PeerAction::Allow);

    filter.remove(&FilterRule::new(PeerAction::Allow, net("192.168.100.1/32")));

    assert_eq!(filter.evaluate(&IpAddr::v4(10, 10, 1, 1)), PeerAction::Allow);
    assert_eq!(filter.evaluate(&IpAddr::v4(192, 168, 100, 1)), PeerAction::Deny);
}

#[test]
fn test_reject_duplicate_rule_add() {
    let host_allow = FilterRule::new(PeerAction::Allow, net("10.0.0.1/32"));
    let host_deny = FilterRule::new(PeerAction::Deny, net("10.0.0.1/32"));

    let mut filter = PeerFilter::default();

    // two unique rules are accepted
    assert!(filter.add(host_allow.clone()));
    assert!(filter.add(host_deny));

    // duplicate is ignored
    assert!(!filter.add(host_allow));

    assert_eq!(filter.len(), 2);
}

#[test]
fn test_peer_filter_serialize() {
    let mut filter = PeerFilter::default();

    filter.add(FilterRule::new(PeerAction::Allow, net("10.10.1.1/32")));
    assert_eq!(filter.evaluate(&IpAddr::v4(10, 10, 1, 1)), PeerAction::Allow);

    let texts = filter.to_rule_strings();
    let filter = PeerFilter::from_rule_strings(&texts).unwrap();

    assert_eq!(filter.evaluate(&IpAddr::v4(10, 10, 1, 1)), PeerAction::Allow);
}

#[test]
fn filter_rule_to_string_texts() {
    assert_eq!(FilterRule::new(PeerAction::Allow, net("0.0.0.0/0")).to_string(), "ALLOW:0.0.0.0/0");
    assert_eq!(FilterRule::new(PeerAction::Deny, net("10.10.0.10/32")).to_string(), "DENY:10.10.0.10/32");
    assert_eq!(FilterRule::new(PeerAction::Deny, net("fd00::/8")).to_string(), "DENY:fd00::/8");
}

#[test]
fn filter_rule_text_roundtrip() {
    for text in ["ALLOW:0.0.0.0/0", "DENY:10.10.0.10/32", "DENY:fd00::1/64", "ALLOW:::ffff:1.2.3.4/128"] {
        let rule = FilterRule::from_string(text).unwrap();
        assert_eq!(FilterRule::from_string(&rule.to_string()), Ok(rule));
    }
}

#[test]
fn filter_rule_action_in_any_case_and_ipv6_target() {
    let rule = FilterRule::from_string("allow:10.0.0.0/8").unwrap();
    assert_eq!(rule.action(), PeerAction::Allow);
    let rule = FilterRule::from_string("Deny:fd00::/8").unwrap();
    assert_eq!(rule.action(), PeerAction::Deny);
    assert_eq!(rule.target(), net("fd00::/8"));
    assert_eq!(rule.to_string(), "DENY:fd00::/8");
}

#[test]
fn filter_rule_parse_errors() {
    assert_eq!(FilterRule::from_string(""), Err(RuleParseError::MissingSeparator));
    assert_eq!(FilterRule::from_string("DENY"), Err(RuleParseError::MissingSeparator));
    assert_eq!(FilterRule::from_string(":10.10.0.1/32"), Err(RuleParseError::InvalidAction));
    assert_eq!(FilterRule::from_string("BOB:10.10.0.1/32"), Err(RuleParseError::InvalidAction));
    assert_eq!(FilterRule::from_string("BOB:garbage"), Err(RuleParseError::InvalidAction));
    assert_eq!(FilterRule::from_string("DENY:10.10.0.1"), Err(RuleParseError::InvalidTarget));
    assert_eq!(FilterRule::from_string("DENY:10.10.0.1/33"), Err(RuleParseError::InvalidTarget));
}

#[test]
fn peer_action_from_upper_text() {
    assert_eq!(PeerAction::from_upper_text("ALLOW"), Some(PeerAction::Allow));
    assert_eq!(PeerAction::from_upper_text("DENY"), Some(PeerAction::Deny));
    assert_eq!(PeerAction::from_upper_text("allow"), None);
    assert_eq!(PeerAction::from_upper_text(""), None);
}

#[test]
fn empty_filter_denies() {
    let filter = PeerFilter::default();
    assert_eq!(filter.evaluate(&IpAddr::v4(127, 0, 0, 1)), PeerAction::Deny);
    assert_eq!(filter.evaluate(&IpAddr::V6(1)), PeerAction::Deny);
    assert!(filter.iter().is_empty());
}

#[test]
fn filter_verdict_independent_of_insertion_order() {
    let rules = [
        FilterRule::new(PeerAction::Deny, net("10.10.1.0/24")),
        FilterRule::new(PeerAction::Allow, net("10.10.0.0/16")),
        FilterRule::new(PeerAction::Allow, net("10.10.1.7/32")),
        FilterRule::new(PeerAction::Deny, net("10.10.1.7/32")),
    ];
    let mut forward = PeerFilter::default();
    let mut backward = PeerFilter::default();
    for r in rules.iter() {
        forward.add(*r);
    }
    for r in rules.iter().rev() {
        backward.add(*r);
    }
    for ip in [IpAddr::v4(10, 10, 1, 7), IpAddr::v4(10, 10, 1, 8), IpAddr::v4(10, 10, 9, 9), IpAddr::v4(9, 9, 9, 9)] {
        assert_eq!(forward.evaluate(&ip), backward.evaluate(&ip));
    }
    // equal prefix length: allow wins over deny
    assert_eq!(forward.evaluate(&IpAddr::v4(10, 10, 1, 7)), PeerAction::Allow);
    assert_eq!(forward.evaluate(&IpAddr::v4(10, 10, 1, 8)), PeerAction::Deny);
}

#[test]
fn iter_keeps_insertion_order_for_equal_rank() {
    let a = FilterRule::new(PeerAction::Deny, net("10.1.0.0/16"));
    let b = FilterRule::new(PeerAction::Deny, net("10.2.0.0/16"));
    let c = FilterRule::new(PeerAction::Deny, net("10.3.0.0/16"));
    let mut filter = PeerFilter::default();
    filter.add(b);
    filter.add(a);
    filter.add(c);
    assert_eq!(filter.iter(), vec![b, a, c]);
}

#[test]
fn remove_drops_duplicates_from_loaded_rules() {
    let texts = vec!["DENY:10.0.0.0/8".to_string(), "DENY:10.0.0.0/8".to_string(), "ALLOW:10.1.0.0/16".to_string()];
    let mut filter = PeerFilter::from_rule_strings(&texts).unwrap();
    assert_eq!(filter.len(), 3);
    filter.remove(&FilterRule::new(PeerAction::Deny, net("10.0.0.0/8")));
    assert_eq!(filter.len(), 1);
    assert_eq!(filter.to_rule_strings(), vec!["ALLOW:10.1.0.0/16".to_string()]);
}

#[test]
fn from_rule_strings_reports_first_error() {
    let texts = vec!["DENY:10.0.0.0/8".to_string(), "BOB:1.2.3.4/32".to_string(), "DENY".to_string()];
    assert_eq!(PeerFilter::from_rule_strings(&texts).err(), Some(RuleParseError::InvalidAction));
}
