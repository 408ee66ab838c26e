use mail_proxy::ip::{IpAddr, IpNet};

#[test]
fn ip_addr_v4_bits() {
    assert_eq!(IpAddr::v4(10, 0, 0, 1), IpAddr::V4(0x0a00_0001));
    assert_eq!(IpAddr::v4(255, 255, 255, 255), IpAddr::V4(u32::MAX));
}

#[test]
fn ip_net_parse_and_text() {
    let n = IpNet::parse("192.168.1.1/24").unwrap();
    assert_eq!(n.addr(), IpAddr::v4(192, 168, 1, 1));
    assert_eq!(n.prefix_len(), 24);
    assert_eq!(n.to_text(), "192.168.1.1/24");

    let v6 = IpNet::parse("fd00:0:0::1/64").unwrap();
    assert_eq!(v6.addr(), IpAddr::V6(0xfd00_0000_0000_0000_0000_0000_0000_0001));
    assert_eq!(v6.prefix_len(), 64);
    assert_eq!(v6.to_text(), "fd00::1/64");

    assert!(IpNet::parse("10.10.0.1").is_none());
    assert!(IpNet::parse("10.10.0.1/33").is_none());
    assert!(IpNet::parse("::1/129").is_none());
    assert!(IpNet::parse("").is_none());
}

#[test]
fn ip_net_new_checks_prefix() {
    assert!(IpNet::new(IpAddr::v4(1, 2, 3, 4), 32).is_some());
    assert!(IpNet::new(IpAddr::v4(1, 2, 3, 4), 33).is_none());
    assert!(IpNet::new(IpAddr::V6(1), 128).is_some());
    assert!(IpNet::new(IpAddr::V6(1), 129).is_none());
    assert_eq!(IpNet::new(IpAddr::v4(10, 0, 0, 0), 8), IpNet::parse("10.0.0.0/8"));
}

#[test]
fn ip_net_contains_prefix_bits() {
    let n = IpNet::parse("10.10.0.0/16").unwrap();
    assert!(n.contains(&IpAddr::v4(10, 10, 0, 0)));
    assert!(n.contains(&IpAddr::v4(10, 10, 255, 255)));
    assert!(!n.contains(&IpAddr::v4(10, 11, 0, 0)));

    let any = IpNet::parse("0.0.0.0/0").unwrap();
    assert!(any.contains(&IpAddr::v4(80, 10, 1, 1)));
    assert!(!any.contains(&IpAddr::V6(1)));

    let host = IpNet::parse("10.0.0.1/32").unwrap();
    assert!(host.contains(&IpAddr::v4(10, 0, 0, 1)));
    assert!(!host.contains(&IpAddr::v4(10, 0, 0, 2)));

    let any6 = IpNet::parse("::/0").unwrap();
    assert!(any6.contains(&IpAddr::V6(u128::MAX)));
    let host6 = IpNet::parse("::1/128").unwrap();
    assert!(host6.contains(&IpAddr::V6(1)));
    assert!(!host6.contains(&IpAddr::V6(2)));
}
