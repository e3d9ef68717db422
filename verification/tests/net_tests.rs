use nostr_vpn_core::net::endpoints_share_private_ipv4_subnet;

#[test]
fn same_private_slash_24_is_shared() {
    assert!(endpoints_share_private_ipv4_subnet("192.168.1.10:51820", "192.168.1.20:1"));
    assert!(endpoints_share_private_ipv4_subnet("10.0.0.1:0", "10.0.0.255:65535"));
    assert!(endpoints_share_private_ipv4_subnet("172.16.5.1:1", "172.16.5.2:2"));
    assert!(endpoints_share_private_ipv4_subnet("169.254.3.4:80", "169.254.3.9:80"));
}

#[test]
fn different_subnets_or_public_addresses_are_not_shared() {
    assert!(!endpoints_share_private_ipv4_subnet("192.168.1.10:51820", "192.168.2.10:51820"));
    assert!(!endpoints_share_private_ipv4_subnet("8.8.8.8:53", "8.8.8.9:53"));
    assert!(!endpoints_share_private_ipv4_subnet("172.32.0.1:1", "172.32.0.2:1"));
}

#[test]
fn malformed_addresses_are_not_shared() {
    assert!(!endpoints_share_private_ipv4_subnet("192.168.1.10", "192.168.1.11:1"));
    assert!(!endpoints_share_private_ipv4_subnet("192.168.01.10:1", "192.168.1.11:1"));
    assert!(!endpoints_share_private_ipv4_subnet("192.168.1.256:1", "192.168.1.11:1"));
    assert!(!endpoints_share_private_ipv4_subnet("192.168.1.1:65536", "192.168.1.11:1"));
    assert!(!endpoints_share_private_ipv4_subnet("[::1]:80", "[::1]:80"));
    assert!(!endpoints_share_private_ipv4_subnet("192.168.1.1:1 ", "192.168.1.11:1"));
    assert!(!endpoints_share_private_ipv4_subnet("", ""));
}

#[test]
fn leading_zeros_in_port_are_accepted() {
    assert!(endpoints_share_private_ipv4_subnet("10.1.2.3:00080", "10.1.2.4:0"));
}

#[test]
fn sharing_is_symmetric() {
    let pairs = [("10.0.0.1:1", "10.0.0.2:2"), ("10.0.0.1:1", "10.0.1.2:2"), ("x", "10.0.0.1:1")];
    for (a, b) in pairs {
        assert_eq!(
            endpoints_share_private_ipv4_subnet(a, b),
            endpoints_share_private_ipv4_subnet(b, a)
        );
    }
}
