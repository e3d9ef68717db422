use nostr_vpn_core::wireguard::{
    parse_peer_arg, render_wireguard_config, InterfaceConfig, PeerArgError, PeerConfig,
};

#[test]
fn renders_interface_and_peers() {
    let interface = InterfaceConfig {
        private_key: "priv".to_string(),
        address: "10.44.0.2/32".to_string(),
        listen_port: 51820,
    };
    let peers = vec![PeerConfig {
        public_key: "pub".to_string(),
        allowed_ips: "10.44.0.3/32".to_string(),
        endpoint: "198.51.100.20:51820".to_string(),
        persistent_keepalive: 25,
    }];
    let out = render_wireguard_config(&interface, &peers);
    assert_eq!(
        out,
        "[Interface]\nPrivateKey = priv\nAddress = 10.44.0.2/32\nListenPort = 51820\n\n[Peer]\nPublicKey = pub\nAllowedIPs = 10.44.0.3/32\nEndpoint = 198.51.100.20:51820\nPersistentKeepalive = 25\n"
    );
}

#[test]
fn renders_port_zero_without_peers() {
    let interface = InterfaceConfig {
        private_key: "k".to_string(),
        address: "a".to_string(),
        listen_port: 0,
    };
    let out = render_wireguard_config(&interface, &[]);
    assert_eq!(out, "[Interface]\nPrivateKey = k\nAddress = a\nListenPort = 0\n");
}

#[test]
fn parses_peer_argument_with_spaces() {
    let peer = parse_peer_arg(" key , 10.44.0.3/32,198.51.100.20:51820 ").expect("valid");
    assert_eq!(peer.public_key, "key");
    assert_eq!(peer.allowed_ips, "10.44.0.3/32");
    assert_eq!(peer.endpoint, "198.51.100.20:51820");
    assert_eq!(peer.persistent_keepalive, 25);
}

#[test]
fn rejects_peer_argument_with_missing_field() {
    assert_eq!(parse_peer_arg("key,10.44.0.3/32").err(), Some(PeerArgError::InvalidFormat));
    assert_eq!(parse_peer_arg("key, ,endpoint").err(), Some(PeerArgError::InvalidFormat));
    assert_eq!(parse_peer_arg("").err(), Some(PeerArgError::InvalidFormat));
}

#[test]
fn ignores_fields_after_the_third() {
    let peer = parse_peer_arg("a,b,c,d").expect("valid");
    assert_eq!(peer.endpoint, "c");
}
