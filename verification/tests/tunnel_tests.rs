use nostr_vpn_core::crypto::generate_keypair;
use nostr_vpn_core::tunnel::{
    key_b64_to_hex, prepare_tunnel, uapi_response_ok, uapi_set_request, TunnelError,
};

const KEY: &str = "dwdtCnMYpX08FsFyUbJmRd9ML4frwJkqsXf7pR25LCo=";
const KEY_HEX: &str = "77076d0a7318a57d3c16c17251b26645df4c2f87ebc0992ab177fba51db92c2a";

#[test]
fn keys_convert_to_lowercase_hex() {
    assert_eq!(key_b64_to_hex(KEY).expect("key"), KEY_HEX);
    assert_eq!(key_b64_to_hex("AAAA"), Err(TunnelError::InvalidKeyLength));
    assert_eq!(key_b64_to_hex("***"), Err(TunnelError::InvalidKeyEncoding));
}

#[test]
fn tunnel_setup_messages() {
    let setup = prepare_tunnel("wg0", KEY, 51820, KEY, "198.51.100.20:51820", "10.44.0.3/32", 5)
        .expect("setup");
    assert_eq!(setup.uapi_socket, "/var/run/wireguard/wg0.sock");
    assert_eq!(setup.interface_settings, format!("private_key={KEY_HEX}\nlisten_port=51820"));
    assert_eq!(
        setup.peer_settings,
        format!(
            "public_key={KEY_HEX}\nendpoint=198.51.100.20:51820\nreplace_allowed_ips=true\nallowed_ip=10.44.0.3/32\npersistent_keepalive_interval=5"
        )
    );
}

#[test]
fn tunnel_setup_checks_interface_then_keys() {
    let pair = generate_keypair();
    assert_eq!(
        prepare_tunnel(" ", "bad", 1, "bad", "e", "a", 5).err(),
        Some(TunnelError::EmptyInterface)
    );
    assert_eq!(
        prepare_tunnel("wg0", "AAAA", 1, "***", "e", "a", 5).err(),
        Some(TunnelError::InvalidKeyLength)
    );
    assert_eq!(
        prepare_tunnel("wg0", &pair.private_key, 1, "***", "e", "a", 5).err(),
        Some(TunnelError::InvalidKeyEncoding)
    );
}

#[test]
fn uapi_messages_and_replies() {
    assert_eq!(uapi_set_request("listen_port=1"), "set=1\nlisten_port=1\n\n");
    assert!(uapi_response_ok("errno=0\n\n"));
    assert!(uapi_response_ok("x\nerrno=0"));
    assert!(!uapi_response_ok("errno=1\n\n"));
    assert!(!uapi_response_ok("errno="));
    assert!(!uapi_response_ok(""));
    assert_eq!(TunnelError::EmptyInterface.message(), "--iface must not be empty");
}
