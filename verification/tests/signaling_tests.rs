use nostr::key::Keys;
use nostr_vpn_core::control::PeerAnnouncement;
use nostr_vpn_core::signaling::{
    normalize_participants, publish_outcome, SignalEnvelope, SignalPayload, SignalingError,
    SignalingState, NOSTR_KIND_NOSTR_VPN,
};

fn envelope(network: &str, sender: &str) -> SignalEnvelope {
    SignalEnvelope {
        network_id: network.to_string(),
        sender_pubkey: sender.to_string(),
        payload: SignalPayload::Disconnect { node_id: "n".to_string() },
    }
}

#[test]
fn blank_network_id_is_refused() {
    assert_eq!(
        SignalingState::new("  ".to_string(), "me".to_string(), vec![]).err(),
        Some(SignalingError::EmptyNetworkId)
    );
    assert_eq!(
        SignalingState::new("net".to_string(), "me".to_string(), vec!["bad".to_string()]).err(),
        Some(SignalingError::InvalidParticipant)
    );
}

#[test]
fn publishing_needs_a_connection() {
    let mut state = SignalingState::new("net".to_string(), "me".to_string(), vec![]).expect("state");
    assert!(!state.connected());
    let payload = SignalPayload::Disconnect { node_id: "n".to_string() };
    assert_eq!(state.envelope_for(payload).err(), Some(SignalingError::NotConnected));
    state.set_connected(true);
    let announcement = PeerAnnouncement {
        node_id: "n".to_string(),
        public_key: "k".to_string(),
        endpoint: "127.0.0.1:51820".to_string(),
        local_endpoint: None,
        public_endpoint: None,
        tunnel_ip: "10.44.0.5/32".to_string(),
        timestamp: 42,
    };
    let env = state.envelope_for(SignalPayload::Announce(announcement)).expect("envelope");
    assert_eq!(env.network_id, "net");
    assert_eq!(env.sender_pubkey, "me");
}

#[test]
fn incoming_events_are_filtered() {
    let state = SignalingState::new("net".to_string(), "me".to_string(), vec![]).expect("state");
    let ok = Some(envelope("net", "bob"));
    assert!(state.accepts(NOSTR_KIND_NOSTR_VPN, "bob", &ok));
    assert!(!state.accepts(1, "bob", &ok));
    assert!(!state.accepts(NOSTR_KIND_NOSTR_VPN, "me", &ok));
    assert!(!state.accepts(NOSTR_KIND_NOSTR_VPN, "bob", &None));
    assert!(!state.accepts(NOSTR_KIND_NOSTR_VPN, "bob", &Some(envelope("other", "bob"))));
    assert!(!state.accepts(NOSTR_KIND_NOSTR_VPN, "bob", &Some(envelope("net", "me"))));
}

#[test]
fn allowlist_limits_senders() {
    let alice = Keys::generate().public_key().to_hex();
    let bob = Keys::generate().public_key().to_hex();
    let state = SignalingState::new("net".to_string(), "me".to_string(), vec![alice.clone()])
        .expect("state");
    assert!(state.accepts(NOSTR_KIND_NOSTR_VPN, "x", &Some(envelope("net", &alice))));
    assert!(!state.accepts(NOSTR_KIND_NOSTR_VPN, "x", &Some(envelope("net", &bob))));
}

#[test]
fn participants_normalize_into_an_allowlist() {
    assert_eq!(normalize_participants(vec![]), Ok(None));
    let alice = Keys::generate().public_key().to_hex();
    assert_eq!(normalize_participants(vec![alice.clone()]), Ok(Some(vec![alice])));
    assert!(normalize_participants(vec!["nope".to_string()]).is_err());
}

#[test]
fn publishing_fails_when_no_relay_accepts() {
    assert_eq!(publish_outcome(0), Err(SignalingError::RejectedByAllRelays));
    assert_eq!(publish_outcome(2), Ok(()));
    assert_eq!(NOSTR_KIND_NOSTR_VPN, 31990);
}
