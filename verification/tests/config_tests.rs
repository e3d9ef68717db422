use nostr::key::Keys;
use nostr::nips::nip19::ToBech32;
use nostr_vpn_core::config::{
    apply_participants_override, derive_network_id_from_participants, normalize_nostr_pubkey,
    own_pubkey_from_secret, resolve_relays, AppConfig, ConfigError, DEFAULT_RELAYS,
};

#[test]
fn default_relays_match_hashtree_defaults() {
    assert_eq!(
        DEFAULT_RELAYS,
        [
            "wss://temp.iris.to",
            "wss://relay.damus.io",
            "wss://nos.lol",
            "wss://relay.primal.net",
            "wss://offchain.pub",
        ]
    );
}

#[test]
fn network_id_derivation_is_order_independent() {
    let left =
        derive_network_id_from_participants(&["b".to_string(), "a".to_string(), "c".to_string()]);
    let right =
        derive_network_id_from_participants(&["c".to_string(), "b".to_string(), "a".to_string()]);

    assert_eq!(left, right);
}

#[test]
fn generated_config_auto_populates_keys() {
    let config = AppConfig::generated();

    assert!(!config.node.private_key.is_empty());
    assert!(!config.node.public_key.is_empty());
    assert!(!config.nostr.secret_key.is_empty());
    assert!(!config.nostr.public_key.is_empty());
    assert!(!config.nostr.relays.is_empty());
}

#[test]
fn participants_are_normalized_to_hex_pubkeys() {
    let keys = Keys::generate();
    let npub = keys.public_key().to_bech32().expect("npub");
    let hex = keys.public_key().to_hex();

    let mut config = AppConfig::generated();
    config.participants = vec![npub, hex.clone()];
    config.ensure_defaults();

    assert_eq!(config.participants, vec![hex]);
}

#[test]
fn normalize_accepts_npub() {
    let keys = Keys::generate();
    let npub = keys.public_key().to_bech32().expect("npub");

    let normalized = normalize_nostr_pubkey(&npub).expect("normalize npub");

    assert_eq!(normalized, keys.public_key().to_hex());
}

#[test]
fn derived_network_id_sorts_and_drops_repeats() {
    let id = derive_network_id_from_participants(&[
        "bb".to_string(),
        "a".to_string(),
        "bb".to_string(),
        "ab".to_string(),
    ]);
    assert_eq!(id, "nostr-vpn-a,ab,bb");
    assert_eq!(derive_network_id_from_participants(&[]), "nostr-vpn-");
}

#[test]
fn normalize_rejects_garbage() {
    assert_eq!(normalize_nostr_pubkey("not a key"), Err(ConfigError::InvalidParticipant));
}

#[test]
fn normalized_hex_normalizes_to_itself() {
    let keys = Keys::generate();
    let hex = keys.public_key().to_hex();
    assert_eq!(normalize_nostr_pubkey(&hex).expect("hex"), hex);
}

#[test]
fn effective_network_id_prefers_the_configured_one() {
    let mut config = AppConfig::generated();
    config.participants = vec!["b".to_string(), "a".to_string()];
    assert_eq!(config.effective_network_id(), "nostr-vpn-a,b");
    config.network_id = "mesh".to_string();
    assert_eq!(config.effective_network_id(), "mesh");
    config.network_id = "  ".to_string();
    assert_eq!(config.effective_network_id(), "nostr-vpn-a,b");
}

#[test]
fn participants_override_sorts_and_derives_network_id() {
    let a = Keys::generate().public_key();
    let b = Keys::generate().public_key();
    let mut config = AppConfig::generated();
    apply_participants_override(
        &mut config,
        vec![b.to_bech32().expect("npub"), a.to_hex(), b.to_hex()],
    )
    .expect("valid participants");
    let mut expected = vec![a.to_hex(), b.to_hex()];
    expected.sort();
    assert_eq!(config.participants, expected);
    assert_eq!(config.network_id, derive_network_id_from_participants(&expected));
}

#[test]
fn participants_override_keeps_explicit_network_and_rejects_garbage() {
    let mut config = AppConfig::generated();
    config.network_id = "office".to_string();
    let a = Keys::generate().public_key();
    apply_participants_override(&mut config, vec![a.to_hex()]).expect("valid");
    assert_eq!(config.network_id, "office");
    assert_eq!(
        apply_participants_override(&mut config, vec!["nope".to_string()]),
        Err(ConfigError::InvalidParticipant)
    );
    assert_eq!(config.participants, vec![a.to_hex()]);
    assert_eq!(apply_participants_override(&mut config, vec![]), Ok(()));
    assert_eq!(config.participants, vec![a.to_hex()]);
}

#[test]
fn relays_come_from_cli_then_config_then_defaults() {
    let mut config = AppConfig::generated();
    let cli = vec!["wss://cli".to_string()];
    assert_eq!(resolve_relays(&cli, &config), cli);
    config.nostr.relays = vec!["wss://configured".to_string()];
    assert_eq!(resolve_relays(&[], &config), vec!["wss://configured".to_string()]);
    config.nostr.relays = vec![];
    let defaults: Vec<String> = DEFAULT_RELAYS.iter().map(|r| r.to_string()).collect();
    assert_eq!(resolve_relays(&[], &config), defaults);
}

#[test]
fn ensure_defaults_fills_relays_and_drops_non_keys() {
    let mut config = AppConfig::generated();
    config.nostr.relays = vec![];
    config.participants = vec!["garbage".to_string()];
    config.ensure_defaults();
    assert_eq!(config.nostr.relays.len(), 5);
    assert!(config.participants.is_empty());
    assert_eq!(config.participant_pubkeys_hex(), Vec::<String>::new());
}

#[test]
fn generated_config_defaults() {
    let config = AppConfig::generated();
    assert_eq!(config.node.listen_port, 51820);
    assert_eq!(config.node.id, config.nostr.public_key);
    assert_eq!(config.nostr.secret_key.len(), 64);
    assert_eq!(config.nostr.public_key.len(), 64);
    assert!(config.network_id.is_empty());
}

#[test]
fn own_pubkey_of_known_secret_key() {
    // The secret scalar 1 has the generator's x coordinate as its public key.
    let secret = "0000000000000000000000000000000000000000000000000000000000000001";
    assert_eq!(
        own_pubkey_from_secret(secret),
        Ok("79be667ef9dcbbac55a06295ce870b07029bfcdb2dce28d959f2815b16f81798".to_string())
    );
}

#[test]
fn own_pubkey_accepts_nsec_and_matches_keys() {
    let keys = Keys::generate();
    let nsec = keys.secret_key().to_bech32().expect("nsec");
    assert_eq!(own_pubkey_from_secret(&nsec), Ok(keys.public_key().to_hex()));
}

#[test]
fn own_pubkey_refuses_non_keys() {
    assert_eq!(own_pubkey_from_secret("not a key"), Err(ConfigError::InvalidSecretKey));
    assert_eq!(ConfigError::InvalidSecretKey.message(), "invalid nostr secret key");
}

#[test]
fn generated_config_key_lengths() {
    let config = AppConfig::generated();
    assert_eq!(config.node.private_key.len(), 44);
    assert_eq!(config.node.public_key.len(), 44);
    assert_eq!(config.nostr.secret_key.len(), 64);
    assert_eq!(config.nostr.public_key.len(), 64);
    assert_eq!(config.node.id, config.nostr.public_key);
}
