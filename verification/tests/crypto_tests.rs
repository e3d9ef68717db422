use nostr_vpn_core::crypto::{
    decode_private_key, decode_public_key, generate_keypair, handshake_inputs, handshake_packet,
    handshake_settled, public_key_from_private_key, simulate_boringtun_handshake, transcript_of,
    CryptoError, TunnOutcome,
};

#[test]
fn generated_keypair_round_trips() {
    let pair = generate_keypair();
    let private = decode_private_key(&pair.private_key).expect("private key decodes");
    assert_eq!(public_key_from_private_key(&private), pair.public_key);
    let public = decode_public_key(&pair.public_key).expect("public key decodes");
    assert_eq!(public.bytes.len(), 32);
    assert_eq!(pair.private_key.len(), 44);
    assert_eq!(pair.public_key.len(), 44);
}

#[test]
fn decode_reports_bad_encoding_and_length() {
    assert_eq!(decode_private_key("not base64!").err().map(|e| e), Some(CryptoError::InvalidEncoding));
    assert_eq!(decode_public_key("AAAA").err(), Some(CryptoError::InvalidLength));
}

#[test]
fn public_key_of_known_private_key() {
    // RFC 7748 section 6.1: Alice's private key and public key.
    let private = decode_private_key("dwdtCnMYpX08FsFyUbJmRd9ML4frwJkqsXf7pR25LCo=").expect("decodes");
    assert_eq!(
        public_key_from_private_key(&private),
        "hSDwCYkwp1R0i33ctD73Wg2/Og0mOBr066SpjqqbTmo="
    );
}

#[test]
fn handshake_between_two_generated_keys() {
    let a = generate_keypair();
    let b = generate_keypair();
    let transcript = simulate_boringtun_handshake(&a.private_key, &b.private_key).expect("handshake");
    assert_eq!(transcript.initiation_len, 148);
    assert_eq!(transcript.response_len, 92);
    assert_eq!(transcript.keepalive_len, 32);
}

#[test]
fn handshake_rejects_bad_keys() {
    let a = generate_keypair();
    assert_eq!(
        simulate_boringtun_handshake("###", &a.private_key).err(),
        Some(CryptoError::InvalidEncoding)
    );
    assert_eq!(
        simulate_boringtun_handshake(&a.private_key, "AAAA").err(),
        Some(CryptoError::InvalidLength)
    );
}

#[test]
fn handshake_steps_are_classified() {
    assert_eq!(handshake_packet(TunnOutcome::WriteToNetwork(vec![1, 2])).ok(), Some(vec![1, 2]));
    assert_eq!(
        handshake_packet(TunnOutcome::Done).err(),
        Some(CryptoError::UnexpectedHandshakeResult)
    );
    assert!(handshake_settled(&TunnOutcome::Done));
    assert!(handshake_settled(&TunnOutcome::WriteToNetwork(vec![])));
    assert!(!handshake_settled(&TunnOutcome::Error));
    assert!(!handshake_settled(&TunnOutcome::WriteToTunnel(vec![0])));
}

#[test]
fn error_messages() {
    assert_eq!(CryptoError::InvalidEncoding.message(), "invalid key encoding");
    assert_eq!(CryptoError::InvalidLength.message(), "invalid key length");
    assert_eq!(
        CryptoError::UnexpectedHandshakeResult.message(),
        "unexpected boringtun handshake result"
    );
}

#[test]
fn public_key_text_decodes_to_public_key() {
    let private = decode_private_key("dwdtCnMYpX08FsFyUbJmRd9ML4frwJkqsXf7pR25LCo=").expect("decodes");
    let text = public_key_from_private_key(&private);
    let public = decode_public_key(&text).expect("public key decodes");
    assert_eq!(
        public.bytes,
        [
            0x85, 0x20, 0xf0, 0x09, 0x89, 0x30, 0xa7, 0x54, 0x74, 0x8b, 0x7d, 0xdc, 0xb4, 0x3e, 0xf7,
            0x5a, 0x0d, 0xbf, 0x3a, 0x0d, 0x26, 0x38, 0x1a, 0xf4, 0xeb, 0xa4, 0xa9, 0x8e, 0xaa, 0x9b,
            0x4e, 0x6a
        ]
    );
}

#[test]
fn handshake_inputs_pair_each_secret_with_the_other_public_key() {
    let a = generate_keypair();
    let b = generate_keypair();
    let inputs = handshake_inputs(&a.private_key, &b.private_key).expect("inputs");
    let a_secret = decode_private_key(&a.private_key).expect("a");
    let b_secret = decode_private_key(&b.private_key).expect("b");
    let a_public = decode_public_key(&a.public_key).expect("a public");
    let b_public = decode_public_key(&b.public_key).expect("b public");
    assert_eq!(inputs.initiator.secret, a_secret.bytes);
    assert_eq!(inputs.initiator.peer_public, b_public.bytes);
    assert_eq!(inputs.initiator.keepalive, Some(25));
    assert_eq!(inputs.initiator.index, 1);
    assert_eq!(inputs.responder.secret, b_secret.bytes);
    assert_eq!(inputs.responder.peer_public, a_public.bytes);
    assert_eq!(inputs.responder.keepalive, Some(25));
    assert_eq!(inputs.responder.index, 2);
    assert_eq!(handshake_inputs("###", &b.private_key).err(), Some(CryptoError::InvalidEncoding));
    assert_eq!(handshake_inputs(&a.private_key, "AAAA").err(), Some(CryptoError::InvalidLength));
}

#[test]
fn transcript_reports_each_packet_size() {
    let transcript = transcript_of(
        TunnOutcome::WriteToNetwork(vec![0; 148]),
        TunnOutcome::WriteToNetwork(vec![0; 92]),
        TunnOutcome::WriteToNetwork(vec![0; 32]),
        &TunnOutcome::Done,
    )
    .expect("transcript");
    assert_eq!(transcript.initiation_len, 148);
    assert_eq!(transcript.response_len, 92);
    assert_eq!(transcript.keepalive_len, 32);
    assert!(transcript_of(
        TunnOutcome::WriteToNetwork(vec![0; 1]),
        TunnOutcome::WriteToNetwork(vec![0; 2]),
        TunnOutcome::WriteToNetwork(vec![0; 3]),
        &TunnOutcome::WriteToNetwork(vec![]),
    )
    .is_ok());
}

#[test]
fn transcript_refuses_unexpected_steps() {
    assert_eq!(
        transcript_of(
            TunnOutcome::WriteToNetwork(vec![0; 148]),
            TunnOutcome::Done,
            TunnOutcome::WriteToNetwork(vec![0; 32]),
            &TunnOutcome::Done,
        )
        .err(),
        Some(CryptoError::UnexpectedHandshakeResult)
    );
    assert_eq!(
        transcript_of(
            TunnOutcome::WriteToNetwork(vec![0; 148]),
            TunnOutcome::WriteToNetwork(vec![0; 92]),
            TunnOutcome::WriteToNetwork(vec![0; 32]),
            &TunnOutcome::Error,
        )
        .err(),
        Some(CryptoError::UnexpectedHandshakeResult)
    );
}
