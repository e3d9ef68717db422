//! WireGuard keys: generation, their base64 text form, and a simulated
//! handshake between two boringtun tunnels.

use vstd::prelude::*;

use base64::engine::general_purpose::STANDARD;
use base64::Engine;
use boringtun::noise::{Tunn, TunnResult};
use boringtun::x25519;
use rand_core::OsRng;

verus! {

/// A key pair in base64 text form.
#[derive(Debug)]
pub struct KeyPair {
    pub private_key: String,
    pub public_key: String,
}

impl Clone for KeyPair {
    fn clone(&self) -> (r: Self)
        ensures
            r == *self,
    {
        KeyPair { private_key: self.private_key.clone(), public_key: self.public_key.clone() }
    }
}

/// The sizes of the three packets of a completed handshake.
#[derive(Debug, Clone, Copy, PartialEq, Eq, Structural)]
pub struct HandshakeTranscript {
    pub initiation_len: usize,
    pub response_len: usize,
    pub keepalive_len: usize,
}

#[derive(Debug, Clone, Copy, PartialEq, Eq, Structural)]
pub enum CryptoError {
    InvalidEncoding,
    InvalidLength,
    UnexpectedHandshakeResult,
}

impl CryptoError {
    /// What to tell the user.
    pub fn message(&self) -> (m: &'static str)
        ensures
            m@ == match self {
            CryptoError::InvalidEncoding => "invalid key encoding"@,
            CryptoError::InvalidLength => "invalid key length"@,
            CryptoError::UnexpectedHandshakeResult => "unexpected boringtun handshake result"@,
            },
    {
        match self {
            CryptoError::InvalidEncoding => "invalid key encoding",
            CryptoError::InvalidLength => "invalid key length",
            CryptoError::UnexpectedHandshakeResult => "unexpected boringtun handshake result",
        }
    }
}

/// A 32-byte X25519 private key.
#[derive(Clone, Copy)]
pub struct PrivateKey {
    pub bytes: [u8; 32],
}

/// A 32-byte X25519 public key.
#[derive(Clone, Copy)]
pub struct PublicKey {
    pub bytes: [u8; 32],
}

impl View for PrivateKey {
    type V = Seq<u8>;

    open spec fn view(&self) -> Seq<u8> {
        self.bytes@
    }
}

impl View for PublicKey {
    type V = Seq<u8>;

    open spec fn view(&self) -> Seq<u8> {
        self.bytes@
    }
}

#[verifier::external_type_specification]
#[verifier::external_body]
pub struct ExDecodeError(base64::DecodeError);

#[verifier::external_type_specification]
#[verifier::external_body]
pub struct ExTunn(Tunn);

/// The standard (RFC 4648, padded) base64 text of some bytes.
pub uninterp spec fn base64_encoding(bytes: Seq<u8>) -> Seq<char>;

/// The bytes that a text decodes to under standard padded base64, if it is valid.
pub uninterp spec fn base64_decoding(text: Seq<char>) -> Option<Seq<u8>>;

/// The X25519 public key of a private key (the clamped private scalar times the base point).
pub uninterp spec fn x25519_public_key(secret: Seq<u8>) -> Seq<u8>;

/// `base64::engine::general_purpose::STANDARD.encode`. Claims the result is
/// the base64 text of `bytes`, that it has four characters for every three
/// bytes begun (the padded length `encoded_len` computes), and that decoding
/// that text with the same engine gives `bytes` back (what an encoder and
/// decoder of one alphabet and padding promise each other).
#[verifier::external_body]
fn base64_encode(bytes: &[u8]) -> (r: String)
    ensures
        r@ == base64_encoding(bytes@),
        r@.len() == 4 * ((bytes@.len() + 2) / 3),
        base64_decoding(r@) == Some(bytes@),
{
    STANDARD.encode(bytes)
}

/// `base64::engine::general_purpose::STANDARD.decode`. Claims it succeeds
/// exactly when the text is valid base64, with the bytes it stands for.
#[verifier::external_body]
fn base64_decode(text: &str) -> (r: Result<Vec<u8>, base64::DecodeError>)
    ensures
        r is Ok <==> base64_decoding(text@) is Some,
        r matches Ok(v) ==> base64_decoding(text@) == Some(v@),
{
    STANDARD.decode(text)
}

/// `x25519::PublicKey::from(&x25519::StaticSecret::from(secret))`. Claims the
/// result is the public key of `secret`.
#[verifier::external_body]
fn x25519_public_from_secret(secret: &[u8; 32]) -> (r: [u8; 32])
    ensures
        r@ == x25519_public_key(secret@),
{
    x25519::PublicKey::from(&x25519::StaticSecret::from(*secret)).to_bytes()
}

/// `x25519::StaticSecret::random_from_rng(OsRng)`, as bytes. Nothing is
/// claimed of the bytes: they come from the operating system's random source.
#[verifier::external_body]
fn random_secret_bytes() -> (r: [u8; 32]) {
    x25519::StaticSecret::random_from_rng(OsRng).to_bytes()
}

/// What a boringtun tunnel asked for after a step.
pub enum TunnOutcome {
    Done,
    Error,
    WriteToNetwork(Vec<u8>),
    WriteToTunnel(Vec<u8>),
}

/// `Tunn::new(secret, peer_public, None, keepalive, index, None)`. Nothing is
/// claimed: the tunnel's state is boringtun's own.
#[verifier::external_body]
fn tunn_new(
    secret: &[u8; 32],
    peer_public: &[u8; 32],
    keepalive: Option<u16>,
    index: u32,
) -> (r: Result<Tunn, &'static str>) {
    Tunn::new(
        x25519::StaticSecret::from(*secret),
        x25519::PublicKey::from(*peer_public),
        None,
        keepalive,
        index,
        None,
    )
}

/// Whether a step's packet, if it asked for one, fits the 2048-byte buffer it was written to.
pub open spec fn fits_buffer(outcome: TunnOutcome) -> bool {
    match outcome {
        TunnOutcome::WriteToNetwork(p) => p@.len() <= 2048,
        TunnOutcome::WriteToTunnel(p) => p@.len() <= 2048,
        _ => true,
    }
}

/// `Tunn::format_handshake_initiation` into a 2048-byte buffer. Claims that
/// a packet it returns is a 148-byte handshake initiation (the only packet
/// boringtun writes there, `HANDSHAKE_INIT_SZ` bytes of the buffer it was
/// given); the packet's contents carry fresh ephemeral keys and timestamps,
/// and whether it is written at all depends on the tunnel's state.
#[verifier::external_body]
fn tunn_handshake_initiation(tunn: &mut Tunn) -> (r: TunnOutcome)
    ensures
        fits_buffer(r),
        r matches TunnOutcome::WriteToNetwork(p) ==> p@.len() == 148,
{
    let mut buf = [0u8; 2048];
    match tunn.format_handshake_initiation(&mut buf, false) {
        TunnResult::Done => TunnOutcome::Done,
        TunnResult::Err(_) => TunnOutcome::Error,
        TunnResult::WriteToNetwork(packet) => TunnOutcome::WriteToNetwork(packet.to_vec()),
        TunnResult::WriteToTunnelV4(packet, _) => TunnOutcome::WriteToTunnel(packet.to_vec()),
        TunnResult::WriteToTunnelV6(packet, _) => TunnOutcome::WriteToTunnel(packet.to_vec()),
    }
}

/// `Tunn::decapsulate(None, datagram, ..)` into a 2048-byte buffer. The
/// datagram must be no longer than that buffer: boringtun panics on a data
/// packet whose encrypted part does not fit it. Claims that a packet it
/// returns is a part of the buffer, and, for a non-empty datagram, which
/// packets boringtun answers with one to send: a 148-byte handshake
/// initiation with the 92-byte handshake response, and a 92-byte handshake
/// response with the 32-byte keepalive (an empty data packet). Cookie
/// replies, data packets and malformed datagrams are never answered with a
/// packet to send, and with no source address boringtun sends no cookie
/// reply. Whether a step succeeds depends on the tunnel's state and clock.
#[verifier::external_body]
fn tunn_decapsulate(tunn: &mut Tunn, datagram: &[u8]) -> (r: TunnOutcome)
    requires
        datagram@.len() <= 2048,
    ensures
        fits_buffer(r),
        datagram@.len() > 0 ==> (r matches TunnOutcome::WriteToNetwork(p) ==> (datagram@.len() == 148
            && p@.len() == 92) || (datagram@.len() == 92 && p@.len() == 32)),
{
    let mut buf = [0u8; 2048];
    match tunn.decapsulate(None, datagram, &mut buf) {
        TunnResult::Done => TunnOutcome::Done,
        TunnResult::Err(_) => TunnOutcome::Error,
        TunnResult::WriteToNetwork(packet) => TunnOutcome::WriteToNetwork(packet.to_vec()),
        TunnResult::WriteToTunnelV4(packet, _) => TunnOutcome::WriteToTunnel(packet.to_vec()),
        TunnResult::WriteToTunnelV6(packet, _) => TunnOutcome::WriteToTunnel(packet.to_vec()),
    }
}

/// The bytes a base64 text stands for, when it is valid base64.
pub fn base64_decode_text(text: &str) -> (r: Option<Vec<u8>>)
    ensures
        match base64_decoding(text@) {
            Some(b) => r matches Some(v) && v@ == b,
            None => r is None,
        },
{
    match base64_decode(text) {
        Ok(v) => Some(v),
        Err(_) => None,
    }
}

/// A 32-byte key read from base64 text, or why it could not be.
pub open spec fn decoded_key(encoded: Seq<char>) -> Result<Seq<u8>, CryptoError> {
    match base64_decoding(encoded) {
        None => Err(CryptoError::InvalidEncoding),
        Some(bytes) => if bytes.len() == 32 {
            Ok(bytes)
        } else {
            Err(CryptoError::InvalidLength)
        },
    }
}

/// What `generate_keypair` may give: the base64 texts of some 32-byte
/// private key and of its public key, 44 characters each, both of which
/// decode back.
pub open spec fn is_generated_keypair(kp: KeyPair) -> bool {
    &&& kp.private_key@.len() == 44
    &&& kp.public_key@.len() == 44
    &&& exists|secret: Seq<u8>|
        {
            &&& #[trigger] secret.len() == 32
            &&& x25519_public_key(secret).len() == 32
            &&& kp.private_key@ == base64_encoding(secret)
            &&& base64_decoding(kp.private_key@) == Some(secret)
            &&& kp.public_key@ == base64_encoding(x25519_public_key(secret))
            &&& base64_decoding(kp.public_key@) == Some(x25519_public_key(secret))
        }
}

fn key_bytes(encoded: &str) -> (r: Result<[u8; 32], CryptoError>)
    ensures
        match decoded_key(encoded@) {
            Ok(b) => r matches Ok(k) && k@ == b,
            Err(e) => r == Err::<[u8; 32], CryptoError>(e),
        },
{
    let raw = match base64_decode(encoded) {
        Ok(v) => v,
        Err(_) => return Err(CryptoError::InvalidEncoding),
    };
    if raw.len() != 32 {
        return Err(CryptoError::InvalidLength);
    }
    let mut bytes = [0u8; 32];
    let mut i: usize = 0;
    while i < 32
        invariant
            raw@.len() == 32,
            bytes@.len() == 32,
            i <= 32,
            forall|j: int| 0 <= j < i ==> bytes@[j] == raw@[j],
        decreases 32 - i,
    {
        bytes[i] = raw[i];
        i = i + 1;
    }
    assert(bytes@ =~= raw@);
    Ok(bytes)
}

/// A fresh key pair: a random private key and its public key, in base64.
pub fn generate_keypair() -> (kp: KeyPair)
    ensures
        is_generated_keypair(kp),
{
    let secret = random_secret_bytes();
    let public = x25519_public_from_secret(&secret);
    let kp = KeyPair {
        private_key: base64_encode(secret.as_slice()),
        public_key: base64_encode(public.as_slice()),
    };
    assert(secret@.len() == 32);
    kp
}

/// Reads a private key from base64 text.
pub fn decode_private_key(encoded: &str) -> (r: Result<PrivateKey, CryptoError>)
    ensures
        match decoded_key(encoded@) {
            Ok(b) => r matches Ok(k) && k@ == b,
            Err(e) => r == Err::<PrivateKey, CryptoError>(e),
        },
{
    match key_bytes(encoded) {
        Ok(bytes) => Ok(PrivateKey { bytes }),
        Err(e) => Err(e),
    }
}

/// Reads a public key from base64 text.
pub fn decode_public_key(encoded: &str) -> (r: Result<PublicKey, CryptoError>)
    ensures
        match decoded_key(encoded@) {
            Ok(b) => r matches Ok(k) && k@ == b,
            Err(e) => r == Err::<PublicKey, CryptoError>(e),
        },
{
    match key_bytes(encoded) {
        Ok(bytes) => Ok(PublicKey { bytes }),
        Err(e) => Err(e),
    }
}

/// The base64 text of the public key of `private_key`.
pub fn public_key_from_private_key(private_key: &PrivateKey) -> (r: String)
    ensures
        r@ == base64_encoding(x25519_public_key(private_key@)),
        decoded_key(r@) == Ok::<Seq<u8>, CryptoError>(x25519_public_key(private_key@)),
{
    let public = x25519_public_from_secret(&private_key.bytes);
    base64_encode(public.as_slice())
}

/// The packet a handshake step asks to send, or an error when the step asked for anything else.
pub fn handshake_packet(outcome: TunnOutcome) -> (r: Result<Vec<u8>, CryptoError>)
    ensures
        match outcome {
            TunnOutcome::WriteToNetwork(p) => r == Ok::<Vec<u8>, CryptoError>(p),
            _ => r == Err::<Vec<u8>, CryptoError>(CryptoError::UnexpectedHandshakeResult),
        },
{
    match outcome {
        TunnOutcome::WriteToNetwork(p) => Ok(p),
        _ => Err(CryptoError::UnexpectedHandshakeResult),
    }
}

/// A handshake's last step is acceptable when it finished or asked to send a packet.
pub fn handshake_settled(outcome: &TunnOutcome) -> (r: bool)
    ensures
        r == (outcome is Done || outcome is WriteToNetwork),
{
    match outcome {
        TunnOutcome::Done => true,
        TunnOutcome::WriteToNetwork(_) => true,
        _ => false,
    }
}

/// What one side of the simulated handshake builds its tunnel from.
#[derive(Clone, Copy)]
pub struct TunnelKeys {
    pub secret: [u8; 32],
    pub peer_public: [u8; 32],
    pub keepalive: Option<u16>,
    pub index: u32,
}

/// The tunnel settings of both sides of the simulated handshake.
#[derive(Clone, Copy)]
pub struct HandshakeInputs {
    pub initiator: TunnelKeys,
    pub responder: TunnelKeys,
}

/// The settings of a side keyed by `own` talking to the side keyed by
/// `peer`: its own secret, the peer's public key, a 25-second keepalive and
/// its session index.
pub open spec fn keys_for(t: TunnelKeys, own: Seq<u8>, peer: Seq<u8>, index: u32) -> bool {
    &&& t.secret@ == own
    &&& t.peer_public@ == x25519_public_key(peer)
    &&& t.keepalive == Some(25u16)
    &&& t.index == index
}

/// The tunnel settings for a handshake between the two private keys
/// (base64): the initiator gets index 1, the responder index 2, each with
/// the other's public key. Fails as decoding the first, then the second key does.
pub fn handshake_inputs(initiator_private_key: &str, responder_private_key: &str) -> (r: Result<
    HandshakeInputs,
    CryptoError,
>)
    ensures
        match (decoded_key(initiator_private_key@), decoded_key(responder_private_key@)) {
            (Err(e), _) => r == Err::<HandshakeInputs, CryptoError>(e),
            (Ok(_), Err(e)) => r == Err::<HandshakeInputs, CryptoError>(e),
            (Ok(i), Ok(p)) => r matches Ok(h) && keys_for(h.initiator, i, p, 1) && keys_for(
                h.responder,
                p,
                i,
                2,
            ),
        },
{
    let initiator_private = decode_private_key(initiator_private_key)?;
    let responder_private = decode_private_key(responder_private_key)?;
    let initiator_public = x25519_public_from_secret(&initiator_private.bytes);
    let responder_public = x25519_public_from_secret(&responder_private.bytes);
    Ok(HandshakeInputs {
        initiator: TunnelKeys {
            secret: initiator_private.bytes,
            peer_public: responder_public,
            keepalive: Some(25),
            index: 1,
        },
        responder: TunnelKeys {
            secret: responder_private.bytes,
            peer_public: initiator_public,
            keepalive: Some(25),
            index: 2,
        },
    })
}

/// What the four steps of a handshake make of it: the initiation, response
/// and keepalive steps must each ask to send a packet and the last step must
/// finish or ask to send one; the transcript is then the three packets' sizes.
pub open spec fn handshake_transcript(
    initiation: TunnOutcome,
    response: TunnOutcome,
    keepalive: TunnOutcome,
    last: TunnOutcome,
) -> Result<HandshakeTranscript, CryptoError> {
    match (initiation, response, keepalive) {
        (
            TunnOutcome::WriteToNetwork(i),
            TunnOutcome::WriteToNetwork(p),
            TunnOutcome::WriteToNetwork(k),
        ) => if last is Done || last is WriteToNetwork {
            Ok(
                HandshakeTranscript {
                    initiation_len: i@.len() as usize,
                    response_len: p@.len() as usize,
                    keepalive_len: k@.len() as usize,
                },
            )
        } else {
            Err(CryptoError::UnexpectedHandshakeResult)
        },
        _ => Err(CryptoError::UnexpectedHandshakeResult),
    }
}

/// The transcript of a handshake from what its four steps asked for.
pub fn transcript_of(
    initiation: TunnOutcome,
    response: TunnOutcome,
    keepalive: TunnOutcome,
    last: &TunnOutcome,
) -> (r: Result<HandshakeTranscript, CryptoError>)
    ensures
        r == handshake_transcript(initiation, response, keepalive, *last),
{
    let initiation = handshake_packet(initiation)?;
    let response = handshake_packet(response)?;
    let keepalive = handshake_packet(keepalive)?;
    if !handshake_settled(last) {
        return Err(CryptoError::UnexpectedHandshakeResult);
    }
    Ok(
        HandshakeTranscript {
            initiation_len: initiation.len(),
            response_len: response.len(),
            keepalive_len: keepalive.len(),
        },
    )
}

/// Runs a WireGuard handshake between two in-memory boringtun tunnels keyed
/// by the two private keys (base64), and reports the packet sizes.
///
/// The tunnels are built from `handshake_inputs`, and the result is
/// `transcript_of` the four steps, stopping at the first of the initiation,
/// response and keepalive steps that does not ask to send a packet. What the
/// steps return rests on boringtun's state, randomness and clock, so a
/// handshake between valid keys may still fail with `UnexpectedHandshakeResult`;
/// a completed one always reports the WireGuard sizes 148, 92 and 32.
pub fn simulate_boringtun_handshake(
    initiator_private_key: &str,
    responder_private_key: &str,
) -> (r: Result<HandshakeTranscript, CryptoError>)
    ensures
        decoded_key(initiator_private_key@) matches Err(e) ==> r == Err::<HandshakeTranscript, CryptoError>(e),
        decoded_key(initiator_private_key@) is Ok ==> (decoded_key(responder_private_key@) matches Err(e)
            ==> r == Err::<HandshakeTranscript, CryptoError>(e)),
        decoded_key(initiator_private_key@) is Ok && decoded_key(responder_private_key@) is Ok ==> (r is Ok
            || r == Err::<HandshakeTranscript, CryptoError>(CryptoError::UnexpectedHandshakeResult)),
        r matches Ok(t) ==> t == (HandshakeTranscript {
            initiation_len: 148,
            response_len: 92,
            keepalive_len: 32,
        }),
{
    let inputs = handshake_inputs(initiator_private_key, responder_private_key)?;
    let initiator_keys = inputs.initiator;
    let responder_keys = inputs.responder;
    let mut initiator = match tunn_new(
        &initiator_keys.secret,
        &initiator_keys.peer_public,
        initiator_keys.keepalive,
        initiator_keys.index,
    ) {
        Ok(t) => t,
        Err(_) => return Err(CryptoError::UnexpectedHandshakeResult),
    };
    let mut responder = match tunn_new(
        &responder_keys.secret,
        &responder_keys.peer_public,
        responder_keys.keepalive,
        responder_keys.index,
    ) {
        Ok(t) => t,
        Err(_) => return Err(CryptoError::UnexpectedHandshakeResult),
    };

    let initiation = tunn_handshake_initiation(&mut initiator);
    let response = match &initiation {
        TunnOutcome::WriteToNetwork(packet) => tunn_decapsulate(&mut responder, packet.as_slice()),
        _ => return Err(CryptoError::UnexpectedHandshakeResult),
    };
    let keepalive = match &response {
        TunnOutcome::WriteToNetwork(packet) => tunn_decapsulate(&mut initiator, packet.as_slice()),
        _ => return Err(CryptoError::UnexpectedHandshakeResult),
    };
    let last = match &keepalive {
        TunnOutcome::WriteToNetwork(packet) => tunn_decapsulate(&mut responder, packet.as_slice()),
        _ => return Err(CryptoError::UnexpectedHandshakeResult),
    };
    transcript_of(initiation, response, keepalive, &last)
}

/// A generated key pair reads back: its private key decodes to a key whose
/// public key is the pair's public key, and its public key decodes too.
pub proof fn lemma_generated_keypair_round_trip(kp: KeyPair)
    requires
        is_generated_keypair(kp),
    ensures
        decoded_key(kp.private_key@) matches Ok(secret) && base64_encoding(x25519_public_key(secret))
            == kp.public_key@,
        decoded_key(kp.public_key@) is Ok,
{
    let secret = choose|secret: Seq<u8>|
        {
            &&& #[trigger] secret.len() == 32
            &&& x25519_public_key(secret).len() == 32
            &&& kp.private_key@ == base64_encoding(secret)
            &&& base64_decoding(kp.private_key@) == Some(secret)
            &&& kp.public_key@ == base64_encoding(x25519_public_key(secret))
            &&& base64_decoding(kp.public_key@) == Some(x25519_public_key(secret))
        };
}

} // verus!
