//! Bringing up a userspace WireGuard interface: the checks on the request,
//! the UAPI configuration messages, and the reading of UAPI replies.

use vstd::prelude::*;

use crate::crypto::{base64_decode_text, base64_decoding};
use crate::text::{chars_of, is_blank, str_is_blank};
use crate::wireguard::{decimal, push_decimal};

verus! {

pub open spec fn hex_digit(d: u8) -> char {
    if d < 10 {
        (('0' as u8) + d) as char
    } else {
        (('a' as u8) + (d - 10)) as char
    }
}

/// Lowercase hex, two digits per byte, high nibble first.
pub open spec fn lower_hex(bytes: Seq<u8>) -> Seq<char>
    decreases bytes.len(),
{
    if bytes.len() == 0 {
        Seq::empty()
    } else {
        lower_hex(bytes.drop_last()) + seq![
            hex_digit(bytes.last() / 16),
            hex_digit(bytes.last() % 16),
        ]
    }
}

/// `hex::encode`. Claims the result is the lowercase hex of `bytes`, two
/// digits per byte, high nibble first (as the crate documents and its
/// `HEX_CHARS_LOWER` table does).
#[verifier::external_body]
fn hex_encode(bytes: &[u8]) -> (r: String)
    ensures
        r@ == lower_hex(bytes@),
{
    hex::encode(bytes)
}

/// Why a tunnel could not be brought up.
#[derive(Debug, Clone, Copy, PartialEq, Eq, Structural)]
pub enum TunnelError {
    EmptyInterface,
    InvalidKeyEncoding,
    InvalidKeyLength,
}

impl TunnelError {
    /// What to tell the user.
    pub fn message(&self) -> (m: &'static str)
        ensures
            m@ == match self {
            TunnelError::EmptyInterface => "--iface must not be empty"@,
            TunnelError::InvalidKeyEncoding => "invalid base64 key encoding"@,
            TunnelError::InvalidKeyLength => "expected 32-byte key material"@,
            },
    {
        match self {
            TunnelError::EmptyInterface => "--iface must not be empty",
            TunnelError::InvalidKeyEncoding => "invalid base64 key encoding",
            TunnelError::InvalidKeyLength => "expected 32-byte key material",
        }
    }
}

/// The hex form of a 32-byte key given in base64, or why it is not one.
pub open spec fn key_hex(encoded: Seq<char>) -> Result<Seq<char>, TunnelError> {
    match base64_decoding(encoded) {
        None => Err(TunnelError::InvalidKeyEncoding),
        Some(bytes) => if bytes.len() == 32 {
            Ok(lower_hex(bytes))
        } else {
            Err(TunnelError::InvalidKeyLength)
        },
    }
}

/// A base64 key in the hex form the UAPI wants.
pub fn key_b64_to_hex(value: &str) -> (r: Result<String, TunnelError>)
    ensures
        match key_hex(value@) {
            Ok(h) => r matches Ok(s) && s@ == h,
            Err(e) => r == Err::<String, TunnelError>(e),
        },
{
    let bytes = match base64_decode_text(value) {
        Some(b) => b,
        None => return Err(TunnelError::InvalidKeyEncoding),
    };
    if bytes.len() != 32 {
        return Err(TunnelError::InvalidKeyLength);
    }
    Ok(hex_encode(bytes.as_slice()))
}

/// What configuring a tunnel takes: the UAPI socket to talk to, and the
/// settings for the interface and for its peer.
#[derive(Debug)]
pub struct TunnelSetup {
    pub uapi_socket: String,
    pub interface_settings: String,
    pub peer_settings: String,
}

pub open spec fn uapi_socket_path(iface: Seq<char>) -> Seq<char> {
    "/var/run/wireguard/"@ + iface + ".sock"@
}

pub open spec fn interface_settings(private_key_hex: Seq<char>, listen_port: u16) -> Seq<char> {
    "private_key="@ + private_key_hex + "\nlisten_port="@ + decimal(listen_port as nat)
}

pub open spec fn peer_settings(
    public_key_hex: Seq<char>,
    endpoint: Seq<char>,
    allowed_ip: Seq<char>,
    keepalive_secs: u16,
) -> Seq<char> {
    "public_key="@ + public_key_hex + "\nendpoint="@ + endpoint
        + "\nreplace_allowed_ips=true\nallowed_ip="@ + allowed_ip
        + "\npersistent_keepalive_interval="@ + decimal(keepalive_secs as nat)
}

/// Checks a tunnel request and writes what configuring it takes: the
/// interface name must not be blank, and both keys must be 32-byte base64
/// keys (the private key is checked first).
pub fn prepare_tunnel(
    iface: &str,
    private_key: &str,
    listen_port: u16,
    peer_public_key: &str,
    peer_endpoint: &str,
    peer_allowed_ip: &str,
    keepalive_secs: u16,
) -> (r: Result<TunnelSetup, TunnelError>)
    ensures
        is_blank(iface@) ==> r == Err::<TunnelSetup, TunnelError>(TunnelError::EmptyInterface),
        !is_blank(iface@) ==> (key_hex(private_key@) matches Err(e) ==> r == Err::<TunnelSetup, TunnelError>(e)),
        !is_blank(iface@) && key_hex(private_key@) is Ok ==> (key_hex(peer_public_key@) matches Err(e)
            ==> r == Err::<TunnelSetup, TunnelError>(e)),
        !is_blank(iface@) && key_hex(private_key@) is Ok && key_hex(peer_public_key@) is Ok ==> (r matches Ok(
            s,
        ) && {
            &&& s.uapi_socket@ == uapi_socket_path(iface@)
            &&& s.interface_settings@ == interface_settings(key_hex(private_key@)->Ok_0, listen_port)
            &&& s.peer_settings@ == peer_settings(
                key_hex(peer_public_key@)->Ok_0,
                peer_endpoint@,
                peer_allowed_ip@,
                keepalive_secs,
            )
        }),
{
    if str_is_blank(iface) {
        return Err(TunnelError::EmptyInterface);
    }
    let private_hex = key_b64_to_hex(private_key)?;
    let public_hex = key_b64_to_hex(peer_public_key)?;

    let mut uapi_socket = String::new();
    uapi_socket.append("/var/run/wireguard/");
    uapi_socket.append(iface);
    uapi_socket.append(".sock");

    let mut interface = String::new();
    interface.append("private_key=");
    interface.append(private_hex.as_str());
    interface.append("\nlisten_port=");
    push_decimal(&mut interface, listen_port);

    let mut peer = String::new();
    peer.append("public_key=");
    peer.append(public_hex.as_str());
    peer.append("\nendpoint=");
    peer.append(peer_endpoint);
    peer.append("\nreplace_allowed_ips=true\nallowed_ip=");
    peer.append(peer_allowed_ip);
    peer.append("\npersistent_keepalive_interval=");
    push_decimal(&mut peer, keepalive_secs);

    proof {
        assert(uapi_socket@ =~= uapi_socket_path(iface@));
        assert(interface@ =~= interface_settings(private_hex@, listen_port));
        assert(peer@ =~= peer_settings(public_hex@, peer_endpoint@, peer_allowed_ip@, keepalive_secs));
    }
    Ok(TunnelSetup { uapi_socket, interface_settings: interface, peer_settings: peer })
}

pub open spec fn uapi_set_message(body: Seq<char>) -> Seq<char> {
    "set=1\n"@ + body + "\n\n"@
}

/// The UAPI message that applies `body`.
pub fn uapi_set_request(body: &str) -> (r: String)
    ensures
        r@ == uapi_set_message(body@),
{
    let mut out = String::new();
    out.append("set=1\n");
    out.append(body);
    out.append("\n\n");
    assert(out@ =~= uapi_set_message(body@));
    out
}

/// `needle` occurs in `s`.
pub open spec fn contains_text(s: Seq<char>, needle: Seq<char>) -> bool {
    exists|i: int| 0 <= i && i + needle.len() <= s.len() && #[trigger] s.subrange(i, i + needle.len()) == needle
}

fn matches_at(s: &Vec<char>, needle: &Vec<char>, i: usize) -> (r: bool)
    requires
        i + needle@.len() <= s@.len(),
    ensures
        r == (s@.subrange(i as int, i + needle@.len()) == needle@),
{
    let n = s.len();
    let mut j: usize = 0;
    while j < needle.len()
        invariant
            n == s@.len(),
            i + needle@.len() <= s@.len(),
            j <= needle@.len(),
            forall|m: int| 0 <= m < j ==> s@[i + m] == needle@[m],
        decreases needle.len() - j,
    {
        if s[i + j] != needle[j] {
            assert(s@.subrange(i as int, i + needle@.len())[j as int] != needle@[j as int]);
            return false;
        }
        j = j + 1;
    }
    assert(s@.subrange(i as int, i + needle@.len()) =~= needle@);
    true
}

/// Whether a UAPI reply reports success: it holds `errno=0`.
pub fn uapi_response_ok(response: &str) -> (r: bool)
    ensures
        r == contains_text(response@, "errno=0"@),
{
    let s = chars_of(response);
    let needle = chars_of("errno=0");
    proof {
        reveal_strlit("errno=0");
    }
    if needle.len() > s.len() {
        proof {
            if contains_text(response@, "errno=0"@) {
                let i = choose|i: int| 0 <= i && i + needle@.len() <= s@.len() && #[trigger] s@.subrange(i, i + needle@.len()) == needle@;
            }
        }
        return false;
    }
    let mut i: usize = 0;
    while needle.len() <= s.len() - i
        invariant
            s@ == response@,
            needle@ == "errno=0"@,
            needle@.len() == 7,
            needle@.len() <= s@.len(),
            i <= s@.len(),
            forall|k: int| 0 <= k < i ==> #[trigger] s@.subrange(k, k + needle@.len()) != needle@,
        decreases s.len() - i,
    {
        if matches_at(&s, &needle, i) {
            return true;
        }
        i = i + 1;
    }
    proof {
        if contains_text(response@, "errno=0"@) {
            let k = choose|k: int| 0 <= k && k + needle@.len() <= s@.len() && #[trigger] s@.subrange(k, k + needle@.len()) == needle@;
            assert(k < i);
        }
    }
    false
}

} // verus!
