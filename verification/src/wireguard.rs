//! WireGuard configuration: the `wg-quick` style text for an interface and
//! its peers, and the `<public_key>,<allowed_ips>,<endpoint>` peer notation.

use vstd::prelude::*;

use crate::text::{
    chars_of, push_char, split_chars, split_on, string_from_chars, trim, trim_chars,
};

verus! {

/// The local side of a WireGuard tunnel.
#[derive(Debug)]
pub struct InterfaceConfig {
    pub private_key: String,
    pub address: String,
    pub listen_port: u16,
}

/// One remote side of a WireGuard tunnel.
#[derive(Debug)]
pub struct PeerConfig {
    pub public_key: String,
    pub allowed_ips: String,
    pub endpoint: String,
    pub persistent_keepalive: u16,
}

impl Clone for InterfaceConfig {
    fn clone(&self) -> (r: Self)
        ensures
            r == *self,
    {
        InterfaceConfig {
            private_key: self.private_key.clone(),
            address: self.address.clone(),
            listen_port: self.listen_port,
        }
    }
}

impl Clone for PeerConfig {
    fn clone(&self) -> (r: Self)
        ensures
            r == *self,
    {
        PeerConfig {
            public_key: self.public_key.clone(),
            allowed_ips: self.allowed_ips.clone(),
            endpoint: self.endpoint.clone(),
            persistent_keepalive: self.persistent_keepalive,
        }
    }
}

pub open spec fn digit_char(d: nat) -> char {
    if d == 0 {
        '0'
    } else if d == 1 {
        '1'
    } else if d == 2 {
        '2'
    } else if d == 3 {
        '3'
    } else if d == 4 {
        '4'
    } else if d == 5 {
        '5'
    } else if d == 6 {
        '6'
    } else if d == 7 {
        '7'
    } else if d == 8 {
        '8'
    } else {
        '9'
    }
}

/// The decimal digits of `n`, without leading zeros.
pub open spec fn decimal(n: nat) -> Seq<char>
    decreases n,
{
    if n < 10 {
        seq![digit_char(n)]
    } else {
        decimal(n / 10).push(digit_char(n % 10))
    }
}

/// A `Key = value` line.
pub open spec fn line(key: Seq<char>, value: Seq<char>) -> Seq<char> {
    key + " = "@ + value + "\n"@
}

pub open spec fn interface_section(interface: InterfaceConfig) -> Seq<char> {
    "[Interface]\n"@ + line("PrivateKey"@, interface.private_key@) + line(
        "Address"@,
        interface.address@,
    ) + line("ListenPort"@, decimal(interface.listen_port as nat))
}

pub open spec fn peer_section(peer: PeerConfig) -> Seq<char> {
    "\n[Peer]\n"@ + line("PublicKey"@, peer.public_key@) + line("AllowedIPs"@, peer.allowed_ips@)
        + line("Endpoint"@, peer.endpoint@) + line(
        "PersistentKeepalive"@,
        decimal(peer.persistent_keepalive as nat),
    )
}

/// The sections of `peers`, one after another.
pub open spec fn peer_sections(peers: Seq<PeerConfig>) -> Seq<char>
    decreases peers.len(),
{
    if peers.len() == 0 {
        Seq::empty()
    } else {
        peer_sections(peers.drop_last()) + peer_section(peers.last())
    }
}

/// The configuration text: the interface section, then one section per peer.
pub open spec fn wireguard_config(interface: InterfaceConfig, peers: Seq<PeerConfig>) -> Seq<char> {
    interface_section(interface) + peer_sections(peers)
}

/// The configuration of no peers is the interface section alone, and adding
/// a peer appends exactly that peer's section: every peer gets its own
/// section, in order, and nothing else changes.
pub proof fn lemma_config_has_a_section_per_peer(
    interface: InterfaceConfig,
    peers: Seq<PeerConfig>,
    peer: PeerConfig,
)
    ensures
        wireguard_config(interface, Seq::empty()) == interface_section(interface),
        wireguard_config(interface, peers.push(peer)) == wireguard_config(interface, peers) + peer_section(
            peer,
        ),
{
    assert(peers.push(peer).drop_last() =~= peers);
    assert(wireguard_config(interface, Seq::empty()) =~= interface_section(interface));
    assert(wireguard_config(interface, peers.push(peer)) =~= wireguard_config(interface, peers)
        + peer_section(peer));
}

/// Each peer's section stands in the configuration right after the sections
/// of the peers before it: the configuration of the first `i + 1` peers is
/// that of the first `i` followed by the section of peer `i`.
pub proof fn lemma_config_lists_every_peer(interface: InterfaceConfig, peers: Seq<PeerConfig>, i: int)
    requires
        0 <= i < peers.len(),
    ensures
        wireguard_config(interface, peers.take(i + 1)) == wireguard_config(interface, peers.take(i))
            + peer_section(peers[i]),
        wireguard_config(interface, peers.take(i + 1)).len() == wireguard_config(interface, peers.take(i)).len()
            + peer_section(peers[i]).len(),
{
    assert(peers.take(i + 1) =~= peers.take(i).push(peers[i]));
    lemma_config_has_a_section_per_peer(interface, peers.take(i), peers[i]);
}

fn digit_of(d: u16) -> (c: char)
    requires
        d < 10,
    ensures
        c == digit_char(d as nat),
{
    if d == 0 {
        '0'
    } else if d == 1 {
        '1'
    } else if d == 2 {
        '2'
    } else if d == 3 {
        '3'
    } else if d == 4 {
        '4'
    } else if d == 5 {
        '5'
    } else if d == 6 {
        '6'
    } else if d == 7 {
        '7'
    } else if d == 8 {
        '8'
    } else {
        '9'
    }
}

pub fn push_decimal(out: &mut String, n: u16)
    ensures
        final(out)@ == old(out)@ + decimal(n as nat),
    decreases n,
{
    if n >= 10 {
        push_decimal(out, n / 10);
    }
    push_char(out, digit_of(n % 10));
    proof {
        if n < 10 {
            assert(final(out)@ =~= old(out)@ + decimal(n as nat));
        } else {
            assert(final(out)@ =~= old(out)@ + decimal(n as nat));
        }
    }
}

fn push_line(out: &mut String, key: &str, value: &str)
    ensures
        final(out)@ == old(out)@ + line(key@, value@),
{
    out.append(key);
    out.append(" = ");
    out.append(value);
    out.append("\n");
    assert(final(out)@ =~= old(out)@ + line(key@, value@));
}

fn push_number_line(out: &mut String, key: &str, value: u16)
    ensures
        final(out)@ == old(out)@ + line(key@, decimal(value as nat)),
{
    out.append(key);
    out.append(" = ");
    push_decimal(out, value);
    out.append("\n");
    assert(final(out)@ =~= old(out)@ + line(key@, decimal(value as nat)));
}

/// The WireGuard configuration text for `interface` and `peers`.
pub fn render_wireguard_config(interface: &InterfaceConfig, peers: &[PeerConfig]) -> (out: String)
    ensures
        out@ == wireguard_config(*interface, peers@),
{
    let mut out = String::new();
    out.append("[Interface]\n");
    push_line(&mut out, "PrivateKey", interface.private_key.as_str());
    push_line(&mut out, "Address", interface.address.as_str());
    push_number_line(&mut out, "ListenPort", interface.listen_port);
    proof {
        assert(out@ =~= interface_section(*interface));
        assert(peers@.take(0) =~= Seq::<PeerConfig>::empty());
    }
    let mut i: usize = 0;
    while i < peers.len()
        invariant
            i <= peers@.len(),
            out@ == interface_section(*interface) + peer_sections(peers@.take(i as int)),
        decreases peers.len() - i,
    {
        let peer = &peers[i];
        let ghost before = out@;
        out.append("\n[Peer]\n");
        push_line(&mut out, "PublicKey", peer.public_key.as_str());
        push_line(&mut out, "AllowedIPs", peer.allowed_ips.as_str());
        push_line(&mut out, "Endpoint", peer.endpoint.as_str());
        push_number_line(&mut out, "PersistentKeepalive", peer.persistent_keepalive);
        proof {
            assert(peers@.take(i + 1).drop_last() =~= peers@.take(i as int));
            assert(peers@.take(i + 1).last() == *peer);
            assert(out@ =~= before + peer_section(*peer));
        }
        i = i + 1;
    }
    proof {
        assert(peers@.take(peers@.len() as int) =~= peers@);
    }
    out
}

/// The `k`-th piece of `s` split at commas, or nothing when there are fewer pieces.
pub open spec fn comma_field(s: Seq<char>, k: int) -> Seq<char> {
    if k < split_on(s, ',').len() {
        split_on(s, ',')[k]
    } else {
        Seq::empty()
    }
}

/// Why a `--peer` value was refused.
#[derive(Debug, Clone, Copy, PartialEq, Eq, Structural)]
pub enum PeerArgError {
    /// One of the three comma-separated fields is missing or blank.
    InvalidFormat,
}

impl PeerArgError {
    /// What to tell the user.
    pub fn message(&self) -> (m: &'static str)
        ensures
            m@ == match self {
            PeerArgError::InvalidFormat => "invalid --peer format, expected <public_key>,<allowed_ips>,<endpoint>"@,
            },
    {
        "invalid --peer format, expected <public_key>,<allowed_ips>,<endpoint>"
    }
}

/// Reads `<public_key>,<allowed_ips>,<endpoint>`: the first three
/// comma-separated fields, trimmed, each of which must be non-empty; anything
/// after a third comma is ignored. The keepalive is 25 seconds.
pub fn parse_peer_arg(value: &str) -> (r: Result<PeerConfig, PeerArgError>)
    ensures
        r is Err <==> (trim(comma_field(value@, 0)).len() == 0 || trim(comma_field(value@, 1)).len()
            == 0 || trim(comma_field(value@, 2)).len() == 0),
        r matches Ok(p) ==> {
            &&& p.public_key@ == trim(comma_field(value@, 0))
            &&& p.allowed_ips@ == trim(comma_field(value@, 1))
            &&& p.endpoint@ == trim(comma_field(value@, 2))
            &&& p.persistent_keepalive == 25
        },
{
    let chars = chars_of(value);
    let parts = split_chars(&chars, ',');
    let ghost pieces = parts@.map_values(|v: Vec<char>| v@);
    let mut fields: Vec<Vec<char>> = Vec::new();
    let mut k: usize = 0;
    while k < 3
        invariant
            k <= 3,
            pieces == parts@.map_values(|v: Vec<char>| v@),
            pieces == split_on(value@, ','),
            fields@.len() == k,
            forall|j: int| 0 <= j < k ==> (#[trigger] fields@[j])@ == trim(comma_field(value@, j)),
        decreases 3 - k,
    {
        let field = if k < parts.len() {
            proof {
                assert(pieces[k as int] == parts@[k as int]@);
            }
            trim_chars(&parts[k])
        } else {
            let empty: Vec<char> = Vec::new();
            trim_chars(&empty)
        };
        proof {
            if k >= parts.len() {
                assert(comma_field(value@, k as int) =~= Seq::<char>::empty());
            }
        }
        fields.push(field);
        k = k + 1;
    }
    if fields[0].len() == 0 || fields[1].len() == 0 || fields[2].len() == 0 {
        return Err(PeerArgError::InvalidFormat);
    }
    Ok(PeerConfig {
        public_key: string_from_chars(fields[0].as_slice()),
        allowed_ips: string_from_chars(fields[1].as_slice()),
        endpoint: string_from_chars(fields[2].as_slice()),
        persistent_keepalive: 25,
    })
}

} // verus!
