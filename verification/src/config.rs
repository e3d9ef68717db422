//! Node configuration: the default relays, participant public keys in their
//! normal (hex) form, the network ID derived from the participants, and the
//! settings a node starts with.

use vstd::prelude::*;

use crate::crypto::{generate_keypair, is_generated_keypair, KeyPair};
use crate::order::{sorted_distinct, sorted_names, strictly_sorted, texts};
use crate::table::names_of;
use crate::text::{is_blank, str_is_blank};

verus! {

/// The relays a node uses when it is given none.
pub const DEFAULT_RELAYS: [&'static str; 5] = [
    "wss://temp.iris.to",
    "wss://relay.damus.io",
    "wss://nos.lol",
    "wss://relay.primal.net",
    "wss://offchain.pub",
];

#[verifier::external_type_specification]
#[verifier::external_body]
pub struct ExNostrError(nostr::error::Error);

/// The hex form of the Nostr public key that a text (hex, `npub` bech32 or
/// `nostr:` URI) denotes, when it denotes one.
pub uninterp spec fn nostr_public_key_hex(text: Seq<char>) -> Option<Seq<char>>;

/// The hex form of the Nostr public key of a secret key given in hex.
pub uninterp spec fn nostr_public_key_of_secret(secret_hex: Seq<char>) -> Seq<char>;

/// The hex form of the Nostr secret key that a text (hex or `nsec` bech32)
/// denotes, when it denotes one.
pub uninterp spec fn nostr_secret_key_hex(text: Seq<char>) -> Option<Seq<char>>;

/// `nostr::key::PublicKey::parse` followed by `PublicKey::to_hex`. Claims the
/// result is the hex form of the key the text denotes, that it has 64
/// digits, and that this hex form denotes the same key (`to_hex` writes 64
/// lowercase hex digits, which `parse` reads back through `from_hex`).
#[verifier::external_body]
fn parse_nostr_public_key(text: &str) -> (r: Result<String, nostr::error::Error>)
    ensures
        r is Ok <==> nostr_public_key_hex(text@) is Some,
        r matches Ok(h) ==> nostr_public_key_hex(text@) == Some(h@) && nostr_public_key_hex(h@)
            == Some(h@) && h@.len() == 64,
{
    match nostr::key::PublicKey::parse(text) {
        Ok(key) => Ok(key.to_hex()),
        Err(e) => Err(e),
    }
}

/// `nostr::key::Keys::generate`, as the hex forms of the secret and public keys.
/// Claims both are 64 hex digits, that the public key is the one of the
/// secret key, and that its hex form reads back as itself. The keys are
/// random.
#[verifier::external_body]
fn generate_nostr_keys() -> (r: (String, String))
    ensures
        r.0@.len() == 64,
        r.1@.len() == 64,
        r.1@ == nostr_public_key_of_secret(r.0@),
        nostr_public_key_hex(r.1@) == Some(r.1@),
{
    let keys = nostr::key::Keys::generate();
    (keys.secret_key().to_secret_hex(), keys.public_key().to_hex())
}

/// `nostr::key::Keys::parse` (a secret key in hex or `nsec` form), as the
/// hex forms of the secret and public keys. Claims it succeeds exactly when
/// the text denotes a secret key, that the first hex form is that key's,
/// that both have 64 digits, and that the public key is the one of the
/// secret key and reads back as itself.
#[verifier::external_body]
fn parse_nostr_secret_key(text: &str) -> (r: Result<(String, String), nostr::error::Error>)
    ensures
        r is Ok <==> nostr_secret_key_hex(text@) is Some,
        r matches Ok(k) ==> {
            &&& nostr_secret_key_hex(text@) == Some(k.0@)
            &&& k.0@.len() == 64
            &&& k.1@.len() == 64
            &&& k.1@ == nostr_public_key_of_secret(k.0@)
            &&& nostr_public_key_hex(k.1@) == Some(k.1@)
        },
{
    match nostr::key::Keys::parse(text) {
        Ok(keys) => Ok((keys.secret_key().to_secret_hex(), keys.public_key().to_hex())),
        Err(e) => Err(e),
    }
}

/// Why a configuration value was refused.
#[derive(Debug, Clone, Copy, PartialEq, Eq, Structural)]
pub enum ConfigError {
    /// A participant is not a Nostr public key (hex, npub or nostr: URI).
    InvalidParticipant,
    /// The node's secret key is not a Nostr secret key (hex or nsec).
    InvalidSecretKey,
}

impl ConfigError {
    /// What to tell the user.
    pub fn message(&self) -> (m: &'static str)
        ensures
            m@ == match self {
            ConfigError::InvalidParticipant => "invalid participant nostr public key"@,
            ConfigError::InvalidSecretKey => "invalid nostr secret key"@,
            },
    {
        match self {
            ConfigError::InvalidParticipant => "invalid participant nostr public key",
            ConfigError::InvalidSecretKey => "invalid nostr secret key",
        }
    }
}

/// The hex form of the public key of the Nostr secret key that `secret_key`
/// (hex or `nsec`) denotes: the identity a node signs with.
pub fn own_pubkey_from_secret(secret_key: &str) -> (r: Result<String, ConfigError>)
    ensures
        match nostr_secret_key_hex(secret_key@) {
            Some(s) => r matches Ok(p) && p@ == nostr_public_key_of_secret(s),
            None => r == Err::<String, ConfigError>(ConfigError::InvalidSecretKey),
        },
        r matches Ok(p) ==> p@.len() == 64 && nostr_public_key_hex(p@) == Some(p@),
{
    match parse_nostr_secret_key(secret_key) {
        Ok((_, public_key)) => Ok(public_key),
        Err(_) => Err(ConfigError::InvalidSecretKey),
    }
}

/// A participant key in hex form, from hex, `npub` or `nostr:` form.
pub fn normalize_nostr_pubkey(value: &str) -> (r: Result<String, ConfigError>)
    ensures
        match nostr_public_key_hex(value@) {
            Some(h) => r matches Ok(s) && s@ == h,
            None => r == Err::<String, ConfigError>(ConfigError::InvalidParticipant),
        },
        r matches Ok(s) ==> nostr_public_key_hex(s@) == Some(s@),
{
    match parse_nostr_public_key(value) {
        Ok(h) => Ok(h),
        Err(_) => Err(ConfigError::InvalidParticipant),
    }
}

/// Each entry of `participants` in hex form, or the first that is not a key.
pub open spec fn all_keys(participants: Seq<String>) -> bool {
    forall|i: int| 0 <= i < participants.len() ==> (#[trigger] nostr_public_key_hex(participants[i]@)) is Some
}

/// The hex forms of the participants that are keys.
pub open spec fn hex_names(participants: Seq<String>) -> Set<Seq<char>> {
    Set::new(
        |h: Seq<char>|
            exists|i: int|
                0 <= i < participants.len() && #[trigger] nostr_public_key_hex(participants[i]@) == Some(h),
    )
}

/// Normalizes every participant, failing on the first that is not a key.
pub fn normalize_all(participants: &Vec<String>) -> (r: Result<Vec<String>, ConfigError>)
    ensures
        r is Ok <==> all_keys(participants@),
        r matches Err(e) ==> e == ConfigError::InvalidParticipant,
        r matches Ok(v) ==> v@.len() == participants@.len() && forall|i: int|
            0 <= i < v@.len() ==> nostr_public_key_hex(participants@[i]@) == Some(
                (#[trigger] v@[i])@,
            ),
{
    let mut out: Vec<String> = Vec::new();
    let mut i: usize = 0;
    while i < participants.len()
        invariant
            i <= participants@.len(),
            out@.len() == i,
            forall|j: int| 0 <= j < i ==> nostr_public_key_hex(participants@[j]@) == Some((#[trigger] out@[j])@),
        decreases participants.len() - i,
    {
        match normalize_nostr_pubkey(participants[i].as_str()) {
            Ok(h) => out.push(h),
            Err(e) => {
                proof {
                    assert(!all_keys(participants@)) by {
                        assert(nostr_public_key_hex(participants@[i as int]@) is None);
                    }
                }
                return Err(e);
            },
        }
        i = i + 1;
    }
    proof {
        assert forall|j: int| 0 <= j < participants@.len() implies (#[trigger] nostr_public_key_hex(
            participants@[j]@,
        )) is Some by {
            assert(nostr_public_key_hex(participants@[j]@) == Some(out@[j]@));
        }
    }
    Ok(out)
}

pub proof fn lemma_hex_names(participants: Seq<String>, hex: Seq<String>)
    requires
        hex.len() == participants.len(),
        forall|i: int| 0 <= i < hex.len() ==> nostr_public_key_hex(participants[i]@) == Some((#[trigger] hex[i])@),
    ensures
        names_of(hex) == hex_names(participants),
{
    assert forall|h: Seq<char>| #[trigger] names_of(hex).contains(h) == hex_names(participants).contains(h) by {
        if names_of(hex).contains(h) {
            let i = choose|i: int| 0 <= i < hex.len() && (#[trigger] hex[i])@ == h;
            assert(nostr_public_key_hex(participants[i]@) == Some(h));
        }
        if hex_names(participants).contains(h) {
            let i = choose|i: int|
                0 <= i < participants.len() && #[trigger] nostr_public_key_hex(participants[i]@) == Some(h);
            assert(nostr_public_key_hex(participants[i]@) == Some(hex[i]@));
        }
    }
    assert(names_of(hex) =~= hex_names(participants));
}

/// Joins `parts` with `sep` between consecutive parts.
pub open spec fn join(parts: Seq<Seq<char>>, sep: Seq<char>) -> Seq<char>
    decreases parts.len(),
{
    if parts.len() == 0 {
        Seq::empty()
    } else if parts.len() == 1 {
        parts[0]
    } else {
        join(parts.drop_last(), sep) + sep + parts.last()
    }
}

/// The network ID of a set of participants: `nostr-vpn-` and their keys,
/// sorted and each once, separated by commas. It depends on the set alone.
pub open spec fn network_id_of(participants: Set<Seq<char>>) -> Seq<char> {
    "nostr-vpn-"@ + join(sorted_names(participants), ","@)
}

/// The network ID derived from `participants` (taken as given: callers pass
/// normalized keys).
pub fn derive_network_id_from_participants(participants: &[String]) -> (r: String)
    ensures
        r@ == network_id_of(names_of(participants@)),
{
    let list = copy_strings(participants);
    let sorted = sorted_distinct(&list);
    let mut out = String::new();
    out.append("nostr-vpn-");
    let mut i: usize = 0;
    proof {
        assert(texts(sorted@).take(0) =~= Seq::<Seq<char>>::empty());
    }
    while i < sorted.len()
        invariant
            i <= sorted@.len(),
            out@ == "nostr-vpn-"@ + join(texts(sorted@).take(i as int), ","@),
        decreases sorted.len() - i,
    {
        let ghost before = out@;
        if i > 0 {
            out.append(",");
        }
        out.append(sorted[i].as_str());
        proof {
            let t = texts(sorted@);
            assert(t.take(i + 1).drop_last() =~= t.take(i as int));
            assert(t.take(i + 1).last() == sorted@[i as int]@);
            if i == 0 {
                assert(t.take(1) =~= seq![sorted@[0]@]);
            }
            assert(out@ =~= "nostr-vpn-"@ + join(t.take(i + 1), ","@));
        }
        i = i + 1;
    }
    proof {
        assert(texts(sorted@).take(sorted@.len() as int) =~= texts(sorted@));
        assert(list@ == participants@);
    }
    out
}

/// The derived network ID depends only on which participants there are, not
/// on their order or repetitions.
pub proof fn lemma_network_id_order_independent(left: Seq<String>, right: Seq<String>)
    requires
        names_of(left) == names_of(right),
    ensures
        network_id_of(names_of(left)) == network_id_of(names_of(right)),
{
}

/// The WireGuard side of a node.
#[derive(Debug)]
pub struct NodeConfig {
    pub id: String,
    pub endpoint: String,
    pub tunnel_ip: String,
    pub listen_port: u16,
    pub public_key: String,
    pub private_key: String,
}

/// The Nostr side of a node.
#[derive(Debug)]
pub struct NostrConfig {
    pub secret_key: String,
    pub public_key: String,
    pub relays: Vec<String>,
}

/// A node's settings.
#[derive(Debug)]
pub struct AppConfig {
    pub network_id: String,
    pub participants: Vec<String>,
    pub node: NodeConfig,
    pub nostr: NostrConfig,
}

pub open spec fn relay_texts(relays: Seq<&str>) -> Seq<Seq<char>> {
    relays.map_values(|r: &str| r@)
}

/// A copy of a list of strings.
pub fn copy_strings(v: &[String]) -> (r: Vec<String>)
    ensures
        r@ == v@,
{
    let mut out: Vec<String> = Vec::new();
    let mut i: usize = 0;
    while i < v.len()
        invariant
            i <= v@.len(),
            out@ == v@.take(i as int),
        decreases v.len() - i,
    {
        out.push(v[i].clone());
        assert(out@ =~= v@.take(i + 1));
        i = i + 1;
    }
    assert(v@.take(v@.len() as int) =~= v@);
    out
}

/// The default relays as owned strings.
pub fn default_relays() -> (r: Vec<String>)
    ensures
        texts(r@) == relay_texts(DEFAULT_RELAYS@),
{
    let mut out: Vec<String> = Vec::new();
    let mut i: usize = 0;
    while i < 5
        invariant
            i <= 5,
            out@.len() == i,
            texts(out@) == relay_texts(DEFAULT_RELAYS@).take(i as int),
        decreases 5 - i,
    {
        let ghost before = out@;
        let relay: &str = DEFAULT_RELAYS[i];
        assert(relay == DEFAULT_RELAYS@[i as int]);
        assert(DEFAULT_RELAYS@.len() == 5);
        let owned = relay.to_owned();
        assert(owned@ == relay@);
        out.push(owned);
        proof {
            assert(texts(out@)[i as int] == owned@);
            assert(relay_texts(DEFAULT_RELAYS@)[i as int] == DEFAULT_RELAYS@[i as int]@);
            assert forall|j: int| 0 <= j < i implies texts(out@)[j] == relay_texts(DEFAULT_RELAYS@)[j] by {
                assert(texts(out@)[j] == out@[j]@);
                assert(out@[j] == before[j]);
                assert(texts(before)[j] == relay_texts(DEFAULT_RELAYS@).take(i as int)[j]);
            }
            assert(texts(out@) =~= relay_texts(DEFAULT_RELAYS@).take(i + 1));
        }
        i = i + 1;
    }
    proof {
        assert(relay_texts(DEFAULT_RELAYS@).take(5) =~= relay_texts(DEFAULT_RELAYS@));
    }
    out
}

/// The relays to use: the ones given on the command line, else the
/// configured ones, else the defaults.
pub fn resolve_relays(cli_relays: &[String], config: &AppConfig) -> (r: Vec<String>)
    ensures
        cli_relays@.len() > 0 ==> r@ == cli_relays@,
        cli_relays@.len() == 0 && config.nostr.relays@.len() > 0 ==> r@ == config.nostr.relays@,
        cli_relays@.len() == 0 && config.nostr.relays@.len() == 0 ==> texts(r@) == relay_texts(
            DEFAULT_RELAYS@,
        ),
{
    if cli_relays.len() > 0 {
        return copy_strings(cli_relays);
    }
    if config.nostr.relays.len() > 0 {
        return copy_strings(config.nostr.relays.as_slice());
    }
    default_relays()
}

impl AppConfig {
    /// Fresh settings: a new WireGuard key pair and Nostr identity, the
    /// default relays, listen port 51820, no participants and no explicit
    /// network ID. The node ID is the Nostr public key.
    pub fn generated() -> (r: Self)
        ensures
            is_generated_keypair(KeyPair { private_key: r.node.private_key, public_key: r.node.public_key }),
            r.node.private_key@.len() == 44,
            r.node.public_key@.len() == 44,
            r.nostr.secret_key@.len() == 64,
            r.nostr.public_key@.len() == 64,
            r.nostr.public_key@ == nostr_public_key_of_secret(r.nostr.secret_key@),
            nostr_public_key_hex(r.nostr.public_key@) == Some(r.nostr.public_key@),
            texts(r.nostr.relays@) == relay_texts(DEFAULT_RELAYS@),
            r.node.id@ == r.nostr.public_key@,
            r.node.listen_port == 51820,
            r.node.endpoint@.len() == 0,
            r.node.tunnel_ip@.len() == 0,
            r.network_id@.len() == 0,
            r.participants@.len() == 0,
    {
        let wg = generate_keypair();
        let (secret_key, public_key) = generate_nostr_keys();
        AppConfig {
            network_id: String::new(),
            participants: Vec::new(),
            node: NodeConfig {
                id: public_key.clone(),
                endpoint: String::new(),
                tunnel_ip: String::new(),
                listen_port: 51820,
                public_key: wg.public_key,
                private_key: wg.private_key,
            },
            nostr: NostrConfig { secret_key, public_key, relays: default_relays() },
        }
    }

    /// The network ID in use: the configured one unless it is blank, else
    /// the one derived from the participants.
    pub fn effective_network_id(&self) -> (r: String)
        ensures
            !is_blank(self.network_id@) ==> r@ == self.network_id@,
            is_blank(self.network_id@) ==> r@ == network_id_of(names_of(self.participants@)),
    {
        if !str_is_blank(self.network_id.as_str()) {
            self.network_id.clone()
        } else {
            derive_network_id_from_participants(self.participants.as_slice())
        }
    }

    /// The participants in hex form, sorted, each once; entries that are not
    /// keys are left out.
    pub fn participant_pubkeys_hex(&self) -> (r: Vec<String>)
        ensures
            texts(r@) == sorted_names(hex_names(self.participants@)),
    {
        let mut hex: Vec<String> = Vec::new();
        let mut i: usize = 0;
        while i < self.participants.len()
            invariant
                i <= self.participants@.len(),
                names_of(hex@) == hex_names(self.participants@.take(i as int)),
            decreases self.participants.len() - i,
        {
            let ghost before = hex@;
            let ghost prefix = self.participants@.take(i + 1);
            proof {
                assert(self.participants@.take(i as int) =~= prefix.drop_last());
            }
            match normalize_nostr_pubkey(self.participants[i].as_str()) {
                Ok(h) => {
                    hex.push(h);
                },
                Err(_) => {},
            }
            proof {
                assert forall|x: Seq<char>| #[trigger] names_of(hex@).contains(x) == hex_names(prefix).contains(x) by {
                    if names_of(hex@).contains(x) {
                        let k = choose|k: int| 0 <= k < hex@.len() && (#[trigger] hex@[k])@ == x;
                        if k < before.len() {
                            assert(names_of(before).contains(x));
                            let j = choose|j: int|
                                0 <= j < i && #[trigger] nostr_public_key_hex(self.participants@.take(i as int)[j]@) == Some(x);
                            assert(prefix[j] == self.participants@.take(i as int)[j]);
                        } else {
                            assert(prefix[i as int] == self.participants@[i as int]);
                        }
                    }
                    if hex_names(prefix).contains(x) {
                        let j = choose|j: int| 0 <= j < prefix.len() && #[trigger] nostr_public_key_hex(prefix[j]@) == Some(x);
                        if j < i {
                            assert(self.participants@.take(i as int)[j] == prefix[j]);
                            assert(hex_names(self.participants@.take(i as int)).contains(x));
                            let k = choose|k: int| 0 <= k < before.len() && (#[trigger] before[k])@ == x;
                            assert(hex@[k] == before[k]);
                        } else {
                            assert(prefix[j] == self.participants@[i as int]);
                            assert(hex@[hex@.len() - 1]@ == x);
                        }
                    }
                }
                assert(names_of(hex@) =~= hex_names(prefix));
            }
            i = i + 1;
        }
        proof {
            assert(self.participants@.take(self.participants@.len() as int) =~= self.participants@);
        }
        sorted_distinct(&hex)
    }

    /// Puts the participants in hex form, sorted, each once (leaving out
    /// entries that are not keys), and fills in the default relays when
    /// there are none.
    pub fn ensure_defaults(&mut self)
        ensures
            texts(final(self).participants@) == sorted_names(hex_names(old(self).participants@)),
            old(self).nostr.relays@.len() > 0 ==> final(self).nostr.relays@ == old(self).nostr.relays@,
            old(self).nostr.relays@.len() == 0 ==> texts(final(self).nostr.relays@) == relay_texts(
                DEFAULT_RELAYS@,
            ),
            final(self).network_id == old(self).network_id,
            final(self).node == old(self).node,
            final(self).nostr.secret_key == old(self).nostr.secret_key,
            final(self).nostr.public_key == old(self).nostr.public_key,
    {
        self.participants = self.participant_pubkeys_hex();
        if self.nostr.relays.len() == 0 {
            self.nostr.relays = default_relays();
        }
    }
}

/// Replaces the participants with `participants` in hex form, sorted, each
/// once, and derives the network ID from them when none is configured.
/// Nothing changes when `participants` is empty; a participant that is not
/// a key is refused and nothing changes either.
pub fn apply_participants_override(config: &mut AppConfig, participants: Vec<String>) -> (r: Result<
    (),
    ConfigError,
>)
    ensures
        participants@.len() == 0 ==> r is Ok && *final(config) == *old(config),
        participants@.len() > 0 && !all_keys(participants@) ==> r == Err::<(), ConfigError>(
            ConfigError::InvalidParticipant,
        ) && *final(config) == *old(config),
        participants@.len() > 0 && all_keys(participants@) ==> {
            &&& r is Ok
            &&& texts(final(config).participants@) == sorted_names(hex_names(participants@))
            &&& is_blank(old(config).network_id@) ==> final(config).network_id@ == network_id_of(
                hex_names(participants@),
            )
            &&& !is_blank(old(config).network_id@) ==> final(config).network_id
                == old(config).network_id
            &&& final(config).node == old(config).node
            &&& final(config).nostr == old(config).nostr
        },
{
    if participants.len() == 0 {
        return Ok(());
    }
    let normalized = match normalize_all(&participants) {
        Ok(v) => v,
        Err(e) => return Err(e),
    };
    proof {
        lemma_hex_names(participants@, normalized@);
    }
    let sorted = sorted_distinct(&normalized);
    proof {
        assert(names_of(sorted@) == hex_names(participants@)) by {
            assert forall|x: Seq<char>| #[trigger] names_of(sorted@).contains(x) == texts(sorted@).to_set().contains(x) by {
                if names_of(sorted@).contains(x) {
                    let k = choose|k: int| 0 <= k < sorted@.len() && (#[trigger] sorted@[k])@ == x;
                    assert(texts(sorted@)[k] == x);
                }
                if texts(sorted@).to_set().contains(x) {
                    let k = choose|k: int| 0 <= k < texts(sorted@).len() && texts(sorted@)[k] == x;
                    assert(sorted@[k]@ == x);
                }
            }
            assert(names_of(sorted@) =~= texts(sorted@).to_set());
        }
    }
    config.participants = sorted;
    if str_is_blank(config.network_id.as_str()) {
        config.network_id = derive_network_id_from_participants(config.participants.as_slice());
    }
    Ok(())
}

} // verus!
