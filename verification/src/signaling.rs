//! The signaling protocol's messages and the decisions a signaling client
//! takes: which network it serves, when it may publish, and which incoming
//! messages it passes on.

use vstd::prelude::*;

use crate::config::{all_keys, hex_names, lemma_hex_names, normalize_all, ConfigError};
use crate::control::PeerAnnouncement;
use crate::table::{name_listed, names_of};
use crate::text::{is_blank, str_is_blank};

verus! {

/// The Nostr event kind that carries signaling messages.
pub const NOSTR_KIND_NOSTR_VPN: u16 = 31990;

/// What a node tells the network.
#[derive(Debug)]
pub enum SignalPayload {
    Announce(PeerAnnouncement),
    Disconnect { node_id: String },
}

/// A signaling message: the network it belongs to, who sent it, and what it says.
#[derive(Debug)]
pub struct SignalEnvelope {
    pub network_id: String,
    pub sender_pubkey: String,
    pub payload: SignalPayload,
}

/// Why the signaling client refused to go on.
#[derive(Debug, Clone, Copy, PartialEq, Eq, Structural)]
pub enum SignalingError {
    EmptyNetworkId,
    InvalidParticipant,
    NotConnected,
    RejectedByAllRelays,
}

impl SignalingError {
    /// What to tell the user.
    pub fn message(&self) -> (m: &'static str)
        ensures
            m@ == match self {
            SignalingError::EmptyNetworkId => "network_id must not be empty"@,
            SignalingError::InvalidParticipant => "invalid participant nostr public key"@,
            SignalingError::NotConnected => "client not connected"@,
            SignalingError::RejectedByAllRelays => "event rejected by all relays"@,
            },
    {
        match self {
            SignalingError::EmptyNetworkId => "network_id must not be empty",
            SignalingError::InvalidParticipant => "invalid participant nostr public key",
            SignalingError::NotConnected => "client not connected",
            SignalingError::RejectedByAllRelays => "event rejected by all relays",
        }
    }
}

/// The part of a signaling client that decides: its network, its own
/// public key (hex), the senders it listens to, and whether it is connected.
pub struct SignalingState {
    network_id: String,
    own_pubkey: String,
    allowed_senders: Option<Vec<String>>,
    connected: bool,
}

pub open spec fn opt_names(o: Option<Vec<String>>) -> Option<Set<Seq<char>>> {
    match o {
        Some(v) => Some(names_of(v@)),
        None => None,
    }
}

/// An incoming event is passed on when it has the signaling kind, was not
/// written by us, parsed as an envelope of our network not sent by us, and
/// its sender is allowed (everyone is, without an allowlist).
pub open spec fn accepted(
    network_id: Seq<char>,
    own_pubkey: Seq<char>,
    allowed: Option<Set<Seq<char>>>,
    event_kind: u16,
    event_author: Seq<char>,
    envelope: Option<SignalEnvelope>,
) -> bool {
    &&& event_kind == NOSTR_KIND_NOSTR_VPN
    &&& event_author != own_pubkey
    &&& envelope matches Some(env)
    &&& env.network_id@ == network_id
    &&& env.sender_pubkey@ != own_pubkey
    &&& (allowed matches Some(names) ==> names.contains(env.sender_pubkey@))
}

impl SignalingState {
    pub closed spec fn network_id(&self) -> Seq<char> {
        self.network_id@
    }

    pub closed spec fn own_pubkey(&self) -> Seq<char> {
        self.own_pubkey@
    }

    /// The senders listened to, when the client was given participants.
    pub closed spec fn allowed(&self) -> Option<Set<Seq<char>>> {
        opt_names(self.allowed_senders)
    }

    pub closed spec fn is_connected(&self) -> bool {
        self.connected
    }

    /// A client for `network_id`, which must not be blank, listening to the
    /// `participants` (public keys in any form Nostr reads, all of which must
    /// be keys) when there are any and to everyone otherwise. It starts
    /// disconnected.
    pub fn new(network_id: String, own_pubkey: String, participants: Vec<String>) -> (r: Result<
        Self,
        SignalingError,
    >)
        ensures
            is_blank(network_id@) ==> r == Err::<Self, SignalingError>(SignalingError::EmptyNetworkId),
            !is_blank(network_id@) && !all_keys(participants@) ==> r == Err::<Self, SignalingError>(
                SignalingError::InvalidParticipant,
            ),
            !is_blank(network_id@) && all_keys(participants@) ==> r is Ok,
            r matches Ok(s) ==> {
                &&& s.network_id() == network_id@
                &&& s.own_pubkey() == own_pubkey@
                &&& !s.is_connected()
                &&& s.allowed() == if participants@.len() == 0 {
                    None
                } else {
                    Some(hex_names(participants@))
                }
            },
    {
        if str_is_blank(network_id.as_str()) {
            return Err(SignalingError::EmptyNetworkId);
        }
        let allowed_senders = match normalize_participants(participants) {
            Ok(a) => a,
            Err(_) => return Err(SignalingError::InvalidParticipant),
        };
        Ok(SignalingState { network_id, own_pubkey, allowed_senders, connected: false })
    }

    pub fn network_id_str(&self) -> (r: &str)
        ensures
            r@ == self.network_id(),
    {
        self.network_id.as_str()
    }

    pub fn own_pubkey_str(&self) -> (r: &str)
        ensures
            r@ == self.own_pubkey(),
    {
        self.own_pubkey.as_str()
    }

    pub fn connected(&self) -> (r: bool)
        ensures
            r == self.is_connected(),
    {
        self.connected
    }

    /// Records that the relays were joined (or left).
    pub fn set_connected(&mut self, connected: bool)
        ensures
            final(self).is_connected() == connected,
            final(self).network_id() == old(self).network_id(),
            final(self).own_pubkey() == old(self).own_pubkey(),
            final(self).allowed() == old(self).allowed(),
    {
        self.connected = connected;
    }

    /// The envelope to publish for `payload`; refused while disconnected.
    pub fn envelope_for(&self, payload: SignalPayload) -> (r: Result<SignalEnvelope, SignalingError>)
        ensures
            r is Err <==> !self.is_connected(),
            r matches Err(e) ==> e == SignalingError::NotConnected,
            r matches Ok(env) ==> env.network_id@ == self.network_id() && env.sender_pubkey@
                == self.own_pubkey() && env.payload == payload,
    {
        if !self.connected {
            return Err(SignalingError::NotConnected);
        }
        Ok(SignalEnvelope {
            network_id: self.network_id.clone(),
            sender_pubkey: self.own_pubkey.clone(),
            payload,
        })
    }

    /// Whether an incoming event is passed on; `envelope` is its content
    /// read as an envelope, when it reads as one.
    pub fn accepts(&self, event_kind: u16, event_author: &str, envelope: &Option<SignalEnvelope>) -> (r:
        bool)
        ensures
            r == accepted(
                self.network_id(),
                self.own_pubkey(),
                self.allowed(),
                event_kind,
                event_author@,
                *envelope,
            ),
    {
        if event_kind != NOSTR_KIND_NOSTR_VPN {
            return false;
        }
        if event_author.to_owned() == self.own_pubkey {
            return false;
        }
        let env = match envelope {
            Some(env) => env,
            None => return false,
        };
        if !(env.network_id == self.network_id) {
            return false;
        }
        if env.sender_pubkey == self.own_pubkey {
            return false;
        }
        match &self.allowed_senders {
            None => true,
            Some(names) => name_listed(names, &env.sender_pubkey),
        }
    }
}

/// The allowlist for `participants`: none when there are no participants,
/// else their keys in hex form; a participant that is not a key is refused.
pub fn normalize_participants(participants: Vec<String>) -> (r: Result<Option<Vec<String>>, ConfigError>)
    ensures
        participants@.len() == 0 ==> r == Ok::<Option<Vec<String>>, ConfigError>(None),
        participants@.len() > 0 && !all_keys(participants@) ==> r == Err::<Option<Vec<String>>, ConfigError>(
            ConfigError::InvalidParticipant,
        ),
        participants@.len() > 0 && all_keys(participants@) ==> (r matches Ok(Some(v)) && names_of(v@)
            == hex_names(participants@)),
{
    if participants.len() == 0 {
        return Ok(None);
    }
    let normalized = normalize_all(&participants)?;
    proof {
        lemma_hex_names(participants@, normalized@);
    }
    Ok(Some(normalized))
}

/// The outcome of publishing, given how many relays accepted the event.
pub fn publish_outcome(accepted_by: usize) -> (r: Result<(), SignalingError>)
    ensures
        r is Err <==> accepted_by == 0,
        r matches Err(e) ==> e == SignalingError::RejectedByAllRelays,
{
    if accepted_by == 0 {
        Err(SignalingError::RejectedByAllRelays)
    } else {
        Ok(())
    }
}

/// Nothing we sent, and nothing addressed to another network, is ever passed
/// on; with an allowlist, only allowed senders are.
pub proof fn lemma_accepted_messages(
    network_id: Seq<char>,
    own_pubkey: Seq<char>,
    allowed: Option<Set<Seq<char>>>,
    event_kind: u16,
    event_author: Seq<char>,
    envelope: Option<SignalEnvelope>,
)
    requires
        accepted(network_id, own_pubkey, allowed, event_kind, event_author, envelope),
    ensures
        event_author != own_pubkey,
        envelope->0.sender_pubkey@ != own_pubkey,
        envelope->0.network_id@ == network_id,
        allowed matches Some(names) ==> names.contains(envelope->0.sender_pubkey@),
{
}

} // verus!
