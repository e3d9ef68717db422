//! What a node announces about itself, and which of its endpoints a peer
//! dials by default.

use vstd::prelude::*;

use crate::net::{endpoints_share_private_ipv4_subnet, share_private_ipv4_subnet};
use crate::text::{is_blank, str_is_blank};

verus! {

/// A node's announcement: its identity, WireGuard key, tunnel address and the
/// endpoints it can be reached on.
#[derive(Debug)]
pub struct PeerAnnouncement {
    pub node_id: String,
    pub public_key: String,
    /// The endpoint every announcement carries.
    pub endpoint: String,
    /// An endpoint on the node's local network, when it knows one.
    pub local_endpoint: Option<String>,
    /// An endpoint reachable from the internet, when it knows one.
    pub public_endpoint: Option<String>,
    pub tunnel_ip: String,
    pub timestamp: u64,
}

impl Clone for PeerAnnouncement {
    fn clone(&self) -> (r: Self)
        ensures
            r == *self,
    {
        PeerAnnouncement {
            node_id: self.node_id.clone(),
            public_key: self.public_key.clone(),
            endpoint: self.endpoint.clone(),
            local_endpoint: match &self.local_endpoint {
                Some(s) => Some(s.clone()),
                None => None,
            },
            public_endpoint: match &self.public_endpoint {
                Some(s) => Some(s.clone()),
                None => None,
            },
            tunnel_ip: self.tunnel_ip.clone(),
            timestamp: self.timestamp,
        }
    }
}

/// An optional endpoint that is present and not blank.
pub open spec fn usable(e: Option<String>) -> bool {
    e matches Some(s) && !is_blank(s@)
}

/// The endpoint to dial when nothing has been learned about a peer yet: its
/// local endpoint when that shares a private /24 network with our own local
/// endpoint, else its public endpoint, else the endpoint every announcement carries.
pub open spec fn default_peer_endpoint(a: PeerAnnouncement, own_local: Option<Seq<char>>) -> Seq<
    char,
> {
    if usable(a.local_endpoint) && (own_local matches Some(own) && share_private_ipv4_subnet(
        a.local_endpoint->0@,
        own,
    )) {
        a.local_endpoint->0@
    } else if usable(a.public_endpoint) {
        a.public_endpoint->0@
    } else {
        a.endpoint@
    }
}

pub open spec fn opt_str_view(o: Option<&str>) -> Option<Seq<char>> {
    match o {
        Some(s) => Some(s@),
        None => None,
    }
}

fn usable_endpoint(e: &Option<String>) -> (r: bool)
    ensures
        r == usable(*e),
{
    match e {
        Some(s) => !str_is_blank(s.as_str()),
        None => false,
    }
}

/// The endpoint to dial for `announcement` when nothing has been learned about the peer.
pub fn select_peer_endpoint(announcement: &PeerAnnouncement, own_local_endpoint: Option<&str>) -> (r:
    String)
    ensures
        r@ == default_peer_endpoint(*announcement, opt_str_view(own_local_endpoint)),
{
    if usable_endpoint(&announcement.local_endpoint) {
        if let Some(own) = own_local_endpoint {
            let local = announcement.local_endpoint.as_ref().unwrap();
            if endpoints_share_private_ipv4_subnet(local.as_str(), own) {
                return local.clone();
            }
        }
    }
    if usable_endpoint(&announcement.public_endpoint) {
        return announcement.public_endpoint.as_ref().unwrap().clone();
    }
    announcement.endpoint.clone()
}

} // verus!
