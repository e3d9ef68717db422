//! Core logic of a Nostr-signaled WireGuard control plane: endpoint path
//! bookkeeping, WireGuard configuration rendering, key handling and the
//! decisions taken on signaling messages.

pub mod config;
pub mod control;
pub mod crypto;
pub mod net;
pub mod order;
pub mod paths;
pub mod signaling;
pub mod table;
pub mod text;
pub mod tunnel;
pub mod wireguard;
