# nostr_vpn_core

The verified core of a Nostr-signaled WireGuard control plane, written in
Verus.

- `src/` is the library. Its functions are verified against their
  `requires`/`ensures` contracts, except the small `external_body` wrappers
  around base64, x25519, boringtun, hex, nostr and `String::push`, whose
  contracts (each stated in its doc comment) are trusted.
  - `paths.rs`: per-peer endpoint bookkeeping (`PeerPathBook`) and the rule
    that picks the endpoint to dial, with the laws it obeys.
  - `control.rs`: peer announcements and the default endpoint to dial.
  - `net.rs`: recognition of `a.b.c.d:port` addresses and private /24 networks.
  - `wireguard.rs`: WireGuard configuration text and the `--peer` notation.
  - `tunnel.rs`: the checks and UAPI messages for bringing up an interface.
  - `crypto.rs`: X25519 keys in base64 and a simulated boringtun handshake.
  - `config.rs`: default relays, participant keys, derived network IDs and
    node settings.
  - `signaling.rs`: signaling messages and the decisions of a signaling client.
  - `table.rs`, `order.rs`, `text.rs`: string-keyed association lists, the
    order of strings, and character-level helpers.
- `tests/` runs the library on concrete values.
- `app/` is the `nostr-vpn` command line: files, relays, the interface device
  and processes, serialization, and the async plumbing around the library.
