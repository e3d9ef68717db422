use nostr_vpn_core::control::{select_peer_endpoint, PeerAnnouncement};
use nostr_vpn_core::paths::{announcement_endpoints, candidate_rank, PeerPathBook, PeerPathSource, TrackedPeerPath};

fn announcement(endpoint: &str, local: Option<&str>, public: Option<&str>) -> PeerAnnouncement {
    PeerAnnouncement {
        node_id: "node".to_string(),
        public_key: "key".to_string(),
        endpoint: endpoint.to_string(),
        local_endpoint: local.map(|s| s.to_string()),
        public_endpoint: public.map(|s| s.to_string()),
        tunnel_ip: "10.44.0.2/32".to_string(),
        timestamp: 1,
    }
}

const LEGACY: &str = "198.51.100.7:51820";
const LOCAL: &str = "192.168.1.5:51820";
const PUBLIC: &str = "203.0.113.9:51820";
const OWN: &str = "192.168.1.9:51820";

#[test]
fn default_endpoint_prefers_shared_local_then_public_then_legacy() {
    let a = announcement(LEGACY, Some(LOCAL), Some(PUBLIC));
    assert_eq!(select_peer_endpoint(&a, Some(OWN)), LOCAL);
    assert_eq!(select_peer_endpoint(&a, None), PUBLIC);
    assert_eq!(select_peer_endpoint(&a, Some("10.0.0.1:1")), PUBLIC);
    let b = announcement(LEGACY, Some(LOCAL), Some("  "));
    assert_eq!(select_peer_endpoint(&b, None), LEGACY);
}

#[test]
fn announcement_endpoints_skip_blank_and_repeated() {
    let a = announcement(LEGACY, Some(LOCAL), Some(PUBLIC));
    let eps = announcement_endpoints(&a);
    assert_eq!(
        eps,
        vec![
            (LOCAL.to_string(), PeerPathSource::Local),
            (PUBLIC.to_string(), PeerPathSource::Public),
            (LEGACY.to_string(), PeerPathSource::Legacy),
        ]
    );
    let b = announcement(LOCAL, Some(LOCAL), Some(""));
    assert_eq!(announcement_endpoints(&b), vec![(LOCAL.to_string(), PeerPathSource::Local)]);
    let c = announcement(" ", None, None);
    assert!(announcement_endpoints(&c).is_empty());
}

#[test]
fn empty_book_selects_default_endpoint() {
    let book = PeerPathBook::new();
    let a = announcement(LEGACY, Some(LOCAL), Some(PUBLIC));
    assert_eq!(book.select_endpoint("alice", &a, None, 0, 10), Some(PUBLIC.to_string()));
    assert_eq!(book.select_endpoint("alice", &a, Some(OWN), 0, 10), Some(LOCAL.to_string()));
}

#[test]
fn refresh_reports_only_changes_to_tracked_endpoints() {
    let mut book = PeerPathBook::default();
    let a = announcement(LEGACY, Some(LOCAL), Some(PUBLIC));
    assert!(!book.refresh_from_announcement("alice", &a, 10));
    assert!(!book.refresh_from_announcement("alice", &a, 10));
    assert!(!book.refresh_from_announcement("alice", &a, 5));
    assert!(book.refresh_from_announcement("alice", &a, 20));
}

#[test]
fn refresh_merges_sources_upward() {
    let mut book = PeerPathBook::new();
    // First seen as the legacy endpoint, later announced as the local one: the
    // source stays legacy (the greater of the two), so nothing changes.
    assert!(!book.refresh_from_announcement("alice", &announcement(LOCAL, None, None), 10));
    assert!(!book.refresh_from_announcement("alice", &announcement(" ", Some(LOCAL), None), 10));
    // Seen as local first, then as legacy: the source rises.
    assert!(!book.refresh_from_announcement("bob", &announcement(" ", Some(LOCAL), None), 10));
    assert!(book.refresh_from_announcement("bob", &announcement(LOCAL, None, None), 10));
}

#[test]
fn tracked_paths_are_ranked() {
    let mut book = PeerPathBook::new();
    let a = announcement(LEGACY, Some(LOCAL), Some(PUBLIC));
    book.refresh_from_announcement("alice", &a, 10);
    assert_eq!(book.select_endpoint("alice", &a, None, 10, 10), Some(PUBLIC.to_string()));
    assert_eq!(book.select_endpoint("alice", &a, Some(OWN), 10, 10), Some(LOCAL.to_string()));
    // A success outranks every source.
    assert!(book.note_success("alice", LEGACY, 30));
    assert_eq!(book.select_endpoint("alice", &a, Some(OWN), 30, 10), Some(LEGACY.to_string()));
}

#[test]
fn success_is_recorded_only_when_later() {
    let mut book = PeerPathBook::new();
    assert!(book.note_success("alice", LEGACY, 30));
    assert!(!book.note_success("alice", LEGACY, 30));
    assert!(!book.note_success("alice", LEGACY, 25));
    assert!(book.note_success("alice", LEGACY, 31));
    assert!(!book.note_success("bob", LEGACY, 0));
}

#[test]
fn selection_reports_changes() {
    let mut book = PeerPathBook::new();
    assert!(book.note_selected("alice", PUBLIC, 40));
    assert!(!book.note_selected("alice", PUBLIC, 40));
    assert!(book.note_selected("alice", PUBLIC, 41));
    assert!(book.note_selected("alice", LEGACY, 41));
}

#[test]
fn current_endpoint_is_kept_until_retry_window_passes() {
    let mut book = PeerPathBook::new();
    let a = announcement(LEGACY, Some(LOCAL), Some(PUBLIC));
    book.refresh_from_announcement("alice", &a, 10);
    assert!(book.note_success("alice", LEGACY, 30));
    assert!(book.note_selected("alice", PUBLIC, 40));
    assert_eq!(book.select_endpoint("alice", &a, None, 45, 10), Some(PUBLIC.to_string()));
    assert_eq!(book.select_endpoint("alice", &a, None, 50, 10), Some(LEGACY.to_string()));
    assert_eq!(book.select_endpoint("alice", &a, None, 3, 10), Some(PUBLIC.to_string()));
}

#[test]
fn working_current_endpoint_is_kept_unless_preferred_worked_later() {
    let mut book = PeerPathBook::new();
    let a = announcement(LEGACY, None, Some(PUBLIC));
    book.refresh_from_announcement("alice", &a, 10);
    assert!(book.note_selected("alice", LEGACY, 20));
    assert!(book.note_success("alice", LEGACY, 20));
    assert!(book.note_success("alice", PUBLIC, 20));
    // Both worked at 20: the current one stays, whatever the rank.
    assert_eq!(book.select_endpoint("alice", &a, None, 100, 0), Some(LEGACY.to_string()));
    assert!(book.note_success("alice", PUBLIC, 21));
    assert_eq!(book.select_endpoint("alice", &a, None, 100, 0), Some(PUBLIC.to_string()));
}

#[test]
fn prune_drops_stale_paths_and_empty_peers() {
    let mut book = PeerPathBook::new();
    let a = announcement(LEGACY, None, Some(PUBLIC));
    book.refresh_from_announcement("alice", &a, 10);
    assert!(book.note_selected("alice", LEGACY, 60));
    assert!(!book.prune_stale(100, 0));
    // Cutoff 50: the public path (last heard of at 10) goes, the legacy one stays.
    assert!(book.prune_stale(100, 50));
    assert!(!book.prune_stale(100, 50));
    assert_eq!(book.select_endpoint("alice", &a, None, 100, 0), Some(LEGACY.to_string()));
    // Cutoff 70: everything goes, and the default endpoint is back.
    assert!(book.prune_stale(100, 30));
    assert_eq!(book.select_endpoint("alice", &a, None, 100, 0), Some(PUBLIC.to_string()));
    assert!(!book.prune_stale(100, 30));
}

#[test]
fn prune_removes_peers_without_paths() {
    let mut book = PeerPathBook::new();
    book.refresh_from_announcement("alice", &announcement(" ", None, None), 10);
    assert!(book.prune_stale(5, 1));
    assert!(!book.prune_stale(5, 1));
    assert!(!book.prune_stale(5, u64::MAX));
}

#[test]
fn retain_forgets_other_participants() {
    let mut book = PeerPathBook::new();
    let a = announcement(LEGACY, None, Some(PUBLIC));
    book.note_success("alice", LEGACY, 5);
    book.note_success("bob", LEGACY, 5);
    book.retain_participants(&vec!["alice".to_string(), "carol".to_string()]);
    assert_eq!(book.select_endpoint("alice", &a, None, 10, 10), Some(LEGACY.to_string()));
    assert_eq!(book.select_endpoint("bob", &a, None, 10, 10), Some(PUBLIC.to_string()));
    book.retain_participants(&vec![]);
    assert_eq!(book.select_endpoint("alice", &a, None, 10, 10), Some(PUBLIC.to_string()));
}

#[test]
fn candidate_rank_orders_by_success_source_default_and_time() {
    let path = TrackedPeerPath {
        source: PeerPathSource::Local,
        announced_at: 7,
        last_selected_at: None,
        last_success_at: Some(3),
    };
    assert_eq!(candidate_rank(LOCAL, &path, Some(OWN), LOCAL), (3, 3, 1, 7));
    assert_eq!(candidate_rank(LOCAL, &path, None, PUBLIC), (3, 0, 0, 7));
    let observed = TrackedPeerPath { source: PeerPathSource::Observed, ..path };
    assert_eq!(candidate_rank(PUBLIC, &observed, Some(OWN), PUBLIC), (3, 2, 1, 7));
}

#[test]
fn freshness_is_latest_time() {
    let path = TrackedPeerPath {
        source: PeerPathSource::Public,
        announced_at: 7,
        last_selected_at: Some(9),
        last_success_at: Some(8),
    };
    assert_eq!(path.freshness_at(), 9);
    assert_eq!(TrackedPeerPath::new(PeerPathSource::Legacy, 4).freshness_at(), 4);
    assert_eq!(PeerPathSource::Local.merge(PeerPathSource::Observed), PeerPathSource::Observed);
    assert_eq!(PeerPathSource::Legacy.merge(PeerPathSource::Public), PeerPathSource::Legacy);
    assert_eq!(PeerPathSource::Legacy.rank(true), 3);
}

#[test]
fn retaining_twice_keeps_what_retaining_once_kept() {
    let mut book = PeerPathBook::new();
    let a = announcement(LEGACY, None, Some(PUBLIC));
    book.note_success("alice", LEGACY, 5);
    book.note_success("bob", LEGACY, 5);
    let keep = vec!["alice".to_string()];
    book.retain_participants(&keep);
    book.retain_participants(&keep);
    assert_eq!(book.select_endpoint("alice", &a, None, 10, 10), Some(LEGACY.to_string()));
    assert_eq!(book.select_endpoint("bob", &a, None, 10, 10), Some(PUBLIC.to_string()));
}

#[test]
fn selection_is_a_tracked_path_or_the_default() {
    let mut book = PeerPathBook::new();
    let a = announcement(LEGACY, Some(LOCAL), Some(PUBLIC));
    book.note_selected("alice", "192.0.2.1:1", 1);
    let chosen = book.select_endpoint("alice", &a, Some(OWN), 1, 100).expect("endpoint");
    assert_eq!(chosen, "192.0.2.1:1");
    book.refresh_from_announcement("alice", &a, 2);
    let chosen = book.select_endpoint("alice", &a, Some(OWN), 200, 100).expect("endpoint");
    assert_eq!(chosen, LOCAL);
}
