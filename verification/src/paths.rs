//! Which endpoint to dial for each peer: the endpoints a peer has announced or
//! been reached on, when each was last announced, selected and successfully
//! used, and the rule that picks among them.

use vstd::prelude::*;

use crate::control::{
    default_peer_endpoint, opt_str_view, select_peer_endpoint, usable, PeerAnnouncement,
};
use crate::net::{endpoints_share_private_ipv4_subnet, share_private_ipv4_subnet};
use crate::table::{
    entries_map, find_key, has_key, keys_distinct, lemma_map_absent, lemma_map_at,
    lemma_map_empty, lemma_map_push, lemma_map_update, name_listed, names_of, replace_value,
};
use crate::text::{is_blank, str_is_blank};

verus! {

/// Where an endpoint was learned from. Later variants win when two sources
/// report the same endpoint.
#[derive(Debug, Clone, Copy, PartialEq, Eq, Structural)]
pub enum PeerPathSource {
    Local,
    Public,
    Legacy,
    Observed,
}

impl PeerPathSource {
    /// Position in the order `Local < Public < Legacy < Observed`.
    pub open spec fn level(self) -> nat {
        match self {
            PeerPathSource::Local => 0,
            PeerPathSource::Public => 1,
            PeerPathSource::Legacy => 2,
            PeerPathSource::Observed => 3,
        }
    }

    /// The greater of two sources.
    pub open spec fn spec_merge(self, other: Self) -> Self {
        if other.level() >= self.level() {
            other
        } else {
            self
        }
    }

    /// How much a source is worth when ranking candidate endpoints: a local
    /// endpoint on our own private network is worth most, then public and
    /// observed endpoints, then the legacy endpoint, then other local endpoints.
    pub open spec fn spec_rank(self, same_subnet_local: bool) -> u8 {
        if same_subnet_local {
            3
        } else {
            match self {
                PeerPathSource::Public | PeerPathSource::Observed => 2,
                PeerPathSource::Legacy => 1,
                PeerPathSource::Local => 0,
            }
        }
    }

    pub fn merge(self, other: Self) -> (r: Self)
        ensures
            r == self.spec_merge(other),
    {
        if other.level_exec() >= self.level_exec() {
            other
        } else {
            self
        }
    }

    fn level_exec(self) -> (r: u8)
        ensures
            r == self.level(),
    {
        match self {
            PeerPathSource::Local => 0,
            PeerPathSource::Public => 1,
            PeerPathSource::Legacy => 2,
            PeerPathSource::Observed => 3,
        }
    }

    pub fn rank(self, same_subnet_local: bool) -> (r: u8)
        ensures
            r == self.spec_rank(same_subnet_local),
    {
        if same_subnet_local {
            return 3;
        }
        match self {
            PeerPathSource::Public | PeerPathSource::Observed => 2,
            PeerPathSource::Legacy => 1,
            PeerPathSource::Local => 0,
        }
    }
}

/// What is known of one endpoint of one peer.
#[derive(Debug, Clone, Copy, PartialEq, Eq, Structural)]
pub struct TrackedPeerPath {
    pub source: PeerPathSource,
    pub announced_at: u64,
    pub last_selected_at: Option<u64>,
    pub last_success_at: Option<u64>,
}

pub open spec fn or_zero(o: Option<u64>) -> u64 {
    match o {
        Some(v) => v,
        None => 0,
    }
}

pub open spec fn max_u64(a: u64, b: u64) -> u64 {
    if a >= b {
        a
    } else {
        b
    }
}

impl TrackedPeerPath {
    /// The latest of the announcement, selection and success times.
    pub open spec fn freshness(self) -> u64 {
        max_u64(max_u64(self.announced_at, or_zero(self.last_selected_at)), or_zero(self.last_success_at))
    }

    pub fn new(source: PeerPathSource, announced_at: u64) -> (r: Self)
        ensures
            r == fresh_path(source, announced_at),
    {
        TrackedPeerPath { source, announced_at, last_selected_at: None, last_success_at: None }
    }

    pub fn freshness_at(&self) -> (r: u64)
        ensures
            r == self.freshness(),
    {
        let selected = match self.last_selected_at {
            Some(v) => v,
            None => 0,
        };
        let success = match self.last_success_at {
            Some(v) => v,
            None => 0,
        };
        let m = if self.announced_at >= selected {
            self.announced_at
        } else {
            selected
        };
        if m >= success {
            m
        } else {
            success
        }
    }
}

/// A path first heard of at `at` from `source`.
pub open spec fn fresh_path(source: PeerPathSource, at: u64) -> TrackedPeerPath {
    TrackedPeerPath { source, announced_at: at, last_selected_at: None, last_success_at: None }
}

pub open spec fn with_selected(t: TrackedPeerPath, at: u64) -> TrackedPeerPath {
    TrackedPeerPath {
        source: t.source,
        announced_at: t.announced_at,
        last_selected_at: Some(at),
        last_success_at: t.last_success_at,
    }
}

pub open spec fn with_success(t: TrackedPeerPath, at: u64) -> TrackedPeerPath {
    TrackedPeerPath {
        source: t.source,
        announced_at: t.announced_at,
        last_selected_at: t.last_selected_at,
        last_success_at: Some(at),
    }
}

/// What the book knows of one peer: the endpoint in use, if any, and every tracked endpoint.
pub struct PeerPathView {
    pub current_endpoint: Option<Seq<char>>,
    pub endpoints: Map<Seq<char>, TrackedPeerPath>,
}

pub open spec fn empty_peer() -> PeerPathView {
    PeerPathView { current_endpoint: None, endpoints: Map::empty() }
}

/// What the book knows of participant `p`, or nothing when `p` is new to it.
pub open spec fn peer_or_default(book: Map<Seq<char>, PeerPathView>, p: Seq<char>) -> PeerPathView {
    if book.contains_key(p) {
        book[p]
    } else {
        empty_peer()
    }
}

/// The tracked path for `e`, or `fallback` when `e` is not tracked yet.
pub open spec fn path_or(
    m: Map<Seq<char>, TrackedPeerPath>,
    e: Seq<char>,
    fallback: TrackedPeerPath,
) -> TrackedPeerPath {
    if m.contains_key(e) {
        m[e]
    } else {
        fallback
    }
}

/// The peer after `e` was selected at `at`: `e` is tracked (as observed, if
/// it was not), it is the current endpoint, and its selection time is `at`.
pub open spec fn after_selected(st: PeerPathView, e: Seq<char>, at: u64) -> PeerPathView {
    let base = path_or(st.endpoints, e, fresh_path(PeerPathSource::Observed, at));
    PeerPathView { current_endpoint: Some(e), endpoints: st.endpoints.insert(e, with_selected(base, at)) }
}

/// A selection changes something unless `e` was already current and selected at `at`.
pub open spec fn selection_changes(st: PeerPathView, e: Seq<char>, at: u64) -> bool {
    let base = path_or(st.endpoints, e, fresh_path(PeerPathSource::Observed, at));
    base.last_selected_at != Some(at) || st.current_endpoint != Some(e)
}

/// A success at `at` is recorded when it is later than the last recorded one
/// (an endpoint never reached counts as reached at time 0).
pub open spec fn success_recorded(st: PeerPathView, e: Seq<char>, at: u64) -> bool {
    let base = path_or(st.endpoints, e, fresh_path(PeerPathSource::Observed, at));
    or_zero(base.last_success_at) < at
}

/// The peer after a success on `e` at `at`: `e` is tracked (as observed, if it
/// was not), and its success time is `at` when that is a later success.
pub open spec fn after_success(st: PeerPathView, e: Seq<char>, at: u64) -> PeerPathView {
    let base = path_or(st.endpoints, e, fresh_path(PeerPathSource::Observed, at));
    PeerPathView {
        current_endpoint: st.current_endpoint,
        endpoints: st.endpoints.insert(
            e,
            if success_recorded(st, e, at) {
                with_success(base, at)
            } else {
                base
            },
        ),
    }
}

/// An announced endpoint seen at `seen_at` merges into what is tracked: the
/// source is the greater of both and the announcement time the later of
/// both; an endpoint not tracked yet starts from this announcement.
pub open spec fn refreshed_path(
    old: Option<TrackedPeerPath>,
    source: PeerPathSource,
    seen_at: u64,
) -> TrackedPeerPath {
    match old {
        Some(t) => TrackedPeerPath {
            source: t.source.spec_merge(source),
            announced_at: max_u64(t.announced_at, seen_at),
            last_selected_at: t.last_selected_at,
            last_success_at: t.last_success_at,
        },
        None => fresh_path(source, seen_at),
    }
}

/// Whether merging an announced endpoint alters an already tracked one.
pub open spec fn refresh_alters(
    old: Option<TrackedPeerPath>,
    source: PeerPathSource,
    seen_at: u64,
) -> bool {
    match old {
        Some(t) => t.source.spec_merge(source) != t.source || t.announced_at < seen_at,
        None => false,
    }
}

/// The tracked endpoints after merging the announced endpoints `eps`, in order.
pub open spec fn apply_refresh(
    m: Map<Seq<char>, TrackedPeerPath>,
    eps: Seq<(Seq<char>, PeerPathSource)>,
    seen_at: u64,
) -> Map<Seq<char>, TrackedPeerPath>
    decreases eps.len(),
{
    if eps.len() == 0 {
        m
    } else {
        let prev = apply_refresh(m, eps.drop_last(), seen_at);
        let (e, s) = eps.last();
        prev.insert(e, refreshed_path(prev.get(e), s, seen_at))
    }
}

/// Whether merging the announced endpoints `eps` alters an already tracked endpoint.
pub open spec fn refresh_changed(
    m: Map<Seq<char>, TrackedPeerPath>,
    eps: Seq<(Seq<char>, PeerPathSource)>,
    seen_at: u64,
) -> bool
    decreases eps.len(),
{
    if eps.len() == 0 {
        false
    } else {
        let prev = apply_refresh(m, eps.drop_last(), seen_at);
        let (e, s) = eps.last();
        refresh_changed(m, eps.drop_last(), seen_at) || refresh_alters(prev.get(e), s, seen_at)
    }
}

pub open spec fn listed(s: Seq<(Seq<char>, PeerPathSource)>, e: Seq<char>) -> bool {
    exists|i: int| 0 <= i < s.len() && (#[trigger] s[i]).0 == e
}

/// The endpoints an announcement offers, each once: the local endpoint, the
/// public endpoint and the legacy endpoint, in that order, skipping blank
/// ones and ones already listed.
pub open spec fn announced_endpoints(a: PeerAnnouncement) -> Seq<(Seq<char>, PeerPathSource)> {
    let with_local = if usable(a.local_endpoint) {
        seq![(a.local_endpoint->0@, PeerPathSource::Local)]
    } else {
        Seq::empty()
    };
    let with_public = if usable(a.public_endpoint) && !listed(with_local, a.public_endpoint->0@) {
        with_local.push((a.public_endpoint->0@, PeerPathSource::Public))
    } else {
        with_local
    };
    if !is_blank(a.endpoint@) && !listed(with_public, a.endpoint@) {
        with_public.push((a.endpoint@, PeerPathSource::Legacy))
    } else {
        with_public
    }
}

pub open spec fn endpoint_pair_view(p: (String, PeerPathSource)) -> (Seq<char>, PeerPathSource) {
    (p.0@, p.1)
}

/// The tracked paths still fresh after `cutoff`: the latest of their times is later than it.
pub open spec fn fresh_paths(m: Map<Seq<char>, TrackedPeerPath>, cutoff: u64) -> Map<
    Seq<char>,
    TrackedPeerPath,
> {
    Map::new(|k: Seq<char>| m.contains_key(k) && m[k].freshness() > cutoff, |k: Seq<char>| m[k])
}

/// A peer with its stale paths dropped, and no current endpoint when that one was dropped.
pub open spec fn pruned_peer(st: PeerPathView, cutoff: u64) -> PeerPathView {
    let eps = fresh_paths(st.endpoints, cutoff);
    PeerPathView {
        current_endpoint: match st.current_endpoint {
            Some(c) => if eps.contains_key(c) {
                Some(c)
            } else {
                None
            },
            None => None,
        },
        endpoints: eps,
    }
}

/// A peer stays in the book while one of its paths is fresh.
pub open spec fn peer_survives(st: PeerPathView, cutoff: u64) -> bool {
    exists|k: Seq<char>| #[trigger] fresh_paths(st.endpoints, cutoff).contains_key(k)
}

/// Pruning changes a peer when it drops a path, drops the current endpoint,
/// or drops the peer.
pub open spec fn prune_alters(st: PeerPathView, cutoff: u64) -> bool {
    ||| (exists|k: Seq<char>| #[trigger] st.endpoints.contains_key(k) && st.endpoints[k].freshness() <= cutoff)
    ||| (st.current_endpoint matches Some(c) && !fresh_paths(st.endpoints, cutoff).contains_key(c))
    ||| !peer_survives(st, cutoff)
}

/// The book after pruning at `cutoff`.
pub open spec fn pruned_book(b: Map<Seq<char>, PeerPathView>, cutoff: u64) -> Map<
    Seq<char>,
    PeerPathView,
> {
    Map::new(
        |p: Seq<char>| b.contains_key(p) && peer_survives(b[p], cutoff),
        |p: Seq<char>| pruned_peer(b[p], cutoff),
    )
}

/// `a - b`, or 0 when that would be negative.
pub open spec fn saturating_diff(a: u64, b: u64) -> u64 {
    if a >= b {
        (a - b) as u64
    } else {
        0
    }
}

/// Paths last heard of at or before `now - stale_after_secs` (at or before 0
/// when that would be negative) are stale.
pub open spec fn prune_cutoff(now: u64, stale_after_secs: u64) -> u64 {
    saturating_diff(now, stale_after_secs)
}

/// How a candidate endpoint ranks, compared lexicographically: last success
/// time, source rank, whether it is the default endpoint, announcement time.
pub open spec fn rank_of(
    e: Seq<char>,
    t: TrackedPeerPath,
    own_local: Option<Seq<char>>,
    default_endpoint: Seq<char>,
) -> (u64, u8, u8, u64) {
    let same_subnet_local = t.source == PeerPathSource::Local && (own_local matches Some(o)
        && share_private_ipv4_subnet(e, o));
    (
        or_zero(t.last_success_at),
        t.source.spec_rank(same_subnet_local),
        if e == default_endpoint {
            1u8
        } else {
            0u8
        },
        t.announced_at,
    )
}

/// Lexicographic order on ranks.
pub open spec fn rank_le(a: (u64, u8, u8, u64), b: (u64, u8, u8, u64)) -> bool {
    ||| a.0 < b.0
    ||| (a.0 == b.0 && a.1 < b.1)
    ||| (a.0 == b.0 && a.1 == b.1 && a.2 < b.2)
    ||| (a.0 == b.0 && a.1 == b.1 && a.2 == b.2 && a.3 <= b.3)
}

/// `e` is a tracked path of greatest rank.
pub open spec fn is_preferred(
    m: Map<Seq<char>, TrackedPeerPath>,
    e: Seq<char>,
    own_local: Option<Seq<char>>,
    default_endpoint: Seq<char>,
) -> bool {
    &&& m.contains_key(e)
    &&& forall|k: Seq<char>| #[trigger]
        m.contains_key(k) ==> rank_le(
            rank_of(k, m[k], own_local, default_endpoint),
            rank_of(e, m[e], own_local, default_endpoint),
        )
}

/// Between the endpoint in use and the preferred one: a current endpoint
/// that has worked is kept unless the preferred one worked later; one that
/// never worked is kept until `retry_after_secs` have passed since it was selected.
pub open spec fn keep_or_rotate(
    m: Map<Seq<char>, TrackedPeerPath>,
    current: Seq<char>,
    preferred: Seq<char>,
    now: u64,
    retry_after_secs: u64,
) -> Seq<char> {
    if current == preferred {
        preferred
    } else {
        match m[current].last_success_at {
            Some(success_at) => if or_zero(m[preferred].last_success_at) > success_at {
                preferred
            } else {
                current
            },
            None => match m[current].last_selected_at {
                Some(selected_at) => if saturating_diff(now, selected_at) >= retry_after_secs {
                    preferred
                } else {
                    current
                },
                None => preferred,
            },
        }
    }
}

/// The endpoint chosen for a peer with tracked paths, given the preferred one.
pub open spec fn selection_from(
    st: PeerPathView,
    preferred: Seq<char>,
    now: u64,
    retry_after_secs: u64,
) -> Seq<char> {
    match st.current_endpoint {
        Some(c) => if st.endpoints.contains_key(c) {
            keep_or_rotate(st.endpoints, c, preferred, now, retry_after_secs)
        } else {
            preferred
        },
        None => preferred,
    }
}

pub open spec fn has_paths(st: PeerPathView) -> bool {
    exists|k: Seq<char>| #[trigger] st.endpoints.contains_key(k)
}

/// The endpoints `select_endpoint` may answer: the default endpoint for a
/// peer without tracked paths; else what `selection_from` gives for a
/// preferred path (which one, among paths of equal rank, is left open).
pub open spec fn acceptable_selection(
    book: Map<Seq<char>, PeerPathView>,
    participant: Seq<char>,
    announcement: PeerAnnouncement,
    own_local: Option<Seq<char>>,
    now: u64,
    retry_after_secs: u64,
    r: Seq<char>,
) -> bool {
    let default_endpoint = default_peer_endpoint(announcement, own_local);
    if !book.contains_key(participant) || !has_paths(book[participant]) {
        r == default_endpoint
    } else {
        exists|preferred: Seq<char>|
            #[trigger] is_preferred(book[participant].endpoints, preferred, own_local, default_endpoint)
                && r == selection_from(book[participant], preferred, now, retry_after_secs)
    }
}

/// The per-peer record behind `PeerPathBook`.
pub struct PeerPathState {
    current_endpoint: Option<String>,
    endpoints: Vec<(String, TrackedPeerPath)>,
}

pub open spec fn opt_string_view(o: Option<String>) -> Option<Seq<char>> {
    match o {
        Some(s) => Some(s@),
        None => None,
    }
}

impl View for PeerPathState {
    type V = PeerPathView;

    closed spec fn view(&self) -> PeerPathView {
        PeerPathView {
            current_endpoint: opt_string_view(self.current_endpoint),
            endpoints: entries_map(self.endpoints@),
        }
    }
}

impl PeerPathState {
    /// Endpoint keys are distinct and the current endpoint, if any, is tracked.
    pub closed spec fn wf(&self) -> bool {
        &&& keys_distinct(self.endpoints@)
        &&& (self.current_endpoint matches Some(c) ==> has_key(self.endpoints@, c@))
    }

    proof fn lemma_wf_view(&self)
        requires
            self.wf(),
        ensures
            self@.current_endpoint matches Some(c) ==> self@.endpoints.contains_key(c),
    {
    }

    fn new() -> (r: Self)
        ensures
            r.wf(),
            r@ == empty_peer(),
    {
        let r = PeerPathState { current_endpoint: None, endpoints: Vec::new() };
        proof {
            lemma_map_empty(r.endpoints@);
        }
        r
    }

    /// The position of endpoint `e`, which is added as `fallback` when it is not tracked yet.
    fn path_index(&mut self, e: &String, fallback: TrackedPeerPath) -> (i: usize)
        requires
            old(self).wf(),
        ensures
            final(self).wf(),
            i < final(self).endpoints@.len(),
            final(self).endpoints@[i as int].0@ == e@,
            final(self).current_endpoint == old(self).current_endpoint,
            final(self)@.endpoints == old(self)@.endpoints.insert(
                e@,
                path_or(old(self)@.endpoints, e@, fallback),
            ),
    {
        match find_key(&self.endpoints, e) {
            Some(i) => {
                proof {
                    assert(self@.endpoints.insert(e@, self@.endpoints[e@]) =~= self@.endpoints);
                }
                i
            },
            None => {
                let key = e.clone();
                proof {
                    if has_key(self.endpoints@, e@) {
                        assert(entries_map(self.endpoints@).contains_key(e@));
                    }
                    lemma_map_push(self.endpoints@, key, fallback);
                }
                let ghost before = self.endpoints@;
                self.endpoints.push((key, fallback));
                proof {
                    assert(self.endpoints@ == before.push((key, fallback)));
                    assert(self.endpoints@[self.endpoints@.len() - 1].0@ == e@);
                    if let Some(c) = &self.current_endpoint {
                        let j = choose|j: int|
                            0 <= j < before.len() && (#[trigger] before[j]).0@ == c@;
                        assert(self.endpoints@[j] == before[j]);
                    }
                }
                self.endpoints.len() - 1
            },
        }
    }

    /// Stores `t` for the endpoint at position `i`.
    fn set_path(&mut self, i: usize, t: TrackedPeerPath)
        requires
            old(self).wf(),
            i < old(self).endpoints@.len(),
        ensures
            final(self).wf(),
            final(self).current_endpoint == old(self).current_endpoint,
            final(self).endpoints@.len() == old(self).endpoints@.len(),
            final(self).endpoints@[i as int].0 == old(self).endpoints@[i as int].0,
            final(self)@.endpoints == old(self)@.endpoints.insert(old(self).endpoints@[i as int].0@, t),
    {
        let ghost before = self.endpoints@;
        proof {
            lemma_map_update(before, i as int, t);
        }
        let _ = replace_value(&mut self.endpoints, i, t);
        proof {
            if let Some(c) = &self.current_endpoint {
                let j = choose|j: int| 0 <= j < before.len() && (#[trigger] before[j]).0@ == c@;
                assert(self.endpoints@[j].0 == before[j].0);
            }
        }
    }

    fn note_selected(&mut self, endpoint: &String, selected_at: u64) -> (changed: bool)
        requires
            old(self).wf(),
        ensures
            final(self).wf(),
            final(self)@ == after_selected(old(self)@, endpoint@, selected_at),
            changed == selection_changes(old(self)@, endpoint@, selected_at),
    {
        let i = self.path_index(endpoint, TrackedPeerPath::new(PeerPathSource::Observed, selected_at));
        let mut t = self.endpoints[i].1;
        proof {
            lemma_map_at(self.endpoints@, i as int);
            assert(t == path_or(old(self)@.endpoints, endpoint@, fresh_path(PeerPathSource::Observed, selected_at)));
        }
        let mut changed = false;
        let already = match t.last_selected_at {
            Some(v) => v == selected_at,
            None => false,
        };
        if !already {
            changed = true;
        }
        t.last_selected_at = Some(selected_at);
        self.set_path(i, t);
        let is_current = match &self.current_endpoint {
            Some(c) => *c == *endpoint,
            None => false,
        };
        if !is_current {
            self.current_endpoint = Some(endpoint.clone());
            changed = true;
        }
        proof {
            assert(self.endpoints@[i as int].0@ == endpoint@);
            assert(self@.endpoints =~= after_selected(old(self)@, endpoint@, selected_at).endpoints);
        }
        changed
    }

    fn note_success(&mut self, endpoint: &String, success_at: u64) -> (recorded: bool)
        requires
            old(self).wf(),
        ensures
            final(self).wf(),
            final(self)@ == after_success(old(self)@, endpoint@, success_at),
            recorded == success_recorded(old(self)@, endpoint@, success_at),
    {
        let i = self.path_index(endpoint, TrackedPeerPath::new(PeerPathSource::Observed, success_at));
        let mut t = self.endpoints[i].1;
        proof {
            lemma_map_at(self.endpoints@, i as int);
            assert(t == path_or(old(self)@.endpoints, endpoint@, fresh_path(PeerPathSource::Observed, success_at)));
        }
        let last = match t.last_success_at {
            Some(v) => v,
            None => 0,
        };
        if last >= success_at {
            proof {
                assert(self@.endpoints =~= after_success(old(self)@, endpoint@, success_at).endpoints);
            }
            return false;
        }
        t.last_success_at = Some(success_at);
        self.set_path(i, t);
        proof {
            assert(self@.endpoints =~= after_success(old(self)@, endpoint@, success_at).endpoints);
        }
        true
    }

    fn refresh(&mut self, eps: &Vec<(String, PeerPathSource)>, seen_at: u64) -> (changed: bool)
        requires
            old(self).wf(),
        ensures
            final(self).wf(),
            final(self)@.current_endpoint == old(self)@.current_endpoint,
            final(self)@.endpoints == apply_refresh(
                old(self)@.endpoints,
                eps@.map_values(|p: (String, PeerPathSource)| endpoint_pair_view(p)),
                seen_at,
            ),
            changed == refresh_changed(
                old(self)@.endpoints,
                eps@.map_values(|p: (String, PeerPathSource)| endpoint_pair_view(p)),
                seen_at,
            ),
    {
        let ghost ev = eps@.map_values(|p: (String, PeerPathSource)| endpoint_pair_view(p));
        let ghost m0 = self@.endpoints;
        let mut changed = false;
        let mut k: usize = 0;
        proof {
            assert(ev.take(0) =~= Seq::<(Seq<char>, PeerPathSource)>::empty());
        }
        while k < eps.len()
            invariant
                self.wf(),
                k <= eps@.len(),
                ev == eps@.map_values(|p: (String, PeerPathSource)| endpoint_pair_view(p)),
                self@.current_endpoint == old(self)@.current_endpoint,
                m0 == old(self)@.endpoints,
                self@.endpoints == apply_refresh(m0, ev.take(k as int), seen_at),
                changed == refresh_changed(m0, ev.take(k as int), seen_at),
            decreases eps.len() - k,
        {
            let ghost prev = self@.endpoints;
            let e = &eps[k].0;
            let source = eps[k].1;
            let i = self.path_index(e, TrackedPeerPath::new(source, seen_at));
            let mut t = self.endpoints[i].1;
            proof {
                lemma_map_at(self.endpoints@, i as int);
            }
            let merged = t.source.merge(source);
            if t.source != merged {
                t.source = merged;
                changed = true;
            }
            if t.announced_at < seen_at {
                t.announced_at = seen_at;
                changed = true;
            }
            self.set_path(i, t);
            proof {
                assert(ev[k as int] == (e@, source));
                assert(ev.take(k + 1).drop_last() =~= ev.take(k as int));
                assert(ev.take(k + 1).last() == (e@, source));
                assert(self@.endpoints =~= prev.insert(e@, refreshed_path(prev.get(e@), source, seen_at)));
            }
            k = k + 1;
        }
        proof {
            assert(ev.take(eps@.len() as int) =~= ev);
        }
        changed
    }
    /// The record with stale paths dropped, whether that changed anything,
    /// and whether any path is left.
    fn pruned(&self, cutoff: u64) -> (r: (PeerPathState, bool, bool))
        requires
            self.wf(),
        ensures
            r.0.wf(),
            r.0@ == pruned_peer(self@, cutoff),
            r.1 == prune_alters(self@, cutoff),
            r.2 == peer_survives(self@, cutoff),
    {
        let ghost m = self@.endpoints;
        let mut kept: Vec<(String, TrackedPeerPath)> = Vec::new();
        let mut dropped = false;
        let mut i: usize = 0;
        proof {
            lemma_map_empty(kept@);
        }
        while i < self.endpoints.len()
            invariant
                self.wf(),
                m == self@.endpoints,
                i <= self.endpoints@.len(),
                keys_distinct(kept@),
                forall|k: Seq<char>|
                    #[trigger] entries_map(kept@).contains_key(k) <==> (exists|j: int|
                        0 <= j < i && (#[trigger] self.endpoints@[j]).0@ == k
                            && self.endpoints@[j].1.freshness() > cutoff),
                forall|k: Seq<char>| #[trigger]
                    entries_map(kept@).contains_key(k) ==> entries_map(kept@)[k] == m[k],
                dropped <==> exists|j: int|
                    0 <= j < i && (#[trigger] self.endpoints@[j]).1.freshness() <= cutoff,
            decreases self.endpoints.len() - i,
        {
            let t = self.endpoints[i].1;
            proof {
                lemma_map_at(self.endpoints@, i as int);
            }
            let ghost before = kept@;
            if t.freshness_at() > cutoff {
                let k = self.endpoints[i].0.clone();
                proof {
                    if has_key(before, k@) {
                        assert(entries_map(before).contains_key(k@));
                        let j = choose|j: int|
                            0 <= j < i && (#[trigger] self.endpoints@[j]).0@ == k@
                                && self.endpoints@[j].1.freshness() > cutoff;
                        assert(self.endpoints@[j].0@ == self.endpoints@[i as int].0@);
                    }
                    lemma_map_push(before, k, t);
                }
                kept.push((k, t));
                proof {
                    assert(kept@ == before.push((k, t)));
                }
            } else {
                dropped = true;
            }
            proof {
                assert forall|key: Seq<char>|
                    #[trigger] entries_map(kept@).contains_key(key) <==> (exists|j: int|
                        0 <= j < i + 1 && (#[trigger] self.endpoints@[j]).0@ == key
                            && self.endpoints@[j].1.freshness() > cutoff) by {
                    if t.freshness() > cutoff && key == self.endpoints@[i as int].0@ {
                        assert(self.endpoints@[i as int].0@ == key);
                    }
                    if exists|j: int|
                        0 <= j < i + 1 && (#[trigger] self.endpoints@[j]).0@ == key
                            && self.endpoints@[j].1.freshness() > cutoff {
                        let j = choose|j: int|
                            0 <= j < i + 1 && (#[trigger] self.endpoints@[j]).0@ == key
                                && self.endpoints@[j].1.freshness() > cutoff;
                        if j < i {
                            assert(entries_map(before).contains_key(key));
                        }
                    }
                }
                if t.freshness() <= cutoff {
                    assert(self.endpoints@[i as int].1.freshness() <= cutoff);
                }
            }
            i = i + 1;
        }
        let ghost fresh = fresh_paths(m, cutoff);
        proof {
            assert forall|k: Seq<char>| #[trigger]
                entries_map(kept@).contains_key(k) == fresh.contains_key(k) by {
                if fresh.contains_key(k) {
                    let j = choose|j: int|
                        0 <= j < self.endpoints@.len() && (#[trigger] self.endpoints@[j]).0@ == k;
                    lemma_map_at(self.endpoints@, j);
                }
                if entries_map(kept@).contains_key(k) {
                    let j = choose|j: int|
                        0 <= j < self.endpoints@.len() && (#[trigger] self.endpoints@[j]).0@ == k
                            && self.endpoints@[j].1.freshness() > cutoff;
                    lemma_map_at(self.endpoints@, j);
                }
            }
            assert(entries_map(kept@) =~= fresh);
            if exists|k: Seq<char>| #[trigger] m.contains_key(k) && m[k].freshness() <= cutoff {
                let k = choose|k: Seq<char>| #[trigger] m.contains_key(k) && m[k].freshness() <= cutoff;
                let j = choose|j: int|
                    0 <= j < self.endpoints@.len() && (#[trigger] self.endpoints@[j]).0@ == k;
                lemma_map_at(self.endpoints@, j);
            }
            if dropped {
                let j = choose|j: int|
                    0 <= j < self.endpoints@.len() && (#[trigger] self.endpoints@[j]).1.freshness()
                        <= cutoff;
                lemma_map_at(self.endpoints@, j);
                assert(m.contains_key(self.endpoints@[j].0@));
            }
        }
        let mut changed = dropped;
        let current = match &self.current_endpoint {
            Some(c) => match find_key(&kept, c) {
                Some(_) => Some(c.clone()),
                None => {
                    changed = true;
                    None
                },
            },
            None => None,
        };
        let survives = kept.len() > 0;
        proof {
            if survives {
                lemma_map_at(kept@, 0);
                assert(fresh.contains_key(kept@[0].0@));
            } else {
                lemma_map_empty(kept@);
                if peer_survives(self@, cutoff) {
                    let k = choose|k: Seq<char>| #[trigger] fresh.contains_key(k);
                    assert(entries_map(kept@).contains_key(k));
                }
            }
            if let Some(c) = &current {
                assert(entries_map(kept@).contains_key(c@));
            }
        }
        if !survives {
            changed = true;
        }
        let st = PeerPathState { current_endpoint: current, endpoints: kept };
        proof {
            assert(st@.endpoints =~= pruned_peer(self@, cutoff).endpoints);
        }
        (st, changed, survives)
    }

    /// The endpoint to use for a peer with tracked paths: a path of greatest
    /// rank, unless the current endpoint is kept (see `keep_or_rotate`).
    fn select(&self, own_local_endpoint: Option<&str>, default_endpoint: &String, now: u64, retry_after_secs: u64) -> (r: String)
        requires
            self.wf(),
            self.endpoints@.len() > 0,
        ensures
            exists|preferred: Seq<char>|
                #[trigger] is_preferred(self@.endpoints, preferred, opt_str_view(own_local_endpoint), default_endpoint@)
                    && r@ == selection_from(self@, preferred, now, retry_after_secs),
    {
        let ghost own = opt_str_view(own_local_endpoint);
        let ghost m = self@.endpoints;
        let mut best: usize = 0;
        let mut best_rank = candidate_rank(self.endpoints[0].0.as_str(), &self.endpoints[0].1, own_local_endpoint, default_endpoint.as_str());
        let mut i: usize = 1;
        while i < self.endpoints.len()
            invariant
                self.wf(),
                own == opt_str_view(own_local_endpoint),
                0 <= best < i <= self.endpoints@.len(),
                best_rank == rank_of(self.endpoints@[best as int].0@, self.endpoints@[best as int].1, own, default_endpoint@),
                forall|j: int| 0 <= j < i ==> rank_le(
                    rank_of((#[trigger] self.endpoints@[j]).0@, self.endpoints@[j].1, own, default_endpoint@),
                    best_rank,
                ),
            decreases self.endpoints.len() - i,
        {
            let r = candidate_rank(self.endpoints[i].0.as_str(), &self.endpoints[i].1, own_local_endpoint, default_endpoint.as_str());
            if rank_at_most(best_rank, r) {
                best = i;
                best_rank = r;
            }
            i = i + 1;
        }
        let preferred = &self.endpoints[best].0;
        let pref_path = self.endpoints[best].1;
        proof {
            lemma_map_at(self.endpoints@, best as int);
            assert forall|k: Seq<char>| #[trigger] m.contains_key(k) implies rank_le(
                rank_of(k, m[k], own, default_endpoint@),
                rank_of(preferred@, m[preferred@], own, default_endpoint@),
            ) by {
                let j = choose|j: int| 0 <= j < self.endpoints@.len() && (#[trigger] self.endpoints@[j]).0@ == k;
                lemma_map_at(self.endpoints@, j);
            }
            assert(is_preferred(m, preferred@, own, default_endpoint@));
        }
        let current = match &self.current_endpoint {
            Some(c) => c,
            None => return preferred.clone(),
        };
        let ci = match find_key(&self.endpoints, current) {
            Some(ci) => ci,
            None => return preferred.clone(),
        };
        if *current == *preferred {
            return preferred.clone();
        }
        let cur = self.endpoints[ci].1;
        match cur.last_success_at {
            Some(success_at) => {
                let pref_success = match pref_path.last_success_at {
                    Some(v) => v,
                    None => 0,
                };
                if pref_success > success_at {
                    preferred.clone()
                } else {
                    current.clone()
                }
            },
            None => {
                let can_rotate = match cur.last_selected_at {
                    Some(selected_at) => now.saturating_sub(selected_at) >= retry_after_secs,
                    None => true,
                };
                if can_rotate {
                    preferred.clone()
                } else {
                    current.clone()
                }
            },
        }
    }

}

/// Endpoint bookkeeping for every peer, keyed by participant.
pub struct PeerPathBook {
    peers: Vec<(String, PeerPathState)>,
}

pub open spec fn state_view(st: PeerPathState) -> PeerPathView {
    st@
}

impl View for PeerPathBook {
    type V = Map<Seq<char>, PeerPathView>;

    closed spec fn view(&self) -> Map<Seq<char>, PeerPathView> {
        entries_map(self.peers@).map_values(|st: PeerPathState| state_view(st))
    }
}

impl PeerPathBook {
    #[verifier::type_invariant]
    closed spec fn inv(&self) -> bool {
        &&& keys_distinct(self.peers@)
        &&& forall|i: int| 0 <= i < self.peers@.len() ==> (#[trigger] self.peers@[i]).1.wf()
    }

    proof fn lemma_view_at(&self, i: int)
        requires
            self.inv(),
            0 <= i < self.peers@.len(),
        ensures
            self@.contains_key(self.peers@[i].0@),
            self@[self.peers@[i].0@] == self.peers@[i].1@,
    {
        lemma_map_at(self.peers@, i);
    }

    proof fn lemma_inv_tracked(&self)
        requires
            self.inv(),
        ensures
            current_endpoints_tracked(self@),
    {
        assert forall|p: Seq<char>| #[trigger] self@.contains_key(p) implies (self@[p].current_endpoint matches Some(
            c,
        ) ==> self@[p].endpoints.contains_key(c)) by {
            let i = choose|i: int| 0 <= i < self.peers@.len() && (#[trigger] self.peers@[i]).0@ == p;
            lemma_map_at(self.peers@, i);
            self.peers@[i].1.lemma_wf_view();
        }
    }

    /// An empty book.
    pub fn new() -> (r: Self)
        ensures
            r@ == Map::<Seq<char>, PeerPathView>::empty(),
            current_endpoints_tracked(r@),
    {
        let r = PeerPathBook { peers: Vec::new() };
        proof {
            lemma_map_empty(r.peers@);
            assert(r@ =~= Map::<Seq<char>, PeerPathView>::empty());
        }
        r
    }

    /// The position of `key`, added with no endpoints when it is not there yet.
    fn entry_index(&mut self, key: &String) -> (i: usize)
        ensures
            i < final(self).peers@.len(),
            final(self).peers@[i as int].0@ == key@,
            final(self)@ == old(self)@.insert(key@, peer_or_default(old(self)@, key@)),
    {
        proof {
            use_type_invariant(&*self);
        }
        match find_key(&self.peers, key) {
            Some(i) => {
                proof {
                    self.lemma_view_at(i as int);
                    assert(self@.insert(key@, self@[key@]) =~= self@);
                }
                i
            },
            None => {
                let k = key.clone();
                let st = PeerPathState::new();
                let ghost before = self.peers@;
                proof {
                    if has_key(self.peers@, key@) {
                        assert(entries_map(self.peers@).contains_key(key@));
                    }
                    lemma_map_push(before, k, st);
                }
                let mut peers: Vec<(String, PeerPathState)> = Vec::new();
                std::mem::swap(&mut peers, &mut self.peers);
                peers.push((k, st));
                self.peers = peers;
                proof {
                    assert(self.peers@ == before.push((k, st)));
                    assert(self@ =~= old(self)@.insert(key@, empty_peer()));
                }
                self.peers.len() - 1
            },
        }
    }

    /// Takes the record at position `i` out, leaving an empty one in its place.
    fn take_state(&mut self, i: usize) -> (st: PeerPathState)
        requires
            i < old(self).peers@.len(),
        ensures
            st.wf(),
            st@ == old(self)@[old(self).peers@[i as int].0@],
            final(self).peers@.len() == old(self).peers@.len(),
            final(self).peers@[i as int].0 == old(self).peers@[i as int].0,
            final(self)@ == old(self)@.insert(old(self).peers@[i as int].0@, empty_peer()),
    {
        proof {
            use_type_invariant(&*self);
            self.lemma_view_at(i as int);
        }
        let ghost before = self.peers@;
        let empty = PeerPathState::new();
        proof {
            lemma_map_update(before, i as int, empty);
        }
        let mut peers: Vec<(String, PeerPathState)> = Vec::new();
        std::mem::swap(&mut peers, &mut self.peers);
        let st = replace_value(&mut peers, i, empty);
        self.peers = peers;
        proof {
            assert(self@ =~= old(self)@.insert(before[i as int].0@, empty_peer()));
        }
        st
    }

    /// Stores `st` as the record at position `i`.
    fn put_state(&mut self, i: usize, st: PeerPathState)
        requires
            i < old(self).peers@.len(),
            st.wf(),
        ensures
            final(self).peers@.len() == old(self).peers@.len(),
            final(self).peers@[i as int].0 == old(self).peers@[i as int].0,
            final(self)@ == old(self)@.insert(old(self).peers@[i as int].0@, st@),
    {
        proof {
            use_type_invariant(&*self);
        }
        let ghost before = self.peers@;
        let ghost stv = st@;
        proof {
            lemma_map_update(before, i as int, st);
        }
        let mut peers: Vec<(String, PeerPathState)> = Vec::new();
        std::mem::swap(&mut peers, &mut self.peers);
        let _ = replace_value(&mut peers, i, st);
        self.peers = peers;
        proof {
            assert(self@ =~= old(self)@.insert(before[i as int].0@, stv));
        }
    }

    /// Records that `endpoint` of `participant` was selected at `selected_at`.
    /// Returns whether this changed anything.
    pub fn note_selected(&mut self, participant: &str, endpoint: &str, selected_at: u64) -> (changed:
        bool)
        ensures
            final(self)@ == old(self)@.insert(
                participant@,
                after_selected(peer_or_default(old(self)@, participant@), endpoint@, selected_at),
            ),
            changed == selection_changes(
                peer_or_default(old(self)@, participant@),
                endpoint@,
                selected_at,
            ),
            current_endpoints_tracked(final(self)@),
    {
        let key = participant.to_owned();
        let e = endpoint.to_owned();
        let i = self.entry_index(&key);
        let mut st = self.take_state(i);
        let changed = st.note_selected(&e, selected_at);
        self.put_state(i, st);
        proof {
            use_type_invariant(&*self);
            self.lemma_inv_tracked();
            assert(final(self)@ =~= old(self)@.insert(
                participant@,
                after_selected(peer_or_default(old(self)@, participant@), endpoint@, selected_at),
            ));
        }
        changed
    }

    /// Records a successful exchange with `endpoint` of `participant` at
    /// `success_at`. Returns whether it was later than the last success recorded.
    pub fn note_success(&mut self, participant: &str, endpoint: &str, success_at: u64) -> (recorded:
        bool)
        ensures
            final(self)@ == old(self)@.insert(
                participant@,
                after_success(peer_or_default(old(self)@, participant@), endpoint@, success_at),
            ),
            recorded == success_recorded(
                peer_or_default(old(self)@, participant@),
                endpoint@,
                success_at,
            ),
            current_endpoints_tracked(final(self)@),
    {
        let key = participant.to_owned();
        let e = endpoint.to_owned();
        let i = self.entry_index(&key);
        let mut st = self.take_state(i);
        let recorded = st.note_success(&e, success_at);
        self.put_state(i, st);
        proof {
            use_type_invariant(&*self);
            self.lemma_inv_tracked();
            assert(final(self)@ =~= old(self)@.insert(
                participant@,
                after_success(peer_or_default(old(self)@, participant@), endpoint@, success_at),
            ));
        }
        recorded
    }

    /// Merges the endpoints that `announcement` offers for `participant`, seen
    /// at `seen_at`. Returns whether an endpoint that was already tracked changed.
    pub fn refresh_from_announcement(
        &mut self,
        participant: &str,
        announcement: &PeerAnnouncement,
        seen_at: u64,
    ) -> (changed: bool)
        ensures
            final(self)@ == refreshed_book(old(self)@, participant@, *announcement, seen_at),
            changed == refresh_reports_change(old(self)@, participant@, *announcement, seen_at),
            current_endpoints_tracked(final(self)@),
    {
        let key = participant.to_owned();
        let eps = announcement_endpoints(announcement);
        let i = self.entry_index(&key);
        let mut st = self.take_state(i);
        let changed = st.refresh(&eps, seen_at);
        self.put_state(i, st);
        proof {
            use_type_invariant(&*self);
            self.lemma_inv_tracked();
            assert(final(self)@ =~= old(self)@.insert(
                participant@,
                PeerPathView {
                    current_endpoint: peer_or_default(old(self)@, participant@).current_endpoint,
                    endpoints: apply_refresh(
                        peer_or_default(old(self)@, participant@).endpoints,
                        announced_endpoints(*announcement),
                        seen_at,
                    ),
                },
            ));
        }
        changed
    }
    /// Drops the paths whose latest time is at or before
    /// `now - stale_after_secs`, the current endpoints among them, and the
    /// peers left without paths. Does nothing when `stale_after_secs` is 0.
    /// Returns whether anything changed.
    pub fn prune_stale(&mut self, now: u64, stale_after_secs: u64) -> (changed: bool)
        ensures
            stale_after_secs == 0 ==> final(self)@ == old(self)@ && !changed,
            stale_after_secs > 0 ==> final(self)@ == pruned_book(
                old(self)@,
                prune_cutoff(now, stale_after_secs),
            ),
            stale_after_secs > 0 ==> (changed <==> exists|p: Seq<char>|
                #[trigger] old(self)@.contains_key(p) && prune_alters(
                    old(self)@[p],
                    prune_cutoff(now, stale_after_secs),
                )),
            current_endpoints_tracked(final(self)@),
    {
        proof {
            use_type_invariant(&*self);
            self.lemma_inv_tracked();
        }
        if stale_after_secs == 0 {
            return false;
        }
        proof {
            use_type_invariant(&*self);
        }
        let cutoff = now.saturating_sub(stale_after_secs);
        let ghost orig = self.peers@;
        let ghost before = self@;
        let mut rest: Vec<(String, PeerPathState)> = Vec::new();
        std::mem::swap(&mut rest, &mut self.peers);
        let mut out: Vec<(String, PeerPathState)> = Vec::new();
        let mut changed = false;
        proof {
            assert(rest@.take(rest@.len() as int) =~= rest@);
        }
        while rest.len() > 0
            invariant
                keys_distinct(orig),
                forall|i: int| 0 <= i < orig.len() ==> (#[trigger] orig[i]).1.wf(),
                before == entries_map(orig).map_values(|st: PeerPathState| state_view(st)),
                cutoff == prune_cutoff(now, stale_after_secs),
                rest@.len() <= orig.len(),
                rest@ == orig.take(rest@.len() as int),
                keys_distinct(out@),
                forall|i: int| 0 <= i < out@.len() ==> (#[trigger] out@[i]).1.wf(),
                forall|k: Seq<char>|
                    #[trigger] entries_map(out@).contains_key(k) <==> (exists|j: int|
                        rest@.len() <= j < orig.len() && (#[trigger] orig[j]).0@ == k
                            && peer_survives(orig[j].1@, cutoff)),
                forall|k: Seq<char>| #[trigger]
                    entries_map(out@).contains_key(k) ==> entries_map(out@)[k]@ == pruned_peer(
                        before[k],
                        cutoff,
                    ),
                changed <==> exists|j: int|
                    rest@.len() <= j < orig.len() && prune_alters((#[trigger] orig[j]).1@, cutoff),
            decreases rest.len(),
        {
            let ghost n = rest@.len() - 1;
            let (k, st) = rest.pop().unwrap();
            proof {
                assert(orig[n] == (k, st));
                assert(rest@ =~= orig.take(n));
                lemma_map_at(orig, n);
            }
            let (pruned, altered, survives) = st.pruned(cutoff);
            let ghost out_before = out@;
            if survives {
                proof {
                    if has_key(out_before, k@) {
                        assert(entries_map(out_before).contains_key(k@));
                        let j = choose|j: int|
                            n + 1 <= j < orig.len() && (#[trigger] orig[j]).0@ == k@
                                && peer_survives(orig[j].1@, cutoff);
                        assert(orig[j].0@ == orig[n].0@);
                    }
                    lemma_map_push(out_before, k, pruned);
                }
                out.push((k, pruned));
                proof {
                    assert(out@ == out_before.push((k, pruned)));
                }
            }
            if altered {
                changed = true;
            }
            proof {
                assert forall|key: Seq<char>|
                    #[trigger] entries_map(out@).contains_key(key) <==> (exists|j: int|
                        n <= j < orig.len() && (#[trigger] orig[j]).0@ == key
                            && peer_survives(orig[j].1@, cutoff)) by {
                    if survives && key == k@ {
                        assert(orig[n].0@ == key);
                    }
                    if exists|j: int|
                        n <= j < orig.len() && (#[trigger] orig[j]).0@ == key
                            && peer_survives(orig[j].1@, cutoff) {
                        let j = choose|j: int|
                            n <= j < orig.len() && (#[trigger] orig[j]).0@ == key
                                && peer_survives(orig[j].1@, cutoff);
                        if j > n {
                            assert(entries_map(out_before).contains_key(key));
                        }
                    }
                }
                assert forall|key: Seq<char>| #[trigger]
                    entries_map(out@).contains_key(key) implies entries_map(out@)[key]@
                    == pruned_peer(before[key], cutoff) by {
                    if survives && key == k@ {
                    } else {
                        assert(entries_map(out_before).contains_key(key));
                    }
                }
                if altered {
                    assert(prune_alters(orig[n].1@, cutoff));
                }
                if exists|j: int| n <= j < orig.len() && prune_alters((#[trigger] orig[j]).1@, cutoff) {
                    let j = choose|j: int| n <= j < orig.len() && prune_alters((#[trigger] orig[j]).1@, cutoff);
                    if j > n {
                        assert(rest@.len() + 1 <= j);
                    }
                }
            }
        }
        proof {
            assert forall|p: Seq<char>| #[trigger]
                entries_map(out@).contains_key(p) == pruned_book(before, cutoff).contains_key(p) by {
                if entries_map(out@).contains_key(p) {
                    let j = choose|j: int|
                        0 <= j < orig.len() && (#[trigger] orig[j]).0@ == p
                            && peer_survives(orig[j].1@, cutoff);
                    lemma_map_at(orig, j);
                }
                if pruned_book(before, cutoff).contains_key(p) {
                    let j = choose|j: int| 0 <= j < orig.len() && (#[trigger] orig[j]).0@ == p;
                    lemma_map_at(orig, j);
                }
            }
            assert(entries_map(out@).map_values(|st: PeerPathState| state_view(st)) =~= pruned_book(
                before,
                cutoff,
            ));
            if changed {
                let j = choose|j: int| 0 <= j < orig.len() && prune_alters((#[trigger] orig[j]).1@, cutoff);
                lemma_map_at(orig, j);
                assert(before.contains_key(orig[j].0@));
            }
            if exists|p: Seq<char>| #[trigger] before.contains_key(p) && prune_alters(before[p], cutoff) {
                let p = choose|p: Seq<char>| #[trigger] before.contains_key(p) && prune_alters(before[p], cutoff);
                let j = choose|j: int| 0 <= j < orig.len() && (#[trigger] orig[j]).0@ == p;
                lemma_map_at(orig, j);
            }
        }
        self.peers = out;
        proof {
            use_type_invariant(&*self);
            self.lemma_inv_tracked();
        }
        changed
    }

    /// Forgets every peer that is not among `participants`.
    pub fn retain_participants(&mut self, participants: &Vec<String>)
        ensures
            final(self)@ == old(self)@.restrict(names_of(participants@)),
            current_endpoints_tracked(final(self)@),
    {
        proof {
            use_type_invariant(&*self);
        }
        let ghost names = names_of(participants@);
        let ghost orig = self.peers@;
        let ghost before = self@;
        let mut rest: Vec<(String, PeerPathState)> = Vec::new();
        std::mem::swap(&mut rest, &mut self.peers);
        let mut out: Vec<(String, PeerPathState)> = Vec::new();
        proof {
            assert(rest@.take(rest@.len() as int) =~= rest@);
        }
        while rest.len() > 0
            invariant
                keys_distinct(orig),
                forall|i: int| 0 <= i < orig.len() ==> (#[trigger] orig[i]).1.wf(),
                before == entries_map(orig).map_values(|st: PeerPathState| state_view(st)),
                names == names_of(participants@),
                rest@.len() <= orig.len(),
                rest@ == orig.take(rest@.len() as int),
                keys_distinct(out@),
                forall|i: int| 0 <= i < out@.len() ==> (#[trigger] out@[i]).1.wf(),
                forall|k: Seq<char>|
                    #[trigger] entries_map(out@).contains_key(k) <==> (exists|j: int|
                        rest@.len() <= j < orig.len() && (#[trigger] orig[j]).0@ == k
                            && names.contains(k)),
                forall|k: Seq<char>| #[trigger]
                    entries_map(out@).contains_key(k) ==> entries_map(out@)[k]@ == before[k],
            decreases rest.len(),
        {
            let ghost n = rest@.len() - 1;
            let (k, st) = rest.pop().unwrap();
            proof {
                assert(orig[n] == (k, st));
                assert(rest@ =~= orig.take(n));
                lemma_map_at(orig, n);
            }
            let keep = name_listed(participants, &k);
            let ghost out_before = out@;
            if keep {
                proof {
                    if has_key(out_before, k@) {
                        assert(entries_map(out_before).contains_key(k@));
                        let j = choose|j: int|
                            n + 1 <= j < orig.len() && (#[trigger] orig[j]).0@ == k@
                                && names.contains(k@);
                        assert(orig[j].0@ == orig[n].0@);
                    }
                    lemma_map_push(out_before, k, st);
                }
                out.push((k, st));
                proof {
                    assert(out@ == out_before.push((k, st)));
                }
            }
            proof {
                assert forall|key: Seq<char>|
                    #[trigger] entries_map(out@).contains_key(key) <==> (exists|j: int|
                        n <= j < orig.len() && (#[trigger] orig[j]).0@ == key
                            && names.contains(key)) by {
                    if keep && key == k@ {
                        assert(orig[n].0@ == key);
                    }
                    if exists|j: int|
                        n <= j < orig.len() && (#[trigger] orig[j]).0@ == key
                            && names.contains(key) {
                        let j = choose|j: int|
                            n <= j < orig.len() && (#[trigger] orig[j]).0@ == key
                                && names.contains(key);
                        if j > n {
                            assert(entries_map(out_before).contains_key(key));
                        }
                    }
                }
                assert forall|key: Seq<char>| #[trigger]
                    entries_map(out@).contains_key(key) implies entries_map(out@)[key]@ == before[key] by {
                    if keep && key == k@ {
                    } else {
                        assert(entries_map(out_before).contains_key(key));
                    }
                }
            }
        }
        proof {
            assert forall|p: Seq<char>| #[trigger]
                entries_map(out@).contains_key(p) == before.restrict(names).contains_key(p) by {
                if entries_map(out@).contains_key(p) {
                    let j = choose|j: int|
                        0 <= j < orig.len() && (#[trigger] orig[j]).0@ == p && names.contains(p);
                    lemma_map_at(orig, j);
                }
                if before.restrict(names).contains_key(p) {
                    let j = choose|j: int| 0 <= j < orig.len() && (#[trigger] orig[j]).0@ == p;
                    lemma_map_at(orig, j);
                }
            }
            assert(entries_map(out@).map_values(|st: PeerPathState| state_view(st)) =~= before.restrict(names));
        }
        self.peers = out;
        proof {
            use_type_invariant(&*self);
            self.lemma_inv_tracked();
        }
    }

    /// The endpoint to dial for `participant`: the announcement's default
    /// endpoint while nothing is tracked for it, else the tracked path of
    /// greatest rank, unless the current endpoint is kept.
    pub fn select_endpoint(
        &self,
        participant: &str,
        announcement: &PeerAnnouncement,
        own_local_endpoint: Option<&str>,
        now: u64,
        retry_after_secs: u64,
    ) -> (r: Option<String>)
        ensures
            r is Some,
            r matches Some(e) && acceptable_selection(
                self@,
                participant@,
                *announcement,
                opt_str_view(own_local_endpoint),
                now,
                retry_after_secs,
                e@,
            ),
    {
        proof {
            use_type_invariant(self);
        }
        let default_endpoint = select_peer_endpoint(announcement, own_local_endpoint);
        let key = participant.to_owned();
        let i = match find_key(&self.peers, &key) {
            Some(i) => i,
            None => return Some(default_endpoint),
        };
        let st = &self.peers[i].1;
        proof {
            self.lemma_view_at(i as int);
        }
        if st.endpoints.len() == 0 {
            proof {
                lemma_map_empty(st.endpoints@);
                if has_paths(st@) {
                    let k = choose|k: Seq<char>| #[trigger] st@.endpoints.contains_key(k);
                    assert(entries_map(st.endpoints@).contains_key(k));
                }
            }
            return Some(default_endpoint);
        }
        proof {
            lemma_map_at(st.endpoints@, 0);
            assert(st@.endpoints.contains_key(st.endpoints@[0].0@));
        }
        Some(st.select(own_local_endpoint, &default_endpoint, now, retry_after_secs))
    }

}

impl Default for PeerPathBook {
    fn default() -> (r: Self)
        ensures
            r@ == Map::<Seq<char>, PeerPathView>::empty(),
    {
        PeerPathBook::new()
    }
}

/// The endpoints `announcement` offers, each once, with the source each comes from.
pub fn announcement_endpoints(announcement: &PeerAnnouncement) -> (r: Vec<(String, PeerPathSource)>)
    ensures
        r@.map_values(|p: (String, PeerPathSource)| endpoint_pair_view(p)) == announced_endpoints(
            *announcement,
        ),
{
    let mut endpoints: Vec<(String, PeerPathSource)> = Vec::new();
    let ghost a = *announcement;
    if let Some(local) = &announcement.local_endpoint {
        if !str_is_blank(local.as_str()) {
            endpoints.push((local.clone(), PeerPathSource::Local));
        }
    }
    let ghost with_local = endpoints@.map_values(|p: (String, PeerPathSource)| endpoint_pair_view(p));
    proof {
        if usable(a.local_endpoint) {
            assert(with_local =~= seq![(a.local_endpoint->0@, PeerPathSource::Local)]);
        } else {
            assert(with_local =~= Seq::<(Seq<char>, PeerPathSource)>::empty());
        }
    }
    if let Some(public) = &announcement.public_endpoint {
        if !str_is_blank(public.as_str()) {
            let seen = match &announcement.local_endpoint {
                Some(local) => endpoints.len() > 0 && *local == *public,
                None => false,
            };
            proof {
                if listed(with_local, public@) {
                    let i = choose|i: int| 0 <= i < with_local.len() && (#[trigger] with_local[i]).0 == public@;
                    assert(with_local[i].0 == a.local_endpoint->0@);
                }
                if seen {
                    assert(with_local[0].0 == public@);
                }
            }
            if !seen {
                endpoints.push((public.clone(), PeerPathSource::Public));
            }
        }
    }
    let ghost with_public = endpoints@.map_values(|p: (String, PeerPathSource)| endpoint_pair_view(p));
    proof {
        if usable(a.public_endpoint) && !listed(with_local, a.public_endpoint->0@) {
            assert(with_public =~= with_local.push((a.public_endpoint->0@, PeerPathSource::Public)));
        } else {
            assert(with_public =~= with_local);
        }
    }
    if !str_is_blank(announcement.endpoint.as_str()) {
        let mut seen = false;
        let mut j: usize = 0;
        while j < endpoints.len()
            invariant
                j <= endpoints@.len(),
                with_public == endpoints@.map_values(|p: (String, PeerPathSource)| endpoint_pair_view(p)),
                seen <==> exists|k: int| 0 <= k < j && (#[trigger] with_public[k]).0 == announcement.endpoint@,
            decreases endpoints.len() - j,
        {
            if endpoints[j].0 == announcement.endpoint {
                seen = true;
            }
            proof {
                assert(with_public[j as int].0 == endpoints@[j as int].0@);
            }
            j = j + 1;
        }
        if !seen {
            endpoints.push((announcement.endpoint.clone(), PeerPathSource::Legacy));
        }
        proof {
            if !seen {
                assert(endpoints@.map_values(|p: (String, PeerPathSource)| endpoint_pair_view(p)) =~= with_public.push((a.endpoint@, PeerPathSource::Legacy)));
            }
        }
    }
    proof {
        assert(endpoints@.map_values(|p: (String, PeerPathSource)| endpoint_pair_view(p)) =~= announced_endpoints(a));
    }
    endpoints
}


/// How a candidate endpoint ranks; candidates compare lexicographically.
pub fn candidate_rank(
    endpoint: &str,
    path: &TrackedPeerPath,
    own_local_endpoint: Option<&str>,
    default_endpoint: &str,
) -> (r: (u64, u8, u8, u64))
    ensures
        r == rank_of(endpoint@, *path, opt_str_view(own_local_endpoint), default_endpoint@),
{
    let same_subnet_local = path.source == PeerPathSource::Local && match own_local_endpoint {
        Some(own) => endpoints_share_private_ipv4_subnet(endpoint, own),
        None => false,
    };
    let default_match: u8 = if endpoint.to_owned() == default_endpoint.to_owned() {
        1
    } else {
        0
    };
    let success = match path.last_success_at {
        Some(v) => v,
        None => 0,
    };
    (success, path.source.rank(same_subnet_local), default_match, path.announced_at)
}

fn rank_at_most(a: (u64, u8, u8, u64), b: (u64, u8, u8, u64)) -> (r: bool)
    ensures
        r == rank_le(a, b),
{
    a.0 < b.0 || (a.0 == b.0 && a.1 < b.1) || (a.0 == b.0 && a.1 == b.1 && a.2 < b.2) || (a.0 == b.0
        && a.1 == b.1 && a.2 == b.2 && a.3 <= b.3)
}



/// Every peer's current endpoint, when it has one, is among its tracked paths.
pub open spec fn current_endpoints_tracked(book: Map<Seq<char>, PeerPathView>) -> bool {
    forall|p: Seq<char>| #[trigger]
        book.contains_key(p) ==> (book[p].current_endpoint matches Some(c)
            ==> book[p].endpoints.contains_key(c))
}

/// The book after `refresh_from_announcement(participant, announcement, seen_at)`.
pub open spec fn refreshed_book(
    book: Map<Seq<char>, PeerPathView>,
    participant: Seq<char>,
    announcement: PeerAnnouncement,
    seen_at: u64,
) -> Map<Seq<char>, PeerPathView> {
    book.insert(
        participant,
        PeerPathView {
            current_endpoint: peer_or_default(book, participant).current_endpoint,
            endpoints: apply_refresh(
                peer_or_default(book, participant).endpoints,
                announced_endpoints(announcement),
                seen_at,
            ),
        },
    )
}

/// What `refresh_from_announcement(participant, announcement, seen_at)` reports.
pub open spec fn refresh_reports_change(
    book: Map<Seq<char>, PeerPathView>,
    participant: Seq<char>,
    announcement: PeerAnnouncement,
    seen_at: u64,
) -> bool {
    refresh_changed(
        peer_or_default(book, participant).endpoints,
        announced_endpoints(announcement),
        seen_at,
    )
}

/// Every endpoint of `eps` is tracked with a source at least as strong as
/// the one listed for it and an announcement time no earlier than `seen_at`.
pub open spec fn absorbs(
    m: Map<Seq<char>, TrackedPeerPath>,
    eps: Seq<(Seq<char>, PeerPathSource)>,
    seen_at: u64,
) -> bool {
    forall|i: int|
        0 <= i < eps.len() ==> (#[trigger] m.get(eps[i].0) matches Some(t) && t.source.level()
            >= eps[i].1.level() && t.announced_at >= seen_at)
}

proof fn lemma_refresh_absorbs(
    m: Map<Seq<char>, TrackedPeerPath>,
    eps: Seq<(Seq<char>, PeerPathSource)>,
    seen_at: u64,
)
    ensures
        absorbs(apply_refresh(m, eps, seen_at), eps, seen_at),
    decreases eps.len(),
{
    if eps.len() > 0 {
        let prefix = eps.drop_last();
        lemma_refresh_absorbs(m, prefix, seen_at);
        let prev = apply_refresh(m, prefix, seen_at);
        let next = apply_refresh(m, eps, seen_at);
        assert forall|i: int| 0 <= i < eps.len() implies (#[trigger] next.get(eps[i].0) matches Some(
            t,
        ) && t.source.level() >= eps[i].1.level() && t.announced_at >= seen_at) by {
            if i < eps.len() - 1 {
                assert(eps[i] == prefix[i]);
                assert(prev.get(prefix[i].0) matches Some(t) && t.source.level() >= prefix[i].1.level()
                    && t.announced_at >= seen_at);
            }
        }
    }
}

proof fn lemma_refresh_fixed(
    m: Map<Seq<char>, TrackedPeerPath>,
    eps: Seq<(Seq<char>, PeerPathSource)>,
    seen_at: u64,
)
    requires
        absorbs(m, eps, seen_at),
    ensures
        apply_refresh(m, eps, seen_at) == m,
        !refresh_changed(m, eps, seen_at),
    decreases eps.len(),
{
    if eps.len() > 0 {
        let prefix = eps.drop_last();
        assert forall|i: int| 0 <= i < prefix.len() implies (#[trigger] m.get(prefix[i].0) matches Some(
            t,
        ) && t.source.level() >= prefix[i].1.level() && t.announced_at >= seen_at) by {
            assert(prefix[i] == eps[i]);
        }
        lemma_refresh_fixed(m, prefix, seen_at);
        let last = eps[eps.len() - 1];
        assert(m.get(last.0) matches Some(t) && t.source.level() >= last.1.level() && t.announced_at
            >= seen_at);
        assert(m.insert(last.0, refreshed_path(m.get(last.0), last.1, seen_at)) =~= m);
    }
}

/// Refreshing twice from one announcement at one time: the second refresh
/// leaves the book as the first left it and reports no change.
pub proof fn lemma_refresh_is_idempotent(
    book: Map<Seq<char>, PeerPathView>,
    participant: Seq<char>,
    announcement: PeerAnnouncement,
    seen_at: u64,
)
    ensures
        refreshed_book(refreshed_book(book, participant, announcement, seen_at), participant, announcement, seen_at)
            == refreshed_book(book, participant, announcement, seen_at),
        !refresh_reports_change(
            refreshed_book(book, participant, announcement, seen_at),
            participant,
            announcement,
            seen_at,
        ),
{
    let eps = announced_endpoints(announcement);
    let once = refreshed_book(book, participant, announcement, seen_at);
    let m1 = once[participant].endpoints;
    lemma_refresh_absorbs(peer_or_default(book, participant).endpoints, eps, seen_at);
    lemma_refresh_fixed(m1, eps, seen_at);
    assert(refreshed_book(once, participant, announcement, seen_at) =~= once);
}

/// Selecting an endpoint twice at one time: the second selection changes
/// nothing and reports no change.
pub proof fn lemma_selection_is_idempotent(
    book: Map<Seq<char>, PeerPathView>,
    participant: Seq<char>,
    endpoint: Seq<char>,
    selected_at: u64,
)
    ensures
        ({
            let once = book.insert(
                participant,
                after_selected(peer_or_default(book, participant), endpoint, selected_at),
            );
            &&& once.insert(
                participant,
                after_selected(peer_or_default(once, participant), endpoint, selected_at),
            ) == once
            &&& !selection_changes(peer_or_default(once, participant), endpoint, selected_at)
        }),
{
    let once = book.insert(
        participant,
        after_selected(peer_or_default(book, participant), endpoint, selected_at),
    );
    let st = peer_or_default(once, participant);
    assert(st.endpoints.insert(endpoint, with_selected(st.endpoints[endpoint], selected_at)) =~= st.endpoints);
    assert(once.insert(participant, after_selected(st, endpoint, selected_at)) =~= once);
}

/// Recording one success twice: the second record changes nothing and is
/// reported as not recorded.
pub proof fn lemma_success_is_idempotent(
    book: Map<Seq<char>, PeerPathView>,
    participant: Seq<char>,
    endpoint: Seq<char>,
    success_at: u64,
)
    ensures
        ({
            let once = book.insert(
                participant,
                after_success(peer_or_default(book, participant), endpoint, success_at),
            );
            &&& once.insert(
                participant,
                after_success(peer_or_default(once, participant), endpoint, success_at),
            ) == once
            &&& !success_recorded(peer_or_default(once, participant), endpoint, success_at)
        }),
{
    let once = book.insert(
        participant,
        after_success(peer_or_default(book, participant), endpoint, success_at),
    );
    let st = peer_or_default(once, participant);
    assert(st.endpoints.insert(endpoint, st.endpoints[endpoint]) =~= st.endpoints);
    assert(once.insert(participant, after_success(st, endpoint, success_at)) =~= once);
}

/// Pruning twice at one cutoff: the second pass changes nothing and reports no change.
pub proof fn lemma_prune_is_idempotent(book: Map<Seq<char>, PeerPathView>, cutoff: u64)
    ensures
        pruned_book(pruned_book(book, cutoff), cutoff) == pruned_book(book, cutoff),
        !(exists|p: Seq<char>| #[trigger]
            pruned_book(book, cutoff).contains_key(p) && prune_alters(pruned_book(book, cutoff)[p], cutoff)),
{
    let once = pruned_book(book, cutoff);
    assert forall|p: Seq<char>| #[trigger] once.contains_key(p) implies fresh_paths(once[p].endpoints, cutoff)
        == once[p].endpoints && peer_survives(once[p], cutoff) && !prune_alters(once[p], cutoff) by {
        assert(fresh_paths(once[p].endpoints, cutoff) =~= once[p].endpoints);
        let k = choose|k: Seq<char>| #[trigger] fresh_paths(book[p].endpoints, cutoff).contains_key(k);
        assert(fresh_paths(once[p].endpoints, cutoff).contains_key(k));
    }
    assert forall|p: Seq<char>| #[trigger] once.contains_key(p) implies pruned_peer(once[p], cutoff) == once[p] by {
        assert(fresh_paths(once[p].endpoints, cutoff) =~= once[p].endpoints);
    }
    assert(pruned_book(once, cutoff) =~= once);
}

/// Keeping the same participants twice keeps what keeping them once kept.
pub proof fn lemma_retain_is_idempotent(book: Map<Seq<char>, PeerPathView>, participants: Seq<String>)
    ensures
        book.restrict(names_of(participants)).restrict(names_of(participants))
            == book.restrict(names_of(participants)),
{
    assert(book.restrict(names_of(participants)).restrict(names_of(participants))
        =~= book.restrict(names_of(participants)));
}

/// What `select_endpoint` answers is the announcement's default endpoint or
/// one of the participant's tracked paths.
pub proof fn lemma_selection_is_known(
    book: Map<Seq<char>, PeerPathView>,
    participant: Seq<char>,
    announcement: PeerAnnouncement,
    own_local: Option<Seq<char>>,
    now: u64,
    retry_after_secs: u64,
    r: Seq<char>,
)
    requires
        acceptable_selection(book, participant, announcement, own_local, now, retry_after_secs, r),
    ensures
        r == default_peer_endpoint(announcement, own_local) || (book.contains_key(participant)
            && book[participant].endpoints.contains_key(r)),
{
    let d = default_peer_endpoint(announcement, own_local);
    if book.contains_key(participant) && has_paths(book[participant]) {
        let preferred = choose|preferred: Seq<char>|
            #[trigger] is_preferred(book[participant].endpoints, preferred, own_local, d) && r
                == selection_from(book[participant], preferred, now, retry_after_secs);
    }
}


/// A path's freshness is the latest time it was heard of: no earlier than
/// its announcement, its last selection or its last success, and equal to
/// one of these.
pub proof fn lemma_freshness_is_latest_time(t: TrackedPeerPath)
    ensures
        t.freshness() >= t.announced_at,
        t.last_selected_at matches Some(s) ==> t.freshness() >= s,
        t.last_success_at matches Some(s) ==> t.freshness() >= s,
        t.freshness() == t.announced_at || t.last_selected_at == Some(t.freshness())
            || t.last_success_at == Some(t.freshness()),
{
}

/// Pruning at `now` keeps a tracked path exactly when it was announced,
/// selected or reached after `now - stale_after_secs`, and keeps it as it
/// was, in its peer.
pub proof fn lemma_prune_keeps_paths_heard_of_recently(
    book: Map<Seq<char>, PeerPathView>,
    now: u64,
    stale_after_secs: u64,
    participant: Seq<char>,
    endpoint: Seq<char>,
)
    requires
        book.contains_key(participant),
        book[participant].endpoints.contains_key(endpoint),
    ensures
        ({
            let cutoff = prune_cutoff(now, stale_after_secs);
            let t = book[participant].endpoints[endpoint];
            let after = pruned_book(book, cutoff);
            let recent = t.announced_at > cutoff || (t.last_selected_at matches Some(s) && s > cutoff)
                || (t.last_success_at matches Some(s) && s > cutoff);
            &&& (after.contains_key(participant) && after[participant].endpoints.contains_key(endpoint))
                == recent
            &&& recent ==> after[participant].endpoints[endpoint] == t
        }),
{
    let cutoff = prune_cutoff(now, stale_after_secs);
    let t = book[participant].endpoints[endpoint];
    if t.freshness() > cutoff {
        assert(fresh_paths(book[participant].endpoints, cutoff).contains_key(endpoint));
    }
}

/// Merging announced endpoints keeps what is known of an endpoint already
/// tracked: its selection and success times stay, its source does not
/// weaken, and its announcement time does not go back.
proof fn lemma_apply_refresh_keeps_history(
    m: Map<Seq<char>, TrackedPeerPath>,
    eps: Seq<(Seq<char>, PeerPathSource)>,
    seen_at: u64,
    e: Seq<char>,
)
    requires
        m.contains_key(e),
    ensures
        ({
            let after = apply_refresh(m, eps, seen_at);
            &&& after.contains_key(e)
            &&& after[e].last_selected_at == m[e].last_selected_at
            &&& after[e].last_success_at == m[e].last_success_at
            &&& after[e].announced_at >= m[e].announced_at
            &&& after[e].source.level() >= m[e].source.level()
        }),
    decreases eps.len(),
{
    if eps.len() > 0 {
        lemma_apply_refresh_keeps_history(m, eps.drop_last(), seen_at, e);
    }
}

/// Refreshing a peer from an announcement keeps what is known of each path
/// already tracked for it: the path stays tracked, its last selection and
/// last success stay as they were, its source does not weaken and its
/// announcement time does not go back. Other peers are untouched.
pub proof fn lemma_refresh_keeps_history(
    book: Map<Seq<char>, PeerPathView>,
    participant: Seq<char>,
    announcement: PeerAnnouncement,
    seen_at: u64,
    endpoint: Seq<char>,
)
    requires
        book.contains_key(participant),
        book[participant].endpoints.contains_key(endpoint),
    ensures
        ({
            let before = book[participant].endpoints[endpoint];
            let after = refreshed_book(book, participant, announcement, seen_at);
            &&& after.contains_key(participant)
            &&& after[participant].current_endpoint == book[participant].current_endpoint
            &&& after[participant].endpoints.contains_key(endpoint)
            &&& after[participant].endpoints[endpoint].last_selected_at == before.last_selected_at
            &&& after[participant].endpoints[endpoint].last_success_at == before.last_success_at
            &&& after[participant].endpoints[endpoint].announced_at >= before.announced_at
            &&& after[participant].endpoints[endpoint].source.level() >= before.source.level()
        }),
        forall|q: Seq<char>|
            q != participant ==> #[trigger] refreshed_book(book, participant, announcement, seen_at).get(q)
                == book.get(q),
{
    lemma_apply_refresh_keeps_history(
        book[participant].endpoints,
        announced_endpoints(announcement),
        seen_at,
        endpoint,
    );
}

/// Selecting an endpoint records only the selection: it becomes the current
/// endpoint with selection time `at`; if it was tracked it keeps its source,
/// announcement time and last success, and if not it starts as an observed
/// path announced at `at` and never reached; every other endpoint, and every
/// other peer, is unchanged.
pub proof fn lemma_selection_records_only_selection(
    book: Map<Seq<char>, PeerPathView>,
    participant: Seq<char>,
    endpoint: Seq<char>,
    at: u64,
)
    ensures
        ({
            let before = peer_or_default(book, participant);
            let after = book.insert(participant, after_selected(before, endpoint, at));
            let st = after[participant];
            &&& st.current_endpoint == Some(endpoint)
            &&& st.endpoints.contains_key(endpoint)
            &&& st.endpoints[endpoint].last_selected_at == Some(at)
            &&& before.endpoints.contains_key(endpoint) ==> {
                &&& st.endpoints[endpoint].source == before.endpoints[endpoint].source
                &&& st.endpoints[endpoint].announced_at == before.endpoints[endpoint].announced_at
                &&& st.endpoints[endpoint].last_success_at == before.endpoints[endpoint].last_success_at
            }
            &&& !before.endpoints.contains_key(endpoint) ==> {
                &&& st.endpoints[endpoint].source == PeerPathSource::Observed
                &&& st.endpoints[endpoint].announced_at == at
                &&& st.endpoints[endpoint].last_success_at is None
            }
            &&& forall|k: Seq<char>| k != endpoint ==> #[trigger] st.endpoints.get(k) == before.endpoints.get(k)
            &&& forall|q: Seq<char>| q != participant ==> #[trigger] after.get(q) == book.get(q)
        }),
{
}

/// Recording a success changes only the success time: the endpoint's last
/// success becomes the later of the recorded one and `at` (a success at time
/// 0 is not recorded on a path never reached); if it was tracked
/// it keeps its source, announcement time and last selection, and if not it
/// starts as an observed path announced at `at`; the current endpoint, every
/// other endpoint and every other peer are unchanged.
pub proof fn lemma_success_records_only_success(
    book: Map<Seq<char>, PeerPathView>,
    participant: Seq<char>,
    endpoint: Seq<char>,
    at: u64,
)
    ensures
        ({
            let before = peer_or_default(book, participant);
            let after = book.insert(participant, after_success(before, endpoint, at));
            let st = after[participant];
            &&& st.current_endpoint == before.current_endpoint
            &&& st.endpoints.contains_key(endpoint)
            &&& at > 0 ==> (st.endpoints[endpoint].last_success_at matches Some(s) && s >= at)
            &&& before.endpoints.contains_key(endpoint) ==> {
                &&& st.endpoints[endpoint].source == before.endpoints[endpoint].source
                &&& st.endpoints[endpoint].announced_at == before.endpoints[endpoint].announced_at
                &&& st.endpoints[endpoint].last_selected_at == before.endpoints[endpoint].last_selected_at
                &&& (before.endpoints[endpoint].last_success_at matches Some(s) ==> (
                    st.endpoints[endpoint].last_success_at == Some(if s >= at { s } else { at })))
            }
            &&& !before.endpoints.contains_key(endpoint) ==> {
                &&& st.endpoints[endpoint].source == PeerPathSource::Observed
                &&& st.endpoints[endpoint].announced_at == at
                &&& st.endpoints[endpoint].last_selected_at is None
            }
            &&& forall|k: Seq<char>| k != endpoint ==> #[trigger] st.endpoints.get(k) == before.endpoints.get(k)
            &&& forall|q: Seq<char>| q != participant ==> #[trigger] after.get(q) == book.get(q)
        }),
{
}

/// A preferred path has succeeded at least as late as every other tracked
/// path: a later success outranks every source.
pub proof fn lemma_preferred_has_latest_success(
    m: Map<Seq<char>, TrackedPeerPath>,
    preferred: Seq<char>,
    own_local: Option<Seq<char>>,
    default_endpoint: Seq<char>,
    k: Seq<char>,
)
    requires
        is_preferred(m, preferred, own_local, default_endpoint),
        m.contains_key(k),
        m[k].last_success_at matches Some(s) && s > 0,
    ensures
        m[preferred].last_success_at matches Some(t) && m[k].last_success_at->0 <= t,
{
    assert(rank_le(
        rank_of(k, m[k], own_local, default_endpoint),
        rank_of(preferred, m[preferred], own_local, default_endpoint),
    ));
}

/// A current endpoint that has succeeded no earlier than any tracked path
/// of its peer stays the selected endpoint.
pub proof fn lemma_selection_keeps_best_working_endpoint(
    book: Map<Seq<char>, PeerPathView>,
    participant: Seq<char>,
    announcement: PeerAnnouncement,
    own_local: Option<Seq<char>>,
    now: u64,
    retry_after_secs: u64,
    r: Seq<char>,
    current: Seq<char>,
    current_success: u64,
)
    requires
        acceptable_selection(book, participant, announcement, own_local, now, retry_after_secs, r),
        book.contains_key(participant),
        book[participant].current_endpoint == Some(current),
        book[participant].endpoints.contains_key(current),
        book[participant].endpoints[current].last_success_at == Some(current_success),
        forall|k: Seq<char>| #[trigger]
            book[participant].endpoints.contains_key(k) ==> or_zero(
                book[participant].endpoints[k].last_success_at,
            ) <= current_success,
    ensures
        r == current,
{
    let st = book[participant];
    assert(has_paths(st));
    let d = default_peer_endpoint(announcement, own_local);
    let preferred = choose|preferred: Seq<char>|
        #[trigger] is_preferred(st.endpoints, preferred, own_local, d) && r == selection_from(
            st,
            preferred,
            now,
            retry_after_secs,
        );
    assert(st.endpoints.contains_key(preferred));
}

/// A current endpoint that has never worked is kept while fewer than
/// `retry_after_secs` seconds have passed since it was selected.
pub proof fn lemma_selection_waits_before_rotating(
    book: Map<Seq<char>, PeerPathView>,
    participant: Seq<char>,
    announcement: PeerAnnouncement,
    own_local: Option<Seq<char>>,
    now: u64,
    retry_after_secs: u64,
    r: Seq<char>,
    current: Seq<char>,
    selected_at: u64,
)
    requires
        acceptable_selection(book, participant, announcement, own_local, now, retry_after_secs, r),
        book.contains_key(participant),
        book[participant].current_endpoint == Some(current),
        book[participant].endpoints.contains_key(current),
        book[participant].endpoints[current].last_success_at is None,
        book[participant].endpoints[current].last_selected_at == Some(selected_at),
        retry_after_secs > 0,
        now < selected_at || now - selected_at < retry_after_secs,
    ensures
        r == current,
{
    let st = book[participant];
    assert(has_paths(st));
    let d = default_peer_endpoint(announcement, own_local);
    let preferred = choose|preferred: Seq<char>|
        #[trigger] is_preferred(st.endpoints, preferred, own_local, d) && r == selection_from(
            st,
            preferred,
            now,
            retry_after_secs,
        );
    assert(st.endpoints.contains_key(preferred));
}

} // verus!
