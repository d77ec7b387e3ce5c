//! Peer sessions: connect, disconnect and a peer limit, with an observable
//! event log.

use std::collections::BTreeMap;
use vstd::prelude::*;
use vstd::std_specs::btree::increasing_seq;
use vstd::std_specs::cmp::OrdSpec;
use vstd::std_specs::iter::IteratorSpec;

use crate::keys::{id16_key, id16_key_of};
use crate::text::{digits_of, push_digits};

verus! {

/// A peer identifier.
pub type PeerId = [u8; 16];

/// The abstract content of a `PeerInfo`.
pub struct PeerInfoView {
    pub id: PeerId,
    pub address: Seq<char>,
}

/// A peer's identity and endpoint.
#[derive(Debug, PartialEq, Eq)]
pub struct PeerInfo {
    pub id: PeerId,
    pub address: String,
}

impl View for PeerInfo {
    type V = PeerInfoView;

    open spec fn view(&self) -> PeerInfoView {
        PeerInfoView { id: self.id, address: self.address@ }
    }
}

impl PeerInfo {
    /// A peer with identifier `id` reachable at `address`.
    pub fn new(id: PeerId, address: &str) -> (r: PeerInfo)
        ensures
            r@ == (PeerInfoView { id, address: address@ }),
    {
        PeerInfo { id, address: String::from_str(address) }
    }
}

impl Clone for PeerInfo {
    fn clone(&self) -> (r: PeerInfo)
        ensures
            r@ == self@,
    {
        PeerInfo { id: self.id, address: self.address.clone() }
    }
}

/// The abstract content of a `PeerSession`.
pub struct PeerSessionView {
    pub session_id: u64,
    pub peer: PeerInfoView,
}

/// An open session with a peer.
#[derive(Debug, PartialEq, Eq)]
pub struct PeerSession {
    pub session_id: u64,
    pub peer: PeerInfo,
}

impl View for PeerSession {
    type V = PeerSessionView;

    open spec fn view(&self) -> PeerSessionView {
        PeerSessionView { session_id: self.session_id, peer: self.peer@ }
    }
}

impl PeerSession {
    fn new(session_id: u64, peer: PeerInfo) -> (r: PeerSession)
        ensures
            r@ == (PeerSessionView { session_id, peer: peer@ }),
    {
        PeerSession { session_id, peer }
    }
}

impl Clone for PeerSession {
    fn clone(&self) -> (r: PeerSession)
        ensures
            r@ == self@,
    {
        PeerSession { session_id: self.session_id, peer: self.peer.clone() }
    }
}

/// A peer lifecycle event.
#[derive(Debug, Clone, Copy, PartialEq, Eq)]
pub enum PeerEvent {
    Connected(PeerId),
    Disconnected(PeerId),
    RejectedMaxPeers(PeerId),
}

/// Why a peer could not be connected.
#[derive(Debug, Clone, Copy, PartialEq, Eq)]
pub enum PeerManagerError {
    MaxPeersReached { max_peers: usize },
    SessionIdOverflow,
}

/// The message of a peer manager error.
pub open spec fn peer_error_text(e: PeerManagerError) -> Seq<char> {
    match e {
        PeerManagerError::MaxPeersReached { max_peers } => "maximum peers reached ("@ + digits_of(
            max_peers as nat,
            10,
        ) + ")"@,
        PeerManagerError::SessionIdOverflow => "peer session identifier overflowed"@,
    }
}

impl PeerManagerError {
    /// The error's message.
    pub fn message(&self) -> (r: String)
        ensures
            r@ == peer_error_text(*self),
    {
        match self {
            PeerManagerError::MaxPeersReached { max_peers } => {
                let mut out = String::from_str("maximum peers reached (");
                push_digits(&mut out, *max_peers as u128, 10);
                out.append(")");
                out
            },
            PeerManagerError::SessionIdOverflow => String::from_str(
                "peer session identifier overflowed",
            ),
        }
    }
}

/// The abstract state of a `PeerManager`.
#[verifier::ext_equal]
pub struct PeerManagerView {
    pub max_peers: usize,
    pub sessions: Map<u128, PeerSessionView>,
    pub next_session_id: u64,
    pub events: Seq<PeerEvent>,
}

/// State and outcome of connecting `peer`: a new peer is refused (and the
/// refusal logged) when the limit is reached; a connection that would need the
/// last session identifier is refused with nothing changed; otherwise the peer
/// gets a fresh session, replacing any session it had, and the connection is
/// logged.
pub open spec fn connect_result(v: PeerManagerView, peer: PeerInfoView) -> (
    PeerManagerView,
    Result<(), PeerManagerError>,
) {
    let k = id16_key_of(peer.id);
    if v.sessions.len() >= v.max_peers && !v.sessions.contains_key(k) {
        (
            PeerManagerView { events: v.events.push(PeerEvent::RejectedMaxPeers(peer.id)), ..v },
            Err(PeerManagerError::MaxPeersReached { max_peers: v.max_peers }),
        )
    } else if v.next_session_id == u64::MAX {
        (v, Err(PeerManagerError::SessionIdOverflow))
    } else {
        (
            PeerManagerView {
                sessions: v.sessions.insert(
                    k,
                    PeerSessionView { session_id: v.next_session_id, peer },
                ),
                next_session_id: (v.next_session_id + 1) as u64,
                events: v.events.push(PeerEvent::Connected(peer.id)),
                ..v
            },
            Ok(()),
        )
    }
}

/// State and outcome of disconnecting `id`: its session is closed and the
/// disconnection logged when it had one; otherwise nothing changes.
pub open spec fn disconnect_result(v: PeerManagerView, id: PeerId) -> (PeerManagerView, bool) {
    let k = id16_key_of(id);
    if v.sessions.contains_key(k) {
        (
            PeerManagerView {
                sessions: v.sessions.remove(k),
                events: v.events.push(PeerEvent::Disconnected(id)),
                ..v
            },
            true,
        )
    } else {
        (v, false)
    }
}

/// Whether `s` is strictly increasing.
pub open spec fn strictly_increasing(s: Seq<u128>) -> bool {
    forall|i: int, j: int| 0 <= i < j < s.len() ==> s[i] < s[j]
}

/// The elements of a finite set of keys in increasing order.
pub open spec fn sorted_keys(d: Set<u128>) -> Seq<u128> {
    choose|s: Seq<u128>| strictly_increasing(s) && s.to_set() == d
}

proof fn lemma_increasing_is_strict(ks: Seq<u128>)
    requires
        increasing_seq(ks),
    ensures
        strictly_increasing(ks),
{
    broadcast use vstd::std_specs::btree::axiom_increasing_seq_meaning;
    broadcast use vstd::laws_cmp::group_laws_cmp;
    assert forall|i: int, j: int| 0 <= i < j < ks.len() implies ks[i] < ks[j] by {
        assert(ks[i].cmp_spec(&ks[j]) is Less);
    }
}

/// Two strictly increasing sequences with the same elements are equal.
pub proof fn lemma_strictly_increasing_unique(s: Seq<u128>, t: Seq<u128>)
    requires
        strictly_increasing(s),
        strictly_increasing(t),
        s.to_set() == t.to_set(),
    ensures
        s == t,
    decreases s.len(),
{
    if s.len() == 0 {
        if t.len() > 0 {
            assert(t.to_set().contains(t[0]));
        }
        assert(s =~= t);
    } else {
        assert(s.to_set().contains(s[0]));
        assert(t.to_set().contains(s[0]));
        let j = choose|j: int| 0 <= j < t.len() && t[j] == s[0];
        assert(t.to_set().contains(t[0]));
        let i = choose|i: int| 0 <= i < s.len() && s[i] == t[0];
        assert(s[0] == t[0]);
        let s1 = s.drop_first();
        let t1 = t.drop_first();
        assert forall|x: u128| s1.to_set().contains(x) <==> t1.to_set().contains(x) by {
            if s1.to_set().contains(x) {
                let a = choose|a: int| 0 <= a < s1.len() && s1[a] == x;
                assert(s.to_set().contains(x));
                let b = choose|b: int| 0 <= b < t.len() && t[b] == x;
                assert(b != 0);
                assert(t1[b - 1] == x);
            }
            if t1.to_set().contains(x) {
                let a = choose|a: int| 0 <= a < t1.len() && t1[a] == x;
                assert(t.to_set().contains(x));
                let b = choose|b: int| 0 <= b < s.len() && s[b] == x;
                assert(b != 0);
                assert(s1[b - 1] == x);
            }
        }
        assert(s1.to_set() =~= t1.to_set());
        lemma_strictly_increasing_unique(s1, t1);
        assert forall|k: int| 0 <= k < s.len() implies s[k] == t[k] by {
            if k > 0 {
                assert(s[k] == s1[k - 1]);
                assert(t[k] == t1[k - 1]);
            }
        }
        assert(s =~= t);
    }
}

proof fn lemma_sorted_keys_unique(ks: Seq<u128>, d: Set<u128>)
    requires
        strictly_increasing(ks),
        ks.to_set() == d,
    ensures
        sorted_keys(d) == ks,
{
    let s = sorted_keys(d);
    assert(strictly_increasing(s) && s.to_set() == d);
    lemma_strictly_increasing_unique(s, ks);
}

/// Tracks peer sessions under a peer limit.
#[derive(Debug)]
pub struct PeerManager {
    max_peers: usize,
    sessions: BTreeMap<u128, PeerSession>,
    next_session_id: u64,
    events: Vec<PeerEvent>,
}

impl View for PeerManager {
    type V = PeerManagerView;

    closed spec fn view(&self) -> PeerManagerView {
        PeerManagerView {
            max_peers: self.max_peers,
            sessions: self.sessions@.map_values(|s: PeerSession| s@),
            next_session_id: self.next_session_id,
            events: self.events@,
        }
    }
}

impl PeerManager {
    /// Every peer manager is well formed.
    #[verifier::type_invariant]
    spec fn inv(self) -> bool {
        well_formed(self@)
    }

    /// Whether every session in `v` is keyed by its own peer's identifier.
    pub open spec fn keyed_by_peer(v: PeerManagerView) -> bool {
        forall|k: u128| #[trigger]
            v.sessions.contains_key(k) ==> id16_key_of(v.sessions[k].peer.id) == k
    }

    /// A manager allowing `max_peers` sessions, with no session and no event.
    pub fn new(max_peers: usize) -> (r: PeerManager)
        ensures
            well_formed(r@),
            r@ == (PeerManagerView {
                max_peers,
                sessions: Map::empty(),
                next_session_id: 1,
                events: Seq::empty(),
            }),
    {
        PeerManager::with_next_session_id(max_peers, 1)
    }

    /// A manager like `new` whose next session identifier is `next_session_id`.
    pub fn with_next_session_id(max_peers: usize, next_session_id: u64) -> (r: PeerManager)
        ensures
            well_formed(r@),
            r@ == (PeerManagerView {
                max_peers,
                sessions: Map::empty(),
                next_session_id,
                events: Seq::empty(),
            }),
    {
        let sessions: BTreeMap<u128, PeerSession> = BTreeMap::new();
        proof {
            let v = PeerManagerView {
                max_peers,
                sessions: sessions@.map_values(|s: PeerSession| s@),
                next_session_id,
                events: Seq::empty(),
            };
            assert(v.sessions =~= Map::<u128, PeerSessionView>::empty());
            assert(v.sessions.len() == 0);
        }
        let r = PeerManager { max_peers, sessions, next_session_id, events: Vec::new() };
        assert(r@ =~= (PeerManagerView {
            max_peers,
            sessions: Map::empty(),
            next_session_id,
            events: Seq::empty(),
        }));
        r
    }

    /// Connects `peer` as `connect_result` states.
    pub fn connect(&mut self, peer: PeerInfo) -> (r: Result<(), PeerManagerError>)
        ensures
            final(self)@ == connect_result(old(self)@, peer@).0,
            r == connect_result(old(self)@, peer@).1,
            well_formed(final(self)@),
    {
        proof {
            use_type_invariant(&*self);
            lemma_connect_keeps_well_formed(self@, peer@);
        }
        let k = id16_key(&peer.id);
        assert(self.sessions@.dom() =~= self@.sessions.dom());
        if self.sessions.len() >= self.max_peers && !self.sessions.contains_key(&k) {
            self.push_event(PeerEvent::RejectedMaxPeers(peer.id));
            assert(self@ =~= connect_result(old(self)@, peer@).0);
            return Err(PeerManagerError::MaxPeersReached { max_peers: self.max_peers });
        }
        let session_id = match self.allocate_session_id() {
            Ok(id) => id,
            Err(e) => {
                return Err(e);
            },
        };
        let peer_id = peer.id;
        let ghost pv = peer@;
        let session = PeerSession::new(session_id, peer);
        let mut sessions: BTreeMap<u128, PeerSession> = BTreeMap::new();
        proof {
            use_type_invariant(&*self);
            assert(sessions@.map_values(|s: PeerSession| s@) =~= Map::<u128, PeerSessionView>::empty());
            assert(sessions@.map_values(|s: PeerSession| s@).len() == 0);
        }
        std::mem::swap(&mut sessions, &mut self.sessions);
        sessions.insert(k, session);
        assert(sessions@.map_values(|s: PeerSession| s@) =~= old(self)@.sessions.insert(
            k,
            PeerSessionView { session_id, peer: pv },
        ));
        self.sessions = sessions;
        self.push_event(PeerEvent::Connected(peer_id));
        assert(self@ =~= connect_result(old(self)@, pv).0);
        Ok(())
    }

    fn push_event(&mut self, event: PeerEvent)
        ensures
            final(self).events@ == old(self).events@.push(event),
            final(self).sessions == old(self).sessions,
            final(self).max_peers == old(self).max_peers,
            final(self).next_session_id == old(self).next_session_id,
    {
        proof {
            use_type_invariant(&*self);
        }
        let mut events: Vec<PeerEvent> = Vec::new();
        std::mem::swap(&mut events, &mut self.events);
        events.push(event);
        self.events = events;
    }

    fn allocate_session_id(&mut self) -> (r: Result<u64, PeerManagerError>)
        ensures
            old(self).next_session_id == u64::MAX ==> r == Err::<u64, PeerManagerError>(
                PeerManagerError::SessionIdOverflow,
            ) && *final(self) == *old(self),
            old(self).next_session_id < u64::MAX ==> r == Ok::<u64, PeerManagerError>(
                old(self).next_session_id,
            ) && final(self).next_session_id == old(self).next_session_id + 1
                && final(self).sessions == old(self).sessions && final(self).events == old(
                self,
            ).events && final(self).max_peers == old(self).max_peers,
    {
        proof {
            use_type_invariant(&*self);
        }
        let session_id = self.next_session_id;
        match self.next_session_id.checked_add(1) {
            Some(next) => {
                self.next_session_id = next;
                Ok(session_id)
            },
            None => Err(PeerManagerError::SessionIdOverflow),
        }
    }

    /// Disconnects `peer_id` as `disconnect_result` states; returns whether it
    /// had a session.
    pub fn disconnect(&mut self, peer_id: &PeerId) -> (r: bool)
        ensures
            final(self)@ == disconnect_result(old(self)@, *peer_id).0,
            r == disconnect_result(old(self)@, *peer_id).1,
            well_formed(final(self)@),
    {
        proof {
            use_type_invariant(&*self);
            lemma_disconnect_keeps_well_formed(self@, *peer_id);
        }
        let k = id16_key(peer_id);
        let mut sessions: BTreeMap<u128, PeerSession> = BTreeMap::new();
        proof {
            use_type_invariant(&*self);
            assert(sessions@.map_values(|s: PeerSession| s@) =~= Map::<u128, PeerSessionView>::empty());
            assert(sessions@.map_values(|s: PeerSession| s@).len() == 0);
        }
        std::mem::swap(&mut sessions, &mut self.sessions);
        let removed = match sessions.remove(&k) {
            Some(_) => true,
            None => false,
        };
        assert(sessions@.map_values(|s: PeerSession| s@) =~= old(self)@.sessions.remove(k));
        self.sessions = sessions;
        if removed {
            self.push_event(PeerEvent::Disconnected(*peer_id));
        }
        assert(self@ =~= disconnect_result(old(self)@, *peer_id).0);
        removed
    }

    /// The number of open sessions (never above the limit: every manager is
    /// well formed).
    pub fn peer_count(&self) -> (r: usize)
        ensures
            r == self@.sessions.len(),
            r <= self@.max_peers,
            well_formed(self@),
    {
        proof {
            use_type_invariant(self);
        }
        assert(self.sessions@.dom() =~= self@.sessions.dom());
        self.sessions.len()
    }

    /// The peer limit.
    pub fn max_peers(&self) -> (r: usize)
        ensures
            r == self@.max_peers,
    {
        self.max_peers
    }

    /// The peers with an open session, in increasing order of identifier key:
    /// one per session, each the peer of its session.
    pub fn connected_peers(&self) -> (r: Vec<PeerInfo>)
        ensures
            r@.len() == self@.sessions.len(),
            strictly_increasing(sorted_keys(self@.sessions.dom())),
            sorted_keys(self@.sessions.dom()).to_set() == self@.sessions.dom(),
            forall|i: int|
                0 <= i < r@.len() ==> #[trigger] r@[i]@ == self@.sessions[sorted_keys(
                    self@.sessions.dom(),
                )[i]].peer,
            forall|i: int|
                0 <= i < r@.len() ==> id16_key_of(#[trigger] r@[i].id) == sorted_keys(
                    self@.sessions.dom(),
                )[i],
    {
        proof {
            use_type_invariant(self);
        }
        let mut out: Vec<PeerInfo> = Vec::new();
        let values = self.sessions.values();
        let ghost ks = choose|ks: Seq<u128>|
            {
                &&& increasing_seq(ks)
                &&& ks.to_set() == self.sessions@.dom()
                &&& ks.no_duplicates()
                &&& values.remaining() == ks.map(|i: int, k: u128| &self.sessions@[k])
            };
        for s in it: values
            invariant
                out@.len() == it.index(),
                it.seq() == ks.map(|i: int, k: u128| &self.sessions@[k]),
                forall|i: int| 0 <= i < out@.len() ==> #[trigger] out@[i]@ == self.sessions@[ks[i]].peer@,
        {
            out.push(s.peer.clone());
        }
        proof {
            lemma_increasing_is_strict(ks);
            assert(self.sessions@.dom() =~= self@.sessions.dom());
            lemma_sorted_keys_unique(ks, self@.sessions.dom());
            assert forall|i: int| 0 <= i < out@.len() implies id16_key_of(#[trigger] out@[i].id)
                == sorted_keys(self@.sessions.dom())[i] by {
                let k = ks[i];
                assert(ks.to_set().contains(k));
                assert(self@.sessions.contains_key(k));
                assert(out@[i]@ == self@.sessions[k].peer);
            }
        }
        out
    }

    /// The session of `peer_id`, if any.
    pub fn session(&self, peer_id: &PeerId) -> (r: Option<&PeerSession>)
        ensures
            match r {
                Some(s) => self@.sessions.contains_key(id16_key_of(*peer_id)) && s@
                    == self@.sessions[id16_key_of(*peer_id)],
                None => !self@.sessions.contains_key(id16_key_of(*peer_id)),
            },
    {
        self.sessions.get(&id16_key(peer_id))
    }

    /// The event log, oldest first.
    pub fn events(&self) -> (r: &[PeerEvent])
        ensures
            r@ == self@.events,
    {
        self.events.as_slice()
    }

    /// Empties the event log.
    pub fn clear_events(&mut self)
        ensures
            final(self)@ == (PeerManagerView { events: Seq::empty(), ..old(self)@ }),
            well_formed(final(self)@),
    {
        proof {
            use_type_invariant(&*self);
        }
        let mut events: Vec<PeerEvent> = Vec::new();
        std::mem::swap(&mut events, &mut self.events);
        assert(self@ =~= (PeerManagerView { events: Seq::empty(), ..old(self)@ }));
    }
}

} // verus!

verus! {

/// Whether every open session's identifier is below the next one to hand out.
pub open spec fn session_ids_below_next(v: PeerManagerView) -> bool {
    forall|k: u128| #[trigger]
        v.sessions.contains_key(k) ==> v.sessions[k].session_id < v.next_session_id
}

/// Connecting never takes the number of sessions past the limit.
pub proof fn lemma_connect_respects_peer_limit(v: PeerManagerView, peer: PeerInfoView)
    requires
        v.sessions.dom().finite(),
        v.sessions.len() <= v.max_peers,
    ensures
        connect_result(v, peer).0.sessions.len() <= v.max_peers,
        connect_result(v, peer).0.sessions.dom().finite(),
{
    let k = id16_key_of(peer.id);
    if v.sessions.contains_key(k) {
        assert(v.sessions.insert(k, PeerSessionView { session_id: v.next_session_id, peer }).dom()
            =~= v.sessions.dom());
    }
}

/// A successful connection gives the peer the next session identifier, above
/// every other open session's, and keeps every session keyed by its peer.
pub proof fn lemma_connect_issues_fresh_session(v: PeerManagerView, peer: PeerInfoView)
    requires
        session_ids_below_next(v),
        PeerManager::keyed_by_peer(v),
        connect_result(v, peer).1 is Ok,
    ensures
        ({
            let w = connect_result(v, peer).0;
            &&& w.sessions[id16_key_of(peer.id)].session_id == v.next_session_id
            &&& w.sessions[id16_key_of(peer.id)].peer == peer
            &&& forall|k: u128|
                #[trigger] w.sessions.contains_key(k) && k != id16_key_of(peer.id)
                    ==> w.sessions[k].session_id < w.sessions[id16_key_of(peer.id)].session_id
            &&& session_ids_below_next(w)
            &&& PeerManager::keyed_by_peer(w)
        }),
{
}

/// Disconnecting keeps the bound on session identifiers and the keying.
pub proof fn lemma_disconnect_keeps_invariants(v: PeerManagerView, id: PeerId)
    requires
        session_ids_below_next(v),
        PeerManager::keyed_by_peer(v),
    ensures
        session_ids_below_next(disconnect_result(v, id).0),
        PeerManager::keyed_by_peer(disconnect_result(v, id).0),
{
}

/// A second disconnection of the same peer reports no session and changes nothing.
pub proof fn lemma_disconnect_is_idempotent(v: PeerManagerView, id: PeerId)
    ensures
        disconnect_result(disconnect_result(v, id).0, id) == (disconnect_result(v, id).0, false),
{
}

/// Connecting and disconnecting only append to the event log.
pub proof fn lemma_events_only_grow(v: PeerManagerView, peer: PeerInfoView, id: PeerId)
    ensures
        v.events.is_prefix_of(connect_result(v, peer).0.events),
        v.events.is_prefix_of(disconnect_result(v, id).0.events),
{
}


/// Whether session identifiers of different open sessions differ.
pub open spec fn session_ids_distinct(v: PeerManagerView) -> bool {
    forall|k1: u128, k2: u128|
        #[trigger] v.sessions.contains_key(k1) && #[trigger] v.sessions.contains_key(k2) && k1
            != k2 ==> v.sessions[k1].session_id != v.sessions[k2].session_id
}

/// The well-formedness every peer manager keeps: finitely many sessions, at
/// most the limit, each keyed by its own peer, with distinct identifiers
/// all below the next one to hand out.
pub open spec fn well_formed(v: PeerManagerView) -> bool {
    &&& v.sessions.dom().finite()
    &&& v.sessions.len() <= v.max_peers
    &&& PeerManager::keyed_by_peer(v)
    &&& session_ids_below_next(v)
    &&& session_ids_distinct(v)
}

/// Connecting keeps a manager well formed.
pub proof fn lemma_connect_keeps_well_formed(v: PeerManagerView, peer: PeerInfoView)
    requires
        well_formed(v),
    ensures
        well_formed(connect_result(v, peer).0),
{
    lemma_connect_respects_peer_limit(v, peer);
    if connect_result(v, peer).1 is Ok {
        lemma_connect_issues_fresh_session(v, peer);
        let w = connect_result(v, peer).0;
        let kp = id16_key_of(peer.id);
        assert forall|k1: u128, k2: u128|
            #[trigger] w.sessions.contains_key(k1) && #[trigger] w.sessions.contains_key(k2) && k1
                != k2 implies w.sessions[k1].session_id != w.sessions[k2].session_id by {
            if k1 == kp {
                assert(w.sessions[k2].session_id < w.sessions[kp].session_id);
            } else if k2 == kp {
                assert(w.sessions[k1].session_id < w.sessions[kp].session_id);
            } else {
                assert(v.sessions.contains_key(k1) && v.sessions.contains_key(k2));
            }
        }
    }
}

/// Disconnecting keeps a manager well formed.
pub proof fn lemma_disconnect_keeps_well_formed(v: PeerManagerView, id: PeerId)
    requires
        well_formed(v),
    ensures
        well_formed(disconnect_result(v, id).0),
{
    lemma_disconnect_keeps_invariants(v, id);
    let w = disconnect_result(v, id).0;
    assert forall|k1: u128, k2: u128|
        #[trigger] w.sessions.contains_key(k1) && #[trigger] w.sessions.contains_key(k2) && k1
            != k2 implies w.sessions[k1].session_id != w.sessions[k2].session_id by {
        assert(v.sessions.contains_key(k1) && v.sessions.contains_key(k2));
    }
}

} // verus!
