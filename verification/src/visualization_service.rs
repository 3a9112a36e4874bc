//! Collecting the network's topology.
//!
//! A collector node asks every node for its neighbours (`Scan`) once per
//! collection interval and reports which nodes joined, updated their
//! neighbour lists or left.  A node answers only collectors it trusts, one
//! answer at a time.  `VisualizationState` makes these decisions; the
//! service around it does the sending and the timing.
use std::collections::{BTreeMap, BTreeSet, VecDeque};
use vstd::prelude::*;

use crate::ordered::{keys_in_order, sorted_keys};
use crate::peer::{ConnectionId, PeerId};

verus! {

broadcast use vstd::std_specs::btree::group_btree_axioms, vstd::laws_cmp::group_laws_cmp,
    vstd::seq_lib::group_filter_ensures;

/// The interval used when none, or a zero one, is given.
pub const DEFAULT_COLLECT_INTERVAL_MS: u128 = 100_000;

pub const MAX_VISUALIZATION_REMOTE_PEERS: usize = 1024;

pub const MAX_TOPOLOGY_ROWS_PER_INFO: usize = 1024;

#[derive(Debug, PartialEq, Eq)]
pub enum VisualizationServiceEvent {
    PeerJoined(PeerId, Vec<(ConnectionId, PeerId, u16)>),
    PeerUpdated(PeerId, Vec<(ConnectionId, PeerId, u16)>),
    PeerLeaved(PeerId),
}

/// Whether a node last heard from at `last_updated` has timed out at `now`:
/// after two collection intervals.  A deadline beyond the last
/// representable time never passes.
pub open spec fn timed_out(now: u64, last_updated: u64, interval_ms: u128) -> bool {
    let doubled: int = if interval_ms * 2 > u128::MAX {
        u128::MAX as int
    } else {
        interval_ms * 2
    };
    doubled <= u64::MAX && last_updated + doubled <= u64::MAX && now >= last_updated + doubled
}

pub fn is_peer_timed_out(now: u64, last_updated: u64, interval_ms: u128) -> (r: bool)
    ensures
        r == timed_out(now, last_updated, interval_ms),
{
    let doubled: u128 = if interval_ms <= u128::MAX / 2 {
        interval_ms * 2
    } else {
        u128::MAX
    };
    if doubled > u64::MAX as u128 {
        return false;
    }
    match last_updated.checked_add(doubled as u64) {
        Some(deadline) => now >= deadline,
        None => false,
    }
}

pub struct VisualizationState {
    /// The nodes reported so far, with when each was last heard from.
    pub neighbours: BTreeMap<u64, u64>,
    pub trusted_scan_collectors: BTreeSet<u64>,
    /// Collectors whose scan is being answered.
    pub pending_scan_responses: BTreeSet<u64>,
    /// Nodes asked in the current collection that have not answered.
    pub pending_info_responders: BTreeSet<u64>,
    /// Set on a collector.
    pub collect_interval_ms: Option<u128>,
    pub collect_me: bool,
    pub outs: VecDeque<VisualizationServiceEvent>,
}

pub struct VisualizationView {
    pub neighbours: Map<u64, u64>,
    pub trusted_scan_collectors: Set<u64>,
    pub pending_scan_responses: Set<u64>,
    pub pending_info_responders: Set<u64>,
    pub collect_interval_ms: Option<u128>,
    pub collect_me: bool,
    pub outs: Seq<VisualizationServiceEvent>,
}

impl View for VisualizationState {
    type V = VisualizationView;

    open spec fn view(&self) -> VisualizationView {
        VisualizationView {
            neighbours: self.neighbours@,
            trusted_scan_collectors: self.trusted_scan_collectors@,
            pending_scan_responses: self.pending_scan_responses@,
            pending_info_responders: self.pending_info_responders@,
            collect_interval_ms: self.collect_interval_ms,
            collect_me: self.collect_me,
            outs: self.outs@,
        }
    }
}

/// The numbers of the nodes in `peers`.
pub open spec fn peer_set(peers: Seq<PeerId>) -> Set<u64> {
    peers.map_values(|p: PeerId| p.0).to_set()
}

pub open spec fn left_event() -> spec_fn(u64) -> VisualizationServiceEvent {
    |p: u64| VisualizationServiceEvent::PeerLeaved(PeerId(p))
}

impl VisualizationView {
    pub open spec fn initial(collect_interval_ms: Option<u128>, collect_me: bool, local: PeerId) -> VisualizationView {
        VisualizationView {
            neighbours: Map::empty(),
            trusted_scan_collectors: Set::empty(),
            pending_scan_responses: Set::empty(),
            pending_info_responders: Set::empty(),
            collect_interval_ms: match collect_interval_ms {
                Some(i) => Some(
                    if i == 0 {
                        DEFAULT_COLLECT_INTERVAL_MS
                    } else {
                        i
                    },
                ),
                None => None,
            },
            collect_me,
            outs: seq![],
        }
    }

    pub open spec fn push(self, e: VisualizationServiceEvent) -> VisualizationView {
        VisualizationView { outs: self.outs.push(e), ..self }
    }

    /// The nodes that have timed out at `now`, in order.
    pub open spec fn timed_out_peers(self, now: u64, interval_ms: u128) -> Seq<u64> {
        sorted_keys(self.neighbours.dom()).filter(|p: u64| timed_out(now, self.neighbours[p], interval_ms))
    }

    /// A collection tick of a collector: the local node's neighbours are
    /// reported when it collects itself, the connected nodes `conns` are
    /// the ones to answer, and the nodes that timed out leave, in order.
    pub open spec fn after_tick(
        self,
        now: u64,
        local: PeerId,
        local_neighbours: Vec<(ConnectionId, PeerId, u16)>,
        conns: Seq<PeerId>,
    ) -> VisualizationView {
        match self.collect_interval_ms {
            None => self,
            Some(i) => {
                let s = if self.collect_me {
                    self.push(VisualizationServiceEvent::PeerUpdated(local, local_neighbours))
                } else {
                    self
                };
                let gone = self.timed_out_peers(now, i);
                VisualizationView {
                    pending_info_responders: peer_set(conns),
                    neighbours: self.neighbours.remove_keys(gone.to_set()),
                    outs: s.outs + gone.map_values(left_event()),
                    ..s
                }
            },
        }
    }

    /// The neighbours of `from`: refreshed when it is known, added when
    /// there is room; an oversized list is dropped.
    pub open spec fn after_info(self, now: u64, from: u64, rows: Vec<(ConnectionId, PeerId, u16)>) -> VisualizationView {
        if rows@.len() > MAX_TOPOLOGY_ROWS_PER_INFO {
            self
        } else if self.neighbours.contains_key(from) {
            VisualizationView { neighbours: self.neighbours.insert(from, now), ..self }.push(
                VisualizationServiceEvent::PeerUpdated(PeerId(from), rows),
            )
        } else if self.neighbours.len() >= MAX_VISUALIZATION_REMOTE_PEERS {
            self
        } else {
            VisualizationView { neighbours: self.neighbours.insert(from, now), ..self }.push(
                VisualizationServiceEvent::PeerJoined(PeerId(from), rows),
            )
        }
    }

    /// An answer from `from`, taken only from a node asked in this
    /// collection, and only once.
    pub open spec fn after_answer(self, now: u64, from: u64, rows: Vec<(ConnectionId, PeerId, u16)>) -> VisualizationView {
        if self.pending_info_responders.contains(from) {
            VisualizationView {
                pending_info_responders: self.pending_info_responders.remove(from),
                ..self
            }.after_info(now, from, rows)
        } else {
            self
        }
    }

    /// Whether a scan from `from` is answered: it must come from a trusted
    /// collector whose last scan is not being answered still.
    pub open spec fn answers_scan(self, from: u64) -> bool {
        self.trusted_scan_collectors.contains(from) && !self.pending_scan_responses.contains(from)
    }

    pub open spec fn after_disconnect(self, peer: u64) -> VisualizationView {
        let s = VisualizationView {
            pending_info_responders: self.pending_info_responders.remove(peer),
            pending_scan_responses: self.pending_scan_responses.remove(peer),
            neighbours: self.neighbours.remove(peer),
            ..self
        };
        if self.neighbours.contains_key(peer) {
            s.push(VisualizationServiceEvent::PeerLeaved(PeerId(peer)))
        } else {
            s
        }
    }
}

/// The numbers of `peers`, as a set.
fn collect_peers(peers: &Vec<PeerId>) -> (r: BTreeSet<u64>)
    ensures
        r@ == peer_set(peers@),
{
    let mut r = BTreeSet::new();
    let mut i: usize = 0;
    while i < peers.len()
        invariant
            i <= peers@.len(),
            r@ == peer_set(peers@.take(i as int)),
        decreases peers@.len() - i,
    {
        let ghost before = peers@.take(i as int);
        r.insert(peers[i].0);
        proof {
            let after = peers@.take(i + 1);
            assert(after =~= before.push(peers@[i as int]));
            assert(after.map_values(|p: PeerId| p.0) =~= before.map_values(|p: PeerId| p.0).push(peers@[i as int].0));
            before.map_values(|p: PeerId| p.0).lemma_push_to_set_commute(peers@[i as int].0);
            assert(r@ =~= peer_set(after));
        }
        i = i + 1;
    }
    assert(peers@.take(peers@.len() as int) =~= peers@);
    r
}

impl VisualizationState {
    /// A node that collects when given an interval, and reports itself,
    /// as joined with no neighbours, when `collect_me`.
    pub fn new(collect_interval_ms: Option<u128>, collect_me: bool, local: PeerId) -> (s: VisualizationState)
        ensures
            s@ == (VisualizationView { outs: s@.outs, ..VisualizationView::initial(collect_interval_ms, collect_me, local) }),
            !collect_me ==> s@.outs.len() == 0,
            collect_me ==> s@.outs.len() == 1 && (s@.outs[0] matches VisualizationServiceEvent::PeerJoined(p, rows)
                && p == local && rows@.len() == 0),
    {
        let collect_interval_ms = match collect_interval_ms {
            Some(i) => Some(
                if i == 0 {
                    DEFAULT_COLLECT_INTERVAL_MS
                } else {
                    i
                },
            ),
            None => None,
        };
        let mut outs = VecDeque::new();
        if collect_me {
            outs.push_back(VisualizationServiceEvent::PeerJoined(local, Vec::new()));
        }
        let s = VisualizationState {
            neighbours: BTreeMap::new(),
            trusted_scan_collectors: BTreeSet::new(),
            pending_scan_responses: BTreeSet::new(),
            pending_info_responders: BTreeSet::new(),
            collect_interval_ms,
            collect_me,
            outs,
        };
        s
    }

    /// Only `collectors` are answered.
    pub fn with_trusted_scan_collectors(self, collectors: Vec<PeerId>) -> (s: VisualizationState)
        ensures
            s@ == (VisualizationView { trusted_scan_collectors: peer_set(collectors@), ..self@ }),
    {
        let mut s = self;
        s.trusted_scan_collectors = collect_peers(&collectors);
        s
    }

    /// A collection tick at `now`; returns whether this node collects, in
    /// which case a scan is to be broadcast.
    pub fn on_tick(
        &mut self,
        now: u64,
        local: PeerId,
        local_neighbours: Vec<(ConnectionId, PeerId, u16)>,
        conns: Vec<PeerId>,
    ) -> (collects: bool)
        ensures
            collects == old(self)@.collect_interval_ms is Some,
            final(self)@ == old(self)@.after_tick(now, local, local_neighbours, conns@),
    {
        let interval = match self.collect_interval_ms {
            Some(i) => i,
            None => {
                return false;
            },
        };
        let ghost s0 = self@;
        if self.collect_me {
            self.outs.push_back(VisualizationServiceEvent::PeerUpdated(local, local_neighbours));
        }
        self.pending_info_responders = collect_peers(&conns);
        let ghost s1 = self@;
        let keys = keys_in_order(&self.neighbours);
        let ghost pred = |p: u64| timed_out(now, s0.neighbours[p], interval);
        let mut i: usize = 0;
        while i < keys.len()
            invariant
                i <= keys@.len(),
                keys@ == sorted_keys(s0.neighbours.dom()),
                crate::ordered::lists_in_order(keys@, s0.neighbours.dom()),
                pred == (|p: u64| timed_out(now, s0.neighbours[p], interval)),
                self@ == (VisualizationView { neighbours: self@.neighbours, outs: self@.outs, ..s1 }),
                self@.neighbours == s0.neighbours.remove_keys(keys@.take(i as int).filter(pred).to_set()),
                self@.outs == s1.outs + keys@.take(i as int).filter(pred).map_values(left_event()),
            decreases keys@.len() - i,
        {
            let p = keys[i];
            let ghost done = keys@.take(i as int);
            proof {
                assert(keys@.take(i + 1) =~= done.push(p));
                done.lemma_filter_push(p, pred);
                assert(keys@.to_set().contains(p));
            }
            let last_updated = match self.neighbours.get(&p) {
                Some(t) => *t,
                None => 0,
            };
            proof {
                if done.filter(pred).contains(p) {
                    done.lemma_filter_contains_rev(pred, p);
                    let k = choose|k: int| 0 <= k < done.len() && done[k] == p;
                    assert(keys@[k] == keys@[i as int]);
                }
                assert(!done.filter(pred).to_set().contains(p));
                assert(self@.neighbours.contains_key(p));
            }
            if is_peer_timed_out(now, last_updated, interval) {
                self.neighbours.remove(&p);
                self.outs.push_back(VisualizationServiceEvent::PeerLeaved(PeerId(p)));
                proof {
                    let f1 = keys@.take(i + 1).filter(pred);
                    assert(f1 == done.filter(pred).push(p));
                    done.filter(pred).lemma_push_to_set_commute(p);
                    assert(self@.neighbours =~= s0.neighbours.remove_keys(f1.to_set()));
                    assert(f1.map_values(left_event()) =~= done.filter(pred).map_values(left_event()).push(
                        VisualizationServiceEvent::PeerLeaved(PeerId(p)),
                    ));
                    assert(self@.outs =~= s1.outs + f1.map_values(left_event()));
                }
            }
            i = i + 1;
        }
        assert(keys@.take(keys@.len() as int) =~= keys@);
        true
    }

    /// The neighbour list of `from`; see `VisualizationView::after_info`.
    fn on_info(&mut self, now: u64, from: u64, rows: Vec<(ConnectionId, PeerId, u16)>)
        ensures
            final(self)@ == old(self)@.after_info(now, from, rows),
    {
        if rows.len() > MAX_TOPOLOGY_ROWS_PER_INFO {
            return ;
        }
        if self.neighbours.contains_key(&from) {
            self.neighbours.insert(from, now);
            self.outs.push_back(VisualizationServiceEvent::PeerUpdated(PeerId(from), rows));
            return ;
        }
        if self.neighbours.len() >= MAX_VISUALIZATION_REMOTE_PEERS {
            return ;
        }
        self.neighbours.insert(from, now);
        self.outs.push_back(VisualizationServiceEvent::PeerJoined(PeerId(from), rows));
    }

    /// An answer from `from`; see `VisualizationView::after_answer`.
    pub fn on_answer(&mut self, now: u64, from: PeerId, rows: Vec<(ConnectionId, PeerId, u16)>)
        ensures
            final(self)@ == old(self)@.after_answer(now, from.0, rows),
    {
        if self.pending_info_responders.remove(&from.0) {
            self.on_info(now, from.0, rows);
        } else {
            assert(self@.pending_info_responders =~= old(self)@.pending_info_responders);
        }
    }

    /// A scan from `from`; returns whether to answer it with this node's
    /// neighbours, in which case the answer is under way until
    /// `on_scan_answered`.
    pub fn on_scan(&mut self, from: PeerId) -> (answer: bool)
        ensures
            answer == old(self)@.answers_scan(from.0),
            final(self)@ == (if answer {
                VisualizationView {
                    pending_scan_responses: old(self)@.pending_scan_responses.insert(from.0),
                    ..old(self)@
                }
            } else {
                old(self)@
            }),
    {
        if self.trusted_scan_collectors.contains(&from.0) && !self.pending_scan_responses.contains(&from.0) {
            self.pending_scan_responses.insert(from.0);
            true
        } else {
            false
        }
    }

    /// The answer to the scan of `peer` is done.
    pub fn on_scan_answered(&mut self, peer: PeerId)
        ensures
            final(self)@ == (VisualizationView {
                pending_scan_responses: old(self)@.pending_scan_responses.remove(peer.0),
                ..old(self)@
            }),
    {
        self.pending_scan_responses.remove(&peer.0);
    }

    pub fn on_peer_disconnected(&mut self, peer: PeerId)
        ensures
            final(self)@ == old(self)@.after_disconnect(peer.0),
    {
        self.pending_info_responders.remove(&peer.0);
        self.pending_scan_responses.remove(&peer.0);
        if self.neighbours.remove(&peer.0).is_some() {
            self.outs.push_back(VisualizationServiceEvent::PeerLeaved(peer));
        }
    }

    pub fn pop_out(&mut self) -> (e: Option<VisualizationServiceEvent>)
        ensures
            old(self)@.outs.len() == 0 ==> e is None && final(self)@ == old(self)@,
            old(self)@.outs.len() > 0 ==> e == Some(old(self)@.outs[0]) && final(self)@ == (VisualizationView {
                outs: old(self)@.outs.drop_first(),
                ..old(self)@
            }),
    {
        self.outs.pop_front()
    }
}

/// The collector keeps at most `MAX_VISUALIZATION_REMOTE_PEERS` nodes,
/// and takes an answer only from a node asked in the current collection,
/// once: an answer from any other node changes nothing.
pub proof fn law_answers_bounded_and_solicited(
    s: VisualizationView,
    now: u64,
    from: u64,
    rows: Vec<(ConnectionId, PeerId, u16)>,
)
    requires
        s.neighbours.dom().finite(),
        s.neighbours.len() <= MAX_VISUALIZATION_REMOTE_PEERS,
    ensures
        s.after_answer(now, from, rows).neighbours.len() <= MAX_VISUALIZATION_REMOTE_PEERS,
        !s.pending_info_responders.contains(from) ==> s.after_answer(now, from, rows) == s,
        s.pending_info_responders.contains(from) ==> !s.after_answer(
            now,
            from,
            rows,
        ).pending_info_responders.contains(from),
{
}

/// A node's topology is disclosed only to a trusted collector.
pub proof fn law_scan_needs_trust(s: VisualizationView, from: u64)
    ensures
        s.answers_scan(from) ==> s.trusted_scan_collectors.contains(from),
{
}

/// A node that answers keeps its place: an answer (within the row cap)
/// from a known node asked in this collection records the time of the
/// answer as when it was last heard from and reports its neighbours as
/// updated; so a collection tick that comes less than two intervals after
/// that answer neither drops the node nor reports it as left.
pub proof fn law_answer_refreshes_known_node(
    s: VisualizationView,
    now: u64,
    from: u64,
    rows: Vec<(ConnectionId, PeerId, u16)>,
    later: u64,
    local: PeerId,
    local_neighbours: Vec<(ConnectionId, PeerId, u16)>,
    conns: Seq<PeerId>,
)
    requires
        s.pending_info_responders.contains(from),
        s.neighbours.contains_key(from),
        rows@.len() <= MAX_TOPOLOGY_ROWS_PER_INFO,
        s.neighbours.dom().finite(),
    ensures
        ({
            let s2 = s.after_answer(now, from, rows);
            &&& s2.neighbours.contains_key(from)
            &&& s2.neighbours[from] == now
            &&& s2.outs == s.outs.push(VisualizationServiceEvent::PeerUpdated(PeerId(from), rows))
            &&& (s.collect_interval_ms matches Some(i) && !timed_out(later, now, i)) ==> {
                let s3 = s2.after_tick(later, local, local_neighbours, conns);
                &&& s3.neighbours.contains_key(from)
                &&& s3.neighbours[from] == now
                &&& !s3.outs.subrange(s2.outs.len() as int, s3.outs.len() as int).contains(
                    VisualizationServiceEvent::PeerLeaved(PeerId(from)),
                )
            }
        }),
{
    let s2 = s.after_answer(now, from, rows);
    if let Some(i) = s.collect_interval_ms {
        if !timed_out(later, now, i) {
            let gone = s2.timed_out_peers(later, i);
            let keys = sorted_keys(s2.neighbours.dom());
            let pred = |p: u64| timed_out(later, s2.neighbours[p], i);
            assert(gone == keys.filter(pred));
            assert(!gone.contains(from)) by {
                if gone.contains(from) {
                    let j = choose|j: int| 0 <= j < gone.len() && gone[j] == from;
                    assert(pred(gone[j]));
                }
            }
            assert(!gone.to_set().contains(from));
            let s3 = s2.after_tick(later, local, local_neighbours, conns);
            let base = if s2.collect_me {
                s2.outs.push(VisualizationServiceEvent::PeerUpdated(local, local_neighbours))
            } else {
                s2.outs
            };
            let tail = s3.outs.subrange(s2.outs.len() as int, s3.outs.len() as int);
            assert(s3.outs == base + gone.map_values(left_event()));
            assert forall|j: int| 0 <= j < tail.len() implies tail[j] != VisualizationServiceEvent::PeerLeaved(
                PeerId(from),
            ) by {
                let idx = s2.outs.len() + j;
                if idx >= base.len() {
                    let g = idx - base.len();
                    assert(s3.outs[idx] == left_event()(gone[g]));
                    assert(gone[g] != from);
                }
            }
        }
    }
}

/// An answer (within the row cap) from a node asked in this collection
/// that the collector does not know yet, when there is room, adds the node
/// as last heard from at the time of the answer and reports it as joined;
/// an oversized answer changes nothing but the list of nodes still to
/// answer.
pub proof fn law_answer_from_new_node(s: VisualizationView, now: u64, from: u64, rows: Vec<(ConnectionId, PeerId, u16)>)
    requires
        s.pending_info_responders.contains(from),
        s.neighbours.dom().finite(),
    ensures
        !s.neighbours.contains_key(from) && s.neighbours.len() < MAX_VISUALIZATION_REMOTE_PEERS
            && rows@.len() <= MAX_TOPOLOGY_ROWS_PER_INFO ==> {
            let s2 = s.after_answer(now, from, rows);
            &&& s2.neighbours == s.neighbours.insert(from, now)
            &&& s2.outs == s.outs.push(VisualizationServiceEvent::PeerJoined(PeerId(from), rows))
        },
        rows@.len() > MAX_TOPOLOGY_ROWS_PER_INFO ==> {
            let s2 = s.after_answer(now, from, rows);
            &&& s2.neighbours == s.neighbours
            &&& s2.outs == s.outs
        },
{
}

/// A collection tick drops exactly the nodes not heard from for two
/// collection intervals, and reports each of them as left; the others stay
/// with their times.
pub proof fn law_tick_times_out_silent_nodes(
    s: VisualizationView,
    now: u64,
    local: PeerId,
    local_neighbours: Vec<(ConnectionId, PeerId, u16)>,
    conns: Seq<PeerId>,
    p: u64,
)
    requires
        s.neighbours.dom().finite(),
        s.collect_interval_ms is Some,
    ensures
        ({
            let i = s.collect_interval_ms.unwrap();
            let s2 = s.after_tick(now, local, local_neighbours, conns);
            let added = s2.outs.subrange(s.outs.len() as int, s2.outs.len() as int);
            &&& s2.outs.len() >= s.outs.len()
            &&& s2.neighbours.contains_key(p) == (s.neighbours.contains_key(p) && !timed_out(now, s.neighbours[p], i))
            &&& s2.neighbours.contains_key(p) ==> s2.neighbours[p] == s.neighbours[p]
            &&& added.contains(VisualizationServiceEvent::PeerLeaved(PeerId(p))) == (s.neighbours.contains_key(p)
                && timed_out(now, s.neighbours[p], i))
        }),
{
    let i = s.collect_interval_ms.unwrap();
    let keys = sorted_keys(s.neighbours.dom());
    crate::ordered::lemma_sorted_keys_exists(s.neighbours.dom());
    let pred = |q: u64| timed_out(now, s.neighbours[q], i);
    let gone = s.timed_out_peers(now, i);
    assert(gone == keys.filter(pred));
    assert(gone.contains(p) == (s.neighbours.contains_key(p) && timed_out(now, s.neighbours[p], i))) by {
        if gone.contains(p) {
            keys.lemma_filter_contains_rev(pred, p);
            let j = choose|j: int| 0 <= j < gone.len() && gone[j] == p;
            assert(pred(gone[j]));
            assert(keys.to_set().contains(p));
        }
        if s.neighbours.contains_key(p) && timed_out(now, s.neighbours[p], i) {
            assert(keys.to_set().contains(p));
            let j = choose|j: int| 0 <= j < keys.len() && keys[j] == p;
            assert(pred(keys[j]));
        }
    }
    assert(gone.to_set().contains(p) == gone.contains(p));
    let s2 = s.after_tick(now, local, local_neighbours, conns);
    let base = if s.collect_me {
        s.outs.push(VisualizationServiceEvent::PeerUpdated(local, local_neighbours))
    } else {
        s.outs
    };
    let lefts = gone.map_values(left_event());
    assert(s2.outs == base + lefts);
    let added = s2.outs.subrange(s.outs.len() as int, s2.outs.len() as int);
    let ev = VisualizationServiceEvent::PeerLeaved(PeerId(p));
    if gone.contains(p) {
        let j = choose|j: int| 0 <= j < gone.len() && gone[j] == p;
        assert(added[base.len() - s.outs.len() + j] == ev);
    } else {
        assert forall|j: int| 0 <= j < added.len() implies added[j] != ev by {
            let idx = s.outs.len() + j;
            if idx >= base.len() {
                assert(s2.outs[idx] == lefts[idx - base.len()]);
            }
        }
    }
}

} // verus!
