//! Collecting connection metrics.
//!
//! A collector reports its own connections' metrics on each tick and asks
//! every node for theirs (`Scan`); it takes one answer per asked node per
//! round.  A node answers only collectors it trusts, one answer at a time.
//! `MetricsState` makes these decisions; the service around it does the
//! sending and the timing.
use std::collections::{BTreeSet, VecDeque};
use vstd::prelude::*;

use crate::peer::{ConnectionId, PeerConnectionMetric, PeerId};

verus! {

broadcast use vstd::std_specs::btree::group_btree_axioms, vstd::laws_cmp::group_laws_cmp;

/// The collection interval, in seconds, used when none or a zero one is given.
pub const DEFAULT_COLLECTOR_INTERVAL: u64 = 1;

pub const MAX_METRICS_PER_INFO: usize = 1024;

#[derive(Debug, PartialEq, Eq)]
pub enum MetricsServiceEvent {
    OnPeerConnectionMetric(PeerId, Vec<(ConnectionId, PeerId, PeerConnectionMetric)>),
}

pub struct MetricsState {
    pub is_collector: bool,
    pub trusted_scan_collectors: BTreeSet<u64>,
    /// Collectors whose scan is being answered.
    pub pending_scan_responses: BTreeSet<u64>,
    /// Nodes asked in the current round that have not answered.
    pub pending_info_responders: BTreeSet<u64>,
    pub outs: VecDeque<MetricsServiceEvent>,
}

pub struct MetricsView {
    pub is_collector: bool,
    pub trusted_scan_collectors: Set<u64>,
    pub pending_scan_responses: Set<u64>,
    pub pending_info_responders: Set<u64>,
    pub outs: Seq<MetricsServiceEvent>,
}

impl View for MetricsState {
    type V = MetricsView;

    open spec fn view(&self) -> MetricsView {
        MetricsView {
            is_collector: self.is_collector,
            trusted_scan_collectors: self.trusted_scan_collectors@,
            pending_scan_responses: self.pending_scan_responses@,
            pending_info_responders: self.pending_info_responders@,
            outs: self.outs@,
        }
    }
}

/// The numbers of the nodes in `peers`.
pub open spec fn peer_numbers(peers: Seq<PeerId>) -> Set<u64> {
    peers.map_values(|p: PeerId| p.0).to_set()
}

impl MetricsView {
    /// A collector's tick: its own metrics are reported and the connected
    /// nodes `conns` are the ones to answer this round.
    pub open spec fn after_tick(
        self,
        local: PeerId,
        metrics: Vec<(ConnectionId, PeerId, PeerConnectionMetric)>,
        conns: Seq<PeerId>,
    ) -> MetricsView {
        if self.is_collector {
            MetricsView {
                pending_info_responders: peer_numbers(conns),
                outs: self.outs.push(MetricsServiceEvent::OnPeerConnectionMetric(local, metrics)),
                ..self
            }
        } else {
            self
        }
    }

    /// Metrics from `from`: taken by a collector from a node asked this
    /// round, once; an oversized batch is dropped.
    pub open spec fn after_info(self, from: u64, metrics: Vec<(ConnectionId, PeerId, PeerConnectionMetric)>) -> MetricsView {
        if self.is_collector && self.pending_info_responders.contains(from) {
            let s = MetricsView { pending_info_responders: self.pending_info_responders.remove(from), ..self };
            if metrics@.len() > MAX_METRICS_PER_INFO {
                s
            } else {
                MetricsView {
                    outs: s.outs.push(MetricsServiceEvent::OnPeerConnectionMetric(PeerId(from), metrics)),
                    ..s
                }
            }
        } else {
            self
        }
    }

    /// Whether a scan from `from` is answered: not by a collector, and only
    /// to a trusted collector whose last scan is not being answered still.
    pub open spec fn answers_scan(self, from: u64) -> bool {
        !self.is_collector && self.trusted_scan_collectors.contains(from) && !self.pending_scan_responses.contains(
            from,
        )
    }
}

/// The numbers of `peers`, as a set.
fn number_set(peers: &Vec<PeerId>) -> (r: BTreeSet<u64>)
    ensures
        r@ == peer_numbers(peers@),
{
    let mut r = BTreeSet::new();
    let mut i: usize = 0;
    while i < peers.len()
        invariant
            i <= peers@.len(),
            r@ == peer_numbers(peers@.take(i as int)),
        decreases peers@.len() - i,
    {
        let ghost before = peers@.take(i as int);
        r.insert(peers[i].0);
        proof {
            let after = peers@.take(i + 1);
            assert(after =~= before.push(peers@[i as int]));
            assert(after.map_values(|p: PeerId| p.0) =~= before.map_values(|p: PeerId| p.0).push(peers@[i as int].0));
            before.map_values(|p: PeerId| p.0).lemma_push_to_set_commute(peers@[i as int].0);
            assert(r@ =~= peer_numbers(after));
        }
        i = i + 1;
    }
    assert(peers@.take(peers@.len() as int) =~= peers@);
    r
}

impl MetricsState {
    pub fn new(is_collector: bool) -> (s: MetricsState)
        ensures
            s@ == (MetricsView {
                is_collector,
                trusted_scan_collectors: Set::empty(),
                pending_scan_responses: Set::empty(),
                pending_info_responders: Set::empty(),
                outs: seq![],
            }),
    {
        let s = MetricsState {
            is_collector,
            trusted_scan_collectors: BTreeSet::new(),
            pending_scan_responses: BTreeSet::new(),
            pending_info_responders: BTreeSet::new(),
            outs: VecDeque::new(),
        };
        assert(s@.outs =~= seq![]);
        s
    }

    /// Only `collectors` are answered.
    pub fn with_trusted_scan_collectors(self, collectors: Vec<PeerId>) -> (s: MetricsState)
        ensures
            s@ == (MetricsView { trusted_scan_collectors: peer_numbers(collectors@), ..self@ }),
    {
        let mut s = self;
        s.trusted_scan_collectors = number_set(&collectors);
        s
    }

    /// A tick; returns whether this node collects, in which case a scan is
    /// to be broadcast.
    pub fn on_tick(
        &mut self,
        local: PeerId,
        metrics: Vec<(ConnectionId, PeerId, PeerConnectionMetric)>,
        conns: Vec<PeerId>,
    ) -> (collects: bool)
        ensures
            collects == old(self)@.is_collector,
            final(self)@ == old(self)@.after_tick(local, metrics, conns@),
    {
        if !self.is_collector {
            return false;
        }
        self.pending_info_responders = number_set(&conns);
        self.outs.push_back(MetricsServiceEvent::OnPeerConnectionMetric(local, metrics));
        true
    }

    /// Metrics sent by `from`; see `MetricsView::after_info`.
    pub fn on_info(&mut self, from: PeerId, metrics: Vec<(ConnectionId, PeerId, PeerConnectionMetric)>)
        ensures
            final(self)@ == old(self)@.after_info(from.0, metrics),
    {
        if !self.is_collector || !self.pending_info_responders.contains(&from.0) {
            return ;
        }
        self.pending_info_responders.remove(&from.0);
        if metrics.len() <= MAX_METRICS_PER_INFO {
            self.outs.push_back(MetricsServiceEvent::OnPeerConnectionMetric(from, metrics));
        }
    }

    /// A scan from `from`; returns whether to answer it with this node's
    /// metrics, in which case the answer is under way until
    /// `on_scan_answered`.
    pub fn on_scan(&mut self, from: PeerId) -> (answer: bool)
        ensures
            answer == old(self)@.answers_scan(from.0),
            final(self)@ == (if answer {
                MetricsView { pending_scan_responses: old(self)@.pending_scan_responses.insert(from.0), ..old(self)@ }
            } else {
                old(self)@
            }),
    {
        if self.is_collector || !self.trusted_scan_collectors.contains(&from.0) || self.pending_scan_responses.contains(
            &from.0,
        ) {
            return false;
        }
        self.pending_scan_responses.insert(from.0);
        true
    }

    /// The answer to the scan of `peer` is done.
    pub fn on_scan_answered(&mut self, peer: PeerId)
        ensures
            final(self)@ == (MetricsView {
                pending_scan_responses: old(self)@.pending_scan_responses.remove(peer.0),
                ..old(self)@
            }),
    {
        self.pending_scan_responses.remove(&peer.0);
    }

    pub fn pop_out(&mut self) -> (e: Option<MetricsServiceEvent>)
        ensures
            old(self)@.outs.len() == 0 ==> e is None && final(self)@ == old(self)@,
            old(self)@.outs.len() > 0 ==> e == Some(old(self)@.outs[0]) && final(self)@ == (MetricsView {
                outs: old(self)@.outs.drop_first(),
                ..old(self)@
            }),
    {
        self.outs.pop_front()
    }
}

/// A collector takes metrics only from a node asked this round, once: an
/// answer from any other node, or to a non-collector, changes nothing.
pub proof fn law_metrics_solicited(s: MetricsView, from: u64, metrics: Vec<(ConnectionId, PeerId, PeerConnectionMetric)>)
    ensures
        !(s.is_collector && s.pending_info_responders.contains(from)) ==> s.after_info(from, metrics) == s,
        !s.after_info(from, metrics).pending_info_responders.contains(from) || !(s.is_collector
            && s.pending_info_responders.contains(from)),
{
}

/// A node's metrics are disclosed only to a trusted collector, and never by
/// a collector.
pub proof fn law_metrics_scan_needs_trust(s: MetricsView, from: u64)
    ensures
        s.answers_scan(from) ==> s.trusted_scan_collectors.contains(from) && !s.is_collector,
{
}

} // verus!
