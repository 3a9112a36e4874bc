//! A key-value store replicated to every node.
//!
//! Each node owns the keys it sets and broadcasts its changes; every other
//! node keeps a replica of them, so that all data can be read at local speed.
//! When a node disconnects or stays silent for too long, its data is deleted
//! everywhere else.
//!
//! `ReplicatedKvStore` holds the local store and one replica per remote node,
//! and collects what they emit in one bounded queue: network messages to send
//! and `KvEvent`s for the application.
use std::collections::{BTreeMap, VecDeque};
use vstd::prelude::*;

pub mod local_storage;
pub mod messages;
pub mod convergence;
pub mod properties;
pub mod remote_storage;

use crate::system::{now_ms, random_u64};
use crate::ordered::{keys_in_order, sorted_keys};
use local_storage::{LocalStore, LocalStoreView};
use messages::{events_view, BroadcastEvent, Event, EventView, NetEvent, NetEventView, RpcEventData, RpcEventDataView};
use remote_storage::{RemoteStore, RemoteStoreView};

pub use messages::KvEvent;

verus! {

broadcast use vstd::std_specs::btree::group_btree_axioms, vstd::laws_cmp::group_laws_cmp;

/// A remote node silent for this long is dropped.
pub const REMOTE_TIMEOUT_MS: u64 = 10_000;

/// The queue of outgoing events keeps at most this many, dropping the oldest.
pub const MAX_PENDING_OUT_EVENTS: u64 = 1024;

/// At most this many remote nodes are followed.
pub const MAX_REMOTE_STORES: u64 = 1024;

/// `e` queued after `outs`, the oldest event dropped when the queue is full.
pub open spec fn push_bounded(outs: Seq<EventView>, e: EventView) -> Seq<EventView> {
    if outs.len() >= MAX_PENDING_OUT_EVENTS {
        outs.drop_first().push(e)
    } else {
        outs.push(e)
    }
}

/// Each of `es` queued in turn after `outs`.
pub open spec fn push_all_bounded(outs: Seq<EventView>, es: Seq<EventView>) -> Seq<EventView>
    decreases es.len(),
{
    if es.len() == 0 {
        outs
    } else {
        push_bounded(push_all_bounded(outs, es.drop_last()), es.last())
    }
}

/// The queue never grows past its bound.
pub proof fn lemma_push_all_bounded_len(outs: Seq<EventView>, es: Seq<EventView>)
    requires
        outs.len() <= MAX_PENDING_OUT_EVENTS,
    ensures
        push_all_bounded(outs, es).len() <= MAX_PENDING_OUT_EVENTS,
    decreases es.len(),
{
    if es.len() > 0 {
        lemma_push_all_bounded_len(outs, es.drop_last());
    }
}

/// Whether the remote node behind `r` has been silent too long at `now`.
pub open spec fn timed_out(r: RemoteStoreView, now: u64) -> bool {
    now >= r.last_active + REMOTE_TIMEOUT_MS
}

/// The session a message was sent in.
pub open spec fn session_of(event: NetEventView) -> u64 {
    match event {
        NetEventView::Broadcast(b) => b.session_id,
        NetEventView::Unicast(_, rpc) => rpc.session_id,
    }
}

pub struct ReplicatedKvStore {
    pub remotes: BTreeMap<u64, RemoteStore>,
    pub local: LocalStore,
    pub outs: VecDeque<Event>,
}

pub struct ReplicatedView {
    pub remotes: Map<u64, RemoteStoreView>,
    pub local: LocalStoreView,
    pub outs: Seq<EventView>,
}

impl View for ReplicatedKvStore {
    type V = ReplicatedView;

    open spec fn view(&self) -> ReplicatedView {
        ReplicatedView {
            remotes: self.remotes@.map_values(|r: RemoteStore| r@),
            local: self.local@,
            outs: events_view(self.outs@),
        }
    }
}

impl ReplicatedView {
    /// The parts are well formed, have handed over everything they emitted,
    /// and the queue is within its bound.
    pub open spec fn wf(self) -> bool {
        &&& self.local.wf()
        &&& self.local.outs.len() == 0
        &&& self.remotes.dom().finite()
        &&& self.remotes.len() <= MAX_REMOTE_STORES
        &&& forall|k: u64| #[trigger]
            self.remotes.contains_key(k) ==> self.remotes[k].wf() && self.remotes[k].ctx.outs.len() == 0
                && self.remotes[k].ctx.remote == k
        &&& self.outs.len() <= MAX_PENDING_OUT_EVENTS
    }

    /// The local store changed to `local`; what it emitted is queued.
    pub open spec fn take_local(self, local: LocalStoreView) -> ReplicatedView {
        ReplicatedView {
            local: local.with_outs(seq![]),
            outs: push_all_bounded(self.outs, local.outs),
            ..self
        }
    }

    /// The replica of `k` changed to `r`; what it emitted is queued.
    pub open spec fn take_remote(self, k: u64, r: RemoteStoreView) -> ReplicatedView {
        ReplicatedView {
            remotes: self.remotes.insert(k, r.with_outs(seq![])),
            outs: push_all_bounded(self.outs, r.ctx.outs),
            ..self
        }
    }

    /// The replica of `k` is dropped after `r` emitted its last events.
    pub open spec fn drop_remote(self, k: u64, r: RemoteStoreView) -> ReplicatedView {
        ReplicatedView { remotes: self.remotes.remove(k), outs: push_all_bounded(self.outs, r.ctx.outs), ..self }
    }

    /// Drops, among the replicas of `keys`, those timed out at `now`, each
    /// deleting its data, in the order of `keys`.
    pub open spec fn cleanup_keys(self, now: u64, keys: Seq<u64>) -> ReplicatedView
        decreases keys.len(),
    {
        if keys.len() == 0 {
            self
        } else {
            let s = self.cleanup_keys(now, keys.drop_last());
            let k = keys.last();
            if s.remotes.contains_key(k) && timed_out(s.remotes[k], now) {
                s.drop_remote(k, s.remotes[k].after_destroy())
            } else {
                s
            }
        }
    }

    /// Drops the replicas timed out at `now`, in key order.
    pub open spec fn cleanup(self, now: u64) -> ReplicatedView {
        self.cleanup_keys(now, sorted_keys(self.remotes.dom()))
    }

    /// Ticks the replicas of `keys`, in the order of `keys`.
    pub open spec fn tick_keys(self, now: u64, keys: Seq<u64>) -> ReplicatedView
        decreases keys.len(),
    {
        if keys.len() == 0 {
            self
        } else {
            let s = self.tick_keys(now, keys.drop_last());
            let k = keys.last();
            if s.remotes.contains_key(k) {
                s.take_remote(k, s.remotes[k].after_tick(now))
            } else {
                s
            }
        }
    }

    /// A tick at `now`: the local node broadcasts its version, silent
    /// replicas are dropped, and the others resend overdue requests.
    pub open spec fn after_tick(self, now: u64) -> ReplicatedView {
        let s1 = self.take_local(self.local.after_tick());
        let s2 = s1.cleanup(now);
        s2.tick_keys(now, sorted_keys(s2.remotes.dom()))
    }

    pub open spec fn after_set(self, key: u64, value: u64) -> ReplicatedView {
        self.take_local(self.local.after_set(key, value))
    }

    pub open spec fn after_del(self, key: u64) -> ReplicatedView {
        self.take_local(self.local.after_del(key))
    }

    /// A message from `from` at `now`.  An answer from a node that is not
    /// followed is ignored.  Any other message from such a node starts a
    /// replica of it, unless the limit of followed nodes is reached even
    /// after dropping the silent ones, in which case the message is ignored.
    /// Then a broadcast or an answer goes to the replica, and a request goes
    /// to the local store, which answers it.
    pub open spec fn after_remote_event(self, now: u64, from: u64, event: NetEventView) -> ReplicatedView {
        let unknown = !self.remotes.contains_key(from);
        let is_answer = match event {
            NetEventView::Unicast(_, rpc) => rpc.data is RpcRes,
            _ => false,
        };
        if unknown && is_answer {
            self
        } else {
            let s1 = if unknown && self.remotes.len() >= MAX_REMOTE_STORES {
                self.cleanup(now)
            } else {
                self
            };
            if unknown && s1.remotes.len() >= MAX_REMOTE_STORES {
                s1
            } else {
                let s2 = if unknown {
                    s1.take_remote(
                        from,
                        RemoteStoreView::created(from, s1.local.session_id, session_of(event), now),
                    )
                } else {
                    s1
                };
                match event {
                    NetEventView::Broadcast(b) => s2.take_remote(from, s2.remotes[from].after_broadcast(now, b)),
                    NetEventView::Unicast(_, rpc) => match rpc.data {
                        RpcEventDataView::RpcReq(req) => s2.take_local(s2.local.after_rpc_req(from, req)),
                        RpcEventDataView::RpcRes(res) => s2.take_remote(
                            from,
                            s2.remotes[from].after_rpc_res(now, res),
                        ),
                    },
                }
            }
        }
    }

    /// The replica of `peer`, if followed, is dropped and its data deleted.
    pub open spec fn after_peer_disconnected(self, peer: u64) -> ReplicatedView {
        if self.remotes.contains_key(peer) {
            self.drop_remote(peer, self.remotes[peer].after_destroy())
        } else {
            self
        }
    }
}


impl ReplicatedKvStore {
    pub open spec fn wf(&self) -> bool {
        self@.wf()
    }

    /// A store whose local node takes a random session id.
    pub fn new(max_changeds: usize, max_compose_pkts: usize) -> (s: ReplicatedKvStore)
        ensures
            s.wf(),
            s@ == (ReplicatedView {
                remotes: Map::empty(),
                local: LocalStoreView::initial(s@.local.session_id, max_changeds, max_compose_pkts),
                outs: seq![],
            }),
    {
        Self::with_session(random_u64(), max_changeds, max_compose_pkts)
    }

    /// A store whose local node has session `session_id`.
    pub fn with_session(session_id: u64, max_changeds: usize, max_compose_pkts: usize) -> (s:
        ReplicatedKvStore)
        ensures
            s.wf(),
            s@ == (ReplicatedView {
                remotes: Map::empty(),
                local: LocalStoreView::initial(session_id, max_changeds, max_compose_pkts),
                outs: seq![],
            }),
    {
        let s = ReplicatedKvStore {
            remotes: BTreeMap::new(),
            local: LocalStore::new(session_id, max_changeds, max_compose_pkts),
            outs: VecDeque::new(),
        };
        assert(s@.remotes =~= Map::empty());
        assert(s@.outs =~= seq![]);
        s
    }

    fn push_out(outs: &mut VecDeque<Event>, event: Event)
        ensures
            events_view(final(outs)@) == push_bounded(events_view(old(outs)@), event@),
    {
        if outs.len() >= MAX_PENDING_OUT_EVENTS as usize {
            outs.pop_front();
        }
        outs.push_back(event);
        proof {
            if old(outs)@.len() >= MAX_PENDING_OUT_EVENTS {
                assert(events_view(outs@) =~= events_view(old(outs)@).drop_first().push(event@));
            } else {
                assert(events_view(outs@) =~= events_view(old(outs)@).push(event@));
            }
        }
    }

    /// Queues what the local store emitted.
    fn drain_local(&mut self)
        requires
            old(self).local.wf(),
        ensures
            final(self).local@ == old(self).local@.with_outs(seq![]),
            events_view(final(self).outs@) == push_all_bounded(events_view(old(self).outs@), old(self).local@.outs),
            final(self).remotes == old(self).remotes,
            old(self).outs@.len() <= MAX_PENDING_OUT_EVENTS ==> final(self).outs@.len() <= MAX_PENDING_OUT_EVENTS,
    {
        proof {
            if old(self).outs@.len() <= MAX_PENDING_OUT_EVENTS {
                lemma_push_all_bounded_len(events_view(old(self).outs@), old(self).local@.outs);
            }
        }
        let ghost es = self.local@.outs;
        let ghost l0 = self.local@;
        let ghost o0 = events_view(self.outs@);
        let mut remaining = self.local.outs.len();
        assert(es.len() == remaining);
        assert(es.skip(0) =~= es);
        assert(es.take(0) =~= seq![]);
        while remaining > 0
            invariant
                self.local.wf(),
                remaining <= es.len(),
                self.local@ == l0.with_outs(es.skip(es.len() - remaining)),
                events_view(self.outs@) == push_all_bounded(o0, es.take(es.len() - remaining)),
                self.remotes == old(self).remotes,
            decreases remaining,
        {
            let ghost i = es.len() - remaining;
            assert(es.take(i + 1).drop_last() =~= es.take(i));
            match self.local.pop_out() {
                Some(e) => Self::push_out(&mut self.outs, e),
                None => {},
            }
            assert(es.skip(i).drop_first() =~= es.skip(i + 1));
            remaining = remaining - 1;
        }
        assert(es.take(es.len() as int) =~= es);
        assert(es.skip(es.len() as int) =~= seq![]);
    }

    /// Queues what a replica emitted.
    fn drain_remote(outs: &mut VecDeque<Event>, remote: &mut RemoteStore)
        requires
            old(remote).wf(),
        ensures
            final(remote).wf(),
            final(remote)@ == old(remote)@.with_outs(seq![]),
            events_view(final(outs)@) == push_all_bounded(events_view(old(outs)@), old(remote)@.ctx.outs),
            old(outs)@.len() <= MAX_PENDING_OUT_EVENTS ==> final(outs)@.len() <= MAX_PENDING_OUT_EVENTS,
    {
        proof {
            if old(outs)@.len() <= MAX_PENDING_OUT_EVENTS {
                lemma_push_all_bounded_len(events_view(old(outs)@), old(remote)@.ctx.outs);
            }
        }
        let ghost es = remote@.ctx.outs;
        let ghost r0 = remote@;
        let ghost o0 = events_view(outs@);
        let mut remaining = remote.ctx.outs.len();
        assert(es.len() == remaining);
        assert(es.skip(0) =~= es);
        assert(es.take(0) =~= seq![]);
        assert(r0.with_outs(es).ctx =~= r0.ctx);
        while remaining > 0
            invariant
                remote.wf(),
                remaining <= es.len(),
                remote@ == r0.with_outs(es.skip(es.len() - remaining)),
                events_view(outs@) == push_all_bounded(o0, es.take(es.len() - remaining)),
            decreases remaining,
        {
            let ghost i = es.len() - remaining;
            assert(es.take(i + 1).drop_last() =~= es.take(i));
            match remote.pop_out() {
                Some(e) => Self::push_out(outs, e),
                None => {},
            }
            assert(es.skip(i).drop_first() =~= es.skip(i + 1));
            remaining = remaining - 1;
        }
        assert(es.take(es.len() as int) =~= es);
        assert(es.skip(es.len() as int) =~= seq![]);
        assert(r0.with_outs(seq![]).ctx =~= remote@.ctx);
    }

    pub fn set(&mut self, key: u64, value: u64)
        requires
            old(self).wf(),
        ensures
            final(self).wf(),
            final(self)@ == old(self)@.after_set(key, value),
    {
        self.local.set(key, value);
        self.drain_local();
    }

    pub fn del(&mut self, key: u64)
        requires
            old(self).wf(),
        ensures
            final(self).wf(),
            final(self)@ == old(self)@.after_del(key),
    {
        self.local.del(key);
        self.drain_local();
    }

    /// The keys of the followed nodes, in increasing order.
    fn remote_keys(&self) -> (keys: Vec<u64>)
        ensures
            keys@ == sorted_keys(self@.remotes.dom()),
    {
        let keys = keys_in_order(&self.remotes);
        assert(self@.remotes.dom() =~= self.remotes@.dom());
        keys
    }

    /// Drops the replicas of nodes silent too long at `now`, deleting their
    /// data.
    fn cleanup_timed_out_remotes(&mut self, now: u64)
        requires
            old(self).wf(),
        ensures
            final(self).wf(),
            final(self)@ == old(self)@.cleanup(now),
    {
        let keys = self.remote_keys();
        let ghost s0 = self@;
        let mut i: usize = 0;
        while i < keys.len()
            invariant
                self.wf(),
                i <= keys@.len(),
                keys@ == sorted_keys(s0.remotes.dom()),
                self@ == s0.cleanup_keys(now, keys@.take(i as int)),
            decreases keys@.len() - i,
        {
            let k = keys[i];
            assert(keys@.take(i + 1).drop_last() =~= keys@.take(i as int));
            assert(keys@.take(i + 1).last() == k);
            let ghost before = self@;
            match self.remotes.remove(&k) {
                Some(mut r) => {
                    assert(before.remotes.contains_key(k) && before.remotes[k] == r@);
                    if now >= r.last_active && now - r.last_active >= REMOTE_TIMEOUT_MS {
                        r.destroy();
                        Self::drain_remote(&mut self.outs, &mut r);
                        assert(self@.remotes =~= before.remotes.remove(k));
                    } else {
                        self.remotes.insert(k, r);
                        assert(self@.remotes =~= before.remotes);
                    }
                },
                None => {
                    assert(!before.remotes.contains_key(k));
                    assert(self@.remotes =~= before.remotes);
                },
            }
            i = i + 1;
        }
        assert(keys@.take(keys@.len() as int) =~= keys@);
    }

    /// A tick at the current time.
    pub fn on_tick(&mut self)
        requires
            old(self).wf(),
        ensures
            final(self).wf(),
            exists|now: u64| final(self)@ == old(self)@.after_tick(now),
    {
        let now = now_ms();
        self.on_tick_at(now);
    }

    /// A tick at `now`.
    pub fn on_tick_at(&mut self, now: u64)
        requires
            old(self).wf(),
        ensures
            final(self).wf(),
            final(self)@ == old(self)@.after_tick(now),
    {
        self.local.on_tick();
        self.drain_local();
        self.cleanup_timed_out_remotes(now);
        let keys = self.remote_keys();
        let ghost s0 = self@;
        let mut i: usize = 0;
        while i < keys.len()
            invariant
                self.wf(),
                i <= keys@.len(),
                keys@ == sorted_keys(s0.remotes.dom()),
                self@ == s0.tick_keys(now, keys@.take(i as int)),
            decreases keys@.len() - i,
        {
            let k = keys[i];
            assert(keys@.take(i + 1).drop_last() =~= keys@.take(i as int));
            assert(keys@.take(i + 1).last() == k);
            let ghost before = self@;
            match self.remotes.remove(&k) {
                Some(mut r) => {
                    assert(before.remotes.contains_key(k) && before.remotes[k] == r@);
                    r.on_tick_at(now);
                    let ghost ticked = r@;
                    Self::drain_remote(&mut self.outs, &mut r);
                    self.remotes.insert(k, r);
                    assert(self@.remotes =~= before.remotes.insert(k, ticked.with_outs(seq![])));
                },
                None => {
                    assert(!before.remotes.contains_key(k));
                    assert(self@.remotes =~= before.remotes);
                },
            }
            i = i + 1;
        }
        assert(keys@.take(keys@.len() as int) =~= keys@);
    }

    /// The node `peer` disconnected: its replica is dropped and its data
    /// deleted.
    pub fn on_peer_disconnected(&mut self, peer: u64)
        requires
            old(self).wf(),
        ensures
            final(self).wf(),
            final(self)@ == old(self)@.after_peer_disconnected(peer),
    {
        let ghost before = self@;
        if let Some(mut remote) = self.remotes.remove(&peer) {
            assert(before.remotes.contains_key(peer) && before.remotes[peer] == remote@);
            remote.destroy();
            Self::drain_remote(&mut self.outs, &mut remote);
            assert(self@.remotes =~= before.remotes.remove(peer));
            assert(self@.local == before.local);
            assert(self@.outs == push_all_bounded(before.outs, before.remotes[peer].after_destroy().ctx.outs));
            assert(self@ == before.drop_remote(peer, before.remotes[peer].after_destroy()));
        } else {
            assert(self.remotes@ =~= old(self).remotes@);
        }
    }

    /// A message from `from`, handled at the current time.
    pub fn on_remote_event(&mut self, from: u64, event: NetEvent)
        requires
            old(self).wf(),
        ensures
            final(self).wf(),
            exists|now: u64| final(self)@ == old(self)@.after_remote_event(now, from, event@),
    {
        let now = now_ms();
        self.on_remote_event_at(now, from, event);
    }

    /// A message from `from`, handled at `now`.
    pub fn on_remote_event_at(&mut self, now: u64, from: u64, event: NetEvent)
        requires
            old(self).wf(),
        ensures
            final(self).wf(),
            final(self)@ == old(self)@.after_remote_event(now, from, event@),
    {
        let ghost s0 = self@;
        let known = self.remotes.contains_key(&from);
        let is_answer = match &event {
            NetEvent::Unicast(_, rpc) => match rpc.data {
                RpcEventData::RpcRes(_) => true,
                RpcEventData::RpcReq(_) => false,
            },
            NetEvent::Broadcast(_) => false,
        };
        if !known && is_answer {
            return ;
        }
        if !known {
            if self.remotes.len() >= MAX_REMOTE_STORES as usize {
                assert(self@.remotes.dom() =~= self.remotes@.dom());
                self.cleanup_timed_out_remotes(now);
                assert(self@.remotes.dom() =~= self.remotes@.dom());
                if self.remotes.len() >= MAX_REMOTE_STORES as usize {
                    return ;
                }
            }
            assert(self@.remotes.dom() =~= self.remotes@.dom());
            let session_id = match &event {
                NetEvent::Broadcast(b) => b.session_id,
                NetEvent::Unicast(_, rpc) => rpc.session_id,
            };
            let mut remote = RemoteStore::new_at(now, from, self.local.session_id, session_id);
            let ghost created = remote@;
            let ghost before = self@;
            Self::drain_remote(&mut self.outs, &mut remote);
            self.remotes.insert(from, remote);
            assert(self@.remotes =~= before.remotes.insert(from, created.with_outs(seq![])));
        }
        let ghost s2 = self@;
        match event {
            NetEvent::Broadcast(b) => {
                if let Some(mut remote) = self.remotes.remove(&from) {
                    assert(s2.remotes[from] == remote@);
                    remote.on_broadcast_at(now, b);
                    let ghost updated = remote@;
                    Self::drain_remote(&mut self.outs, &mut remote);
                    self.remotes.insert(from, remote);
                    assert(self@.remotes =~= s2.remotes.insert(from, updated.with_outs(seq![])));
                } else {
                    assert(self@.remotes =~= s2.remotes);
                }
            },
            NetEvent::Unicast(_, rpc) => match rpc.data {
                RpcEventData::RpcReq(req) => {
                    self.local.on_rpc_req(from, req);
                    self.drain_local();
                },
                RpcEventData::RpcRes(res) => {
                    if let Some(mut remote) = self.remotes.remove(&from) {
                        assert(s2.remotes[from] == remote@);
                        remote.on_rpc_res_at(now, res);
                        let ghost updated = remote@;
                        Self::drain_remote(&mut self.outs, &mut remote);
                        self.remotes.insert(from, remote);
                        assert(self@.remotes =~= s2.remotes.insert(from, updated.with_outs(seq![])));
                    } else {
                        assert(self@.remotes =~= s2.remotes);
                    }
                },
            },
        }
    }

    /// The next queued event.
    pub fn pop(&mut self) -> (e: Option<Event>)
        requires
            old(self).wf(),
        ensures
            final(self).wf(),
            old(self)@.outs.len() == 0 ==> e is None && final(self)@ == old(self)@,
            old(self)@.outs.len() > 0 ==> e is Some && e->0@ == old(self)@.outs[0] && final(self)@ == (
            ReplicatedView { outs: old(self)@.outs.drop_first(), ..old(self)@ }),
    {
        let e = self.outs.pop_front();
        proof {
            if old(self).outs@.len() > 0 {
                assert(events_view(self.outs@) =~= events_view(old(self).outs@).drop_first());
            }
        }
        e
    }
}

} // verus!
