//! The local node's own slots and change log.
//!
//! Every `set` or `del` of a key that exists takes the next version, is kept
//! in a bounded log of recent changes, is broadcast, and is reported to the
//! application.  Other nodes catch up with `FetchChanged` (a range of the log)
//! or `FetchSnapshot` (pages of the slots as they stood at some version).
use std::collections::{BTreeMap, VecDeque};
use vstd::prelude::*;

use super::messages::{
    broadcast_of, changes_view, events_view, snapshot_view, holds_key, keys_of, Action, BroadcastEvent, BroadcastEventData, Changed,
    Event, EventView, FetchChangedError, KvEvent, NetEvent, NetEventView, RpcEvent, RpcEventData,
    RpcEventDataView, RpcEventView, RpcReq, RpcRes, RpcResView,
    Slot, SnapshotData, SnapshotView, Version,
};
use crate::ordered::{keys_in_order, lemma_sorted_keys_is, lists_in_order, sorted_keys};

verus! {

broadcast use vstd::std_specs::btree::group_btree_axioms, vstd::laws_cmp::group_laws_cmp;

pub struct LocalStore {
    pub session_id: u64,
    pub slots: BTreeMap<u64, Slot>,
    /// The most recent changes, keyed by version.
    pub changeds: BTreeMap<u64, Changed>,
    pub max_changeds: usize,
    pub compose_max_pkts: usize,
    pub version: Version,
    pub outs: VecDeque<Event>,
}

pub struct LocalStoreView {
    pub session_id: u64,
    pub slots: Map<u64, Slot>,
    pub changeds: Map<u64, Changed>,
    pub max_changeds: usize,
    pub compose_max_pkts: usize,
    pub version: u64,
    pub outs: Seq<EventView>,
}

impl View for LocalStore {
    type V = LocalStoreView;

    open spec fn view(&self) -> LocalStoreView {
        LocalStoreView {
            session_id: self.session_id,
            slots: self.slots@,
            changeds: self.changeds@,
            max_changeds: self.max_changeds,
            compose_max_pkts: self.compose_max_pkts,
            version: self.version.0,
            outs: events_view(self.outs@),
        }
    }
}

/// The entries of `m` among the `n` versions ending at `top`.
pub open spec fn keep_recent<T>(m: Map<u64, T>, top: u64, n: usize) -> Map<u64, T> {
    m.restrict(Set::new(|k: u64| top < k + n))
}

/// The keys at or after `start`, in increasing order.
pub open spec fn keys_from(d: Set<u64>, start: u64) -> Seq<u64> {
    sorted_keys(d.filter(|k: u64| start <= k))
}

/// Keys whose slot is not newer than `mv`.
pub open spec fn not_newer(slots: Map<u64, Slot>, mv: u64) -> spec_fn(u64) -> bool {
    |k: u64| slots[k].version.0 <= mv
}

/// Keys whose slot is newer than `mv`.
pub open spec fn newer(slots: Map<u64, Slot>, mv: u64) -> spec_fn(u64) -> bool {
    |k: u64| slots[k].version.0 > mv
}

pub open spec fn with_slot(slots: Map<u64, Slot>) -> spec_fn(u64) -> (u64, Slot) {
    |k: u64| (k, slots[k])
}

pub open spec fn with_version(slots: Map<u64, Slot>) -> spec_fn(u64) -> (u64, Version) {
    |k: u64| (k, slots[k].version)
}

/// The skipped-newer list of a snapshot page, extended with the keys that
/// the changes at versions `vs` touched: each key at or after `start` that is
/// neither on the page nor listed yet, with the version of its change.
pub open spec fn add_newer_skipped(
    vs: Seq<u64>,
    changeds: Map<u64, Changed>,
    start: u64,
    taken: Seq<(u64, Slot)>,
    acc: Seq<(u64, Version)>,
) -> Seq<(u64, Version)>
    decreases vs.len(),
{
    if vs.len() == 0 {
        acc
    } else {
        let prev = add_newer_skipped(vs.drop_last(), changeds, start, taken, acc);
        let v = vs.last();
        let key = changeds[v].key;
        if start <= key && !keys_of(taken).contains(key) && !keys_of(prev).contains(key) {
            prev.push((key, Version(v)))
        } else {
            prev
        }
    }
}

impl LocalStoreView {
    /// A store with no slots and an empty log, at version 0; a batch size
    /// of 0 counts as 1.
    pub open spec fn initial(session_id: u64, max_changeds: usize, compose_max_pkts: usize) -> LocalStoreView {
        LocalStoreView {
            session_id,
            slots: Map::empty(),
            changeds: Map::empty(),
            max_changeds,
            compose_max_pkts: if compose_max_pkts < 1 {
                1
            } else {
                compose_max_pkts
            },
            version: 0,
            outs: seq![],
        }
    }

    /// The number of versions below the oldest logged change.
    pub open spec fn log_start(self) -> int {
        self.version - self.changeds.len()
    }

    /// The change log holds exactly the most recent versions, at most
    /// `max_changeds` of them, each under its own version.
    pub open spec fn wf(self) -> bool {
        &&& self.compose_max_pkts >= 1
        &&& self.slots.dom().finite()
        &&& self.changeds.dom().finite()
        &&& self.changeds.len() <= self.max_changeds
        &&& self.changeds.len() <= self.version
        &&& forall|k: u64|
            #[trigger] self.changeds.contains_key(k) <==> self.log_start() < k <= self.version
        &&& forall|k: u64| #[trigger]
            self.changeds.contains_key(k) ==> self.changeds[k].version.0 == k
        &&& forall|k: u64| #[trigger] self.slots.contains_key(k) ==> self.slots[k].version.0 <= self.version
    }

    pub open spec fn with_outs(self, outs: Seq<EventView>) -> LocalStoreView {
        LocalStoreView { outs, ..self }
    }

    /// A broadcast of the current version.
    pub open spec fn after_tick(self) -> LocalStoreView {
        self.with_outs(
            self.outs.push(broadcast_of(self.session_id, BroadcastEventData::Version(Version(self.version)))),
        )
    }

    /// The state after recording `change` as the next version, where
    /// `touch` is how the change alters the slots and `report` is what the
    /// application is told.
    pub open spec fn after_change(
        self,
        change: Changed,
        slots: Map<u64, Slot>,
        report: KvEvent,
    ) -> LocalStoreView {
        let v = change.version.0;
        LocalStoreView {
            slots,
            changeds: keep_recent(self.changeds.insert(v, change), v, self.max_changeds),
            version: v,
            outs: self.outs.push(broadcast_of(self.session_id, BroadcastEventData::Changed(change))).push(
                EventView::KvEvent(report),
            ),
            ..self
        }
    }

    pub open spec fn after_set(self, key: u64, value: u64) -> LocalStoreView {
        if self.version == u64::MAX {
            self
        } else {
            let version = Version((self.version + 1) as u64);
            self.after_change(
                Changed { key, version, action: Action::Put(value) },
                self.slots.insert(key, Slot { value, version }),
                KvEvent::Put(None, key, value),
            )
        }
    }

    pub open spec fn after_del(self, key: u64) -> LocalStoreView {
        if !self.slots.contains_key(key) || self.version == u64::MAX {
            self
        } else {
            let version = Version((self.version + 1) as u64);
            self.after_change(
                Changed { key, version, action: Action::Del },
                self.slots.remove(key),
                KvEvent::Del(None, key),
            )
        }
    }

    /// The changes with versions `from` .. `from + n`, where `n` is `count`
    /// capped at `compose_max_pkts`; `MissingData` when `n` is 0, when any of
    /// them has left the log or not happened yet, or when the newest logged
    /// version is the last one.
    pub open spec fn fetch_changed(self, from: Version, count: u64) -> Result<
        Seq<Changed>,
        FetchChangedError,
    > {
        let n: int = if count < self.compose_max_pkts {
            count as int
        } else {
            self.compose_max_pkts as int
        };
        if n == 0 || self.changeds.len() == 0 || self.version == u64::MAX || from.0 + n > u64::MAX
            || from.0 <= self.log_start() || from.0 + n > self.version + 1 {
            Err(FetchChangedError::MissingData)
        } else {
            Ok(Seq::new(n as nat, |i: int| self.changeds[(from.0 + i) as u64]))
        }
    }

    /// The version a snapshot request is answered at: the requested one,
    /// but never above the current version.
    pub open spec fn snapshot_version(self, max_version: Option<Version>) -> u64 {
        match max_version {
            Some(v) => if v.0 < self.version {
                v.0
            } else {
                self.version
            },
            None => self.version,
        }
    }

    /// The answer to a request from another node.
    pub open spec fn answer(self, req: RpcReq) -> RpcResView {
        match req {
            RpcReq::FetchChanged { from, count } => RpcResView::FetchChanged(self.fetch_changed(from, count)),
            RpcReq::FetchSnapshot { from, max_version, max_items } => {
                let sv = Version(self.snapshot_version(max_version));
                RpcResView::FetchSnapshot(self.snapshot(from, Some(sv), max_items), sv)
            },
        }
    }

    /// The answer to `req` is queued for `from_node`.
    pub open spec fn after_rpc_req(self, from_node: u64, req: RpcReq) -> LocalStoreView {
        self.with_outs(
            self.outs.push(
                EventView::NetEvent(
                    NetEventView::Unicast(
                        from_node,
                        RpcEventView {
                            session_id: self.session_id,
                            data: RpcEventDataView::RpcRes(self.answer(req)),
                        },
                    ),
                ),
            ),
        )
    }

    /// One snapshot page: `None` when there are no slots.  Otherwise the scan
    /// starts at `from` (the first key when `None`) and covers at most
    /// `min(compose_max_pkts, max_items)` keys in increasing order; slots not
    /// newer than `max_version` (the current version when `None`) are
    /// returned, newer ones are listed as skipped, and `next_key` is the key
    /// after the scan when keys remain.  On the last page of a snapshot taken
    /// below the current version, the keys changed after it are listed as
    /// skipped too.
    pub open spec fn snapshot(self, from: Option<u64>, max_version: Option<Version>, max_items: u64) -> Option<
        SnapshotView,
    > {
        if self.slots.dom().len() == 0 {
            None
        } else {
            let start = match from {
                Some(k) => k,
                None => sorted_keys(self.slots.dom())[0],
            };
            let mv = match max_version {
                Some(v) => v.0,
                None => self.version,
            };
            let items: int = if max_items > usize::MAX {
                usize::MAX as int
            } else {
                max_items as int
            };
            if items == 0 {
                Some(SnapshotView { slots: seq![], skipped_newer: seq![], next_key: None })
            } else {
                let limit: int = if self.compose_max_pkts < items {
                    self.compose_max_pkts as int
                } else {
                    items
                };
                let cand = keys_from(self.slots.dom(), start);
                let scanned = if cand.len() > limit {
                    cand.take(limit)
                } else {
                    cand
                };
                let next_key = if cand.len() > limit {
                    Some(cand[limit])
                } else {
                    None
                };
                let taken = scanned.filter(not_newer(self.slots, mv)).map_values(with_slot(self.slots));
                let skipped = scanned.filter(newer(self.slots, mv)).map_values(with_version(self.slots));
                let skipped_newer = if next_key is None && mv < self.version {
                    add_newer_skipped(
                        keys_from(self.changeds.dom(), (mv + 1) as u64),
                        self.changeds,
                        start,
                        taken,
                        skipped,
                    )
                } else {
                    skipped
                };
                Some(SnapshotView { slots: taken, skipped_newer, next_key })
            }
        }
    }
}

impl LocalStore {
    pub open spec fn wf(&self) -> bool {
        self@.wf()
    }

    pub fn new(session_id: u64, max_changeds: usize, compose_max_pkts: usize) -> (s: LocalStore)
        ensures
            s.wf(),
            s@ == LocalStoreView::initial(session_id, max_changeds, compose_max_pkts),
    {
        let compose_max_pkts = if compose_max_pkts < 1 {
            1
        } else {
            compose_max_pkts
        };
        let s = LocalStore {
            session_id,
            slots: BTreeMap::new(),
            changeds: BTreeMap::new(),
            max_changeds,
            compose_max_pkts,
            version: Version(0),
            outs: VecDeque::new(),
        };
        assert(events_view(s.outs@) =~= seq![]);
        s
    }

    pub fn on_tick(&mut self)
        requires
            old(self).wf(),
        ensures
            final(self).wf(),
            final(self)@ == old(self)@.after_tick(),
    {
        let e = Event::NetEvent(
            NetEvent::Broadcast(
                BroadcastEvent { session_id: self.session_id, data: BroadcastEventData::Version(self.version) },
            ),
        );
        self.outs.push_back(e);
        assert(events_view(self.outs@) =~= events_view(old(self).outs@).push(e@));
        assert(self@.slots == old(self)@.slots);
    }

    /// Drops the oldest logged changes until at most `max_changeds` remain.
    fn trim_changeds(&mut self)
        requires
            old(self).compose_max_pkts >= 1,
            old(self).changeds@.len() <= old(self).version.0,
            forall|k: u64| #[trigger]
                old(self).changeds@.contains_key(k) <==> old(self)@.log_start() < k <= old(self).version.0,
            forall|k: u64| #[trigger]
                old(self).changeds@.contains_key(k) ==> old(self).changeds@[k].version.0 == k,
            forall|k: u64| #[trigger]
                old(self).slots@.contains_key(k) ==> old(self).slots@[k].version.0 <= old(self).version.0,
        ensures
            final(self).wf(),
            final(self)@ == (LocalStoreView {
                changeds: keep_recent(old(self).changeds@, old(self).version.0, old(self).max_changeds),
                ..old(self)@
            }),
    {
        let ghost orig = self.changeds@;
        let ghost len0 = self.changeds@.len();
        while self.changeds.len() > self.max_changeds
            invariant
                self.session_id == old(self).session_id,
                self.slots == old(self).slots,
                self.max_changeds == old(self).max_changeds,
                self.compose_max_pkts == old(self).compose_max_pkts,
                self.version == old(self).version,
                self.outs == old(self).outs,
                self.changeds@.len() <= self.version.0,
                self.changeds@.len() <= len0,
                self.changeds@.len() == len0 || self.changeds@.len() >= self.max_changeds,
                forall|k: u64| #[trigger]
                    self.changeds@.contains_key(k) <==> self@.log_start() < k <= self.version.0,
                forall|k: u64| #[trigger] self.changeds@.contains_key(k) ==> self.changeds@[k] == orig[k],
            decreases self.changeds@.len(),
        {
            let len = self.changeds.len();
            let first = self.version.0 - (len as u64) + 1;
            assert(self.changeds@.contains_key(first));
            self.changeds.remove(&first);
        }
        assert(self.changeds@ =~= keep_recent(orig, self.version.0, self.max_changeds));
    }

    pub fn set(&mut self, key: u64, value: u64)
        requires
            old(self).wf(),
        ensures
            final(self).wf(),
            final(self)@ == old(self)@.after_set(key, value),
    {
        let version = match self.version.checked_next() {
            Some(v) => v,
            None => return ,
        };
        self.version = version;
        let changed = Changed { key, version, action: Action::Put(value) };
        self.changeds.insert(version.0, changed);
        let e1 = Event::NetEvent(
            NetEvent::Broadcast(
                BroadcastEvent { session_id: self.session_id, data: BroadcastEventData::Changed(changed) },
            ),
        );
        let e2 = Event::KvEvent(KvEvent::Put(None, key, value));
        self.outs.push_back(e1);
        self.outs.push_back(e2);
        assert(events_view(self.outs@) =~= events_view(old(self).outs@).push(e1@).push(e2@));
        self.slots.insert(key, Slot::new(value, version));
        assert forall|k: u64| #[trigger] self.slots@.contains_key(k) implies self.slots@[k].version.0
            <= self.version.0 by {
            if k != key {
                assert(old(self)@.slots.contains_key(k));
            }
        }
        self.trim_changeds();
    }

    pub fn del(&mut self, key: u64)
        requires
            old(self).wf(),
        ensures
            final(self).wf(),
            final(self)@ == old(self)@.after_del(key),
    {
        if !self.slots.contains_key(&key) {
            return ;
        }
        let version = match self.version.checked_next() {
            Some(v) => v,
            None => return ,
        };
        self.version = version;
        self.slots.remove(&key);
        let changed = Changed { key, version, action: Action::Del };
        self.changeds.insert(version.0, changed);
        let e1 = Event::NetEvent(
            NetEvent::Broadcast(
                BroadcastEvent { session_id: self.session_id, data: BroadcastEventData::Changed(changed) },
            ),
        );
        let e2 = Event::KvEvent(KvEvent::Del(None, key));
        self.outs.push_back(e1);
        self.outs.push_back(e2);
        assert(events_view(self.outs@) =~= events_view(old(self).outs@).push(e1@).push(e2@));
        assert forall|k: u64| #[trigger] self.slots@.contains_key(k) implies self.slots@[k].version.0
            <= self.version.0 by {
            assert(old(self)@.slots.contains_key(k));
        }
        self.trim_changeds();
    }

    /// Answers a request from `from_node`.
    pub fn on_rpc_req(&mut self, from_node: u64, req: RpcReq)
        requires
            old(self).wf(),
        ensures
            final(self).wf(),
            final(self)@ == old(self)@.after_rpc_req(from_node, req),
    {
        let res = match req {
            RpcReq::FetchChanged { from, count } => RpcRes::FetchChanged(self.changeds_from_to(from, count)),
            RpcReq::FetchSnapshot { from, max_version, max_items } => {
                let requested = match max_version {
                    Some(v) => v,
                    None => self.version,
                };
                let snapshot_version = if requested.0 < self.version.0 {
                    requested
                } else {
                    self.version
                };
                RpcRes::FetchSnapshot(self.snapshot(from, Some(snapshot_version), max_items), snapshot_version)
            },
        };
        let e = Event::NetEvent(
            NetEvent::Unicast(from_node, RpcEvent { session_id: self.session_id, data: RpcEventData::RpcRes(res) }),
        );
        self.outs.push_back(e);
        assert(events_view(self.outs@) =~= events_view(old(self).outs@).push(e@));
    }

    /// The changes with versions `from` .. `from + n`; see
    /// `LocalStoreView::fetch_changed`.
    pub fn changeds_from_to(&self, from: Version, count: u64) -> (r: Result<
        Vec<Changed>,
        FetchChangedError,
    >)
        requires
            self.wf(),
        ensures
            changes_view(r) == self@.fetch_changed(from, count),
    {
        let cap = self.compose_max_pkts as u64;
        let count = if count < cap {
            count
        } else {
            cap
        };
        if count == 0 {
            return Err(FetchChangedError::MissingData);
        }
        let to = match from.0.checked_add(count) {
            Some(to) => to,
            None => return Err(FetchChangedError::MissingData),
        };
        let len = self.changeds.len();
        if len == 0 {
            return Err(FetchChangedError::MissingData);
        }
        let last = self.version.0;
        let first = last - (len as u64) + 1;
        if last == u64::MAX {
            return Err(FetchChangedError::MissingData);
        }
        let after_last = last + 1;
        if to > after_last || from.0 < first {
            return Err(FetchChangedError::MissingData);
        }
        let mut out: Vec<Changed> = Vec::new();
        let mut v = from.0;
        while v < to
            invariant
                self.wf(),
                first <= from.0 <= v <= to <= after_last,
                after_last == self.version.0 + 1,
                first == self@.log_start() + 1,
                out@ == Seq::new((v - from.0) as nat, |i: int| self.changeds@[(from.0 + i) as u64]),
            decreases to - v,
        {
            assert(self.changeds@.contains_key(v));
            let c = match self.changeds.get(&v) {
                Some(c) => *c,
                None => return Err(FetchChangedError::MissingData),
            };
            out.push(c);
            v = v + 1;
            assert(out@ =~= Seq::new((v - from.0) as nat, |i: int| self.changeds@[(from.0 + i) as u64]));
        }
        Ok(out)
    }

    /// One page of a snapshot; see `LocalStoreView::snapshot`.
    pub fn snapshot(&self, from: Option<u64>, max_version: Option<Version>, max_items: u64) -> (r:
        Option<SnapshotData>)
        requires
            self.wf(),
        ensures
            snapshot_view(r) == self@.snapshot(from, max_version, max_items),
    {
        if self.slots.is_empty() {
            return None;
        }
        let keys = keys_in_order(&self.slots);
        proof {
            if self.slots@.dom().len() == 0 {
                assert(self.slots@.dom() =~= Set::empty());
            }
        }
        let start = match from {
            Some(k) => k,
            None => keys[0],
        };
        let mv = match max_version {
            Some(v) => v.0,
            None => self.version.0,
        };
        let items: usize = if max_items > usize::MAX as u64 {
            usize::MAX
        } else {
            max_items as usize
        };
        if items == 0 {
            let r = SnapshotData { slots: Vec::new(), skipped_newer: Vec::new(), next_key: None };
            assert(r@.slots =~= seq![]);
            assert(r@.skipped_newer =~= seq![]);
            return Some(r);
        }
        let limit = if self.compose_max_pkts < items {
            self.compose_max_pkts
        } else {
            items
        };
        let ghost d = self.slots@.dom();
        let mut i: usize = 0;
        while i < keys.len() && keys[i] < start
            invariant
                i <= keys@.len(),
                forall|j: int| 0 <= j < i ==> keys@[j] < start,
            decreases keys@.len() - i,
        {
            i = i + 1;
        }
        let ghost i0 = i as int;
        let ghost cand = keys@.subrange(i0, keys@.len() as int);
        proof {
            assert forall|x: u64| cand.to_set().contains(x) implies d.filter(
                |k: u64| start <= k,
            ).contains(x) by {
                let j = choose|j: int| 0 <= j < cand.len() && cand[j] == x;
                assert(keys@[i0 + j] == x);
                assert(keys@.to_set().contains(x));
                if i0 < keys@.len() && j > 0 {
                    assert(keys@[i0] < keys@[i0 + j]);
                }
            }
            assert forall|x: u64| d.filter(|k: u64| start <= k).contains(x) implies cand.to_set().contains(
                x,
            ) by {
                assert(keys@.to_set().contains(x));
                let j = choose|j: int| 0 <= j < keys@.len() && keys@[j] == x;
                if j < i0 {
                    assert(keys@[j] < start);
                }
                assert(cand[j - i0] == x);
            }
            assert(cand.to_set() =~= d.filter(|k: u64| start <= k));
            lemma_sorted_keys_is(cand, d.filter(|k: u64| start <= k));
        }
        let mut taken: Vec<(u64, Slot)> = Vec::new();
        let mut skipped: Vec<(u64, Version)> = Vec::new();
        let mut scanned: usize = 0;
        while i < keys.len() && scanned < limit
            invariant
                self.wf(),
                lists_in_order(keys@, d),
                d == self.slots@.dom(),
                cand == keys@.subrange(i0, keys@.len() as int),
                0 <= i0 <= i <= keys@.len(),
                scanned == i - i0,
                scanned <= limit,
                taken@ == cand.take(scanned as int).filter(not_newer(self.slots@, mv)).map_values(
                    with_slot(self.slots@),
                ),
                skipped@ == cand.take(scanned as int).filter(newer(self.slots@, mv)).map_values(
                    with_version(self.slots@),
                ),
            decreases keys@.len() - i,
        {
            let key = keys[i];
            assert(keys@.to_set().contains(key));
            let slot = match self.slots.get(&key) {
                Some(s) => *s,
                None => return None,
            };
            let ghost prev = cand.take(scanned as int);
            proof {
                assert(cand.take(scanned + 1) =~= prev.push(key));
                prev.lemma_filter_push(key, not_newer(self.slots@, mv));
                prev.lemma_filter_push(key, newer(self.slots@, mv));
            }
            if slot.version.0 <= mv {
                taken.push((key, slot));
                assert(taken@ =~= prev.filter(not_newer(self.slots@, mv)).push(key).map_values(
                    with_slot(self.slots@),
                ));
            } else {
                skipped.push((key, slot.version));
                assert(skipped@ =~= prev.filter(newer(self.slots@, mv)).push(key).map_values(
                    with_version(self.slots@),
                ));
            }
            i = i + 1;
            scanned = scanned + 1;
        }
        let next_key = if i < keys.len() {
            Some(keys[i])
        } else {
            None
        };
        proof {
            if cand.len() <= limit {
                assert(cand.take(scanned as int) =~= cand);
            }
        }
        if next_key.is_none() && mv < self.version.0 {
            let len = self.changeds.len();
            if len > 0 {
                let log_first = self.version.0 - (len as u64) + 1;
                let lo = if mv + 1 < log_first {
                    log_first
                } else {
                    mv + 1
                };
                let n = self.version.0 - lo + 1;
                let ghost vs = Seq::new(n as nat, |j: int| (lo + j) as u64);
                proof {
                    let dd = self.changeds@.dom().filter(|k: u64| (mv + 1) as u64 <= k);
                    assert forall|x: u64| vs.to_set().contains(x) implies dd.contains(x) by {
                        let j = choose|j: int| 0 <= j < vs.len() && vs[j] == x;
                        assert(self.changeds@.contains_key(x));
                    }
                    assert forall|x: u64| dd.contains(x) implies vs.to_set().contains(x) by {
                        assert(vs[x - lo] == x);
                    }
                    assert(vs.to_set() =~= dd);
                    lemma_sorted_keys_is(vs, dd);
                }
                let ghost skipped0 = skipped@;
                let mut j: u64 = 0;
                while j < n
                    invariant
                        self.wf(),
                        vs == Seq::new(n as nat, |j: int| (lo + j) as u64),
                        lo >= 1,
                        lo + n == self.version.0 + 1,
                        forall|k: u64| #[trigger] self.changeds@.contains_key(k) <== lo <= k <= self.version.0,
                        j <= n,
                        skipped@ == add_newer_skipped(vs.take(j as int), self.changeds@, start, taken@, skipped0),
                    decreases n - j,
                {
                    let v = lo + j;
                    assert(self.changeds@.contains_key(v));
                    let c = match self.changeds.get(&v) {
                        Some(c) => *c,
                        None => return None,
                    };
                    assert(vs.take(j + 1).drop_last() =~= vs.take(j as int));
                    assert(vs.take(j + 1).last() == v);
                    if start <= c.key && !holds_key(&taken, c.key) && !holds_key(&skipped, c.key) {
                        skipped.push((c.key, Version(v)));
                    }
                    j = j + 1;
                }
                assert(vs.take(n as int) =~= vs);
            } else {
                proof {
                    let dd = self.changeds@.dom().filter(|k: u64| (mv + 1) as u64 <= k);
                    assert(dd =~= Set::empty());
                    assert(Seq::<u64>::empty().to_set() =~= dd);
                    lemma_sorted_keys_is(Seq::<u64>::empty(), dd);
                }
            }
        }
        Some(SnapshotData { slots: taken, skipped_newer: skipped, next_key })
    }

    pub fn pop_out(&mut self) -> (e: Option<Event>)
        requires
            old(self).wf(),
        ensures
            final(self).wf(),
            old(self)@.outs.len() == 0 ==> e is None && final(self)@ == old(self)@,
            old(self)@.outs.len() > 0 ==> e is Some && e->0@ == old(self)@.outs[0]
                && final(self)@ == old(self)@.with_outs(old(self)@.outs.drop_first()),
    {
        let e = self.outs.pop_front();
        assert(self@.slots == old(self)@.slots);
        proof {
            if old(self).outs@.len() > 0 {
                assert(events_view(self.outs@) =~= events_view(old(self).outs@).drop_first());
            }
        }
        e
    }
}

} // verus!
