//! The replica of one remote node's slots.
//!
//! A replica starts in `SyncFull`: it pages through a snapshot of the remote
//! node's slots, all pages taken at one version, and stages them until the
//! last page has come.  Then it moves to `Working`, where it applies the
//! remote node's changes in version order, holding early ones back and
//! fetching the missing ones.  When it cannot catch up (the remote node no
//! longer has the changes it needs, or too many are held back) it falls back
//! to a new full sync that keeps the current slots visible until the
//! replacement is complete.  `Destroy` drops every slot.
//!
//! Time is a count of milliseconds that the caller supplies.
use std::collections::{BTreeMap, VecDeque};
use vstd::prelude::*;

use super::messages::{
    events_view, make_request, request_to, Action, BroadcastEvent, BroadcastEventData, Changed,
    Event, EventView, KvEvent, RpcReq, RpcRes, RpcResView, Slot, SnapshotData, SnapshotView, Version,
};
use crate::system::now_ms;
use crate::ordered::{keys_in_order, lists_in_order, sorted_keys};

verus! {

broadcast use vstd::std_specs::btree::group_btree_axioms, vstd::laws_cmp::group_laws_cmp;

/// A request that got no answer for this long is sent again.
pub const REQUEST_TIMEOUT_MS: u64 = 1000;

pub const MAX_SNAPSHOT_SLOTS_PER_PAGE: u64 = 1024;

pub const MAX_STAGED_SNAPSHOT_SLOTS: u64 = 16384;

pub const MAX_PENDING_CHANGEDS: u64 = 1024;

/// The request for the first page of a full sync.
pub open spec fn first_page_request() -> RpcReq {
    RpcReq::FetchSnapshot { from: None, max_version: None, max_items: MAX_SNAPSHOT_SLOTS_PER_PAGE }
}

/// Whether a request sent at `sent_at` is due to be sent again at `now`.
pub open spec fn request_timed_out(sent_at: u64, now: u64) -> bool {
    now >= sent_at + REQUEST_TIMEOUT_MS
}

#[derive(Debug, PartialEq, Eq)]
pub struct StateCtx {
    pub remote: u64,
    pub local_session_id: u64,
    pub slots: BTreeMap<u64, Slot>,
    pub outs: VecDeque<Event>,
    pub next_state: Option<RemoteStoreState>,
}

#[derive(Debug, PartialEq, Eq)]
pub enum RemoteStoreState {
    SyncFull(SyncFullState),
    Working(WorkingState),
    Destroy(DestroyState),
}

#[derive(Debug, PartialEq, Eq)]
pub struct SyncFullState {
    /// The version that every page of the current snapshot is taken at.
    pub version: Option<Version>,
    /// The newest version seen while syncing, to catch up to afterwards.
    pub catchup_to: Option<Version>,
    /// The outstanding request and when it was sent.
    pub sending_req: Option<(u64, RpcReq)>,
    /// The pages received so far, when the slots are staged.
    pub staged_slots: Option<BTreeMap<u64, Slot>>,
    /// Keys that were newer than the snapshot version.
    pub skipped_newer: BTreeMap<u64, Version>,
}

#[derive(Debug, PartialEq, Eq)]
pub struct WorkingState {
    /// The version of the last applied change.
    pub version: Version,
    /// Changes received ahead of their turn, keyed by version.
    pub pendings: BTreeMap<u64, Changed>,
    pub sending_req: Option<(u64, RpcReq)>,
    pub latest_seen_version: Option<Version>,
}

#[derive(Debug, PartialEq, Eq)]
pub struct DestroyState {}

pub struct SyncFullView {
    pub version: Option<Version>,
    pub catchup_to: Option<Version>,
    pub sending_req: Option<(u64, RpcReq)>,
    pub staged_slots: Option<Map<u64, Slot>>,
    pub skipped_newer: Map<u64, Version>,
}

pub struct WorkingView {
    pub version: Version,
    pub pendings: Map<u64, Changed>,
    pub sending_req: Option<(u64, RpcReq)>,
    pub latest_seen_version: Option<Version>,
}

pub enum StateView {
    SyncFull(SyncFullView),
    Working(WorkingView),
    Destroy,
}

pub struct CtxView {
    pub remote: u64,
    pub local_session_id: u64,
    pub slots: Map<u64, Slot>,
    pub outs: Seq<EventView>,
    pub next_state: Option<StateView>,
}

impl View for SyncFullState {
    type V = SyncFullView;

    open spec fn view(&self) -> SyncFullView {
        SyncFullView {
            version: self.version,
            catchup_to: self.catchup_to,
            sending_req: self.sending_req,
            staged_slots: match self.staged_slots {
                Some(m) => Some(m@),
                None => None,
            },
            skipped_newer: self.skipped_newer@,
        }
    }
}

impl View for WorkingState {
    type V = WorkingView;

    open spec fn view(&self) -> WorkingView {
        WorkingView {
            version: self.version,
            pendings: self.pendings@,
            sending_req: self.sending_req,
            latest_seen_version: self.latest_seen_version,
        }
    }
}

impl View for RemoteStoreState {
    type V = StateView;

    open spec fn view(&self) -> StateView {
        match self {
            RemoteStoreState::SyncFull(s) => StateView::SyncFull(s@),
            RemoteStoreState::Working(w) => StateView::Working(w@),
            RemoteStoreState::Destroy(_) => StateView::Destroy,
        }
    }
}

impl View for StateCtx {
    type V = CtxView;

    open spec fn view(&self) -> CtxView {
        CtxView {
            remote: self.remote,
            local_session_id: self.local_session_id,
            slots: self.slots@,
            outs: events_view(self.outs@),
            next_state: match self.next_state {
                Some(s) => Some(s@),
                None => None,
            },
        }
    }
}

pub open spec fn max_version(a: Version, b: Version) -> Version {
    if a.0 < b.0 {
        b
    } else {
        a
    }
}

impl CtxView {
    /// A chosen next state is well formed.
    pub open spec fn wf(self) -> bool {
        match self.next_state {
            Some(n) => n.wf(),
            None => true,
        }
    }

    pub open spec fn push(self, e: EventView) -> CtxView {
        CtxView { outs: self.outs.push(e), ..self }
    }

    /// `req` is sent to the remote node.
    pub open spec fn request(self, req: RpcReq) -> CtxView {
        self.push(request_to(self.remote, self.local_session_id, req))
    }

    /// The application is told that the remote node set `key` to `value`.
    pub open spec fn report_put(self, key: u64, value: u64) -> CtxView {
        self.push(EventView::KvEvent(KvEvent::Put(Some(self.remote), key, value)))
    }

    /// The application is told that the remote node deleted `key`.
    pub open spec fn report_del(self, key: u64) -> CtxView {
        self.push(EventView::KvEvent(KvEvent::Del(Some(self.remote), key)))
    }

    pub open spec fn with_slots(self, slots: Map<u64, Slot>) -> CtxView {
        CtxView { slots, ..self }
    }

    pub open spec fn with_next(self, next: StateView) -> CtxView {
        CtxView { next_state: Some(next), ..self }
    }
}

impl WorkingView {
    pub open spec fn new(version: Version) -> WorkingView {
        WorkingView { version, pendings: Map::empty(), sending_req: None, latest_seen_version: None }
    }

    /// Held-back changes lie after the applied version, each under its own
    /// version, and an outstanding request is a non-empty range that ends
    /// at or below the last version.
    pub open spec fn wf(self) -> bool {
        &&& self.pendings.dom().finite()
        &&& self.pendings.len() <= MAX_PENDING_CHANGEDS
        &&& forall|k: u64| #[trigger] self.pendings.contains_key(k) ==> k > self.version.0
        &&& forall|k: u64| #[trigger] self.pendings.contains_key(k) ==> self.pendings[k].version.0 == k
        &&& match self.sending_req {
            Some((_, RpcReq::FetchChanged { from, count })) => count >= 1 && from.0 + count - 1 <= u64::MAX,
            Some(_) => false,
            None => true,
        }
    }

    /// The outstanding `FetchChanged` request, as its first version and count.
    pub open spec fn in_flight(self) -> Option<(Version, u64)> {
        match self.sending_req {
            Some((_, RpcReq::FetchChanged { from, count })) => Some((from, count)),
            _ => None,
        }
    }

    /// Forgets the outstanding request once every version it asks for has
    /// been applied.
    pub open spec fn clear_satisfied(self) -> WorkingView {
        match self.in_flight() {
            Some((from, count)) => if count > 0 && self.version.0 >= from.0 + count - 1 {
                WorkingView { sending_req: None, ..self }
            } else {
                self
            },
            None => self,
        }
    }

    /// Asks for the changes `from` .. `from + count`, unless `count` is 0 or
    /// the outstanding request already covers them.
    pub open spec fn request_fetch_changed(self, c: CtxView, now: u64, from: Version, count: u64) -> (
        WorkingView,
        CtxView,
    ) {
        if count == 0 {
            (self, c)
        } else {
            let covered = match self.in_flight() {
                Some((cf, cc)) => cc > 0 && cf.0 <= from.0 && cf.0 + cc - 1 >= from.0 + count - 1,
                None => false,
            };
            if covered {
                (self, c)
            } else {
                let req = RpcReq::FetchChanged { from, count };
                (WorkingView { sending_req: Some((now, req)), ..self }, c.request(req))
            }
        }
    }

    /// Applies `change`, held back for the version right after the applied
    /// one.
    pub open spec fn apply_change(self, c: CtxView, change: Changed) -> (WorkingView, CtxView) {
        let w = WorkingView {
            version: Version(self.next()),
            pendings: self.pendings.remove(self.next()),
            ..self
        };
        let c2 = match change.action {
            Action::Put(value) => c.with_slots(
                c.slots.insert(change.key, Slot { value, version: change.version }),
            ).report_put(change.key, value),
            Action::Del => if c.slots.contains_key(change.key) {
                c.with_slots(c.slots.remove(change.key)).report_del(change.key)
            } else {
                c
            },
        };
        (w.clear_satisfied(), c2)
    }

    /// The next version, as a `u64`.
    pub open spec fn next(self) -> u64 {
        (self.version.0 + 1) as u64
    }

    /// Applies the held-back changes that follow the applied version in
    /// order; then asks for the missing ones before the first change still
    /// held back, or, when none is held back, for those up to the newest
    /// version seen.
    pub open spec fn apply_pendings(self, c: CtxView, now: u64) -> (WorkingView, CtxView)
        decreases self.pendings.len(),
    {
        if self.pendings.dom().finite() && self.version.0 < u64::MAX && self.pendings.contains_key(
            self.next(),
        ) {
            let (w, c2) = self.apply_change(c, self.pendings[self.next()]);
            proof {
                assert(w.pendings == self.pendings.remove(self.next()));
                assert(self.pendings.dom().remove(self.next()).len() < self.pendings.dom().len());
            }
            w.apply_pendings(c2, now)
        } else if self.pendings.len() > 0 {
            let first = sorted_keys(self.pendings.dom())[0];
            self.request_fetch_changed(c, now, Version(self.next()), (first - self.next()) as u64)
        } else {
            match self.latest_seen_version {
                Some(latest) => if latest.0 > self.version.0 {
                    self.request_fetch_changed(
                        c,
                        now,
                        Version(self.next()),
                        (latest.0 - self.version.0) as u64,
                    )
                } else {
                    (self, c)
                },
                None => (self, c),
            }
        }
    }

    /// Holds `changed` back for its turn.  It is refused when a new state
    /// is already chosen, when it is not after the applied version, or when
    /// a change with its version is already held; when the hold-back limit
    /// is reached everything held is dropped and a full sync is chosen.
    pub open spec fn enqueue(self, c: CtxView, changed: Changed) -> (bool, WorkingView, CtxView) {
        if c.next_state is Some {
            (false, self, c)
        } else if changed.version.0 <= self.version.0 {
            (false, self, c)
        } else if self.pendings.contains_key(changed.version.0) {
            (false, self, c)
        } else if self.pendings.len() >= MAX_PENDING_CHANGEDS {
            (
                true,
                WorkingView { pendings: Map::empty(), sending_req: None, ..self },
                c.with_next(StateView::SyncFull(SyncFullView::preserving())),
            )
        } else {
            (
                true,
                WorkingView {
                    latest_seen_version: Some(
                        match self.latest_seen_version {
                            Some(l) => max_version(l, changed.version),
                            None => changed.version,
                        },
                    ),
                    pendings: self.pendings.insert(changed.version.0, changed),
                    ..self
                },
                c,
            )
        }
    }

    /// Holds back each of `changes` in turn.
    pub open spec fn enqueue_all(self, c: CtxView, changes: Seq<Changed>) -> (WorkingView, CtxView)
        decreases changes.len(),
    {
        if changes.len() == 0 {
            (self, c)
        } else {
            let (w, c2) = self.enqueue_all(c, changes.drop_last());
            let (_, w3, c3) = w.enqueue(c2, changes.last());
            (w3, c3)
        }
    }

    /// Resends the outstanding request once it has timed out.
    pub open spec fn on_tick(self, c: CtxView, now: u64) -> (WorkingView, CtxView) {
        match self.sending_req {
            Some((sent_at, req)) => if request_timed_out(sent_at, now) {
                (WorkingView { sending_req: Some((now, req)), ..self }, c.request(req))
            } else {
                (self, c)
            },
            None => (self, c),
        }
    }

    /// A broadcast from the remote node; the flag says whether it was
    /// accepted as a sign of activity.
    pub open spec fn on_broadcast(self, c: CtxView, now: u64, event: BroadcastEvent) -> (
        bool,
        WorkingView,
        CtxView,
    ) {
        match event.data {
            BroadcastEventData::Changed(changed) => {
                let (ok, w, c2) = self.enqueue(c, changed);
                if ok && c2.next_state is None {
                    let (w3, c3) = w.apply_pendings(c2, now);
                    (true, w3, c3)
                } else {
                    (ok, w, c2)
                }
            },
            BroadcastEventData::Version(version) => if version.0 > self.version.0 {
                let w = WorkingView {
                    latest_seen_version: Some(
                        match self.latest_seen_version {
                            Some(l) => max_version(l, version),
                            None => version,
                        },
                    ),
                    ..self
                };
                if w.pendings.len() == 0 {
                    let (w2, c2) = w.request_fetch_changed(
                        c,
                        now,
                        Version(self.next()),
                        (version.0 - self.version.0) as u64,
                    );
                    (true, w2, c2)
                } else {
                    (true, w, c)
                }
            } else {
                (version.0 == self.version.0, self, c)
            },
        }
    }

    /// An answer from the remote node.
    pub open spec fn on_rpc_res(self, c: CtxView, now: u64, res: RpcResView) -> (
        bool,
        WorkingView,
        CtxView,
    ) {
        match res {
            RpcResView::FetchChanged(Ok(changes)) => match self.in_flight() {
                Some((from, count)) => if count == 0 {
                    (false, self, c)
                } else {
                    let to = from.0 + count - 1;
                    let (w, c2) = self.enqueue_all(c, changes);
                    if changes.len() > 0 && c2.next_state is Some {
                        (true, w, c2)
                    } else {
                        let (w3, c3) = WorkingView { sending_req: None, ..w }.apply_pendings(c2, now);
                        if w3.sending_req is None && w3.version.0 < to {
                            let (w4, c4) = w3.request_fetch_changed(
                                c3,
                                now,
                                Version(w3.next()),
                                (to - w3.version.0) as u64,
                            );
                            (true, w4, c4)
                        } else {
                            (true, w3, c3)
                        }
                    }
                },
                None => (false, self, c),
            },
            RpcResView::FetchChanged(Err(_)) => if self.sending_req is None {
                (false, self, c)
            } else {
                (
                    true,
                    WorkingView { sending_req: None, ..self },
                    c.with_next(StateView::SyncFull(SyncFullView::preserving())),
                )
            },
            RpcResView::FetchSnapshot(_, _) => (false, self, c),
        }
    }
}

impl SyncFullView {
    /// A full sync that stages the new snapshot and keeps the current slots
    /// until it completes.
    pub open spec fn preserving() -> SyncFullView {
        SyncFullView {
            version: None,
            catchup_to: None,
            sending_req: None,
            staged_slots: Some(Map::empty()),
            skipped_newer: Map::empty(),
        }
    }

    /// Entering a full sync asks for the first page.
    pub open spec fn init(self, c: CtxView, now: u64) -> (SyncFullView, CtxView) {
        (
            SyncFullView { sending_req: Some((now, first_page_request())), ..self },
            c.request(first_page_request()),
        )
    }

    /// Resends the outstanding request once it has timed out.
    pub open spec fn on_tick(self, c: CtxView, now: u64) -> (SyncFullView, CtxView) {
        match self.sending_req {
            Some((sent_at, req)) => if request_timed_out(sent_at, now) {
                (SyncFullView { sending_req: Some((now, req)), ..self }, c.request(req))
            } else {
                (self, c)
            },
            None => (self, c),
        }
    }

    /// Notes that version `v` exists, to catch up to it once synced.
    pub open spec fn remember_catchup_to(self, v: Version) -> SyncFullView {
        SyncFullView {
            catchup_to: Some(
                match self.catchup_to {
                    Some(current) => max_version(current, v),
                    None => v,
                },
            ),
            ..self
        }
    }

    /// Broadcasts during a full sync only tell how far to catch up; they
    /// always count as activity.
    pub open spec fn on_broadcast(self, c: CtxView, event: BroadcastEvent) -> (
        bool,
        SyncFullView,
        CtxView,
    ) {
        match event.data {
            BroadcastEventData::Changed(changed) => (true, self.remember_catchup_to(changed.version), c),
            BroadcastEventData::Version(version) => (true, self.remember_catchup_to(version), c),
        }
    }

    /// Drops the pages received so far and asks for the first page again.
    pub open spec fn restart(self, c: CtxView, now: u64) -> (SyncFullView, CtxView) {
        (
            SyncFullView {
                version: None,
                staged_slots: Some(Map::empty()),
                skipped_newer: Map::empty(),
                sending_req: Some((now, first_page_request())),
                ..self
            },
            c.request(first_page_request()),
        )
    }

    /// The staged slots, completed with the current slots of the keys that
    /// the snapshot skipped as newer.
    pub open spec fn completed_stage(self, st: Map<u64, Slot>, current: Map<u64, Slot>) -> Map<u64, Slot> {
        Map::new(
            |k: u64| st.contains_key(k) || (current.contains_key(k) && self.skipped_newer.contains_key(k)),
            |k: u64| if st.contains_key(k) {
                st[k]
            } else {
                current[k]
            },
        )
    }

    /// Replaces the slots with the staged ones: keys that are gone are
    /// reported deleted (in key order), then keys that are new or whose value
    /// changed are reported set (in key order).  Keys skipped as newer keep
    /// their current slot until the catch-up brings their change.
    pub open spec fn commit_staged(self, c: CtxView) -> (SyncFullView, CtxView) {
        match self.staged_slots {
            None => (self, c),
            Some(st) => {
                let done = self.completed_stage(st, c.slots);
                let dels = sorted_keys(c.slots.dom()).filter(dropped_by(st, self.skipped_newer)).map_values(
                    del_event(c.remote),
                );
                let puts = sorted_keys(done.dom()).filter(changed_from(c.slots, done)).map_values(
                    put_event(c.remote, done),
                );
                (
                    SyncFullView { staged_slots: None, ..self },
                    CtxView { slots: done, outs: c.outs + dels + puts, ..c },
                )
            },
        }
    }

    /// Completes the sync at `version`: commits the staged slots, moves to
    /// the working state, and asks there for the changes up to the newest
    /// version seen during the sync.
    pub open spec fn transition(self, c: CtxView, now: u64, version: Version) -> (SyncFullView, CtxView) {
        let (s1, c1) = self.commit_staged(c);
        let s2 = SyncFullView { sending_req: None, ..s1 };
        let w = WorkingView::new(version);
        let (w2, c2) = match s2.catchup_to {
            Some(t) => if t.0 > version.0 {
                w.request_fetch_changed(c1, now, Version((version.0 + 1) as u64), (t.0 - version.0) as u64)
            } else {
                (w, c1)
            },
            None => (w, c1),
        };
        (s2, c2.with_next(StateView::Working(w2)))
    }

    /// Takes the slots of a page: staged when staging, else applied and
    /// reported at once.
    pub open spec fn stage_page(self, c: CtxView, page: Seq<(u64, Slot)>) -> (SyncFullView, CtxView)
        decreases page.len(),
    {
        if page.len() == 0 {
            (self, c)
        } else {
            let (s1, c1) = self.stage_page(c, page.drop_last());
            let (k, slot) = page.last();
            match s1.staged_slots {
                Some(st) => (SyncFullView { staged_slots: Some(st.insert(k, slot)), ..s1 }, c1),
                None => (s1, c1.with_slots(c1.slots.insert(k, slot)).report_put(k, slot.value)),
            }
        }
    }

    /// Records the keys a page skipped as newer, and their versions as ones
    /// to catch up to.
    pub open spec fn note_skipped(self, page: Seq<(u64, Version)>) -> SyncFullView
        decreases page.len(),
    {
        if page.len() == 0 {
            self
        } else {
            let s1 = self.note_skipped(page.drop_last());
            let (k, v) = page.last();
            SyncFullView { skipped_newer: s1.skipped_newer.insert(k, v), ..s1.remember_catchup_to(v) }
        }
    }

    /// A snapshot page from the remote node, answering the outstanding page
    /// request that allowed at most `max_items` items at `max_version`.
    /// Pages over the limits, and empty pages that are not the last one, are
    /// ignored; a page at another version than the one the sync is locked to
    /// restarts the sync; otherwise the page is taken and the next page is
    /// asked for, or the sync completes.
    pub open spec fn on_page(
        self,
        c: CtxView,
        now: u64,
        snap: SnapshotView,
        version: Version,
        max_version: Option<Version>,
        max_items: u64,
    ) -> (bool, SyncFullView, CtxView) {
        let page_items = snap.slots.len() + snap.skipped_newer.len();
        if page_items > MAX_SNAPSHOT_SLOTS_PER_PAGE || page_items > max_items || (page_items == 0
            && snap.next_key is Some) {
            (false, self, c)
        } else if max_version is Some && max_version != Some(version) {
            let (s, c2) = self.restart(c, now);
            (true, s, c2)
        } else if match self.staged_slots {
            Some(st) => st.len() + self.skipped_newer.len() + page_items > MAX_STAGED_SNAPSHOT_SLOTS,
            None => false,
        } {
            (false, self, c)
        } else {
            let (s1, c1) = self.stage_page(c, snap.slots);
            let s2 = s1.note_skipped(snap.skipped_newer);
            let locked = match s2.version {
                Some(v) => v,
                None => version,
            };
            let s3 = SyncFullView { version: Some(locked), ..s2 };
            match snap.next_key {
                Some(next_key) => {
                    let req = RpcReq::FetchSnapshot {
                        from: Some(next_key),
                        max_version: Some(locked),
                        max_items: MAX_SNAPSHOT_SLOTS_PER_PAGE,
                    };
                    (true, SyncFullView { sending_req: Some((now, req)), ..s3 }, c1.request(req))
                },
                None => {
                    let (s4, c4) = s3.transition(c1, now, locked);
                    (true, s4, c4)
                },
            }
        }
    }

    /// An answer from the remote node; only answers to the outstanding page
    /// request are taken.  An empty answer to a first-page request completes
    /// the sync; an empty answer to a later page restarts it.
    pub open spec fn on_rpc_res(self, c: CtxView, now: u64, res: RpcResView) -> (
        bool,
        SyncFullView,
        CtxView,
    ) {
        match res {
            RpcResView::FetchChanged(_) => (false, self, c),
            RpcResView::FetchSnapshot(Some(snap), version) => match self.sending_req {
                Some((_, RpcReq::FetchSnapshot { from: _, max_version, max_items })) => self.on_page(
                    c,
                    now,
                    snap,
                    version,
                    max_version,
                    max_items,
                ),
                _ => (false, self, c),
            },
            RpcResView::FetchSnapshot(None, version) => match self.sending_req {
                Some((_, RpcReq::FetchSnapshot { from, max_version, max_items: _ })) => if from is Some
                    || max_version is Some {
                    let (s, c2) = self.restart(c, now);
                    (true, s, c2)
                } else {
                    let v = match self.version {
                        Some(v) => v,
                        None => version,
                    };
                    let (s, c2) = self.transition(c, now, v);
                    (true, s, c2)
                },
                _ => (false, self, c),
            },
        }
    }
}

/// Keys of the current slots that the staged snapshot drops.
pub open spec fn dropped_by(st: Map<u64, Slot>, skipped: Map<u64, Version>) -> spec_fn(u64) -> bool {
    |k: u64| !st.contains_key(k) && !skipped.contains_key(k)
}

/// Keys whose value in `new` is not their value in `old`.
pub open spec fn changed_from(old: Map<u64, Slot>, new: Map<u64, Slot>) -> spec_fn(u64) -> bool {
    |k: u64| !old.contains_key(k) || old[k].value != new[k].value
}

pub open spec fn del_event(remote: u64) -> spec_fn(u64) -> EventView {
    |k: u64| EventView::KvEvent(KvEvent::Del(Some(remote), k))
}

pub open spec fn put_event(remote: u64, slots: Map<u64, Slot>) -> spec_fn(u64) -> EventView {
    |k: u64| EventView::KvEvent(KvEvent::Put(Some(remote), k, slots[k].value))
}

/// Every slot is dropped and reported deleted, in key order.
pub open spec fn destroy_ctx(c: CtxView) -> CtxView {
    CtxView {
        slots: Map::empty(),
        outs: c.outs + sorted_keys(c.slots.dom()).map_values(del_event(c.remote)),
        ..c
    }
}

impl StateView {
    pub open spec fn wf(self) -> bool {
        match self {
            StateView::Working(w) => w.wf(),
            _ => true,
        }
    }

    pub open spec fn init(self, c: CtxView, now: u64) -> (StateView, CtxView) {
        match self {
            StateView::SyncFull(s) => {
                let (s2, c2) = s.init(c, now);
                (StateView::SyncFull(s2), c2)
            },
            StateView::Working(w) => (self, c),
            StateView::Destroy => (self, destroy_ctx(c)),
        }
    }

    pub open spec fn on_tick(self, c: CtxView, now: u64) -> (StateView, CtxView) {
        match self {
            StateView::SyncFull(s) => {
                let (s2, c2) = s.on_tick(c, now);
                (StateView::SyncFull(s2), c2)
            },
            StateView::Working(w) => {
                let (w2, c2) = w.on_tick(c, now);
                (StateView::Working(w2), c2)
            },
            StateView::Destroy => (self, c),
        }
    }

    pub open spec fn on_broadcast(self, c: CtxView, now: u64, event: BroadcastEvent) -> (
        bool,
        StateView,
        CtxView,
    ) {
        match self {
            StateView::SyncFull(s) => {
                let (r, s2, c2) = s.on_broadcast(c, event);
                (r, StateView::SyncFull(s2), c2)
            },
            StateView::Working(w) => {
                let (r, w2, c2) = w.on_broadcast(c, now, event);
                (r, StateView::Working(w2), c2)
            },
            StateView::Destroy => (false, self, c),
        }
    }

    pub open spec fn on_rpc_res(self, c: CtxView, now: u64, res: RpcResView) -> (
        bool,
        StateView,
        CtxView,
    ) {
        match self {
            StateView::SyncFull(s) => {
                let (r, s2, c2) = s.on_rpc_res(c, now, res);
                (r, StateView::SyncFull(s2), c2)
            },
            StateView::Working(w) => {
                let (r, w2, c2) = w.on_rpc_res(c, now, res);
                (r, StateView::Working(w2), c2)
            },
            StateView::Destroy => (false, self, c),
        }
    }
}

impl StateCtx {
    /// Sends `req` to the remote node.
    pub fn send_request(&mut self, req: RpcReq)
        ensures
            final(self)@ == old(self)@.request(req),
    {
        let e = make_request(self.remote, self.local_session_id, req);
        self.outs.push_back(e);
        assert(events_view(self.outs@) =~= events_view(old(self).outs@).push(e@));
    }

    /// Tells the application that the remote node set `key` to `value`.
    pub fn report_put(&mut self, key: u64, value: u64)
        ensures
            final(self)@ == old(self)@.report_put(key, value),
    {
        let e = Event::KvEvent(KvEvent::Put(Some(self.remote), key, value));
        self.outs.push_back(e);
        assert(events_view(self.outs@) =~= events_view(old(self).outs@).push(e@));
    }

    /// Tells the application that the remote node deleted `key`.
    pub fn report_del(&mut self, key: u64)
        ensures
            final(self)@ == old(self)@.report_del(key),
    {
        let e = Event::KvEvent(KvEvent::Del(Some(self.remote), key));
        self.outs.push_back(e);
        assert(events_view(self.outs@) =~= events_view(old(self).outs@).push(e@));
    }
}

proof fn lemma_enqueue_all_stops(w: WorkingView, c: CtxView, changes: Seq<Changed>, i: int, j: int)
    requires
        0 <= i <= j <= changes.len(),
        w.enqueue_all(c, changes.take(i)).1.next_state is Some,
    ensures
        w.enqueue_all(c, changes.take(j)) == w.enqueue_all(c, changes.take(i)),
    decreases j - i,
{
    if j > i {
        lemma_enqueue_all_stops(w, c, changes, i, j - 1);
        assert(changes.take(j).drop_last() =~= changes.take(j - 1));
    }
}

impl WorkingState {
    pub open spec fn wf(&self) -> bool {
        self@.wf()
    }

    pub fn new(version: Version) -> (w: WorkingState)
        ensures
            w@ == WorkingView::new(version),
            w.wf(),
    {
        WorkingState { version, pendings: BTreeMap::new(), sending_req: None, latest_seen_version: None }
    }

    /// Entering the working state changes nothing.
    pub fn init(&mut self, ctx: &mut StateCtx, now: u64)
        requires
            old(ctx)@.wf(),
        ensures
            final(ctx).remote == old(ctx).remote,
            final(ctx)@.wf(),
            *final(self) == *old(self),
            *final(ctx) == *old(ctx),
    {
    }

    fn in_flight_fetch_changed(&self) -> (r: Option<(Version, u64)>)
        ensures
            r == self@.in_flight(),
    {
        match self.sending_req {
            Some((_, RpcReq::FetchChanged { from, count })) => Some((from, count)),
            _ => None,
        }
    }

    fn clear_satisfied_fetch_changed(&mut self)
        requires
            old(self).wf(),
        ensures
            final(self)@ == old(self)@.clear_satisfied(),
            final(self).wf(),
    {
        let (from, count) = match self.in_flight_fetch_changed() {
            Some(r) => r,
            None => return ,
        };
        if count > 0 && self.version.0 >= from.0 + (count - 1) {
            self.sending_req = None;
        }
    }

    fn request_fetch_changed(&mut self, ctx: &mut StateCtx, now: u64, from: Version, count: u64)
        requires
            old(ctx)@.wf(),
            old(self).wf(),
            count == 0 || from.0 + count - 1 <= u64::MAX,
        ensures
            final(ctx).remote == old(ctx).remote,
            final(ctx)@.wf(),
            (final(self)@, final(ctx)@) == old(self)@.request_fetch_changed(old(ctx)@, now, from, count),
            final(self).wf(),
    {
        if count == 0 {
            return ;
        }
        let requested_to = from.0 + (count - 1);
        if let Some((current_from, current_count)) = self.in_flight_fetch_changed() {
            let current_to = current_from.0 + (current_count - 1);
            if current_count > 0 && current_from.0 <= from.0 && current_to >= requested_to {
                return ;
            }
        }
        let req = RpcReq::FetchChanged { from, count };
        self.sending_req = Some((now, req));
        ctx.send_request(req);
    }

    fn apply_pendings(&mut self, ctx: &mut StateCtx, now: u64)
        requires
            old(ctx)@.wf(),
            old(self).wf(),
        ensures
            final(ctx).remote == old(ctx).remote,
            final(ctx)@.wf(),
            (final(self)@, final(ctx)@) == old(self)@.apply_pendings(old(ctx)@, now),
            final(self).wf(),
    {
        let ghost goal = old(self)@.apply_pendings(old(ctx)@, now);
        let mut done = false;
        while !done
            invariant
                ctx@.wf(),
                ctx.remote == old(ctx).remote,
                self.wf(),
                done ==> (self@, ctx@) == goal,
                !done ==> self@.apply_pendings(ctx@, now) == goal,
            decreases (if done {
                0
            } else {
                self.pendings@.len() + 1
            }),
        {
            if self.version.0 < u64::MAX && self.pendings.contains_key(&(self.version.0 + 1)) {
                let next = self.version.0 + 1;
                let ghost w0 = self@;
                let ghost c0 = ctx@;
                let data = match self.pendings.remove(&next) {
                    Some(d) => d,
                    None => {
                        done = true;
                        continue ;
                    },
                };
                assert(data == w0.pendings[next]);
                self.version = Version(next);
                match data.action {
                    Action::Put(value) => {
                        ctx.report_put(data.key, value);
                        ctx.slots.insert(data.key, Slot::new(value, data.version));
                    },
                    Action::Del => {
                        if ctx.slots.remove(&data.key).is_some() {
                            ctx.report_del(data.key);
                        }
                    },
                }
                let ghost w1 = self@;
                self.clear_satisfied_fetch_changed();
                proof {
                    let (ws, cs) = w0.apply_change(c0, data);
                    assert(w1.version == Version(w0.next()));
                    assert(w1.pendings == w0.pendings.remove(w0.next()));
                    assert(w1 == WorkingView { version: Version(w0.next()), pendings: w0.pendings.remove(w0.next()), ..w0 });
                    assert(self@ == ws);
                    assert(ctx@.slots == cs.slots);
                    assert(ctx@.outs == cs.outs);
                    assert(ctx@.next_state == cs.next_state);
                    assert(ctx@ == cs);
                }
            } else if !self.pendings.is_empty() {
                let keys = keys_in_order(&self.pendings);
                proof {
                    if keys@.len() == 0 {
                        assert(self.pendings@.dom() =~= Set::empty());
                    }
                    assert(keys@.to_set().contains(keys@[0]));
                }
                let first = keys[0];
                let from = self.version.0 + 1;
                self.request_fetch_changed(ctx, now, Version(from), first - from);
                done = true;
            } else {
                if let Some(latest) = self.latest_seen_version {
                    if latest.0 > self.version.0 {
                        let from = self.version.0 + 1;
                        self.request_fetch_changed(ctx, now, Version(from), latest.0 - self.version.0);
                    }
                }
                done = true;
            }
        }
    }

    fn enqueue_pending_changed(&mut self, ctx: &mut StateCtx, changed: Changed) -> (r: bool)
        requires
            old(ctx)@.wf(),
            old(self).wf(),
        ensures
            final(ctx).remote == old(ctx).remote,
            final(ctx)@.wf(),
            (r, final(self)@, final(ctx)@) == old(self)@.enqueue(old(ctx)@, changed),
            final(self).wf(),
    {
        if ctx.next_state.is_some() {
            return false;
        }
        if changed.version.0 <= self.version.0 {
            return false;
        }
        if self.pendings.contains_key(&changed.version.0) {
            return false;
        }
        if self.pendings.len() >= MAX_PENDING_CHANGEDS as usize {
            self.pendings.clear();
            self.sending_req = None;
            ctx.next_state = Some(RemoteStoreState::SyncFull(SyncFullState::preserve_existing_until_complete()));
            return true;
        }
        self.latest_seen_version = Some(
            match self.latest_seen_version {
                Some(l) => if l.0 < changed.version.0 {
                    changed.version
                } else {
                    l
                },
                None => changed.version,
            },
        );
        self.pendings.insert(changed.version.0, changed);
        true
    }

    pub fn on_tick(&mut self, ctx: &mut StateCtx, now: u64)
        requires
            old(ctx)@.wf(),
            old(self).wf(),
        ensures
            final(ctx).remote == old(ctx).remote,
            final(ctx)@.wf(),
            (final(self)@, final(ctx)@) == old(self)@.on_tick(old(ctx)@, now),
            final(self).wf(),
    {
        if let Some((sent_at, req)) = self.sending_req {
            if now >= sent_at && now - sent_at >= REQUEST_TIMEOUT_MS {
                self.sending_req = Some((now, req));
                ctx.send_request(req);
            }
        }
    }

    pub fn on_broadcast(&mut self, ctx: &mut StateCtx, now: u64, event: BroadcastEvent) -> (r: bool)
        requires
            old(ctx)@.wf(),
            old(self).wf(),
        ensures
            final(ctx).remote == old(ctx).remote,
            final(ctx)@.wf(),
            (r, final(self)@, final(ctx)@) == old(self)@.on_broadcast(old(ctx)@, now, event),
            final(self).wf(),
    {
        match event.data {
            BroadcastEventData::Changed(changed) => {
                if self.enqueue_pending_changed(ctx, changed) {
                    if ctx.next_state.is_none() {
                        self.apply_pendings(ctx, now);
                    }
                    true
                } else {
                    false
                }
            },
            BroadcastEventData::Version(version) => {
                if version.0 > self.version.0 {
                    self.latest_seen_version = Some(
                        match self.latest_seen_version {
                            Some(l) => if l.0 < version.0 {
                                version
                            } else {
                                l
                            },
                            None => version,
                        },
                    );
                    if self.pendings.is_empty() {
                        let from = self.version.0 + 1;
                        let count = version.0 - self.version.0;
                        self.request_fetch_changed(ctx, now, Version(from), count);
                    }
                    true
                } else {
                    version.0 == self.version.0
                }
            },
        }
    }

    pub fn on_rpc_res(&mut self, ctx: &mut StateCtx, now: u64, event: RpcRes) -> (r: bool)
        requires
            old(ctx)@.wf(),
            old(self).wf(),
        ensures
            final(ctx).remote == old(ctx).remote,
            final(ctx)@.wf(),
            (r, final(self)@, final(ctx)@) == old(self)@.on_rpc_res(old(ctx)@, now, event@),
            final(self).wf(),
    {
        let ghost res = event@;
        match event {
            RpcRes::FetchChanged(Ok(changeds)) => {
                let (from, count) = match self.in_flight_fetch_changed() {
                    Some(r) => r,
                    None => return false,
                };
                if count == 0 {
                    return false;
                }
                let requested_to = from.0 + (count - 1);
                let ghost w0 = old(self)@;
                let ghost c0 = old(ctx)@;
                let mut i: usize = 0;
                let mut stopped = false;
                while i < changeds.len() && !stopped
                    invariant
                        ctx@.wf(),
                        ctx.remote == old(ctx).remote,
                        self.wf(),
                        i <= changeds@.len(),
                        (self@, ctx@) == w0.enqueue_all(c0, changeds@.take(i as int)),
                        i > 0 && !stopped ==> ctx@.next_state is None,
                        stopped ==> i > 0 && ctx@.next_state is Some,
                    decreases changeds@.len() - i,
                {
                    assert(changeds@.take(i + 1).drop_last() =~= changeds@.take(i as int));
                    assert(changeds@.take(i + 1).last() == changeds@[i as int]);
                    let _ = self.enqueue_pending_changed(ctx, changeds[i]);
                    i = i + 1;
                    if ctx.next_state.is_some() {
                        stopped = true;
                    }
                }
                if stopped {
                    proof {
                        lemma_enqueue_all_stops(w0, c0, changeds@, i as int, changeds@.len() as int);
                        assert(changeds@.take(changeds@.len() as int) =~= changeds@);
                    }
                    return true;
                }
                assert(changeds@.take(changeds@.len() as int) =~= changeds@);
                self.sending_req = None;
                self.apply_pendings(ctx, now);
                if self.sending_req.is_none() && self.version.0 < requested_to {
                    let from = self.version.0 + 1;
                    let count = requested_to - self.version.0;
                    self.request_fetch_changed(ctx, now, Version(from), count);
                }
                true
            },
            RpcRes::FetchChanged(Err(_)) => {
                if self.sending_req.is_none() {
                    return false;
                }
                self.sending_req = None;
                ctx.next_state = Some(RemoteStoreState::SyncFull(SyncFullState::preserve_existing_until_complete()));
                true
            },
            RpcRes::FetchSnapshot(_, _) => false,
        }
    }
}

impl Default for SyncFullState {
    fn default() -> (s: SyncFullState)
        ensures
            s@ == SyncFullView::preserving(),
    {
        SyncFullState {
            version: None,
            catchup_to: None,
            sending_req: None,
            staged_slots: Some(BTreeMap::new()),
            skipped_newer: BTreeMap::new(),
        }
    }
}

impl SyncFullState {
    pub fn preserve_existing_until_complete() -> (s: SyncFullState)
        ensures
            s@ == SyncFullView::preserving(),
    {
        SyncFullState {
            staged_slots: Some(BTreeMap::new()),
            ..Default::default()
        }
    }

    pub fn init(&mut self, ctx: &mut StateCtx, now: u64)
        requires
            old(ctx)@.wf(),
        ensures
            final(ctx).remote == old(ctx).remote,
            final(ctx)@.wf(),
            (final(self)@, final(ctx)@) == old(self)@.init(old(ctx)@, now),
    {
        let req = RpcReq::FetchSnapshot { from: None, max_version: None, max_items: MAX_SNAPSHOT_SLOTS_PER_PAGE };
        self.sending_req = Some((now, req));
        ctx.send_request(req);
    }

    pub fn on_tick(&mut self, ctx: &mut StateCtx, now: u64)
        requires
            old(ctx)@.wf(),
        ensures
            final(ctx).remote == old(ctx).remote,
            final(ctx)@.wf(),
            (final(self)@, final(ctx)@) == old(self)@.on_tick(old(ctx)@, now),
    {
        if let Some((sent_at, req)) = self.sending_req {
            if now >= sent_at && now - sent_at >= REQUEST_TIMEOUT_MS {
                self.sending_req = Some((now, req));
                ctx.send_request(req);
            }
        }
    }

    fn remember_catchup_to(&mut self, version: Version)
        ensures
            final(self)@ == old(self)@.remember_catchup_to(version),
    {
        self.catchup_to = Some(
            match self.catchup_to {
                Some(current) => if current.0 < version.0 {
                    version
                } else {
                    current
                },
                None => version,
            },
        );
    }

    pub fn on_broadcast(&mut self, ctx: &mut StateCtx, now: u64, event: BroadcastEvent) -> (r: bool)
        requires
            old(ctx)@.wf(),
        ensures
            final(ctx).remote == old(ctx).remote,
            final(ctx)@.wf(),
            (r, final(self)@, final(ctx)@) == old(self)@.on_broadcast(old(ctx)@, event),
    {
        match event.data {
            BroadcastEventData::Changed(changed) => self.remember_catchup_to(changed.version),
            BroadcastEventData::Version(version) => self.remember_catchup_to(version),
        }
        true
    }

    fn restart_full_sync(&mut self, ctx: &mut StateCtx, now: u64)
        requires
            old(ctx)@.wf(),
        ensures
            final(ctx).remote == old(ctx).remote,
            final(ctx)@.wf(),
            (final(self)@, final(ctx)@) == old(self)@.restart(old(ctx)@, now),
    {
        self.version = None;
        self.staged_slots = Some(BTreeMap::new());
        self.skipped_newer.clear();
        let req = RpcReq::FetchSnapshot { from: None, max_version: None, max_items: MAX_SNAPSHOT_SLOTS_PER_PAGE };
        self.sending_req = Some((now, req));
        ctx.send_request(req);
    }

    fn commit_staged_slots(&mut self, ctx: &mut StateCtx)
        requires
            old(ctx)@.wf(),
        ensures
            final(ctx).remote == old(ctx).remote,
            final(ctx)@.wf(),
            (final(self)@, final(ctx)@) == old(self)@.commit_staged(old(ctx)@),
    {
        let mut staged = match self.staged_slots.take() {
            Some(st) => st,
            None => return ,
        };
        let ghost st0 = staged@;
        let ghost c0 = ctx@;
        let ghost s0 = old(self)@;
        let keys = keys_in_order(&ctx.slots);
        let mut i: usize = 0;
        while i < keys.len()
            invariant
                ctx@.wf(),
                ctx.remote == old(ctx).remote,
                ctx@ == (CtxView {
                    outs: c0.outs + keys@.take(i as int).filter(dropped_by(st0, s0.skipped_newer)).map_values(
                        del_event(c0.remote),
                    ),
                    ..c0
                }),
                self.skipped_newer@ == s0.skipped_newer,
                lists_in_order(keys@, c0.slots.dom()),
                keys@ == sorted_keys(c0.slots.dom()),
                i <= keys@.len(),
                staged@ == Map::new(
                    |k: u64| st0.contains_key(k) || (keys@.take(i as int).contains(k)
                        && s0.skipped_newer.contains_key(k)),
                    |k: u64| if st0.contains_key(k) {
                        st0[k]
                    } else {
                        c0.slots[k]
                    },
                ),
            decreases keys@.len() - i,
        {
            let k = keys[i];
            let ghost prev = keys@.take(i as int);
            proof {
                assert(keys@.take(i + 1) =~= prev.push(k));
                prev.lemma_filter_push(k, dropped_by(st0, s0.skipped_newer));
                assert(keys@.to_set().contains(k));
                assert(!prev.contains(k)) by {
                    if prev.contains(k) {
                        let j = choose|j: int| 0 <= j < prev.len() && prev[j] == k;
                        assert(keys@[j] < keys@[i as int]);
                    }
                }
                assert forall|x: u64| keys@.take(i + 1).contains(x) <==> (prev.contains(x) || x == k) by {
                    let t = keys@.take(i + 1);
                    if t.contains(x) {
                        let j = choose|j: int| 0 <= j < t.len() && t[j] == x;
                        if j < i {
                            assert(prev[j] == x);
                        }
                    }
                    if prev.contains(x) {
                        let j = choose|j: int| 0 <= j < i && prev[j] == x;
                        assert(keys@.take(i + 1)[j] == x);
                    }
                    if x == k {
                        assert(keys@.take(i + 1)[i as int] == x);
                    }
                }
            }
            if staged.contains_key(&k) {
                assert(st0.contains_key(k));
                assert(staged@ =~= Map::new(
                    |x: u64| st0.contains_key(x) || (keys@.take(i + 1).contains(x)
                        && s0.skipped_newer.contains_key(x)),
                    |x: u64| if st0.contains_key(x) {
                        st0[x]
                    } else {
                        c0.slots[x]
                    },
                ));
            } else if self.skipped_newer.contains_key(&k) {
                let slot = match ctx.slots.get(&k) {
                    Some(slot) => *slot,
                    None => return ,
                };
                staged.insert(k, slot);
                assert(staged@ =~= Map::new(
                    |x: u64| st0.contains_key(x) || (keys@.take(i + 1).contains(x)
                        && s0.skipped_newer.contains_key(x)),
                    |x: u64| if st0.contains_key(x) {
                        st0[x]
                    } else {
                        c0.slots[x]
                    },
                ));
            } else {
                ctx.report_del(k);
                assert(ctx@.outs =~= c0.outs + keys@.take(i + 1).filter(dropped_by(st0, s0.skipped_newer)).map_values(
                    del_event(c0.remote),
                ));
                assert(staged@ =~= Map::new(
                    |x: u64| st0.contains_key(x) || (keys@.take(i + 1).contains(x)
                        && s0.skipped_newer.contains_key(x)),
                    |x: u64| if st0.contains_key(x) {
                        st0[x]
                    } else {
                        c0.slots[x]
                    },
                ));
            }
            i = i + 1;
        }
        let ghost done = s0.completed_stage(st0, c0.slots);
        proof {
            assert(keys@.take(keys@.len() as int) =~= keys@);
            assert forall|x: u64| keys@.contains(x) <==> c0.slots.contains_key(x) by {
                assert(keys@.to_set().contains(x) <==> keys@.contains(x));
            }
            assert(staged@ =~= done);
        }
        let ghost dels = keys@.filter(dropped_by(st0, s0.skipped_newer)).map_values(del_event(c0.remote));
        let skeys = keys_in_order(&staged);
        let mut j: usize = 0;
        while j < skeys.len()
            invariant
                ctx@.wf(),
                ctx.remote == old(ctx).remote,
                ctx@ == (CtxView {
                    outs: c0.outs + dels + skeys@.take(j as int).filter(changed_from(c0.slots, done)).map_values(
                        put_event(c0.remote, done),
                    ),
                    ..c0
                }),
                staged@ == done,
                lists_in_order(skeys@, done.dom()),
                j <= skeys@.len(),
            decreases skeys@.len() - j,
        {
            let k = skeys[j];
            let ghost prev = skeys@.take(j as int);
            proof {
                assert(skeys@.take(j + 1) =~= prev.push(k));
                prev.lemma_filter_push(k, changed_from(c0.slots, done));
                assert(skeys@.to_set().contains(k));
            }
            let value = match staged.get(&k) {
                Some(slot) => slot.value,
                None => return ,
            };
            let differs = match ctx.slots.get(&k) {
                Some(current) => current.value != value,
                None => true,
            };
            if differs {
                ctx.report_put(k, value);
                assert(ctx@.outs =~= c0.outs + dels + skeys@.take(j + 1).filter(changed_from(c0.slots, done)).map_values(
                    put_event(c0.remote, done),
                ));
            }
            j = j + 1;
        }
        proof {
            assert(skeys@.take(skeys@.len() as int) =~= skeys@);
        }
        ctx.slots = staged;
    }

    fn on_page(
        &mut self,
        ctx: &mut StateCtx,
        now: u64,
        snapshot: SnapshotData,
        version: Version,
        max_version: Option<Version>,
        max_items: u64,
    ) -> (r: bool)
        requires
            old(ctx)@.wf(),
        ensures
            final(ctx).remote == old(ctx).remote,
            final(ctx)@.wf(),
            (r, final(self)@, final(ctx)@) == old(self)@.on_page(
                old(ctx)@,
                now,
                snapshot@,
                version,
                max_version,
                max_items,
            ),
    {
        let page_items = snapshot.slots.len().saturating_add(snapshot.skipped_newer.len());
        if page_items as u64 > MAX_SNAPSHOT_SLOTS_PER_PAGE {
            return false;
        }
        if page_items as u64 > max_items {
            return false;
        }
        if page_items == 0 && snapshot.next_key.is_some() {
            return false;
        }
        if let Some(mv) = max_version {
            if mv.0 != version.0 {
                self.restart_full_sync(ctx, now);
                return true;
            }
        }
        if let Some(staged) = &self.staged_slots {
            let total = staged.len().saturating_add(self.skipped_newer.len()).saturating_add(page_items);
            if total as u64 > MAX_STAGED_SNAPSHOT_SLOTS {
                return false;
            }
        }
        let ghost s0 = self@;
        let ghost c0 = ctx@;
        let mut i: usize = 0;
        while i < snapshot.slots.len()
            invariant
                ctx@.wf(),
                ctx.remote == old(ctx).remote,
                i <= snapshot.slots@.len(),
                (self@, ctx@) == s0.stage_page(c0, snapshot.slots@.take(i as int)),
            decreases snapshot.slots@.len() - i,
        {
            let (k, slot) = snapshot.slots[i];
            proof {
                assert(snapshot.slots@.take(i + 1).drop_last() =~= snapshot.slots@.take(i as int));
                assert(snapshot.slots@.take(i + 1).last() == (k, slot));
            }
            match self.staged_slots.take() {
                Some(mut st) => {
                    st.insert(k, slot);
                    self.staged_slots = Some(st);
                },
                None => {
                    ctx.report_put(k, slot.value);
                    ctx.slots.insert(k, slot);
                },
            }
            i = i + 1;
        }
        assert(snapshot.slots@.take(snapshot.slots@.len() as int) =~= snapshot.slots@);
        let ghost s1 = self@;
        let mut j: usize = 0;
        while j < snapshot.skipped_newer.len()
            invariant
                ctx@.wf(),
                ctx.remote == old(ctx).remote,
                j <= snapshot.skipped_newer@.len(),
                self@ == s1.note_skipped(snapshot.skipped_newer@.take(j as int)),
            decreases snapshot.skipped_newer@.len() - j,
        {
            let (k, v) = snapshot.skipped_newer[j];
            proof {
                assert(snapshot.skipped_newer@.take(j + 1).drop_last() =~= snapshot.skipped_newer@.take(j as int));
                assert(snapshot.skipped_newer@.take(j + 1).last() == (k, v));
            }
            self.remember_catchup_to(v);
            self.skipped_newer.insert(k, v);
            j = j + 1;
        }
        assert(snapshot.skipped_newer@.take(snapshot.skipped_newer@.len() as int) =~= snapshot.skipped_newer@);
        let locked = match self.version {
            Some(v) => v,
            None => version,
        };
        self.version = Some(locked);
        match snapshot.next_key {
            Some(next_key) => {
                let req = RpcReq::FetchSnapshot {
                    from: Some(next_key),
                    max_version: Some(locked),
                    max_items: MAX_SNAPSHOT_SLOTS_PER_PAGE,
                };
                self.sending_req = Some((now, req));
                ctx.send_request(req);
            },
            None => self.transition_to_working(ctx, now, locked),
        }
        true
    }

    pub fn on_rpc_res(&mut self, ctx: &mut StateCtx, now: u64, event: RpcRes) -> (r: bool)
        requires
            old(ctx)@.wf(),
        ensures
            final(ctx).remote == old(ctx).remote,
            final(ctx)@.wf(),
            (r, final(self)@, final(ctx)@) == old(self)@.on_rpc_res(old(ctx)@, now, event@),
    {
        match event {
            RpcRes::FetchChanged(_) => false,
            RpcRes::FetchSnapshot(Some(snapshot), version) => {
                let (max_version, max_items) = match self.sending_req {
                    Some((_, RpcReq::FetchSnapshot { from: _, max_version, max_items })) => (max_version, max_items),
                    _ => return false,
                };
                self.on_page(ctx, now, snapshot, version, max_version, max_items)
            },
            RpcRes::FetchSnapshot(None, version) => {
                let (from, max_version) = match self.sending_req {
                    Some((_, RpcReq::FetchSnapshot { from, max_version, max_items: _ })) => (from, max_version),
                    _ => return false,
                };
                if from.is_some() || max_version.is_some() {
                    self.restart_full_sync(ctx, now);
                    return true;
                }
                let version = match self.version {
                    Some(v) => v,
                    None => version,
                };
                self.transition_to_working(ctx, now, version);
                true
            },
        }
    }

    fn transition_to_working(&mut self, ctx: &mut StateCtx, now: u64, version: Version)
        requires
            old(ctx)@.wf(),
        ensures
            final(ctx).remote == old(ctx).remote,
            final(ctx)@.wf(),
            (final(self)@, final(ctx)@) == old(self)@.transition(old(ctx)@, now, version),
    {
        self.commit_staged_slots(ctx);
        self.sending_req = None;
        let mut state = WorkingState::new(version);
        if let Some(catchup_to) = self.catchup_to {
            if catchup_to.0 > version.0 {
                state.request_fetch_changed(ctx, now, Version(version.0 + 1), catchup_to.0 - version.0);
            }
        }
        ctx.next_state = Some(RemoteStoreState::Working(state));
    }
}


impl DestroyState {
    /// Drops every slot, reporting each deleted in key order.
    pub fn init(&mut self, ctx: &mut StateCtx, now: u64)
        requires
            old(ctx)@.wf(),
        ensures
            final(ctx).remote == old(ctx).remote,
            final(ctx)@.wf(),
            final(ctx)@ == destroy_ctx(old(ctx)@),
    {
        let keys = keys_in_order(&ctx.slots);
        let ghost c0 = ctx@;
        let mut i: usize = 0;
        while i < keys.len()
            invariant
                ctx@.wf(),
                ctx.remote == old(ctx).remote,
                i <= keys@.len(),
                keys@ == sorted_keys(c0.slots.dom()),
                ctx@ == (CtxView { outs: c0.outs + keys@.take(i as int).map_values(del_event(c0.remote)), ..c0 }),
            decreases keys@.len() - i,
        {
            ctx.report_del(keys[i]);
            assert(keys@.take(i + 1).map_values(del_event(c0.remote)) =~= keys@.take(i as int).map_values(
                del_event(c0.remote),
            ).push(del_event(c0.remote)(keys@[i as int])));
            i = i + 1;
        }
        assert(keys@.take(keys@.len() as int) =~= keys@);
        ctx.slots.clear();
    }

    /// Nothing happens on a tick.
    pub fn on_tick(&mut self, ctx: &mut StateCtx, now: u64)
        requires
            old(ctx)@.wf(),
        ensures
            final(ctx).remote == old(ctx).remote,
            final(ctx)@.wf(),
            *final(ctx) == *old(ctx),
    {
    }

    /// Broadcasts are ignored.
    pub fn on_broadcast(&mut self, ctx: &mut StateCtx, now: u64, event: BroadcastEvent) -> (r: bool)
        requires
            old(ctx)@.wf(),
        ensures
            final(ctx).remote == old(ctx).remote,
            final(ctx)@.wf(),
            !r,
            *final(ctx) == *old(ctx),
    {
        false
    }

    /// Answers are ignored.
    pub fn on_rpc_res(&mut self, ctx: &mut StateCtx, now: u64, event: RpcRes) -> (r: bool)
        requires
            old(ctx)@.wf(),
        ensures
            final(ctx).remote == old(ctx).remote,
            final(ctx)@.wf(),
            !r,
            *final(ctx) == *old(ctx),
    {
        false
    }
}

impl RemoteStoreState {
    pub open spec fn wf(&self) -> bool {
        self@.wf()
    }

    pub fn init(&mut self, ctx: &mut StateCtx, now: u64)
        requires
            old(ctx)@.wf(),
            old(self).wf(),
        ensures
            final(ctx).remote == old(ctx).remote,
            final(ctx)@.wf(),
            (final(self)@, final(ctx)@) == old(self)@.init(old(ctx)@, now),
            final(self).wf(),
    {
        match self {
            RemoteStoreState::SyncFull(state) => state.init(ctx, now),
            RemoteStoreState::Working(state) => state.init(ctx, now),
            RemoteStoreState::Destroy(state) => state.init(ctx, now),
        }
    }

    pub fn on_tick(&mut self, ctx: &mut StateCtx, now: u64)
        requires
            old(ctx)@.wf(),
            old(self).wf(),
        ensures
            final(ctx).remote == old(ctx).remote,
            final(ctx)@.wf(),
            (final(self)@, final(ctx)@) == old(self)@.on_tick(old(ctx)@, now),
            final(self).wf(),
    {
        match self {
            RemoteStoreState::SyncFull(state) => state.on_tick(ctx, now),
            RemoteStoreState::Working(state) => state.on_tick(ctx, now),
            RemoteStoreState::Destroy(state) => state.on_tick(ctx, now),
        }
    }

    pub fn on_broadcast(&mut self, ctx: &mut StateCtx, now: u64, event: BroadcastEvent) -> (r: bool)
        requires
            old(ctx)@.wf(),
            old(self).wf(),
        ensures
            final(ctx).remote == old(ctx).remote,
            final(ctx)@.wf(),
            (r, final(self)@, final(ctx)@) == old(self)@.on_broadcast(old(ctx)@, now, event),
            final(self).wf(),
    {
        match self {
            RemoteStoreState::SyncFull(state) => state.on_broadcast(ctx, now, event),
            RemoteStoreState::Working(state) => state.on_broadcast(ctx, now, event),
            RemoteStoreState::Destroy(state) => state.on_broadcast(ctx, now, event),
        }
    }

    pub fn on_rpc_res(&mut self, ctx: &mut StateCtx, now: u64, event: RpcRes) -> (r: bool)
        requires
            old(ctx)@.wf(),
            old(self).wf(),
        ensures
            final(ctx).remote == old(ctx).remote,
            final(ctx)@.wf(),
            (r, final(self)@, final(ctx)@) == old(self)@.on_rpc_res(old(ctx)@, now, event@),
            final(self).wf(),
    {
        match self {
            RemoteStoreState::SyncFull(state) => state.on_rpc_res(ctx, now, event),
            RemoteStoreState::Working(state) => state.on_rpc_res(ctx, now, event),
            RemoteStoreState::Destroy(state) => state.on_rpc_res(ctx, now, event),
        }
    }
}


pub struct RemoteStore {
    /// The session of the remote node that this replica follows.
    pub session_id: u64,
    pub ctx: StateCtx,
    pub state: RemoteStoreState,
    /// When the remote node last showed activity that was accepted.
    pub last_active: u64,
}

pub struct RemoteStoreView {
    pub session_id: u64,
    pub ctx: CtxView,
    pub state: StateView,
    pub last_active: u64,
}

impl View for RemoteStore {
    type V = RemoteStoreView;

    open spec fn view(&self) -> RemoteStoreView {
        RemoteStoreView {
            session_id: self.session_id,
            ctx: self.ctx@,
            state: self.state@,
            last_active: self.last_active,
        }
    }
}

impl RemoteStoreView {
    /// No next state is pending between events, and the state is well formed.
    pub open spec fn wf(self) -> bool {
        self.ctx.next_state is None && self.state.wf() && self.ctx.slots.dom().finite()
    }

    /// The replica of `remote` just created at `now`: it has asked for the
    /// first snapshot page.
    pub open spec fn created(remote: u64, local_session_id: u64, remote_session_id: u64, now: u64) -> RemoteStoreView {
        RemoteStoreView {
            session_id: remote_session_id,
            ctx: CtxView {
                remote,
                local_session_id,
                slots: Map::empty(),
                outs: seq![request_to(remote, local_session_id, first_page_request())],
                next_state: None,
            },
            state: StateView::SyncFull(
                SyncFullView { sending_req: Some((now, first_page_request())), ..SyncFullView::preserving() },
            ),
            last_active: now,
        }
    }

    /// After a state handler returned `accepted`, `state` and `c`: a chosen
    /// next state is entered, and accepted activity refreshes `last_active`.
    pub open spec fn settle(self, accepted: bool, state: StateView, c: CtxView, now: u64) -> RemoteStoreView {
        let (state2, c2) = match c.next_state {
            Some(next) => next.init(CtxView { next_state: None, ..c }, now),
            None => (state, c),
        };
        RemoteStoreView {
            ctx: c2,
            state: state2,
            last_active: if accepted {
                now
            } else {
                self.last_active
            },
            ..self
        }
    }

    pub open spec fn after_tick(self, now: u64) -> RemoteStoreView {
        let (state, c) = self.state.on_tick(self.ctx, now);
        RemoteStoreView { ctx: c, state, ..self }
    }

    pub open spec fn after_destroy(self) -> RemoteStoreView {
        RemoteStoreView { ctx: destroy_ctx(self.ctx), state: StateView::Destroy, ..self }
    }

    pub open spec fn after_broadcast(self, now: u64, event: BroadcastEvent) -> RemoteStoreView {
        let (r, state, c) = self.state.on_broadcast(self.ctx, now, event);
        self.settle(r, state, c, now)
    }

    pub open spec fn after_rpc_res(self, now: u64, res: RpcResView) -> RemoteStoreView {
        let (r, state, c) = self.state.on_rpc_res(self.ctx, now, res);
        self.settle(r, state, c, now)
    }

    pub open spec fn with_outs(self, outs: Seq<EventView>) -> RemoteStoreView {
        RemoteStoreView { ctx: CtxView { outs, ..self.ctx }, ..self }
    }
}

impl RemoteStore {
    pub open spec fn wf(&self) -> bool {
        self@.wf()
    }

    /// A replica of `remote`, created at the current time.
    pub fn new(remote: u64, local_session_id: u64, remote_session_id: u64) -> (s: RemoteStore)
        ensures
            s.wf(),
            exists|now: u64| s@ == RemoteStoreView::created(remote, local_session_id, remote_session_id, now),
    {
        let now = now_ms();
        Self::new_at(now, remote, local_session_id, remote_session_id)
    }

    /// A replica of `remote`, created at `now`.
    pub fn new_at(now: u64, remote: u64, local_session_id: u64, remote_session_id: u64) -> (s: RemoteStore)
        ensures
            s.wf(),
            s@ == RemoteStoreView::created(remote, local_session_id, remote_session_id, now),
    {
        let mut ctx = StateCtx {
            remote,
            local_session_id,
            slots: BTreeMap::new(),
            outs: VecDeque::new(),
            next_state: None,
        };
        let mut state = SyncFullState::default();
        state.init(&mut ctx, now);
        let s = Self { session_id: remote_session_id, ctx, state: RemoteStoreState::SyncFull(state), last_active: now };
        assert(s@.ctx.outs =~= seq![request_to(remote, local_session_id, first_page_request())]);
        s
    }

    fn settle(&mut self, accepted: bool, now: u64)
        requires
            old(self).state.wf(),
            old(self).ctx@.wf(),
        ensures
            final(self).ctx.remote == old(self).ctx.remote,
            final(self).wf(),
            final(self)@ == old(self)@.settle(accepted, old(self).state@, old(self).ctx@, now),
    {
        if let Some(mut next_state) = self.ctx.next_state.take() {
            next_state.init(&mut self.ctx, now);
            self.state = next_state;
        }
        if accepted {
            self.last_active = now;
        }
    }

    pub fn on_tick(&mut self)
        requires
            old(self).wf(),
        ensures
            final(self).ctx.remote == old(self).ctx.remote,
            final(self).wf(),
            exists|now: u64| final(self)@ == old(self)@.after_tick(now),
    {
        let now = now_ms();
        self.on_tick_at(now);
    }

    pub fn on_tick_at(&mut self, now: u64)
        requires
            old(self).wf(),
        ensures
            final(self).ctx.remote == old(self).ctx.remote,
            final(self).wf(),
            final(self)@ == old(self)@.after_tick(now),
    {
        self.state.on_tick(&mut self.ctx, now);
    }

    /// Drops every slot of the remote node; the replica then ignores all
    /// further events.
    pub fn destroy(&mut self)
        requires
            old(self).wf(),
        ensures
            final(self).ctx.remote == old(self).ctx.remote,
            final(self).wf(),
            final(self)@ == old(self)@.after_destroy(),
    {
        let mut state = DestroyState {};
        state.init(&mut self.ctx, 0);
        self.state = RemoteStoreState::Destroy(state);
    }

    pub fn last_active(&self) -> (t: u64)
        ensures
            t == self.last_active,
    {
        self.last_active
    }

    pub fn on_broadcast(&mut self, event: BroadcastEvent)
        requires
            old(self).wf(),
        ensures
            final(self).ctx.remote == old(self).ctx.remote,
            final(self).wf(),
            exists|now: u64| final(self)@ == old(self)@.after_broadcast(now, event),
    {
        let now = now_ms();
        self.on_broadcast_at(now, event);
    }

    pub fn on_broadcast_at(&mut self, now: u64, event: BroadcastEvent)
        requires
            old(self).wf(),
        ensures
            final(self).ctx.remote == old(self).ctx.remote,
            final(self).wf(),
            final(self)@ == old(self)@.after_broadcast(now, event),
    {
        let accepted = self.state.on_broadcast(&mut self.ctx, now, event);
        self.settle(accepted, now);
    }

    pub fn on_rpc_res(&mut self, event: RpcRes)
        requires
            old(self).wf(),
        ensures
            final(self).ctx.remote == old(self).ctx.remote,
            final(self).wf(),
            exists|now: u64| final(self)@ == old(self)@.after_rpc_res(now, event@),
    {
        let now = now_ms();
        self.on_rpc_res_at(now, event);
    }

    pub fn on_rpc_res_at(&mut self, now: u64, event: RpcRes)
        requires
            old(self).wf(),
        ensures
            final(self).ctx.remote == old(self).ctx.remote,
            final(self).wf(),
            final(self)@ == old(self)@.after_rpc_res(now, event@),
    {
        let accepted = self.state.on_rpc_res(&mut self.ctx, now, event);
        self.settle(accepted, now);
    }

    pub fn pop_out(&mut self) -> (e: Option<Event>)
        requires
            old(self).wf(),
        ensures
            final(self).ctx.remote == old(self).ctx.remote,
            final(self).wf(),
            old(self)@.ctx.outs.len() == 0 ==> e is None && final(self)@ == old(self)@,
            old(self)@.ctx.outs.len() > 0 ==> e is Some && e->0@ == old(self)@.ctx.outs[0]
                && final(self)@ == old(self)@.with_outs(old(self)@.ctx.outs.drop_first()),
    {
        let e = self.ctx.outs.pop_front();
        proof {
            if old(self).ctx.outs@.len() > 0 {
                assert(events_view(self.ctx.outs@) =~= events_view(old(self).ctx.outs@).drop_first());
            }
        }
        e
    }
}

} // verus!
