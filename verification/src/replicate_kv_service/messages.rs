//! Messages exchanged between replicas of the key-value store, and the
//! events a store hands to the layer that drives it.
//!
//! Node ids, keys and values are `u64`.  A type that holds a `Vec` has a
//! view in which each `Vec` is replaced by its `Seq`.
use vstd::prelude::*;

verus! {

/// A position in one node's change log.  Version 0 is the empty log; the
/// n-th change a node makes has version n.
#[derive(Debug, Clone, Copy, PartialEq, Eq, Structural)]
pub struct Version(pub u64);

impl Version {
    /// The version after this one, unless this is the last one.
    pub fn checked_next(self) -> (r: Option<Version>)
        ensures
            r == (if self.0 < u64::MAX {
                Some(Version((self.0 + 1) as u64))
            } else {
                None
            }),
    {
        if self.0 < u64::MAX {
            Some(Version(self.0 + 1))
        } else {
            None
        }
    }
}

/// A stored value with the version of the change that wrote it.
#[derive(Debug, Clone, Copy, PartialEq, Eq, Structural)]
pub struct Slot {
    pub value: u64,
    pub version: Version,
}

impl Slot {
    pub fn new(value: u64, version: Version) -> (s: Slot)
        ensures
            s == (Slot { value, version }),
    {
        Slot { value, version }
    }
}

#[derive(Debug, Clone, Copy, PartialEq, Eq, Structural)]
pub enum Action {
    Put(u64),
    Del,
}

/// One entry of a node's change log.
#[derive(Debug, Clone, Copy, PartialEq, Eq, Structural)]
pub struct Changed {
    pub key: u64,
    pub version: Version,
    pub action: Action,
}

#[derive(Debug, Clone, Copy, PartialEq, Eq, Structural)]
pub enum BroadcastEventData {
    Changed(Changed),
    Version(Version),
}

#[derive(Debug, Clone, Copy, PartialEq, Eq, Structural)]
pub struct BroadcastEvent {
    pub session_id: u64,
    pub data: BroadcastEventData,
}

#[derive(Debug, Clone, Copy, PartialEq, Eq, Structural)]
pub enum RpcReq {
    /// The changes with versions `from`, `from + 1`, ..., `from + count - 1`.
    FetchChanged { from: Version, count: u64 },
    /// One page of the owner's slots, starting at key `from` (the first key
    /// when `None`), as they stood at `max_version` (the owner's current
    /// version when `None`), scanning at most `max_items` slots.
    FetchSnapshot { from: Option<u64>, max_version: Option<Version>, max_items: u64 },
}

#[derive(Debug, Clone, Copy, PartialEq, Eq, Structural)]
pub enum FetchChangedError {
    MissingData,
}

/// One page of a snapshot.
#[derive(Debug, Clone, PartialEq, Eq)]
pub struct SnapshotData {
    /// Scanned slots whose version is not above the snapshot version.
    pub slots: Vec<(u64, Slot)>,
    /// Keys whose current version is above the snapshot version.
    pub skipped_newer: Vec<(u64, Version)>,
    /// Where the next page starts; `None` on the last page.
    pub next_key: Option<u64>,
}

pub struct SnapshotView {
    pub slots: Seq<(u64, Slot)>,
    pub skipped_newer: Seq<(u64, Version)>,
    pub next_key: Option<u64>,
}

impl View for SnapshotData {
    type V = SnapshotView;

    open spec fn view(&self) -> SnapshotView {
        SnapshotView { slots: self.slots@, skipped_newer: self.skipped_newer@, next_key: self.next_key }
    }
}

#[derive(Debug, PartialEq, Eq)]
pub enum RpcRes {
    FetchChanged(Result<Vec<Changed>, FetchChangedError>),
    FetchSnapshot(Option<SnapshotData>, Version),
}

pub enum RpcResView {
    FetchChanged(Result<Seq<Changed>, FetchChangedError>),
    FetchSnapshot(Option<SnapshotView>, Version),
}

/// A fetched range of changes, with its `Vec` seen as a `Seq`.
pub open spec fn changes_view(r: Result<Vec<Changed>, FetchChangedError>) -> Result<
    Seq<Changed>,
    FetchChangedError,
> {
    match r {
        Ok(v) => Ok(v@),
        Err(e) => Err(e),
    }
}

/// A snapshot page, with its `Vec`s seen as `Seq`s.
pub open spec fn snapshot_view(d: Option<SnapshotData>) -> Option<SnapshotView> {
    match d {
        Some(d) => Some(d@),
        None => None,
    }
}

impl View for RpcRes {
    type V = RpcResView;

    open spec fn view(&self) -> RpcResView {
        match self {
            RpcRes::FetchChanged(r) => RpcResView::FetchChanged(changes_view(*r)),
            RpcRes::FetchSnapshot(d, v) => RpcResView::FetchSnapshot(snapshot_view(*d), *v),
        }
    }
}

#[derive(Debug, PartialEq, Eq)]
pub enum RpcEventData {
    RpcReq(RpcReq),
    RpcRes(RpcRes),
}

pub enum RpcEventDataView {
    RpcReq(RpcReq),
    RpcRes(RpcResView),
}

impl View for RpcEventData {
    type V = RpcEventDataView;

    open spec fn view(&self) -> RpcEventDataView {
        match self {
            RpcEventData::RpcReq(r) => RpcEventDataView::RpcReq(*r),
            RpcEventData::RpcRes(r) => RpcEventDataView::RpcRes(r@),
        }
    }
}

#[derive(Debug, PartialEq, Eq)]
pub struct RpcEvent {
    pub session_id: u64,
    pub data: RpcEventData,
}

pub struct RpcEventView {
    pub session_id: u64,
    pub data: RpcEventDataView,
}

impl View for RpcEvent {
    type V = RpcEventView;

    open spec fn view(&self) -> RpcEventView {
        RpcEventView { session_id: self.session_id, data: self.data@ }
    }
}

#[derive(Debug, PartialEq, Eq)]
pub enum NetEvent {
    Broadcast(BroadcastEvent),
    /// A message to or from the given node.
    Unicast(u64, RpcEvent),
}

pub enum NetEventView {
    Broadcast(BroadcastEvent),
    Unicast(u64, RpcEventView),
}

impl View for NetEvent {
    type V = NetEventView;

    open spec fn view(&self) -> NetEventView {
        match self {
            NetEvent::Broadcast(b) => NetEventView::Broadcast(*b),
            NetEvent::Unicast(n, r) => NetEventView::Unicast(*n, r@),
        }
    }
}

/// A change that the application sees: the first field is the node that
/// owns the key, `None` for the local node.
#[derive(Debug, Clone, Copy, PartialEq, Eq, Structural)]
pub enum KvEvent {
    Put(Option<u64>, u64, u64),
    Del(Option<u64>, u64),
}

#[derive(Debug, PartialEq, Eq)]
pub enum Event {
    NetEvent(NetEvent),
    KvEvent(KvEvent),
}

pub enum EventView {
    NetEvent(NetEventView),
    KvEvent(KvEvent),
}

impl View for Event {
    type V = EventView;

    open spec fn view(&self) -> EventView {
        match self {
            Event::NetEvent(n) => EventView::NetEvent(n@),
            Event::KvEvent(k) => EventView::KvEvent(*k),
        }
    }
}

/// The keys of a sequence of key-tagged entries.
pub open spec fn keys_of<T>(s: Seq<(u64, T)>) -> Seq<u64> {
    s.map_values(|p: (u64, T)| p.0)
}

/// Whether a key occurs in a vector of key-tagged entries.
pub fn holds_key<T>(v: &Vec<(u64, T)>, key: u64) -> (r: bool)
    ensures
        r == keys_of(v@).contains(key),
{
    let mut i: usize = 0;
    while i < v.len()
        invariant
            i <= v@.len(),
            forall|j: int| 0 <= j < i ==> v@[j].0 != key,
        decreases v@.len() - i,
    {
        if v[i].0 == key {
            assert(keys_of(v@)[i as int] == key);
            return true;
        }
        i = i + 1;
    }
    proof {
        if keys_of(v@).contains(key) {
            let j = choose|j: int| 0 <= j < keys_of(v@).len() && keys_of(v@)[j] == key;
            assert(v@[j].0 == key);
        }
    }
    false
}

/// The views of a sequence of events.
pub open spec fn events_view(s: Seq<Event>) -> Seq<EventView> {
    s.map_values(|e: Event| e@)
}

/// A request to `remote`, sent in session `session_id`.
pub open spec fn request_to(remote: u64, session_id: u64, req: RpcReq) -> EventView {
    EventView::NetEvent(
        NetEventView::Unicast(
            remote,
            RpcEventView { session_id, data: RpcEventDataView::RpcReq(req) },
        ),
    )
}

/// A broadcast sent in session `session_id`.
pub open spec fn broadcast_of(session_id: u64, data: BroadcastEventData) -> EventView {
    EventView::NetEvent(NetEventView::Broadcast(BroadcastEvent { session_id, data }))
}

pub fn make_request(remote: u64, session_id: u64, req: RpcReq) -> (e: Event)
    ensures
        e@ == request_to(remote, session_id, req),
{
    Event::NetEvent(
        NetEvent::Unicast(remote, RpcEvent { session_id, data: RpcEventData::RpcReq(req) }),
    )
}

} // verus!
