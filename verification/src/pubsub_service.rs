//! Publish/subscribe over channels.
//!
//! Local publishers and subscribers join channels; each node tells the
//! others when it starts or stops publishing or subscribing on a channel,
//! with a generation so that an old announcement cannot undo a newer one,
//! and repeats its memberships in periodic heartbeats.  Data published on a
//! channel goes to its subscribers, feedback to its publishers, and either
//! side can ask a question (an RPC) that the first answer settles.
//!
//! This module holds the identifiers, events and messages, and the state of
//! one channel; `state` holds the service's decisions.
use std::collections::BTreeMap;
use vstd::prelude::*;

use crate::ordered::keys_in_order;
use crate::peer::PeerId;
use crate::system::random_u64;

pub mod properties;
pub mod state;

verus! {

broadcast use vstd::std_specs::btree::group_btree_axioms, vstd::laws_cmp::group_laws_cmp;

pub const HEARTBEAT_INTERVAL_MS: u64 = 5_000;

/// How many control requests may wait for the service.
pub const PUBSUB_INTERNAL_CONTROL_QUEUE_SIZE: usize = 1024;

pub const MAX_REMOTE_CREATED_CHANNELS: usize = 1024;

pub const MAX_REMOTE_ROLE_TOMBSTONES: usize = 2048;

pub const MAX_REMOTE_MEMBERS_PER_CHANNEL: usize = 1024;

pub const MAX_HEARTBEAT_CHANNELS_PER_BATCH: usize = 1024;

pub const MAX_RPC_METHOD_LEN: usize = 1024;

pub const MAX_PENDING_RPC_REQUESTS: usize = 1024;

/// Where a member of a channel is: this node or another.
#[derive(Debug, Clone, Copy, PartialEq, Eq, Hash, Structural)]
pub enum PeerSrc {
    Local,
    Remote(PeerId),
}

#[derive(Debug, Clone, Copy, PartialEq, Eq, Hash, Structural)]
pub struct RpcId(pub u64);

impl RpcId {
    /// A random id.
    pub fn rand() -> RpcId {
        RpcId(random_u64())
    }
}

#[derive(Debug, Clone, Copy, PartialEq, Eq, Structural)]
pub enum PubsubRpcError {
    Timeout,
    NoDestination,
    TooManyPendingRequests,
}

impl PubsubRpcError {
    /// The error's name.
    pub fn to_string(&self) -> (s: String)
        ensures
            s@ == match self {
                PubsubRpcError::Timeout => "Timeout"@,
                PubsubRpcError::NoDestination => "NoDestination"@,
                PubsubRpcError::TooManyPendingRequests => "TooManyPendingRequests"@,
            },
    {
        match self {
            PubsubRpcError::Timeout => String::from_str("Timeout"),
            PubsubRpcError::NoDestination => String::from_str("NoDestination"),
            PubsubRpcError::TooManyPendingRequests => String::from_str("TooManyPendingRequests"),
        }
    }
}

#[derive(Debug, Clone, Copy, PartialEq, Eq, Hash, Structural)]
pub struct PubsubChannelId(pub u64);

impl From<u64> for PubsubChannelId {
    fn from(v: u64) -> (r: PubsubChannelId) {
        PubsubChannelId(v)
    }
}

impl vstd::std_specs::convert::FromSpecImpl<u64> for PubsubChannelId {
    open spec fn obeys_from_spec() -> bool {
        true
    }

    open spec fn from_spec(v: u64) -> PubsubChannelId {
        PubsubChannelId(v)
    }
}

/// A publisher's own id, chosen at random.
#[derive(Debug, Clone, Copy, PartialEq, Eq, Hash, Structural)]
pub struct PublisherLocalId(pub u64);

impl PublisherLocalId {
    pub fn rand() -> PublisherLocalId {
        PublisherLocalId(random_u64())
    }

    pub fn from_raw_for_test(id: u64) -> (r: PublisherLocalId)
        ensures
            r == PublisherLocalId(id),
    {
        PublisherLocalId(id)
    }
}

/// One publisher handle: its id and the number of its owner, which no
/// other handle shares.
#[derive(Debug, Clone, Copy, PartialEq, Eq, Hash, Structural)]
pub struct PublisherHandleId {
    pub local_id: PublisherLocalId,
    pub owner: u64,
}

impl PublisherHandleId {
    pub fn new(local_id: PublisherLocalId, owner: u64) -> (h: PublisherHandleId)
        ensures
            h == (PublisherHandleId { local_id, owner }),
    {
        PublisherHandleId { local_id, owner }
    }
}

/// A subscriber's own id, chosen at random.
#[derive(Debug, Clone, Copy, PartialEq, Eq, Hash, Structural)]
pub struct SubscriberLocalId(pub u64);

impl SubscriberLocalId {
    pub fn rand() -> SubscriberLocalId {
        SubscriberLocalId(random_u64())
    }

    pub fn from_raw_for_test(id: u64) -> (r: SubscriberLocalId)
        ensures
            r == SubscriberLocalId(id),
    {
        SubscriberLocalId(id)
    }
}

/// One subscriber handle: its id and the number of its owner, which no
/// other handle shares.
#[derive(Debug, Clone, Copy, PartialEq, Eq, Hash, Structural)]
pub struct SubscriberHandleId {
    pub local_id: SubscriberLocalId,
    pub owner: u64,
}

impl SubscriberHandleId {
    pub fn new(local_id: SubscriberLocalId, owner: u64) -> (h: SubscriberHandleId)
        ensures
            h == (SubscriberHandleId { local_id, owner }),
    {
        SubscriberHandleId { local_id, owner }
    }
}

#[derive(Debug, Clone, PartialEq, Eq)]
pub enum PublisherEvent {
    PeerJoined(PeerSrc),
    PeerLeaved(PeerSrc),
    Feedback(Vec<u8>),
    FeedbackRpc(Vec<u8>, RpcId, String, PeerSrc),
    GuestFeedback(Vec<u8>),
    GuestFeedbackRpc(Vec<u8>, RpcId, String, PeerSrc),
}

pub enum PublisherEventView {
    PeerJoined(PeerSrc),
    PeerLeaved(PeerSrc),
    Feedback(Seq<u8>),
    FeedbackRpc(Seq<u8>, RpcId, Seq<char>, PeerSrc),
    GuestFeedback(Seq<u8>),
    GuestFeedbackRpc(Seq<u8>, RpcId, Seq<char>, PeerSrc),
}

impl View for PublisherEvent {
    type V = PublisherEventView;

    open spec fn view(&self) -> PublisherEventView {
        match self {
            PublisherEvent::PeerJoined(p) => PublisherEventView::PeerJoined(*p),
            PublisherEvent::PeerLeaved(p) => PublisherEventView::PeerLeaved(*p),
            PublisherEvent::Feedback(d) => PublisherEventView::Feedback(d@),
            PublisherEvent::FeedbackRpc(d, id, m, p) => PublisherEventView::FeedbackRpc(d@, *id, m@, *p),
            PublisherEvent::GuestFeedback(d) => PublisherEventView::GuestFeedback(d@),
            PublisherEvent::GuestFeedbackRpc(d, id, m, p) => PublisherEventView::GuestFeedbackRpc(d@, *id, m@, *p),
        }
    }
}

/// A publisher event with its data decoded, or kept raw when it does not
/// decode.
#[derive(Debug, PartialEq, Eq)]
pub enum PublisherEventOb<Fb> {
    PeerJoined(PeerSrc),
    PeerLeaved(PeerSrc),
    Feedback(Fb),
    FeedbackDeseializeErr(Vec<u8>),
    FeedbackRpc(Fb, RpcId, String, PeerSrc),
    FeedbackRpcDeseializeErr(Vec<u8>, RpcId, String, PeerSrc),
    GuestFeedback(Fb),
    GuestFeedbackDeseializeErr(Vec<u8>),
    GuestFeedbackRpc(Fb, RpcId, String, PeerSrc),
    GuestFeedbackRpcDeseializeErr(Vec<u8>, RpcId, String, PeerSrc),
}

#[derive(Debug, Clone, PartialEq, Eq)]
pub enum SubscriberEvent {
    PeerJoined(PeerSrc),
    PeerLeaved(PeerSrc),
    GuestPublish(Vec<u8>),
    GuestPublishRpc(Vec<u8>, RpcId, String, PeerSrc),
    Publish(Vec<u8>),
    PublishRpc(Vec<u8>, RpcId, String, PeerSrc),
}

pub enum SubscriberEventView {
    PeerJoined(PeerSrc),
    PeerLeaved(PeerSrc),
    GuestPublish(Seq<u8>),
    GuestPublishRpc(Seq<u8>, RpcId, Seq<char>, PeerSrc),
    Publish(Seq<u8>),
    PublishRpc(Seq<u8>, RpcId, Seq<char>, PeerSrc),
}

impl View for SubscriberEvent {
    type V = SubscriberEventView;

    open spec fn view(&self) -> SubscriberEventView {
        match self {
            SubscriberEvent::PeerJoined(p) => SubscriberEventView::PeerJoined(*p),
            SubscriberEvent::PeerLeaved(p) => SubscriberEventView::PeerLeaved(*p),
            SubscriberEvent::GuestPublish(d) => SubscriberEventView::GuestPublish(d@),
            SubscriberEvent::GuestPublishRpc(d, id, m, p) => SubscriberEventView::GuestPublishRpc(d@, *id, m@, *p),
            SubscriberEvent::Publish(d) => SubscriberEventView::Publish(d@),
            SubscriberEvent::PublishRpc(d, id, m, p) => SubscriberEventView::PublishRpc(d@, *id, m@, *p),
        }
    }
}

/// A subscriber event with its data decoded, or kept raw when it does not
/// decode.
#[derive(Debug, PartialEq, Eq)]
pub enum SubscriberEventOb<Fb> {
    PeerJoined(PeerSrc),
    PeerLeaved(PeerSrc),
    Publish(Fb),
    PublishDeseializeErr(Vec<u8>),
    PublishRpc(Fb, RpcId, String, PeerSrc),
    PublishRpcDeseializeErr(Vec<u8>, RpcId, String, PeerSrc),
    GuestPublish(Fb),
    GuestPublishDeseializeErr(Vec<u8>),
    GuestPublishRpc(Fb, RpcId, String, PeerSrc),
    GuestPublishRpcDeseializeErr(Vec<u8>, RpcId, String, PeerSrc),
}

/// The last announcement of one role (publisher or subscriber) by a node.
#[derive(Debug, Clone, Copy, PartialEq, Eq, Structural)]
pub struct RemoteRoleState {
    pub generation: u64,
    pub active: bool,
}

/// One channel: the last announcements of the other nodes as publishers
/// and as subscribers, keyed by node; the local handles, keyed by owner
/// with their own ids; and the generations this node last announced.
pub struct PubsubChannelState {
    pub remote_publishers: BTreeMap<u64, RemoteRoleState>,
    pub remote_subscribers: BTreeMap<u64, RemoteRoleState>,
    pub local_publishers: BTreeMap<u64, u64>,
    pub local_subscribers: BTreeMap<u64, u64>,
    pub local_publish_generation: u64,
    pub local_subscribe_generation: u64,
}

pub struct ChannelView {
    pub remote_publishers: Map<u64, RemoteRoleState>,
    pub remote_subscribers: Map<u64, RemoteRoleState>,
    pub local_publishers: Map<u64, u64>,
    pub local_subscribers: Map<u64, u64>,
    pub local_publish_generation: u64,
    pub local_subscribe_generation: u64,
}

impl View for PubsubChannelState {
    type V = ChannelView;

    open spec fn view(&self) -> ChannelView {
        ChannelView {
            remote_publishers: self.remote_publishers@,
            remote_subscribers: self.remote_subscribers@,
            local_publishers: self.local_publishers@,
            local_subscribers: self.local_subscribers@,
            local_publish_generation: self.local_publish_generation,
            local_subscribe_generation: self.local_subscribe_generation,
        }
    }
}

impl ChannelView {
    pub open spec fn empty() -> ChannelView {
        ChannelView {
            remote_publishers: Map::empty(),
            remote_subscribers: Map::empty(),
            local_publishers: Map::empty(),
            local_subscribers: Map::empty(),
            local_publish_generation: 0,
            local_subscribe_generation: 0,
        }
    }
}

/// The members of `m` that are active.
pub open spec fn active_only(m: Map<u64, RemoteRoleState>) -> Map<u64, RemoteRoleState> {
    m.restrict(m.dom().filter(|k: u64| m[k].active))
}

/// Whether there is room for `peer` among the members `m`, and the members
/// kept: an existing member is always admitted; at the cap the inactive
/// members are dropped first.
pub open spec fn room_for(m: Map<u64, RemoteRoleState>, peer: u64) -> (bool, Map<u64, RemoteRoleState>) {
    if m.contains_key(peer) {
        (true, m)
    } else if m.len() >= MAX_REMOTE_MEMBERS_PER_CHANNEL {
        let kept = active_only(m);
        (kept.len() < MAX_REMOTE_MEMBERS_PER_CHANNEL, kept)
    } else {
        (true, m)
    }
}

/// An announcement that `peer` took role with generation `g`, `active`
/// saying whether it holds the role; `strict` refuses generations equal to
/// the last one (heartbeats accept them).  When taken, returns whether the
/// role was active before and is now.
pub open spec fn apply_role(m: Map<u64, RemoteRoleState>, peer: u64, g: u64, active: bool, strict: bool) -> (
    Option<(bool, bool)>,
    Map<u64, RemoteRoleState>,
) {
    if m.contains_key(peer) {
        if g < m[peer].generation || (strict && g == m[peer].generation) {
            (None, m)
        } else {
            (Some((m[peer].active, active)), m.insert(peer, RemoteRoleState { generation: g, active }))
        }
    } else {
        let (room, kept) = room_for(m, peer);
        if room {
            (Some((false, active)), kept.insert(peer, RemoteRoleState { generation: g, active }))
        } else {
            (None, kept)
        }
    }
}

/// Drops the inactive members of `map`.
fn retain_active(map: &mut BTreeMap<u64, RemoteRoleState>)
    ensures
        final(map)@ == active_only(old(map)@),
{
    let keys = keys_in_order(map);
    let ghost m0 = map@;
    let mut i: usize = 0;
    while i < keys.len()
        invariant
            i <= keys@.len(),
            keys@.to_set() == m0.dom(),
            keys@.no_duplicates(),
            forall|k: u64| #[trigger] map@.contains_key(k) <==> m0.contains_key(k) && (keys@.take(i as int).contains(k) ==> m0[k].active),
            forall|k: u64| #[trigger] map@.contains_key(k) ==> map@[k] == m0[k],
        decreases keys@.len() - i,
    {
        let k = keys[i];
        let active = match map.get(&k) {
            Some(s) => s.active,
            None => true,
        };
        if !active {
            map.remove(&k);
        }
        proof {
            let t0 = keys@.take(i as int);
            let t1 = keys@.take(i + 1);
            assert(t1 =~= t0.push(k));
            assert forall|x: u64| #[trigger] t1.contains(x) <==> (t0.contains(x) || x == k) by {
                if t1.contains(x) && x != k {
                    let j = choose|j: int| 0 <= j < t1.len() && t1[j] == x;
                    assert(t0[j] == x);
                }
                if t0.contains(x) {
                    let j = choose|j: int| 0 <= j < t0.len() && t0[j] == x;
                    assert(t1[j] == x);
                }
                if x == k {
                    assert(t1[i as int] == x);
                }
            }
            assert(keys@.to_set().contains(k));
            if !t0.contains(k) {
                assert(map@.contains_key(k) == m0.contains_key(k) || !map@.contains_key(k));
            } else {
                let j = choose|j: int| 0 <= j < t0.len() && t0[j] == k;
                assert(keys@[j] == keys@[i as int]);
            }
        }
        i = i + 1;
    }
    proof {
        assert(keys@.take(keys@.len() as int) =~= keys@);
        assert forall|k: u64| m0.contains_key(k) implies keys@.contains(k) by {
            assert(keys@.to_set().contains(k));
        }
        assert(map@ =~= active_only(m0));
    }
}

/// Whether there is room for `peer` in `map`; see `room_for`.
fn admit_remote_role(map: &mut BTreeMap<u64, RemoteRoleState>, peer: u64) -> (r: bool)
    ensures
        (r, final(map)@) == room_for(old(map)@, peer),
{
    if map.contains_key(&peer) {
        return true;
    }
    if map.len() >= MAX_REMOTE_MEMBERS_PER_CHANNEL {
        retain_active(map);
    }
    map.len() < MAX_REMOTE_MEMBERS_PER_CHANNEL
}

/// Applies an announcement; see `apply_role`.
fn apply_remote_role(map: &mut BTreeMap<u64, RemoteRoleState>, peer: u64, generation: u64, active: bool, strict: bool) -> (r:
    Option<(bool, bool)>)
    ensures
        (r, final(map)@) == apply_role(old(map)@, peer, generation, active, strict),
{
    match map.get(&peer) {
        Some(state) => {
            let state = *state;
            if generation < state.generation || (strict && generation == state.generation) {
                None
            } else {
                map.insert(peer, RemoteRoleState { generation, active });
                Some((state.active, active))
            }
        },
        None => {
            if !admit_remote_role(map, peer) {
                return None;
            }
            map.insert(peer, RemoteRoleState { generation, active });
            Some((false, active))
        },
    }
}

impl Default for PubsubChannelState {
    fn default() -> (s: PubsubChannelState)
        ensures
            s@ == ChannelView::empty(),
    {
        let s = PubsubChannelState {
            remote_publishers: BTreeMap::new(),
            remote_subscribers: BTreeMap::new(),
            local_publishers: BTreeMap::new(),
            local_subscribers: BTreeMap::new(),
            local_publish_generation: 0,
            local_subscribe_generation: 0,
        };
        assert(s@.remote_publishers =~= Map::empty());
        s
    }
}

impl PubsubChannelState {
    /// `peer` announced that it publishes (`active`) or stopped, with
    /// generation `generation`; see `apply_role`.
    pub fn apply_remote_publisher(&mut self, peer: PeerId, generation: u64, active: bool) -> (r: Option<(bool, bool)>)
        ensures
            (r, final(self)@.remote_publishers) == apply_role(old(self)@.remote_publishers, peer.0, generation, active, true),
            final(self)@ == (ChannelView { remote_publishers: final(self)@.remote_publishers, ..old(self)@ }),
    {
        apply_remote_role(&mut self.remote_publishers, peer.0, generation, active, true)
    }

    /// `peer` announced that it subscribes (`active`) or stopped.
    pub fn apply_remote_subscriber(&mut self, peer: PeerId, generation: u64, active: bool) -> (r: Option<(bool, bool)>)
        ensures
            (r, final(self)@.remote_subscribers) == apply_role(old(self)@.remote_subscribers, peer.0, generation, active, true),
            final(self)@ == (ChannelView { remote_subscribers: final(self)@.remote_subscribers, ..old(self)@ }),
    {
        apply_remote_role(&mut self.remote_subscribers, peer.0, generation, active, true)
    }

    /// A heartbeat row: as `apply_remote_publisher`, but the same
    /// generation is taken again.
    pub fn apply_remote_publisher_heartbeat(&mut self, peer: PeerId, generation: u64, active: bool) -> (r: Option<(bool, bool)>)
        ensures
            (r, final(self)@.remote_publishers) == apply_role(old(self)@.remote_publishers, peer.0, generation, active, false),
            final(self)@ == (ChannelView { remote_publishers: final(self)@.remote_publishers, ..old(self)@ }),
    {
        apply_remote_role(&mut self.remote_publishers, peer.0, generation, active, false)
    }

    /// A heartbeat row: as `apply_remote_subscriber`, but the same
    /// generation is taken again.
    pub fn apply_remote_subscriber_heartbeat(&mut self, peer: PeerId, generation: u64, active: bool) -> (r: Option<(bool, bool)>)
        ensures
            (r, final(self)@.remote_subscribers) == apply_role(old(self)@.remote_subscribers, peer.0, generation, active, false),
            final(self)@ == (ChannelView { remote_subscribers: final(self)@.remote_subscribers, ..old(self)@ }),
    {
        apply_remote_role(&mut self.remote_subscribers, peer.0, generation, active, false)
    }

    /// Whether `peer` is an active publisher.
    pub fn has_remote_publisher(&self, peer: PeerId) -> (r: bool)
        ensures
            r == (self@.remote_publishers.contains_key(peer.0) && self@.remote_publishers[peer.0].active),
    {
        match self.remote_publishers.get(&peer.0) {
            Some(state) => state.active,
            None => false,
        }
    }

    /// Whether `peer` is an active subscriber.
    pub fn has_remote_subscriber(&self, peer: PeerId) -> (r: bool)
        ensures
            r == (self@.remote_subscribers.contains_key(peer.0) && self@.remote_subscribers[peer.0].active),
    {
        match self.remote_subscribers.get(&peer.0) {
            Some(state) => state.active,
            None => false,
        }
    }
}

impl PublisherEvent {
    /// The data the event carries, if any.
    pub fn payload(&self) -> (r: Option<&Vec<u8>>)
        ensures
            r == match self {
                PublisherEvent::Feedback(d) => Some(d),
                PublisherEvent::FeedbackRpc(d, _, _, _) => Some(d),
                PublisherEvent::GuestFeedback(d) => Some(d),
                PublisherEvent::GuestFeedbackRpc(d, _, _, _) => Some(d),
                _ => None,
            },
    {
        match self {
            PublisherEvent::Feedback(d) => Some(d),
            PublisherEvent::FeedbackRpc(d, _, _, _) => Some(d),
            PublisherEvent::GuestFeedback(d) => Some(d),
            PublisherEvent::GuestFeedbackRpc(d, _, _, _) => Some(d),
            _ => None,
        }
    }
}

impl SubscriberEvent {
    /// The data the event carries, if any.
    pub fn payload(&self) -> (r: Option<&Vec<u8>>)
        ensures
            r == match self {
                SubscriberEvent::GuestPublish(d) => Some(d),
                SubscriberEvent::GuestPublishRpc(d, _, _, _) => Some(d),
                SubscriberEvent::Publish(d) => Some(d),
                SubscriberEvent::PublishRpc(d, _, _, _) => Some(d),
                _ => None,
            },
    {
        match self {
            SubscriberEvent::GuestPublish(d) => Some(d),
            SubscriberEvent::GuestPublishRpc(d, _, _, _) => Some(d),
            SubscriberEvent::Publish(d) => Some(d),
            SubscriberEvent::PublishRpc(d, _, _, _) => Some(d),
            _ => None,
        }
    }
}

/// `event` with its data replaced by `decoded`, the value decoded from it;
/// when it did not decode (`None`), the raw data is kept in the matching
/// `...DeseializeErr` variant.
pub fn publisher_event_ob<Fb>(event: PublisherEvent, decoded: Option<Fb>) -> (r: PublisherEventOb<Fb>)
    ensures
        r == match event {
            PublisherEvent::PeerJoined(p) => PublisherEventOb::PeerJoined(p),
            PublisherEvent::PeerLeaved(p) => PublisherEventOb::PeerLeaved(p),
            PublisherEvent::Feedback(d) => match decoded {
                Some(fb) => PublisherEventOb::Feedback(fb),
                None => PublisherEventOb::FeedbackDeseializeErr(d),
            },
            PublisherEvent::FeedbackRpc(d, id, m, p) => match decoded {
                Some(fb) => PublisherEventOb::FeedbackRpc(fb, id, m, p),
                None => PublisherEventOb::FeedbackRpcDeseializeErr(d, id, m, p),
            },
            PublisherEvent::GuestFeedback(d) => match decoded {
                Some(fb) => PublisherEventOb::GuestFeedback(fb),
                None => PublisherEventOb::GuestFeedbackDeseializeErr(d),
            },
            PublisherEvent::GuestFeedbackRpc(d, id, m, p) => match decoded {
                Some(fb) => PublisherEventOb::GuestFeedbackRpc(fb, id, m, p),
                None => PublisherEventOb::GuestFeedbackRpcDeseializeErr(d, id, m, p),
            },
        },
{
    match event {
        PublisherEvent::PeerJoined(p) => PublisherEventOb::PeerJoined(p),
        PublisherEvent::PeerLeaved(p) => PublisherEventOb::PeerLeaved(p),
        PublisherEvent::Feedback(d) => match decoded {
            Some(fb) => PublisherEventOb::Feedback(fb),
            None => PublisherEventOb::FeedbackDeseializeErr(d),
        },
        PublisherEvent::FeedbackRpc(d, id, m, p) => match decoded {
            Some(fb) => PublisherEventOb::FeedbackRpc(fb, id, m, p),
            None => PublisherEventOb::FeedbackRpcDeseializeErr(d, id, m, p),
        },
        PublisherEvent::GuestFeedback(d) => match decoded {
            Some(fb) => PublisherEventOb::GuestFeedback(fb),
            None => PublisherEventOb::GuestFeedbackDeseializeErr(d),
        },
        PublisherEvent::GuestFeedbackRpc(d, id, m, p) => match decoded {
            Some(fb) => PublisherEventOb::GuestFeedbackRpc(fb, id, m, p),
            None => PublisherEventOb::GuestFeedbackRpcDeseializeErr(d, id, m, p),
        },
    }
}

/// `event` with its data replaced by `decoded`; as `publisher_event_ob`.
pub fn subscriber_event_ob<Fb>(event: SubscriberEvent, decoded: Option<Fb>) -> (r: SubscriberEventOb<Fb>)
    ensures
        r == match event {
            SubscriberEvent::PeerJoined(p) => SubscriberEventOb::PeerJoined(p),
            SubscriberEvent::PeerLeaved(p) => SubscriberEventOb::PeerLeaved(p),
            SubscriberEvent::Publish(d) => match decoded {
                Some(fb) => SubscriberEventOb::Publish(fb),
                None => SubscriberEventOb::PublishDeseializeErr(d),
            },
            SubscriberEvent::PublishRpc(d, id, m, p) => match decoded {
                Some(fb) => SubscriberEventOb::PublishRpc(fb, id, m, p),
                None => SubscriberEventOb::PublishRpcDeseializeErr(d, id, m, p),
            },
            SubscriberEvent::GuestPublish(d) => match decoded {
                Some(fb) => SubscriberEventOb::GuestPublish(fb),
                None => SubscriberEventOb::GuestPublishDeseializeErr(d),
            },
            SubscriberEvent::GuestPublishRpc(d, id, m, p) => match decoded {
                Some(fb) => SubscriberEventOb::GuestPublishRpc(fb, id, m, p),
                None => SubscriberEventOb::GuestPublishRpcDeseializeErr(d, id, m, p),
            },
        },
{
    match event {
        SubscriberEvent::PeerJoined(p) => SubscriberEventOb::PeerJoined(p),
        SubscriberEvent::PeerLeaved(p) => SubscriberEventOb::PeerLeaved(p),
        SubscriberEvent::Publish(d) => match decoded {
            Some(fb) => SubscriberEventOb::Publish(fb),
            None => SubscriberEventOb::PublishDeseializeErr(d),
        },
        SubscriberEvent::PublishRpc(d, id, m, p) => match decoded {
            Some(fb) => SubscriberEventOb::PublishRpc(fb, id, m, p),
            None => SubscriberEventOb::PublishRpcDeseializeErr(d, id, m, p),
        },
        SubscriberEvent::GuestPublish(d) => match decoded {
            Some(fb) => SubscriberEventOb::GuestPublish(fb),
            None => SubscriberEventOb::GuestPublishDeseializeErr(d),
        },
        SubscriberEvent::GuestPublishRpc(d, id, m, p) => match decoded {
            Some(fb) => SubscriberEventOb::GuestPublishRpc(fb, id, m, p),
            None => SubscriberEventOb::GuestPublishRpcDeseializeErr(d, id, m, p),
        },
    }
}

} // verus!
