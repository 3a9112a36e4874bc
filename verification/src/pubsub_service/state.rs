//! The decisions of the publish/subscribe service.
//!
//! `PubsubCore` keeps the channels, the tombstones of remote roles that
//! were dropped with their channel, and the heartbeat chunks received so
//! far.  Each input (a message from another node, a local handle coming or
//! going, a disconnection, a heartbeat tick) changes the state and queues
//! actions: events for local handles and messages for other nodes.  Local
//! handles are kept by owner number; the service around it keeps their
//! queues and performs the actions.
use std::collections::{BTreeMap, BTreeSet, VecDeque};
use vstd::prelude::*;

use super::{
    apply_role, ChannelView, PeerSrc, PublisherEvent, PublisherEventView, PublisherHandleId, PublisherLocalId,
    PubsubChannelId, PubsubChannelState, PubsubRpcError, RemoteRoleState, RpcId, SubscriberEvent, SubscriberEventView,
    SubscriberHandleId, SubscriberLocalId, MAX_HEARTBEAT_CHANNELS_PER_BATCH, MAX_PENDING_RPC_REQUESTS,
    MAX_REMOTE_CREATED_CHANNELS, MAX_REMOTE_ROLE_TOMBSTONES, MAX_RPC_METHOD_LEN,
};
use crate::ordered::{keys_in_order, pair_keys, sorted_keys};
use crate::peer::PeerId;

verus! {

broadcast use vstd::std_specs::btree::group_btree_axioms, vstd::laws_cmp::group_laws_cmp;

/// One channel's row in a heartbeat: whether the sender publishes and
/// subscribes on it, with the generations it last announced.
#[derive(Debug, Clone, Copy, PartialEq, Eq, Structural)]
pub struct ChannelHeartbeat {
    pub channel: PubsubChannelId,
    pub publish: bool,
    pub publish_generation: u64,
    pub subscribe: bool,
    pub subscribe_generation: u64,
}

#[derive(Debug, Clone, PartialEq, Eq)]
pub enum PubsubMessage {
    PublisherJoined(PubsubChannelId, u64),
    PublisherLeaved(PubsubChannelId, u64),
    SubscriberJoined(PubsubChannelId, u64),
    SubscriberLeaved(PubsubChannelId, u64),
    Heartbeat(Vec<ChannelHeartbeat>),
    GuestPublish(PubsubChannelId, Vec<u8>),
    GuestPublishRpc(PubsubChannelId, Vec<u8>, RpcId, String),
    Publish(PubsubChannelId, Vec<u8>),
    PublishRpc(PubsubChannelId, Vec<u8>, RpcId, String),
    PublishRpcAnswer(Vec<u8>, RpcId),
    GuestFeedback(PubsubChannelId, Vec<u8>),
    GuestFeedbackRpc(PubsubChannelId, Vec<u8>, RpcId, String),
    Feedback(PubsubChannelId, Vec<u8>),
    FeedbackRpc(PubsubChannelId, Vec<u8>, RpcId, String),
    FeedbackRpcAnswer(Vec<u8>, RpcId),
    HeartbeatChunk { channels: Vec<ChannelHeartbeat>, is_last: bool },
}

pub enum MessageView {
    PublisherJoined(PubsubChannelId, u64),
    PublisherLeaved(PubsubChannelId, u64),
    SubscriberJoined(PubsubChannelId, u64),
    SubscriberLeaved(PubsubChannelId, u64),
    Heartbeat(Seq<ChannelHeartbeat>),
    GuestPublish(PubsubChannelId, Seq<u8>),
    GuestPublishRpc(PubsubChannelId, Seq<u8>, RpcId, Seq<char>),
    Publish(PubsubChannelId, Seq<u8>),
    PublishRpc(PubsubChannelId, Seq<u8>, RpcId, Seq<char>),
    PublishRpcAnswer(Seq<u8>, RpcId),
    GuestFeedback(PubsubChannelId, Seq<u8>),
    GuestFeedbackRpc(PubsubChannelId, Seq<u8>, RpcId, Seq<char>),
    Feedback(PubsubChannelId, Seq<u8>),
    FeedbackRpc(PubsubChannelId, Seq<u8>, RpcId, Seq<char>),
    FeedbackRpcAnswer(Seq<u8>, RpcId),
    HeartbeatChunk(Seq<ChannelHeartbeat>, bool),
}

impl View for PubsubMessage {
    type V = MessageView;

    open spec fn view(&self) -> MessageView {
        match self {
            PubsubMessage::PublisherJoined(c, g) => MessageView::PublisherJoined(*c, *g),
            PubsubMessage::PublisherLeaved(c, g) => MessageView::PublisherLeaved(*c, *g),
            PubsubMessage::SubscriberJoined(c, g) => MessageView::SubscriberJoined(*c, *g),
            PubsubMessage::SubscriberLeaved(c, g) => MessageView::SubscriberLeaved(*c, *g),
            PubsubMessage::Heartbeat(rows) => MessageView::Heartbeat(rows@),
            PubsubMessage::GuestPublish(c, d) => MessageView::GuestPublish(*c, d@),
            PubsubMessage::GuestPublishRpc(c, d, id, m) => MessageView::GuestPublishRpc(*c, d@, *id, m@),
            PubsubMessage::Publish(c, d) => MessageView::Publish(*c, d@),
            PubsubMessage::PublishRpc(c, d, id, m) => MessageView::PublishRpc(*c, d@, *id, m@),
            PubsubMessage::PublishRpcAnswer(d, id) => MessageView::PublishRpcAnswer(d@, *id),
            PubsubMessage::GuestFeedback(c, d) => MessageView::GuestFeedback(*c, d@),
            PubsubMessage::GuestFeedbackRpc(c, d, id, m) => MessageView::GuestFeedbackRpc(*c, d@, *id, m@),
            PubsubMessage::Feedback(c, d) => MessageView::Feedback(*c, d@),
            PubsubMessage::FeedbackRpc(c, d, id, m) => MessageView::FeedbackRpc(*c, d@, *id, m@),
            PubsubMessage::FeedbackRpcAnswer(d, id) => MessageView::FeedbackRpcAnswer(d@, *id),
            PubsubMessage::HeartbeatChunk { channels, is_last } => MessageView::HeartbeatChunk(channels@, *is_last),
        }
    }
}

/// What the service is to do.
#[derive(Debug, PartialEq, Eq)]
pub enum PubsubAction {
    /// Offer the event to each of these local publishers.
    ToPublishers(Vec<PublisherHandleId>, PublisherEvent),
    /// Offer the event to each of these local subscribers.
    ToSubscribers(Vec<SubscriberHandleId>, SubscriberEvent),
    /// Send the message to each of these nodes.
    ToPeers(Vec<PeerId>, PubsubMessage),
    Broadcast(PubsubMessage),
}

pub enum ActionView {
    ToPublishers(Seq<PublisherHandleId>, PublisherEventView),
    ToSubscribers(Seq<SubscriberHandleId>, SubscriberEventView),
    ToPeers(Seq<PeerId>, MessageView),
    Broadcast(MessageView),
}

impl View for PubsubAction {
    type V = ActionView;

    open spec fn view(&self) -> ActionView {
        match self {
            PubsubAction::ToPublishers(h, e) => ActionView::ToPublishers(h@, e@),
            PubsubAction::ToSubscribers(h, e) => ActionView::ToSubscribers(h@, e@),
            PubsubAction::ToPeers(p, m) => ActionView::ToPeers(p@, m@),
            PubsubAction::Broadcast(m) => ActionView::Broadcast(m@),
        }
    }
}

/// The highest generations of a node's roles on a channel that was dropped
/// while the node had left them; older joins are stale.
#[derive(Debug, Clone, Copy, PartialEq, Eq, Structural)]
pub struct RemoteRoleTombstone {
    pub publish_generation: u64,
    pub subscribe_generation: u64,
}

/// A question waiting for its first answer: when it was asked, how long
/// it may wait, who may answer it (other nodes, and local handles by owner
/// with their ids), and the asker to give the answer to.
pub struct RpcRequest<W> {
    pub started_at_ms: u64,
    pub timeout_ms: u64,
    pub remote: BTreeSet<u64>,
    /// The local handles asked, as (owner, id).
    pub local: Vec<(u64, u64)>,
    pub waiter: W,
}

pub struct RequestView<W> {
    pub started_at_ms: u64,
    pub timeout_ms: u64,
    pub remote: Set<u64>,
    pub local: Seq<(u64, u64)>,
    pub waiter: W,
}

impl<W> View for RpcRequest<W> {
    type V = RequestView<W>;

    open spec fn view(&self) -> RequestView<W> {
        RequestView {
            started_at_ms: self.started_at_ms,
            timeout_ms: self.timeout_ms,
            remote: self.remote@,
            local: self.local@,
            waiter: self.waiter,
        }
    }
}

pub open spec fn request_views<W>(m: Map<u64, RpcRequest<W>>) -> Map<u64, RequestView<W>> {
    m.map_values(|r: RpcRequest<W>| r@)
}

pub open spec fn reply_views<W>(s: Seq<(W, Result<Vec<u8>, PubsubRpcError>)>) -> Seq<(W, Result<Seq<u8>, PubsubRpcError>)> {
    s.map_values(|r: (W, Result<Vec<u8>, PubsubRpcError>)| (r.0, reply_view(r.1)))
}

pub open spec fn reply_view(r: Result<Vec<u8>, PubsubRpcError>) -> Result<Seq<u8>, PubsubRpcError> {
    match r {
        Ok(d) => Ok(d@),
        Err(e) => Err(e),
    }
}

pub struct PubsubCore<W> {
    /// The channels, by number.
    pub channels: BTreeMap<u64, PubsubChannelState>,
    /// Keyed by channel and node.
    pub remote_role_tombstones: BTreeMap<(u64, u64), RemoteRoleTombstone>,
    /// For each node sending a chunked heartbeat, the known channels its
    /// chunks so far listed.
    pub pending_heartbeat_chunks: BTreeMap<u64, BTreeSet<u64>>,
    pub local_publish_generation: u64,
    pub local_subscribe_generation: u64,
    /// The questions asked of subscribers and not yet answered, by id.
    pub publish_rpc_reqs: BTreeMap<u64, RpcRequest<W>>,
    /// The questions asked of publishers and not yet answered, by id.
    pub feedback_rpc_reqs: BTreeMap<u64, RpcRequest<W>>,
    pub outs: VecDeque<PubsubAction>,
    /// Answers for the askers, in order.
    pub replies: VecDeque<(W, Result<Vec<u8>, PubsubRpcError>)>,
}

pub struct PubsubView<W> {
    pub channels: Map<u64, ChannelView>,
    pub tombstones: Map<(u64, u64), RemoteRoleTombstone>,
    pub heartbeat_chunks: Map<u64, Set<u64>>,
    pub local_publish_generation: u64,
    pub local_subscribe_generation: u64,
    pub publish_reqs: Map<u64, RequestView<W>>,
    pub feedback_reqs: Map<u64, RequestView<W>>,
    pub outs: Seq<ActionView>,
    pub replies: Seq<(W, Result<Seq<u8>, PubsubRpcError>)>,
}

impl<W> View for PubsubCore<W> {
    type V = PubsubView<W>;

    open spec fn view(&self) -> PubsubView<W> {
        PubsubView {
            channels: self.channels@.map_values(|c: PubsubChannelState| c@),
            tombstones: self.remote_role_tombstones@,
            heartbeat_chunks: self.pending_heartbeat_chunks@.map_values(|s: BTreeSet<u64>| s@),
            local_publish_generation: self.local_publish_generation,
            local_subscribe_generation: self.local_subscribe_generation,
            publish_reqs: request_views(self.publish_rpc_reqs@),
            feedback_reqs: request_views(self.feedback_rpc_reqs@),
            outs: self.outs@.map_values(|a: PubsubAction| a@),
            replies: reply_views(self.replies@),
        }
    }
}

pub open spec fn max_u64(a: u64, b: u64) -> u64 {
    if a < b {
        b
    } else {
        a
    }
}

/// The local publishers, by owner.
pub open spec fn publisher_handles(m: Map<u64, u64>) -> Seq<PublisherHandleId> {
    sorted_keys(m.dom()).map_values(|o: u64| PublisherHandleId { local_id: PublisherLocalId(m[o]), owner: o })
}

/// The local subscribers, by owner.
pub open spec fn subscriber_handles(m: Map<u64, u64>) -> Seq<SubscriberHandleId> {
    sorted_keys(m.dom()).map_values(|o: u64| SubscriberHandleId { local_id: SubscriberLocalId(m[o]), owner: o })
}

/// The active members, by node.
pub open spec fn active_peers(m: Map<u64, RemoteRoleState>) -> Seq<PeerId> {
    sorted_keys(m.dom()).filter(|p: u64| m[p].active).map_values(|p: u64| PeerId(p))
}

pub open spec fn has_active(m: Map<u64, RemoteRoleState>) -> bool {
    exists|p: u64| m.contains_key(p) && m[p].active
}

pub open spec fn inactive_in(m: Map<u64, RemoteRoleState>, p: u64) -> bool {
    m.contains_key(p) && !m[p].active
}

/// No local handle and no active remote member.
pub open spec fn is_inactive_remote_only(c: ChannelView) -> bool {
    c.local_publishers.is_empty() && c.local_subscribers.is_empty() && !has_active(c.remote_publishers) && !has_active(
        c.remote_subscribers,
    )
}

pub open spec fn is_fully_empty(c: ChannelView) -> bool {
    c.local_publishers.is_empty() && c.local_subscribers.is_empty() && c.remote_publishers.is_empty()
        && c.remote_subscribers.is_empty()
}

/// The nodes of channel `ch` that left a role and have no tombstone yet.
pub open spec fn tomb_peers(t: Map<(u64, u64), RemoteRoleTombstone>, ch: u64, c: ChannelView) -> Set<u64> {
    Set::new(
        |p: u64| (inactive_in(c.remote_publishers, p) || inactive_in(c.remote_subscribers, p)) && !t.contains_key((ch, p)),
    )
}

/// The tombstones `t` with those of channel `ch` added: for each node that
/// left a role, its highest generation per role, for the nodes in `dp` as
/// publishers and in `ds` as subscribers.
pub open spec fn merged(
    t: Map<(u64, u64), RemoteRoleTombstone>,
    ch: u64,
    c: ChannelView,
    dp: Set<u64>,
    ds: Set<u64>,
) -> Map<(u64, u64), RemoteRoleTombstone> {
    Map::new(
        |k: (u64, u64)| t.contains_key(k) || (k.0 == ch && ((dp.contains(k.1) && inactive_in(c.remote_publishers, k.1)) || (
        ds.contains(k.1) && inactive_in(c.remote_subscribers, k.1)))),
        |k: (u64, u64)|
            {
                let b = if t.contains_key(k) {
                    t[k]
                } else {
                    RemoteRoleTombstone { publish_generation: 0, subscribe_generation: 0 }
                };
                RemoteRoleTombstone {
                    publish_generation: if k.0 == ch && dp.contains(k.1) && inactive_in(c.remote_publishers, k.1) {
                        max_u64(b.publish_generation, c.remote_publishers[k.1].generation)
                    } else {
                        b.publish_generation
                    },
                    subscribe_generation: if k.0 == ch && ds.contains(k.1) && inactive_in(c.remote_subscribers, k.1) {
                        max_u64(b.subscribe_generation, c.remote_subscribers[k.1].generation)
                    } else {
                        b.subscribe_generation
                    },
                }
            },
    )
}

/// The tombstone keys of nodes other than `p`.
pub open spec fn keys_not_of(p: u64) -> Set<(u64, u64)> {
    Set::new(|k: (u64, u64)| k.1 != p)
}

pub open spec fn with_tombstones(t: Map<(u64, u64), RemoteRoleTombstone>, ch: u64, c: ChannelView) -> Map<
    (u64, u64),
    RemoteRoleTombstone,
> {
    merged(t, ch, c, c.remote_publishers.dom(), c.remote_subscribers.dom())
}

/// A join of `p` to channel `ch` with generation `g` as publisher is stale
/// when a tombstone remembers a generation as new or newer.
pub open spec fn publisher_join_stale(t: Map<(u64, u64), RemoteRoleTombstone>, ch: u64, p: u64, g: u64) -> bool {
    t.contains_key((ch, p)) && t[(ch, p)].publish_generation >= g
}

pub open spec fn subscriber_join_stale(t: Map<(u64, u64), RemoteRoleTombstone>, ch: u64, p: u64, g: u64) -> bool {
    t.contains_key((ch, p)) && t[(ch, p)].subscribe_generation >= g
}

/// The publisher half of the tombstone of `p` on `ch` is cleared, and the
/// tombstone with it when the other half is clear too.
pub open spec fn clear_publisher_tombstone(t: Map<(u64, u64), RemoteRoleTombstone>, ch: u64, p: u64) -> Map<
    (u64, u64),
    RemoteRoleTombstone,
> {
    if t.contains_key((ch, p)) {
        if t[(ch, p)].subscribe_generation == 0 {
            t.remove((ch, p))
        } else {
            t.insert((ch, p), RemoteRoleTombstone { publish_generation: 0, ..t[(ch, p)] })
        }
    } else {
        t
    }
}

pub open spec fn clear_subscriber_tombstone(t: Map<(u64, u64), RemoteRoleTombstone>, ch: u64, p: u64) -> Map<
    (u64, u64),
    RemoteRoleTombstone,
> {
    if t.contains_key((ch, p)) {
        if t[(ch, p)].publish_generation == 0 {
            t.remove((ch, p))
        } else {
            t.insert((ch, p), RemoteRoleTombstone { subscribe_generation: 0, ..t[(ch, p)] })
        }
    } else {
        t
    }
}

/// The tombstone of `p` on `ch` raised to the given generations, unless it
/// is new and the tombstones are full.
pub open spec fn remember_tombstone(
    t: Map<(u64, u64), RemoteRoleTombstone>,
    ch: u64,
    p: u64,
    pg: Option<u64>,
    sg: Option<u64>,
) -> Map<(u64, u64), RemoteRoleTombstone> {
    if !t.contains_key((ch, p)) && t.len() >= MAX_REMOTE_ROLE_TOMBSTONES {
        t
    } else {
        let b = if t.contains_key((ch, p)) {
            t[(ch, p)]
        } else {
            RemoteRoleTombstone { publish_generation: 0, subscribe_generation: 0 }
        };
        t.insert(
            (ch, p),
            RemoteRoleTombstone {
                publish_generation: match pg {
                    Some(g) => max_u64(b.publish_generation, g),
                    None => b.publish_generation,
                },
                subscribe_generation: match sg {
                    Some(g) => max_u64(b.subscribe_generation, g),
                    None => b.subscribe_generation,
                },
            },
        )
    }
}

/// The event for the local subscribers of `c`, when there are any.
pub open spec fn to_subscribers(c: ChannelView, e: SubscriberEventView) -> Seq<ActionView> {
    if c.local_subscribers.is_empty() {
        seq![]
    } else {
        seq![ActionView::ToSubscribers(subscriber_handles(c.local_subscribers), e)]
    }
}

/// The event for the local publishers of `c`, when there are any.
pub open spec fn to_publishers(c: ChannelView, e: PublisherEventView) -> Seq<ActionView> {
    if c.local_publishers.is_empty() {
        seq![]
    } else {
        seq![ActionView::ToPublishers(publisher_handles(c.local_publishers), e)]
    }
}

impl<W> PubsubView<W> {
    pub open spec fn push(self, a: ActionView) -> Self {
        PubsubView { outs: self.outs.push(a), ..self }
    }

    pub open spec fn with_channel(self, ch: u64, c: ChannelView) -> Self {
        PubsubView { channels: self.channels.insert(ch, c), ..self }
    }

    /// Channel `c` is dropped if it has only remote members, none active,
    /// and the tombstones of its members fit.
    pub open spec fn evict(self, c: u64) -> Self {
        if self.channels.contains_key(c) && is_inactive_remote_only(self.channels[c]) && self.tombstones.len()
            + tomb_peers(self.tombstones, c, self.channels[c]).len() <= MAX_REMOTE_ROLE_TOMBSTONES {
            PubsubView {
                channels: self.channels.remove(c),
                tombstones: with_tombstones(self.tombstones, c, self.channels[c]),
                ..self
            }
        } else {
            self
        }
    }

    pub open spec fn evict_all(self, keys: Seq<u64>) -> Self
        decreases keys.len(),
    {
        if keys.len() == 0 {
            self
        } else {
            self.evict_all(keys.drop_last()).evict(keys.last())
        }
    }

    /// `p` announced that it publishes on `ch`, with generation `g`: unless
    /// stale, the channel is found or made and the role applied; when `p`
    /// newly publishes, the local subscribers are told, its tombstone is
    /// cleared, and `p` is told that this node subscribes, if it does.
    pub open spec fn after_publisher_joined(self, p: u64, ch: u64, g: u64) -> Self {
        if publisher_join_stale(self.tombstones, ch, p, g) {
            self
        } else {
            let (ok, s1) = self.join_channel(ch);
            if !ok {
                s1
            } else {
                let c = s1.channels[ch];
                let (r, pubs) = apply_role(c.remote_publishers, p, g, true, true);
                let s2 = s1.with_channel(ch, ChannelView { remote_publishers: pubs, ..c });
                if r == Some((false, true)) {
                    let s3 = PubsubView {
                        outs: s2.outs + to_subscribers(c, SubscriberEventView::PeerJoined(PeerSrc::Remote(PeerId(p)))),
                        tombstones: clear_publisher_tombstone(s2.tombstones, ch, p),
                        ..s2
                    };
                    if c.local_subscribers.is_empty() {
                        s3
                    } else {
                        s3.push(
                            ActionView::ToPeers(
                                seq![PeerId(p)],
                                MessageView::SubscriberJoined(PubsubChannelId(ch), c.local_subscribe_generation),
                            ),
                        )
                    }
                } else {
                    s2
                }
            }
        }
    }

    /// `p` announced that it subscribes on `ch`; as `after_publisher_joined`
    /// with the roles swapped.
    pub open spec fn after_subscriber_joined(self, p: u64, ch: u64, g: u64) -> Self {
        if subscriber_join_stale(self.tombstones, ch, p, g) {
            self
        } else {
            let (ok, s1) = self.join_channel(ch);
            if !ok {
                s1
            } else {
                let c = s1.channels[ch];
                let (r, subs) = apply_role(c.remote_subscribers, p, g, true, true);
                let s2 = s1.with_channel(ch, ChannelView { remote_subscribers: subs, ..c });
                if r == Some((false, true)) {
                    let s3 = PubsubView {
                        outs: s2.outs + to_publishers(c, PublisherEventView::PeerJoined(PeerSrc::Remote(PeerId(p)))),
                        tombstones: clear_subscriber_tombstone(s2.tombstones, ch, p),
                        ..s2
                    };
                    if c.local_publishers.is_empty() {
                        s3
                    } else {
                        s3.push(
                            ActionView::ToPeers(
                                seq![PeerId(p)],
                                MessageView::PublisherJoined(PubsubChannelId(ch), c.local_publish_generation),
                            ),
                        )
                    }
                } else {
                    s2
                }
            }
        }
    }

    /// `p` announced that it stopped publishing on `ch`: on a known channel
    /// the role is applied and the local subscribers told when `p` was
    /// publishing; on an unknown one the leave is remembered in a tombstone.
    pub open spec fn after_publisher_leaved(self, p: u64, ch: u64, g: u64) -> Self {
        if self.channels.contains_key(ch) {
            let c = self.channels[ch];
            let (r, pubs) = apply_role(c.remote_publishers, p, g, false, true);
            let s2 = self.with_channel(ch, ChannelView { remote_publishers: pubs, ..c });
            if r == Some((true, false)) {
                PubsubView {
                    outs: s2.outs + to_subscribers(c, SubscriberEventView::PeerLeaved(PeerSrc::Remote(PeerId(p)))),
                    ..s2
                }
            } else {
                s2
            }
        } else {
            PubsubView { tombstones: remember_tombstone(self.tombstones, ch, p, Some(g), None), ..self }
        }
    }

    /// `p` announced that it stopped subscribing on `ch`; as
    /// `after_publisher_leaved` with the roles swapped.
    pub open spec fn after_subscriber_leaved(self, p: u64, ch: u64, g: u64) -> Self {
        if self.channels.contains_key(ch) {
            let c = self.channels[ch];
            let (r, subs) = apply_role(c.remote_subscribers, p, g, false, true);
            let s2 = self.with_channel(ch, ChannelView { remote_subscribers: subs, ..c });
            if r == Some((true, false)) {
                PubsubView {
                    outs: s2.outs + to_publishers(c, PublisherEventView::PeerLeaved(PeerSrc::Remote(PeerId(p)))),
                    ..s2
                }
            } else {
                s2
            }
        } else {
            PubsubView { tombstones: remember_tombstone(self.tombstones, ch, p, None, Some(g)), ..self }
        }
    }

    /// Channel `ch` for a remote join: the existing one, or a new one when
    /// fewer than the cap exist, after dropping idle channels, in channel
    /// order, when at the cap.  Says whether the channel exists after.
    pub open spec fn join_channel(self, ch: u64) -> (bool, Self) {
        if self.channels.contains_key(ch) {
            (true, self)
        } else {
            let s = if self.channels.len() >= MAX_REMOTE_CREATED_CHANNELS {
                self.evict_all(sorted_keys(self.channels.dom()))
            } else {
                self
            };
            if s.channels.len() >= MAX_REMOTE_CREATED_CHANNELS {
                (false, s)
            } else {
                (true, s.with_channel(ch, ChannelView::empty()))
            }
        }
    }
}

/// The local publishers of `m`, by owner.
pub fn publisher_list(m: &BTreeMap<u64, u64>) -> (r: Vec<PublisherHandleId>)
    ensures
        r@ == publisher_handles(m@),
{
    let owners = keys_in_order(m);
    let mut r: Vec<PublisherHandleId> = Vec::new();
    let mut i: usize = 0;
    while i < owners.len()
        invariant
            i <= owners@.len(),
            owners@ == sorted_keys(m@.dom()),
            crate::ordered::lists_in_order(owners@, m@.dom()),
            r@ == owners@.take(i as int).map_values(
                |o: u64| PublisherHandleId { local_id: PublisherLocalId(m@[o]), owner: o },
            ),
        decreases owners@.len() - i,
    {
        let o = owners[i];
        assert(owners@.to_set().contains(o));
        let local = *m.get(&o).unwrap();
        r.push(PublisherHandleId { local_id: PublisherLocalId(local), owner: o });
        assert(owners@.take(i + 1) =~= owners@.take(i as int).push(o));
        assert(r@ =~= owners@.take(i + 1).map_values(
            |o: u64| PublisherHandleId { local_id: PublisherLocalId(m@[o]), owner: o },
        ));
        i = i + 1;
    }
    assert(owners@.take(owners@.len() as int) =~= owners@);
    r
}

/// The local subscribers of `m`, by owner.
pub fn subscriber_list(m: &BTreeMap<u64, u64>) -> (r: Vec<SubscriberHandleId>)
    ensures
        r@ == subscriber_handles(m@),
{
    let owners = keys_in_order(m);
    let mut r: Vec<SubscriberHandleId> = Vec::new();
    let mut i: usize = 0;
    while i < owners.len()
        invariant
            i <= owners@.len(),
            owners@ == sorted_keys(m@.dom()),
            crate::ordered::lists_in_order(owners@, m@.dom()),
            r@ == owners@.take(i as int).map_values(
                |o: u64| SubscriberHandleId { local_id: SubscriberLocalId(m@[o]), owner: o },
            ),
        decreases owners@.len() - i,
    {
        let o = owners[i];
        assert(owners@.to_set().contains(o));
        let local = *m.get(&o).unwrap();
        r.push(SubscriberHandleId { local_id: SubscriberLocalId(local), owner: o });
        assert(owners@.take(i + 1) =~= owners@.take(i as int).push(o));
        assert(r@ =~= owners@.take(i + 1).map_values(
            |o: u64| SubscriberHandleId { local_id: SubscriberLocalId(m@[o]), owner: o },
        ));
        i = i + 1;
    }
    assert(owners@.take(owners@.len() as int) =~= owners@);
    r
}

/// The active members of `m`, by node.
pub fn active_list(m: &BTreeMap<u64, RemoteRoleState>) -> (r: Vec<PeerId>)
    ensures
        r@ == active_peers(m@),
{
    let peers = keys_in_order(m);
    let ghost f = |p: u64| m@[p].active;
    let mut r: Vec<PeerId> = Vec::new();
    let mut i: usize = 0;
    while i < peers.len()
        invariant
            i <= peers@.len(),
            peers@ == sorted_keys(m@.dom()),
            crate::ordered::lists_in_order(peers@, m@.dom()),
            f == (|p: u64| m@[p].active),
            r@ == peers@.take(i as int).filter(f).map_values(|p: u64| PeerId(p)),
        decreases peers@.len() - i,
    {
        let p = peers[i];
        assert(peers@.to_set().contains(p));
        let active = m.get(&p).unwrap().active;
        proof {
            assert(peers@.take(i + 1) =~= peers@.take(i as int).push(p));
            peers@.take(i as int).lemma_filter_push(p, f);
        }
        if active {
            r.push(PeerId(p));
            assert(r@ =~= peers@.take(i + 1).filter(f).map_values(|p: u64| PeerId(p)));
        }
        i = i + 1;
    }
    assert(peers@.take(peers@.len() as int) =~= peers@);
    r
}

/// Whether some member of `m` is active.
fn any_active(m: &BTreeMap<u64, RemoteRoleState>) -> (r: bool)
    ensures
        r == has_active(m@),
{
    let peers = keys_in_order(m);
    let mut i: usize = 0;
    while i < peers.len()
        invariant
            i <= peers@.len(),
            peers@.to_set() == m@.dom(),
            forall|j: int| 0 <= j < i ==> !m@[#[trigger] peers@[j]].active,
        decreases peers@.len() - i,
    {
        let p = peers[i];
        assert(peers@.to_set().contains(p));
        if m.get(&p).unwrap().active {
            return true;
        }
        i = i + 1;
    }
    proof {
        if has_active(m@) {
            let p = choose|p: u64| m@.contains_key(p) && m@[p].active;
            assert(peers@.to_set().contains(p));
            let j = choose|j: int| 0 <= j < peers@.len() && peers@[j] == p;
            assert(!m@[peers@[j]].active);
        }
    }
    false
}

impl PubsubChannelState {
    pub fn is_fully_empty(&self) -> (r: bool)
        ensures
            r == is_fully_empty(self@),
    {
        self.local_publishers.is_empty() && self.local_subscribers.is_empty() && self.remote_publishers.is_empty()
            && self.remote_subscribers.is_empty()
    }

    pub fn has_active_remote_publishers(&self) -> (r: bool)
        ensures
            r == has_active(self@.remote_publishers),
    {
        any_active(&self.remote_publishers)
    }

    pub fn has_active_remote_subscribers(&self) -> (r: bool)
        ensures
            r == has_active(self@.remote_subscribers),
    {
        any_active(&self.remote_subscribers)
    }

    /// The active remote publishers, by node.
    pub fn active_remote_publishers(&self) -> (r: Vec<PeerId>)
        ensures
            r@ == active_peers(self@.remote_publishers),
    {
        active_list(&self.remote_publishers)
    }

    /// The active remote subscribers, by node.
    pub fn active_remote_subscribers(&self) -> (r: Vec<PeerId>)
        ensures
            r@ == active_peers(self@.remote_subscribers),
    {
        active_list(&self.remote_subscribers)
    }

    /// How many remote publishers are active.
    pub fn active_remote_publishers_count(&self) -> (n: usize)
        ensures
            n == active_peers(self@.remote_publishers).len(),
    {
        active_list(&self.remote_publishers).len()
    }

    pub fn is_inactive_remote_only(&self) -> (r: bool)
        ensures
            r == is_inactive_remote_only(self@),
    {
        self.local_publishers.is_empty() && self.local_subscribers.is_empty() && !self.has_active_remote_publishers()
            && !self.has_active_remote_subscribers()
    }
}

impl<W> PubsubCore<W> {
    pub fn new() -> (s: Self)
        ensures
            s@.channels.is_empty(),
            s@.tombstones.is_empty(),
            s@.heartbeat_chunks.is_empty(),
            s@.local_publish_generation == 0,
            s@.local_subscribe_generation == 0,
            s@.publish_reqs.is_empty(),
            s@.feedback_reqs.is_empty(),
            s@.outs.len() == 0,
            s@.replies.len() == 0,
    {
        let s = PubsubCore {
            channels: BTreeMap::new(),
            remote_role_tombstones: BTreeMap::new(),
            pending_heartbeat_chunks: BTreeMap::new(),
            local_publish_generation: 0,
            local_subscribe_generation: 0,
            publish_rpc_reqs: BTreeMap::new(),
            feedback_rpc_reqs: BTreeMap::new(),
            outs: VecDeque::new(),
            replies: VecDeque::new(),
        };
        assert(s@.publish_reqs =~= Map::empty());
        assert(s@.feedback_reqs =~= Map::empty());
        assert(s@.channels =~= Map::empty());
        assert(s@.heartbeat_chunks =~= Map::empty());
        s
    }

    /// How many tombstones dropping channel `ch` would add.
    fn tombstone_slots_needed(&self, ch: u64, st: &PubsubChannelState) -> (n: usize)
        ensures
            tomb_peers(self@.tombstones, ch, st@).finite(),
            n == tomb_peers(self@.tombstones, ch, st@).len(),
    {
        let ghost target = tomb_peers(self@.tombstones, ch, st@);
        let mut peers: BTreeSet<u64> = BTreeSet::new();
        let pubs = keys_in_order(&st.remote_publishers);
        let mut i: usize = 0;
        while i < pubs.len()
            invariant
                i <= pubs@.len(),
                pubs@.to_set() == st@.remote_publishers.dom(),
                forall|p: u64| #[trigger] peers@.contains(p) <==> pubs@.take(i as int).contains(p) && inactive_in(
                    st@.remote_publishers,
                    p,
                ) && !self@.tombstones.contains_key((ch, p)),
            decreases pubs@.len() - i,
        {
            let p = pubs[i];
            assert(pubs@.to_set().contains(p));
            let active = st.remote_publishers.get(&p).unwrap().active;
            if !active && !self.remote_role_tombstones.contains_key(&(ch, p)) {
                peers.insert(p);
            }
            proof {
                let t0 = pubs@.take(i as int);
                let t1 = pubs@.take(i + 1);
                assert(t1 =~= t0.push(p));
                assert forall|x: u64| #[trigger] t1.contains(x) <==> (t0.contains(x) || x == p) by {
                    if t1.contains(x) && x != p {
                        let j = choose|j: int| 0 <= j < t1.len() && t1[j] == x;
                        assert(t0[j] == x);
                    }
                    if t0.contains(x) {
                        let j = choose|j: int| 0 <= j < t0.len() && t0[j] == x;
                        assert(t1[j] == x);
                    }
                    if x == p {
                        assert(t1[i as int] == x);
                    }
                }
            }
            i = i + 1;
        }
        assert(pubs@.take(pubs@.len() as int) =~= pubs@);
        let ghost from_pubs = peers@;
        let subs = keys_in_order(&st.remote_subscribers);
        let mut j: usize = 0;
        while j < subs.len()
            invariant
                j <= subs@.len(),
                subs@.to_set() == st@.remote_subscribers.dom(),
                forall|p: u64| #[trigger] peers@.contains(p) <==> from_pubs.contains(p) || (subs@.take(j as int).contains(p)
                    && inactive_in(st@.remote_subscribers, p) && !self@.tombstones.contains_key((ch, p))),
            decreases subs@.len() - j,
        {
            let p = subs[j];
            assert(subs@.to_set().contains(p));
            let active = st.remote_subscribers.get(&p).unwrap().active;
            if !active && !self.remote_role_tombstones.contains_key(&(ch, p)) {
                peers.insert(p);
            }
            proof {
                let t0 = subs@.take(j as int);
                let t1 = subs@.take(j + 1);
                assert(t1 =~= t0.push(p));
                assert forall|x: u64| #[trigger] t1.contains(x) <==> (t0.contains(x) || x == p) by {
                    if t1.contains(x) && x != p {
                        let k = choose|k: int| 0 <= k < t1.len() && t1[k] == x;
                        assert(t0[k] == x);
                    }
                    if t0.contains(x) {
                        let k = choose|k: int| 0 <= k < t0.len() && t0[k] == x;
                        assert(t1[k] == x);
                    }
                    if x == p {
                        assert(t1[j as int] == x);
                    }
                }
            }
            j = j + 1;
        }
        proof {
            assert(subs@.take(subs@.len() as int) =~= subs@);
            assert forall|p: u64| #[trigger] peers@.contains(p) <==> target.contains(p) by {
                if inactive_in(st@.remote_publishers, p) {
                    assert(pubs@.to_set().contains(p));
                }
                if inactive_in(st@.remote_subscribers, p) {
                    assert(subs@.to_set().contains(p));
                }
            }
            assert(peers@ =~= target);
            let both = st@.remote_publishers.dom().union(st@.remote_subscribers.dom());
            assert(target.subset_of(both));
            vstd::set_lib::lemma_len_subset(target, both);
        }
        peers.len()
    }

    /// Queues `e` for the local subscribers of `st`, when there are any.
    fn push_to_subscribers(&mut self, st: &PubsubChannelState, e: SubscriberEvent)
        ensures
            final(self)@ == (PubsubView { outs: old(self)@.outs + to_subscribers(st@, e@), ..old(self)@ }),
    {
        if !st.local_subscribers.is_empty() {
            let handles = subscriber_list(&st.local_subscribers);
            let a = PubsubAction::ToSubscribers(handles, e);
            self.outs.push_back(a);
            assert(self@.outs =~= old(self)@.outs + to_subscribers(st@, e@));
        } else {
            assert(old(self)@.outs + to_subscribers(st@, e@) =~= old(self)@.outs);
        }
    }

    /// Queues `e` for the local publishers of `st`, when there are any.
    fn push_to_publishers(&mut self, st: &PubsubChannelState, e: PublisherEvent)
        ensures
            final(self)@ == (PubsubView { outs: old(self)@.outs + to_publishers(st@, e@), ..old(self)@ }),
    {
        if !st.local_publishers.is_empty() {
            let handles = publisher_list(&st.local_publishers);
            let a = PubsubAction::ToPublishers(handles, e);
            self.outs.push_back(a);
            assert(self@.outs =~= old(self)@.outs + to_publishers(st@, e@));
        } else {
            assert(old(self)@.outs + to_publishers(st@, e@) =~= old(self)@.outs);
        }
    }

    /// Queues `a`.
    fn push_action(&mut self, a: PubsubAction)
        ensures
            final(self)@ == old(self)@.push(a@),
    {
        self.outs.push_back(a);
        assert(self@.outs =~= old(self)@.outs.push(a@));
    }

    fn clear_publisher_tombstone(&mut self, ch: u64, p: u64)
        ensures
            final(self)@ == (PubsubView {
                tombstones: clear_publisher_tombstone(old(self)@.tombstones, ch, p),
                ..old(self)@
            }),
    {
        if let Some(t) = self.remote_role_tombstones.get(&(ch, p)) {
            let t = *t;
            if t.subscribe_generation == 0 {
                self.remote_role_tombstones.remove(&(ch, p));
            } else {
                self.remote_role_tombstones.insert((ch, p), RemoteRoleTombstone { publish_generation: 0, ..t });
            }
        }
    }

    fn clear_subscriber_tombstone(&mut self, ch: u64, p: u64)
        ensures
            final(self)@ == (PubsubView {
                tombstones: clear_subscriber_tombstone(old(self)@.tombstones, ch, p),
                ..old(self)@
            }),
    {
        if let Some(t) = self.remote_role_tombstones.get(&(ch, p)) {
            let t = *t;
            if t.publish_generation == 0 {
                self.remote_role_tombstones.remove(&(ch, p));
            } else {
                self.remote_role_tombstones.insert((ch, p), RemoteRoleTombstone { subscribe_generation: 0, ..t });
            }
        }
    }

    fn remember_tombstone(&mut self, ch: u64, p: u64, pg: Option<u64>, sg: Option<u64>)
        ensures
            final(self)@ == (PubsubView {
                tombstones: remember_tombstone(old(self)@.tombstones, ch, p, pg, sg),
                ..old(self)@
            }),
    {
        let existing = self.remote_role_tombstones.get(&(ch, p));
        if existing.is_none() && self.remote_role_tombstones.len() >= MAX_REMOTE_ROLE_TOMBSTONES {
            return ;
        }
        let b = match existing {
            Some(t) => *t,
            None => RemoteRoleTombstone { publish_generation: 0, subscribe_generation: 0 },
        };
        let publish_generation = match pg {
            Some(g) => if b.publish_generation < g {
                g
            } else {
                b.publish_generation
            },
            None => b.publish_generation,
        };
        let subscribe_generation = match sg {
            Some(g) => if b.subscribe_generation < g {
                g
            } else {
                b.subscribe_generation
            },
            None => b.subscribe_generation,
        };
        self.remote_role_tombstones.insert((ch, p), RemoteRoleTombstone { publish_generation, subscribe_generation });
    }

    /// `from` announced that it publishes on `channel`; see
    /// `PubsubView::after_publisher_joined`.
    pub fn on_publisher_joined(&mut self, from: PeerId, channel: PubsubChannelId, generation: u64)
        ensures
            final(self)@ == old(self)@.after_publisher_joined(from.0, channel.0, generation),
    {
        let p = from.0;
        let ch = channel.0;
        if let Some(t) = self.remote_role_tombstones.get(&(ch, p)) {
            if t.publish_generation >= generation {
                return ;
            }
        }
        if !self.join_channel(ch) {
            return ;
        }
        let ghost s1 = self@;
        assert(self.channels@.dom() =~= s1.channels.dom());
        let mut st = self.channels.remove(&ch).unwrap();
        let ghost c = st@;
        let r = st.apply_remote_publisher(from, generation, true);
        let admitted = match r {
            Some((false, true)) => true,
            _ => false,
        };
        let reply = admitted && !st.local_subscribers.is_empty();
        let generation_here = st.local_subscribe_generation;
        let handles = if reply {
            Some(subscriber_list(&st.local_subscribers))
        } else {
            None
        };
        self.channels.insert(ch, st);
        assert(self@.channels =~= s1.channels.insert(ch, ChannelView { remote_publishers: st@.remote_publishers, ..c }));
        let ghost before = self@;
        if let Some(handles) = handles {
            self.push_action(PubsubAction::ToSubscribers(handles, SubscriberEvent::PeerJoined(PeerSrc::Remote(from))));
        }
        assert(admitted ==> self@.outs =~= before.outs + to_subscribers(c, SubscriberEventView::PeerJoined(PeerSrc::Remote(from))));
        if admitted {
            self.clear_publisher_tombstone(ch, p);
        }
        if reply {
            let mut to = Vec::new();
            to.push(from);
            assert(to@ =~= seq![from]);
            self.push_action(PubsubAction::ToPeers(to, PubsubMessage::SubscriberJoined(channel, generation_here)));
        }
    }

    /// `from` announced that it subscribes on `channel`; see
    /// `PubsubView::after_subscriber_joined`.
    pub fn on_subscriber_joined(&mut self, from: PeerId, channel: PubsubChannelId, generation: u64)
        ensures
            final(self)@ == old(self)@.after_subscriber_joined(from.0, channel.0, generation),
    {
        let p = from.0;
        let ch = channel.0;
        if let Some(t) = self.remote_role_tombstones.get(&(ch, p)) {
            if t.subscribe_generation >= generation {
                return ;
            }
        }
        if !self.join_channel(ch) {
            return ;
        }
        let ghost s1 = self@;
        assert(self.channels@.dom() =~= s1.channels.dom());
        let mut st = self.channels.remove(&ch).unwrap();
        let ghost c = st@;
        let r = st.apply_remote_subscriber(from, generation, true);
        let admitted = match r {
            Some((false, true)) => true,
            _ => false,
        };
        let reply = admitted && !st.local_publishers.is_empty();
        let generation_here = st.local_publish_generation;
        let handles = if reply {
            Some(publisher_list(&st.local_publishers))
        } else {
            None
        };
        self.channels.insert(ch, st);
        assert(self@.channels =~= s1.channels.insert(ch, ChannelView { remote_subscribers: st@.remote_subscribers, ..c }));
        let ghost before = self@;
        if let Some(handles) = handles {
            self.push_action(PubsubAction::ToPublishers(handles, PublisherEvent::PeerJoined(PeerSrc::Remote(from))));
        }
        assert(admitted ==> self@.outs =~= before.outs + to_publishers(c, PublisherEventView::PeerJoined(PeerSrc::Remote(from))));
        if admitted {
            self.clear_subscriber_tombstone(ch, p);
        }
        if reply {
            let mut to = Vec::new();
            to.push(from);
            assert(to@ =~= seq![from]);
            self.push_action(PubsubAction::ToPeers(to, PubsubMessage::PublisherJoined(channel, generation_here)));
        }
    }

    /// `from` announced that it stopped publishing on `channel`; see
    /// `PubsubView::after_publisher_leaved`.
    pub fn on_publisher_leaved(&mut self, from: PeerId, channel: PubsubChannelId, generation: u64)
        ensures
            final(self)@ == old(self)@.after_publisher_leaved(from.0, channel.0, generation),
    {
        let ch = channel.0;
        let ghost s0 = self@;
        if !self.channels.contains_key(&ch) {
            self.remember_tombstone(ch, from.0, Some(generation), None);
            return ;
        }
        assert(self.channels@.dom() =~= s0.channels.dom());
        let mut st = self.channels.remove(&ch).unwrap();
        let ghost c = st@;
        let r = st.apply_remote_publisher(from, generation, false);
        let left = match r {
            Some((true, false)) => true,
            _ => false,
        };
        let handles = if left && !st.local_subscribers.is_empty() {
            Some(subscriber_list(&st.local_subscribers))
        } else {
            None
        };
        self.channels.insert(ch, st);
        assert(self@.channels =~= s0.channels.insert(ch, ChannelView { remote_publishers: st@.remote_publishers, ..c }));
        let ghost before = self@;
        if let Some(handles) = handles {
            self.push_action(PubsubAction::ToSubscribers(handles, SubscriberEvent::PeerLeaved(PeerSrc::Remote(from))));
        }
        assert(left ==> self@.outs =~= before.outs + to_subscribers(c, SubscriberEventView::PeerLeaved(PeerSrc::Remote(from))));
    }

    /// `from` announced that it stopped subscribing on `channel`; see
    /// `PubsubView::after_subscriber_leaved`.
    pub fn on_subscriber_leaved(&mut self, from: PeerId, channel: PubsubChannelId, generation: u64)
        ensures
            final(self)@ == old(self)@.after_subscriber_leaved(from.0, channel.0, generation),
    {
        let ch = channel.0;
        let ghost s0 = self@;
        if !self.channels.contains_key(&ch) {
            self.remember_tombstone(ch, from.0, None, Some(generation));
            return ;
        }
        assert(self.channels@.dom() =~= s0.channels.dom());
        let mut st = self.channels.remove(&ch).unwrap();
        let ghost c = st@;
        let r = st.apply_remote_subscriber(from, generation, false);
        let left = match r {
            Some((true, false)) => true,
            _ => false,
        };
        let handles = if left && !st.local_publishers.is_empty() {
            Some(publisher_list(&st.local_publishers))
        } else {
            None
        };
        self.channels.insert(ch, st);
        assert(self@.channels =~= s0.channels.insert(ch, ChannelView { remote_subscribers: st@.remote_subscribers, ..c }));
        let ghost before = self@;
        if let Some(handles) = handles {
            self.push_action(PubsubAction::ToPublishers(handles, PublisherEvent::PeerLeaved(PeerSrc::Remote(from))));
        }
        assert(left ==> self@.outs =~= before.outs + to_publishers(c, PublisherEventView::PeerLeaved(PeerSrc::Remote(from))));
    }

    /// Drops the idle channels whose tombstones fit, in channel order.
    fn evict_inactive_channels(&mut self)
        ensures
            final(self)@ == old(self)@.evict_all(sorted_keys(old(self)@.channels.dom())),
    {
        let ghost s0 = self@;
        let keys = keys_in_order(&self.channels);
        assert(self.channels@.dom() =~= s0.channels.dom());
        let mut i: usize = 0;
        while i < keys.len()
            invariant
                i <= keys@.len(),
                keys@ == sorted_keys(s0.channels.dom()),
                self@ == s0.evict_all(keys@.take(i as int)),
            decreases keys@.len() - i,
        {
            let c = keys[i];
            let ghost before = self@;
            proof {
                assert(keys@.take(i + 1).drop_last() =~= keys@.take(i as int));
            }
            let evicted = match self.channels.get(&c) {
                Some(st) => {
                    if st.is_inactive_remote_only() {
                        let slots = self.tombstone_slots_needed(c, st);
                        let len = self.remote_role_tombstones.len();
                        assert(len == before.tombstones.len());
                        len <= MAX_REMOTE_ROLE_TOMBSTONES && slots <= MAX_REMOTE_ROLE_TOMBSTONES - len
                    } else {
                        false
                    }
                },
                None => false,
            };
            if evicted {
                let st = self.channels.remove(&c).unwrap();
                self.merge_tombstones(c, &st);
                assert(self@.channels =~= before.channels.remove(c));
            }
            i = i + 1;
        }
        assert(keys@.take(keys@.len() as int) =~= keys@);
    }

    /// Channel `ch` for a remote join; see `PubsubView::join_channel`.
    fn join_channel(&mut self, ch: u64) -> (r: bool)
        ensures
            (r, final(self)@) == old(self)@.join_channel(ch),
    {
        let ghost s0 = self@;
        if self.channels.contains_key(&ch) {
            return true;
        }
        assert(self.channels@.dom() =~= s0.channels.dom());
        if self.channels.len() >= MAX_REMOTE_CREATED_CHANNELS {
            self.evict_inactive_channels();
        }
        let ghost s1 = self@;
        assert(self.channels@.dom() =~= s1.channels.dom());
        if self.channels.len() >= MAX_REMOTE_CREATED_CHANNELS {
            return false;
        }
        let st = PubsubChannelState::default();
        self.channels.insert(ch, st);
        assert(self@.channels =~= s1.channels.insert(ch, ChannelView::empty()));
        true
    }

    /// Adds the tombstones of channel `ch`, whose state is `st`.
    fn merge_tombstones(&mut self, ch: u64, st: &PubsubChannelState)
        ensures
            final(self)@ == (PubsubView {
                tombstones: with_tombstones(old(self)@.tombstones, ch, st@),
                ..old(self)@
            }),
    {
        let ghost t0 = self@.tombstones;
        let ghost c = st@;
        let pubs = keys_in_order(&st.remote_publishers);
        let mut i: usize = 0;
        while i < pubs.len()
            invariant
                i <= pubs@.len(),
                pubs@.to_set() == c.remote_publishers.dom(),
                crate::ordered::increasing(pubs@),
                c == st@,
                self@ == (PubsubView { tombstones: self@.tombstones, ..old(self)@ }),
                self@.tombstones == merged(t0, ch, c, pubs@.take(i as int).to_set(), Set::empty()),
            decreases pubs@.len() - i,
        {
            let p = pubs[i];
            let ghost before = self@.tombstones;
            assert(pubs@.to_set().contains(p));
            let role = *st.remote_publishers.get(&p).unwrap();
            let ghost d0 = pubs@.take(i as int).to_set();
            proof {
                assert(pubs@.take(i + 1) =~= pubs@.take(i as int).push(p));
                pubs@.take(i as int).lemma_push_to_set_commute(p);
            }
            if !role.active {
                let base = match self.remote_role_tombstones.get(&(ch, p)) {
                    Some(t) => *t,
                    None => RemoteRoleTombstone { publish_generation: 0, subscribe_generation: 0 },
                };
                let pg = if base.publish_generation < role.generation {
                    role.generation
                } else {
                    base.publish_generation
                };
                self.remote_role_tombstones.insert(
                    (ch, p),
                    RemoteRoleTombstone { publish_generation: pg, subscribe_generation: base.subscribe_generation },
                );
                proof {
                    if d0.contains(p) {
                        let k = choose|k: int| 0 <= k < pubs@.take(i as int).len() && pubs@.take(i as int)[k] == p;
                        assert(pubs@[k] < pubs@[i as int]);
                    }
                    assert(self@.tombstones =~= merged(t0, ch, c, d0.insert(p), Set::empty()));
                }
            } else {
                assert(self@.tombstones =~= merged(t0, ch, c, d0.insert(p), Set::empty()));
            }
            i = i + 1;
        }
        proof {
            assert(pubs@.take(pubs@.len() as int) =~= pubs@);
        }
        let ghost dp = pubs@.to_set();
        let subs = keys_in_order(&st.remote_subscribers);
        let mut j: usize = 0;
        while j < subs.len()
            invariant
                j <= subs@.len(),
                subs@.to_set() == c.remote_subscribers.dom(),
                crate::ordered::increasing(subs@),
                dp == c.remote_publishers.dom(),
                c == st@,
                self@ == (PubsubView { tombstones: self@.tombstones, ..old(self)@ }),
                self@.tombstones == merged(t0, ch, c, dp, subs@.take(j as int).to_set()),
            decreases subs@.len() - j,
        {
            let p = subs[j];
            assert(subs@.to_set().contains(p));
            let role = *st.remote_subscribers.get(&p).unwrap();
            let ghost d0 = subs@.take(j as int).to_set();
            proof {
                assert(subs@.take(j + 1) =~= subs@.take(j as int).push(p));
                subs@.take(j as int).lemma_push_to_set_commute(p);
            }
            if !role.active {
                let base = match self.remote_role_tombstones.get(&(ch, p)) {
                    Some(t) => *t,
                    None => RemoteRoleTombstone { publish_generation: 0, subscribe_generation: 0 },
                };
                let sg = if base.subscribe_generation < role.generation {
                    role.generation
                } else {
                    base.subscribe_generation
                };
                self.remote_role_tombstones.insert(
                    (ch, p),
                    RemoteRoleTombstone { publish_generation: base.publish_generation, subscribe_generation: sg },
                );
                proof {
                    if d0.contains(p) {
                        let k = choose|k: int| 0 <= k < subs@.take(j as int).len() && subs@.take(j as int)[k] == p;
                        assert(subs@[k] < subs@[j as int]);
                    }
                    assert(self@.tombstones =~= merged(t0, ch, c, dp, d0.insert(p)));
                }
            } else {
                assert(self@.tombstones =~= merged(t0, ch, c, dp, d0.insert(p)));
            }
            j = j + 1;
        }
        proof {
            assert(subs@.take(subs@.len() as int) =~= subs@);
        }
    }
}

impl<W> PubsubView<W> {
    /// Node `p` is dropped from the members of channel `ch`; the local
    /// handles hear of each role it held active, and the channel goes when
    /// nothing is left in it.
    pub open spec fn drop_member(self, ch: u64, p: u64) -> Self {
        if !self.channels.contains_key(ch) {
            self
        } else {
            let c = self.channels[ch];
            let c2 = ChannelView {
                remote_publishers: c.remote_publishers.remove(p),
                remote_subscribers: c.remote_subscribers.remove(p),
                ..c
            };
            let o1 = if c.remote_publishers.contains_key(p) && c.remote_publishers[p].active {
                to_subscribers(c, SubscriberEventView::PeerLeaved(PeerSrc::Remote(PeerId(p))))
            } else {
                seq![]
            };
            let o2 = if c.remote_subscribers.contains_key(p) && c.remote_subscribers[p].active {
                to_publishers(c, PublisherEventView::PeerLeaved(PeerSrc::Remote(PeerId(p))))
            } else {
                seq![]
            };
            PubsubView {
                channels: if is_fully_empty(c2) {
                    self.channels.remove(ch)
                } else {
                    self.channels.insert(ch, c2)
                },
                outs: self.outs + o1 + o2,
                ..self
            }
        }
    }

    /// `drop_member` of `p` on each channel of `keys` in turn, but those in
    /// `seen`.
    pub open spec fn drop_member_in(self, keys: Seq<u64>, p: u64, seen: Set<u64>) -> Self
        decreases keys.len(),
    {
        if keys.len() == 0 {
            self
        } else {
            let s = self.drop_member_in(keys.drop_last(), p, seen);
            if seen.contains(keys.last()) {
                s
            } else {
                s.drop_member(keys.last(), p)
            }
        }
    }

    /// Node `p` disconnected: its tombstones and pending heartbeat chunks
    /// are forgotten and it is dropped from every channel, in channel order.
    pub open spec fn after_disconnect(self, p: u64) -> Self {
        self.after_disconnect_start(p).drop_member_in(sorted_keys(self.channels.dom()), p, Set::empty())
    }

    /// The tombstones and pending heartbeat chunks of `p` forgotten.
    pub open spec fn after_disconnect_start(self, p: u64) -> Self {
        PubsubView {
            tombstones: self.tombstones.restrict(keys_not_of(p)),
            heartbeat_chunks: self.heartbeat_chunks.remove(p),
            ..self
        }
    }
}

impl<W> PubsubCore<W> {
    /// Drops `p` from the members of channel `ch`; see
    /// `PubsubView::drop_member`.
    fn drop_member(&mut self, ch: u64, p: u64)
        ensures
            final(self)@ == old(self)@.drop_member(ch, p),
    {
        let ghost s0 = self@;
        match self.channels.remove(&ch) {
            None => {
                assert(self@.channels =~= s0.channels);
            },
            Some(mut st) => {
                let ghost c = st@;
                assert(self@.channels =~= s0.channels.remove(ch));
                let was_pub = match st.remote_publishers.remove(&p) {
                    Some(r) => r.active,
                    None => false,
                };
                let was_sub = match st.remote_subscribers.remove(&p) {
                    Some(r) => r.active,
                    None => false,
                };
                let ghost s1 = self@;
                if was_pub {
                    self.push_to_subscribers(&st, SubscriberEvent::PeerLeaved(PeerSrc::Remote(PeerId(p))));
                }
                let ghost o1 = if was_pub {
                    to_subscribers(c, SubscriberEventView::PeerLeaved(PeerSrc::Remote(PeerId(p))))
                } else {
                    seq![]
                };
                assert(self@.outs =~= s1.outs + o1);
                let ghost s2 = self@;
                if was_sub {
                    self.push_to_publishers(&st, PublisherEvent::PeerLeaved(PeerSrc::Remote(PeerId(p))));
                }
                let ghost o2 = if was_sub {
                    to_publishers(c, PublisherEventView::PeerLeaved(PeerSrc::Remote(PeerId(p))))
                } else {
                    seq![]
                };
                assert(self@.outs =~= s2.outs + o2);
                let ghost s3 = self@;
                if !st.is_fully_empty() {
                    self.channels.insert(ch, st);
                    assert(self@.channels =~= s3.channels.insert(ch, st@));
                    assert(s3.channels.insert(ch, st@) =~= s0.channels.insert(ch, st@));
                } else {
                    assert(self@.channels =~= s0.channels.remove(ch));
                }
            },
        }
    }

    /// Drops `p` from every channel not in `seen`, in channel order.
    fn drop_member_unseen(&mut self, p: u64, seen: &BTreeSet<u64>)
        ensures
            final(self)@ == old(self)@.drop_member_in(sorted_keys(old(self)@.channels.dom()), p, seen@),
    {
        let ghost s0 = self@;
        let keys = keys_in_order(&self.channels);
        assert(self.channels@.dom() =~= s0.channels.dom());
        let mut i: usize = 0;
        while i < keys.len()
            invariant
                i <= keys@.len(),
                keys@ == sorted_keys(s0.channels.dom()),
                self@ == s0.drop_member_in(keys@.take(i as int), p, seen@),
            decreases keys@.len() - i,
        {
            let k = keys[i];
            proof {
                assert(keys@.take(i + 1).drop_last() =~= keys@.take(i as int));
            }
            if !seen.contains(&k) {
                self.drop_member(k, p);
            }
            i = i + 1;
        }
        assert(keys@.take(keys@.len() as int) =~= keys@);
    }

    /// Forgets the tombstones of node `p`.
    fn forget_tombstones_of(&mut self, p: u64)
        ensures
            final(self)@ == (PubsubView {
                tombstones: old(self)@.tombstones.restrict(keys_not_of(p)),
                ..old(self)@
            }),
    {
        let ghost t0 = self@.tombstones;
        let keys = pair_keys(&self.remote_role_tombstones);
        let mut i: usize = 0;
        while i < keys.len()
            invariant
                i <= keys@.len(),
                keys@.to_set() == t0.dom(),
                keys@.no_duplicates(),
                self@ == (PubsubView { tombstones: self@.tombstones, ..old(self)@ }),
                forall|k: (u64, u64)| #[trigger] self@.tombstones.contains_key(k) <==> t0.contains_key(k) && !(k.1 == p
                    && keys@.take(i as int).contains(k)),
                forall|k: (u64, u64)| #[trigger] self@.tombstones.contains_key(k) ==> self@.tombstones[k] == t0[k],
            decreases keys@.len() - i,
        {
            let k = keys[i];
            if k.1 == p {
                self.remote_role_tombstones.remove(&k);
            }
            proof {
                let a = keys@.take(i as int);
                let b = keys@.take(i + 1);
                assert(b =~= a.push(k));
                assert forall|x: (u64, u64)| #[trigger] b.contains(x) <==> (a.contains(x) || x == k) by {
                    if b.contains(x) && x != k {
                        let j = choose|j: int| 0 <= j < b.len() && b[j] == x;
                        assert(a[j] == x);
                    }
                    if a.contains(x) {
                        let j = choose|j: int| 0 <= j < a.len() && a[j] == x;
                        assert(b[j] == x);
                    }
                    if x == k {
                        assert(b[i as int] == x);
                    }
                }
            }
            i = i + 1;
        }
        proof {
            assert(keys@.take(keys@.len() as int) =~= keys@);
            assert forall|k: (u64, u64)| t0.contains_key(k) implies keys@.contains(k) by {
                assert(keys@.to_set().contains(k));
            }
            assert(self@.tombstones =~= t0.restrict(keys_not_of(p)));
        }
    }

    /// Node `peer` disconnected; see `PubsubView::after_disconnect`.
    pub fn on_peer_disconnected(&mut self, peer: PeerId)
        ensures
            final(self)@ == old(self)@.after_disconnect(peer.0),
    {
        let p = peer.0;
        self.forget_tombstones_of(p);
        let ghost s1 = self@;
        self.pending_heartbeat_chunks.remove(&p);
        assert(self@.heartbeat_chunks =~= s1.heartbeat_chunks.remove(p));
        let none: BTreeSet<u64> = BTreeSet::new();
        assert(none@ =~= Set::empty());
        let ghost s0 = old(self)@;
        let ghost mid = PubsubView {
            tombstones: s0.tombstones.restrict(keys_not_of(p)),
            heartbeat_chunks: s0.heartbeat_chunks.remove(p),
            ..s0
        };
        assert(self@ == mid);
        assert(mid == s0.after_disconnect_start(p));
        self.drop_member_unseen(p, &none);
        assert(self@ == mid.drop_member_in(sorted_keys(s0.channels.dom()), p, Set::empty()));
    }
}

/// Whether an applied announcement changed the role's activity, and to
/// what.
pub open spec fn role_change(r: Option<(bool, bool)>) -> Option<bool> {
    match r {
        Some((was, is)) => if was != is {
            Some(is)
        } else {
            None
        },
        None => None,
    }
}

/// What the local subscribers of `c` hear when `p`'s publishing changed as
/// `r` says.
pub open spec fn publisher_notice(c: ChannelView, p: u64, r: Option<(bool, bool)>) -> Seq<ActionView> {
    match role_change(r) {
        Some(true) => to_subscribers(c, SubscriberEventView::PeerJoined(PeerSrc::Remote(PeerId(p)))),
        Some(false) => to_subscribers(c, SubscriberEventView::PeerLeaved(PeerSrc::Remote(PeerId(p)))),
        None => seq![],
    }
}

/// What the local publishers of `c` hear when `p`'s subscribing changed as
/// `r` says.
pub open spec fn subscriber_notice(c: ChannelView, p: u64, r: Option<(bool, bool)>) -> Seq<ActionView> {
    match role_change(r) {
        Some(true) => to_publishers(c, PublisherEventView::PeerJoined(PeerSrc::Remote(PeerId(p)))),
        Some(false) => to_publishers(c, PublisherEventView::PeerLeaved(PeerSrc::Remote(PeerId(p)))),
        None => seq![],
    }
}

/// The channels that heartbeat rows name.
pub open spec fn row_channels(rows: Seq<ChannelHeartbeat>) -> Set<u64> {
    rows.map_values(|r: ChannelHeartbeat| r.channel.0).to_set()
}

impl<W> PubsubView<W> {
    /// A heartbeat row from `p`: on a known channel both roles are applied,
    /// the same generation being taken again, and the local handles hear
    /// of each change.
    pub open spec fn apply_row(self, p: u64, row: ChannelHeartbeat) -> Self {
        let ch = row.channel.0;
        if !self.channels.contains_key(ch) {
            self
        } else {
            let c = self.channels[ch];
            let (r1, pubs) = apply_role(c.remote_publishers, p, row.publish_generation, row.publish, false);
            let (r2, subs) = apply_role(c.remote_subscribers, p, row.subscribe_generation, row.subscribe, false);
            PubsubView {
                channels: self.channels.insert(
                    ch,
                    ChannelView { remote_publishers: pubs, remote_subscribers: subs, ..c },
                ),
                outs: self.outs + publisher_notice(c, p, r1) + subscriber_notice(c, p, r2),
                ..self
            }
        }
    }

    /// The rows applied in order.
    pub open spec fn apply_rows(self, p: u64, rows: Seq<ChannelHeartbeat>) -> Self
        decreases rows.len(),
    {
        if rows.len() == 0 {
            self
        } else {
            self.apply_rows(p, rows.drop_last()).apply_row(p, rows.last())
        }
    }

    /// A whole heartbeat from `p`: refused when over the batch size; else
    /// its pending chunks are dropped, the rows applied, and `p` dropped
    /// from the channels the heartbeat does not name.
    pub open spec fn after_heartbeat(self, p: u64, rows: Seq<ChannelHeartbeat>) -> Self {
        if rows.len() > MAX_HEARTBEAT_CHANNELS_PER_BATCH {
            self
        } else {
            let s1 = (PubsubView { heartbeat_chunks: self.heartbeat_chunks.remove(p), ..self }).apply_rows(p, rows);
            s1.drop_member_in(sorted_keys(s1.channels.dom()), p, row_channels(rows))
        }
    }

    /// One chunk of a heartbeat from `p`: over the batch size, the pending
    /// chunks are dropped; else the known channels it names join those of
    /// the earlier chunks and the rows are applied; after the last chunk,
    /// `p` is dropped from the channels no chunk named.
    pub open spec fn after_heartbeat_chunk(self, p: u64, rows: Seq<ChannelHeartbeat>, is_last: bool) -> Self {
        if rows.len() > MAX_HEARTBEAT_CHANNELS_PER_BATCH {
            PubsubView { heartbeat_chunks: self.heartbeat_chunks.remove(p), ..self }
        } else {
            let earlier = if self.heartbeat_chunks.contains_key(p) {
                self.heartbeat_chunks[p]
            } else {
                Set::empty()
            };
            let seen = earlier.union(row_channels(rows).intersect(self.channels.dom()));
            let s1 = (PubsubView { heartbeat_chunks: self.heartbeat_chunks.insert(p, seen), ..self }).apply_rows(
                p,
                rows,
            );
            if is_last {
                let s2 = PubsubView { heartbeat_chunks: s1.heartbeat_chunks.remove(p), ..s1 };
                s2.drop_member_in(sorted_keys(s2.channels.dom()), p, seen)
            } else {
                s1
            }
        }
    }
}

impl<W> PubsubCore<W> {
    /// Applies one heartbeat row from `p`; see `PubsubView::apply_row`.
    fn apply_row(&mut self, p: u64, row: ChannelHeartbeat)
        ensures
            final(self)@ == old(self)@.apply_row(p, row),
    {
        let ghost s0 = self@;
        let ch = row.channel.0;
        match self.channels.remove(&ch) {
            None => {
                assert(self@.channels =~= s0.channels);
            },
            Some(mut st) => {
                let ghost c = st@;
                assert(self@.channels =~= s0.channels.remove(ch));
                let r1 = st.apply_remote_publisher_heartbeat(PeerId(p), row.publish_generation, row.publish);
                let r2 = st.apply_remote_subscriber_heartbeat(PeerId(p), row.subscribe_generation, row.subscribe);
                let ghost s1 = self@;
                match r1 {
                    Some((was, is)) => {
                        if was != is {
                            if is {
                                self.push_to_subscribers(&st, SubscriberEvent::PeerJoined(PeerSrc::Remote(PeerId(p))));
                            } else {
                                self.push_to_subscribers(&st, SubscriberEvent::PeerLeaved(PeerSrc::Remote(PeerId(p))));
                            }
                        }
                    },
                    None => {},
                }
                assert(self@.outs =~= s1.outs + publisher_notice(c, p, r1));
                let ghost s2 = self@;
                match r2 {
                    Some((was, is)) => {
                        if was != is {
                            if is {
                                self.push_to_publishers(&st, PublisherEvent::PeerJoined(PeerSrc::Remote(PeerId(p))));
                            } else {
                                self.push_to_publishers(&st, PublisherEvent::PeerLeaved(PeerSrc::Remote(PeerId(p))));
                            }
                        }
                    },
                    None => {},
                }
                assert(self@.outs =~= s2.outs + subscriber_notice(c, p, r2));
                let ghost s3 = self@;
                self.channels.insert(ch, st);
                assert(self@.channels =~= s3.channels.insert(ch, st@));
                assert(s3.channels.insert(ch, st@) =~= s0.channels.insert(ch, st@));
            },
        }
    }

    /// Applies the rows in order.
    fn apply_rows(&mut self, p: u64, rows: &Vec<ChannelHeartbeat>)
        ensures
            final(self)@ == old(self)@.apply_rows(p, rows@),
    {
        let ghost s0 = self@;
        let mut i: usize = 0;
        while i < rows.len()
            invariant
                i <= rows@.len(),
                self@ == s0.apply_rows(p, rows@.take(i as int)),
            decreases rows@.len() - i,
        {
            let row = rows[i];
            proof {
                assert(rows@.take(i + 1).drop_last() =~= rows@.take(i as int));
            }
            self.apply_row(p, row);
            i = i + 1;
        }
        assert(rows@.take(rows@.len() as int) =~= rows@);
    }

    /// `into` with the channels that `rows` name added, only the known
    /// ones if `only_known`.
    fn add_row_channels(&self, rows: &Vec<ChannelHeartbeat>, only_known: bool, into: BTreeSet<u64>) -> (r: BTreeSet<u64>)
        ensures
            r@ == into@.union(
                if only_known {
                    row_channels(rows@).intersect(self@.channels.dom())
                } else {
                    row_channels(rows@)
                },
            ),
    {
        let ghost f = |r: ChannelHeartbeat| r.channel.0;
        let ghost d = self@.channels.dom();
        let mut r = into;
        let mut i: usize = 0;
        while i < rows.len()
            invariant
                i <= rows@.len(),
                f == (|r: ChannelHeartbeat| r.channel.0),
                d == self@.channels.dom(),
                r@ == into@.union(
                    if only_known {
                        rows@.take(i as int).map_values(f).to_set().intersect(d)
                    } else {
                        rows@.take(i as int).map_values(f).to_set()
                    },
                ),
            decreases rows@.len() - i,
        {
            let ch = rows[i].channel.0;
            if !only_known || self.channels.contains_key(&ch) {
                r.insert(ch);
            }
            proof {
                assert(rows@.take(i + 1).map_values(f) =~= rows@.take(i as int).map_values(f).push(ch));
                rows@.take(i as int).map_values(f).lemma_push_to_set_commute(ch);
                assert(self.channels@.dom() =~= d);
                if only_known {
                    assert(r@ =~= into@.union(rows@.take(i + 1).map_values(f).to_set().intersect(d)));
                } else {
                    assert(r@ =~= into@.union(rows@.take(i + 1).map_values(f).to_set()));
                }
            }
            i = i + 1;
        }
        assert(rows@.take(rows@.len() as int) =~= rows@);
        r
    }

    /// A whole heartbeat from `from`; see `PubsubView::after_heartbeat`.
    pub fn on_heartbeat(&mut self, from: PeerId, rows: Vec<ChannelHeartbeat>)
        ensures
            final(self)@ == old(self)@.after_heartbeat(from.0, rows@),
    {
        if rows.len() > MAX_HEARTBEAT_CHANNELS_PER_BATCH {
            return ;
        }
        let p = from.0;
        let seen = self.add_row_channels(&rows, false, BTreeSet::new());
        assert(seen@ =~= row_channels(rows@));
        let ghost s0 = self@;
        self.pending_heartbeat_chunks.remove(&p);
        assert(self@.heartbeat_chunks =~= s0.heartbeat_chunks.remove(p));
        self.apply_rows(p, &rows);
        let ghost s1 = self@;
        assert(self.channels@.dom() =~= s1.channels.dom());
        self.drop_member_unseen(p, &seen);
    }

    /// One chunk of a heartbeat from `from`; see
    /// `PubsubView::after_heartbeat_chunk`.
    pub fn on_heartbeat_chunk(&mut self, from: PeerId, rows: Vec<ChannelHeartbeat>, is_last: bool)
        ensures
            final(self)@ == old(self)@.after_heartbeat_chunk(from.0, rows@, is_last),
    {
        let p = from.0;
        let ghost s0 = self@;
        if rows.len() > MAX_HEARTBEAT_CHANNELS_PER_BATCH {
            self.pending_heartbeat_chunks.remove(&p);
            assert(self@.heartbeat_chunks =~= s0.heartbeat_chunks.remove(p));
            return ;
        }
        let earlier = match self.pending_heartbeat_chunks.remove(&p) {
            Some(set) => set,
            None => BTreeSet::new(),
        };
        let ghost e = if s0.heartbeat_chunks.contains_key(p) {
            s0.heartbeat_chunks[p]
        } else {
            Set::empty()
        };
        assert(earlier@ =~= e);
        assert(self.channels@.dom() =~= s0.channels.dom());
        let seen = self.add_row_channels(&rows, true, earlier);
        let ghost seen_v = seen@;
        self.pending_heartbeat_chunks.insert(p, seen);
        assert(self@.heartbeat_chunks =~= s0.heartbeat_chunks.insert(p, seen_v));
        let ghost s_in = self@;
        self.apply_rows(p, &rows);
        proof {
            lemma_apply_rows_frame(s_in, p, rows@);
        }
        if is_last {
            let ghost s1 = self@;
            assert(s_in.heartbeat_chunks.contains_key(p));
            assert(s1.heartbeat_chunks == s_in.heartbeat_chunks);
            assert(s1.heartbeat_chunks[p] == seen_v);
            assert(self.pending_heartbeat_chunks@.dom().contains(p));
            assert(self.pending_heartbeat_chunks@[p]@ == seen_v);
            let seen = match self.pending_heartbeat_chunks.remove(&p) {
                Some(set) => set,
                None => BTreeSet::new(),
            };
            assert(seen@ == seen_v);
            assert(self@.heartbeat_chunks =~= s1.heartbeat_chunks.remove(p));
            let ghost s2 = self@;
            assert(self.channels@.dom() =~= s2.channels.dom());
            self.drop_member_unseen(p, &seen);
        }
    }
}

/// Applying heartbeat rows changes only the channels and the queued
/// actions.
pub proof fn lemma_apply_rows_frame<W>(s: PubsubView<W>, p: u64, rows: Seq<ChannelHeartbeat>)
    ensures
        s.apply_rows(p, rows) == (PubsubView {
            channels: s.apply_rows(p, rows).channels,
            outs: s.apply_rows(p, rows).outs,
            ..s
        }),
    decreases rows.len(),
{
    if rows.len() > 0 {
        lemma_apply_rows_frame(s, p, rows.drop_last());
    }
}

/// The next local generation: one more, stopping at the largest.
pub open spec fn bump(g: u64) -> u64 {
    if g == u64::MAX {
        g
    } else {
        (g + 1) as u64
    }
}

/// What a new local publisher `h` hears first of channel `c`: that there
/// are local subscribers, if any, then each active remote subscriber.
pub open spec fn publisher_greeting(c: ChannelView, h: PublisherHandleId) -> Seq<ActionView> {
    (if c.local_subscribers.is_empty() {
        seq![]
    } else {
        seq![ActionView::ToPublishers(seq![h], PublisherEventView::PeerJoined(PeerSrc::Local))]
    }) + active_peers(c.remote_subscribers).map_values(
        |q: PeerId| ActionView::ToPublishers(seq![h], PublisherEventView::PeerJoined(PeerSrc::Remote(q))),
    )
}

/// What a new local subscriber `h` hears first of channel `c`.
pub open spec fn subscriber_greeting(c: ChannelView, h: SubscriberHandleId) -> Seq<ActionView> {
    (if c.local_publishers.is_empty() {
        seq![]
    } else {
        seq![ActionView::ToSubscribers(seq![h], SubscriberEventView::PeerJoined(PeerSrc::Local))]
    }) + active_peers(c.remote_publishers).map_values(
        |q: PeerId| ActionView::ToSubscribers(seq![h], SubscriberEventView::PeerJoined(PeerSrc::Remote(q))),
    )
}

impl<W> PubsubView<W> {
    /// The channel `ch`, or a new one.
    pub open spec fn channel_or_empty(self, ch: u64) -> ChannelView {
        if self.channels.contains_key(ch) {
            self.channels[ch]
        } else {
            ChannelView::empty()
        }
    }

    /// A local publisher `h` came to channel `ch`, made if new: `h` is
    /// greeted; when it is the first local publisher, the local
    /// subscribers hear of it and every node is told, with the next publish
    /// generation.
    pub open spec fn after_publisher_created(self, h: PublisherHandleId, ch: u64) -> Self {
        let c = self.channel_or_empty(ch);
        let c1 = ChannelView { local_publishers: c.local_publishers.insert(h.owner, h.local_id.0), ..c };
        let outs = self.outs + publisher_greeting(c, h);
        if c.local_publishers.is_empty() {
            let g = bump(self.local_publish_generation);
            PubsubView {
                channels: self.channels.insert(ch, ChannelView { local_publish_generation: g, ..c1 }),
                local_publish_generation: g,
                outs: outs + to_subscribers(c, SubscriberEventView::PeerJoined(PeerSrc::Local)) + seq![
                    ActionView::Broadcast(MessageView::PublisherJoined(PubsubChannelId(ch), g)),
                ],
                ..self
            }
        } else {
            PubsubView { channels: self.channels.insert(ch, c1), outs, ..self }
        }
    }

    /// A local subscriber `h` came to channel `ch`; as
    /// `after_publisher_created` with the roles swapped.
    pub open spec fn after_subscriber_created(self, h: SubscriberHandleId, ch: u64) -> Self {
        let c = self.channel_or_empty(ch);
        let c1 = ChannelView { local_subscribers: c.local_subscribers.insert(h.owner, h.local_id.0), ..c };
        let outs = self.outs + subscriber_greeting(c, h);
        if c.local_subscribers.is_empty() {
            let g = bump(self.local_subscribe_generation);
            PubsubView {
                channels: self.channels.insert(ch, ChannelView { local_subscribe_generation: g, ..c1 }),
                local_subscribe_generation: g,
                outs: outs + to_publishers(c, PublisherEventView::PeerJoined(PeerSrc::Local)) + seq![
                    ActionView::Broadcast(MessageView::SubscriberJoined(PubsubChannelId(ch), g)),
                ],
                ..self
            }
        } else {
            PubsubView { channels: self.channels.insert(ch, c1), outs, ..self }
        }
    }

    /// The local publisher `h` left channel `ch`, if it was there: when it
    /// was the last, the local subscribers hear of it and every node is
    /// told, with the next publish generation; the channel goes when
    /// nothing is left in it.
    pub open spec fn after_publisher_destroyed(self, h: PublisherHandleId, ch: u64) -> Self {
        if !self.channels.contains_key(ch) {
            self
        } else {
            let c = self.channels[ch];
            if !(c.local_publishers.contains_key(h.owner) && c.local_publishers[h.owner] == h.local_id.0) {
                self
            } else {
                let c1 = ChannelView { local_publishers: c.local_publishers.remove(h.owner), ..c };
                let g = bump(self.local_publish_generation);
                let last = c1.local_publishers.is_empty();
                let c2 = if last {
                    ChannelView { local_publish_generation: g, ..c1 }
                } else {
                    c1
                };
                PubsubView {
                    channels: if is_fully_empty(c2) {
                        self.channels.remove(ch)
                    } else {
                        self.channels.insert(ch, c2)
                    },
                    local_publish_generation: if last {
                        g
                    } else {
                        self.local_publish_generation
                    },
                    outs: if last {
                        self.outs + to_subscribers(c, SubscriberEventView::PeerLeaved(PeerSrc::Local)) + seq![
                            ActionView::Broadcast(MessageView::PublisherLeaved(PubsubChannelId(ch), g)),
                        ]
                    } else {
                        self.outs
                    },
                    ..self
                }
            }
        }
    }

    /// The local subscriber `h` left channel `ch`; as
    /// `after_publisher_destroyed` with the roles swapped.
    pub open spec fn after_subscriber_destroyed(self, h: SubscriberHandleId, ch: u64) -> Self {
        if !self.channels.contains_key(ch) {
            self
        } else {
            let c = self.channels[ch];
            if !(c.local_subscribers.contains_key(h.owner) && c.local_subscribers[h.owner] == h.local_id.0) {
                self
            } else {
                let c1 = ChannelView { local_subscribers: c.local_subscribers.remove(h.owner), ..c };
                let g = bump(self.local_subscribe_generation);
                let last = c1.local_subscribers.is_empty();
                let c2 = if last {
                    ChannelView { local_subscribe_generation: g, ..c1 }
                } else {
                    c1
                };
                PubsubView {
                    channels: if is_fully_empty(c2) {
                        self.channels.remove(ch)
                    } else {
                        self.channels.insert(ch, c2)
                    },
                    local_subscribe_generation: if last {
                        g
                    } else {
                        self.local_subscribe_generation
                    },
                    outs: if last {
                        self.outs + to_publishers(c, PublisherEventView::PeerLeaved(PeerSrc::Local)) + seq![
                            ActionView::Broadcast(MessageView::SubscriberLeaved(PubsubChannelId(ch), g)),
                        ]
                    } else {
                        self.outs
                    },
                    ..self
                }
            }
        }
    }
}

fn next_generation(g: u64) -> (r: u64)
    ensures
        r == bump(g),
{
    if g == u64::MAX {
        g
    } else {
        g + 1
    }
}

impl<W> PubsubCore<W> {
    /// Takes channel `ch` out of the map, or a new one.
    fn take_channel(&mut self, ch: u64) -> (st: PubsubChannelState)
        ensures
            st@ == old(self)@.channel_or_empty(ch),
            final(self)@ == (PubsubView { channels: old(self)@.channels.remove(ch), ..old(self)@ }),
    {
        let ghost s0 = self@;
        let st = match self.channels.remove(&ch) {
            Some(st) => st,
            None => PubsubChannelState::default(),
        };
        assert(self@.channels =~= s0.channels.remove(ch));
        st
    }

    /// Puts channel `ch` back.
    fn put_channel(&mut self, ch: u64, st: PubsubChannelState)
        ensures
            final(self)@ == (PubsubView { channels: old(self)@.channels.insert(ch, st@), ..old(self)@ }),
    {
        let ghost s0 = self@;
        self.channels.insert(ch, st);
        assert(self@.channels =~= s0.channels.insert(ch, st@));
    }

    /// Queues the greeting of a new local publisher `h`.
    fn greet_publisher(&mut self, st: &PubsubChannelState, h: PublisherHandleId)
        ensures
            final(self)@ == (PubsubView { outs: old(self)@.outs + publisher_greeting(st@, h), ..old(self)@ }),
    {
        let ghost s0 = self@;
        if !st.local_subscribers.is_empty() {
            let mut to = Vec::new();
            to.push(h);
            assert(to@ =~= seq![h]);
            self.push_action(PubsubAction::ToPublishers(to, PublisherEvent::PeerJoined(PeerSrc::Local)));
        }
        let ghost lead = if st@.local_subscribers.is_empty() {
            seq![]
        } else {
            seq![ActionView::ToPublishers(seq![h], PublisherEventView::PeerJoined(PeerSrc::Local))]
        };
        assert(self@.outs =~= s0.outs + lead);
        let ghost f = |q: PeerId| ActionView::ToPublishers(seq![h], PublisherEventView::PeerJoined(PeerSrc::Remote(q)));
        let peers = active_list(&st.remote_subscribers);
        let mut i: usize = 0;
        while i < peers.len()
            invariant
                i <= peers@.len(),
                f == (|q: PeerId| ActionView::ToPublishers(seq![h], PublisherEventView::PeerJoined(PeerSrc::Remote(q)))),
                self@ == (PubsubView { outs: s0.outs + lead + peers@.take(i as int).map_values(f), ..s0 }),
            decreases peers@.len() - i,
        {
            let q = peers[i];
            let mut to = Vec::new();
            to.push(h);
            assert(to@ =~= seq![h]);
            self.push_action(PubsubAction::ToPublishers(to, PublisherEvent::PeerJoined(PeerSrc::Remote(q))));
            assert(peers@.take(i + 1).map_values(f) =~= peers@.take(i as int).map_values(f).push(f(q)));
            assert(self@.outs =~= s0.outs + lead + peers@.take(i + 1).map_values(f));
            i = i + 1;
        }
        assert(peers@.take(peers@.len() as int) =~= peers@);
        assert(self@.outs =~= s0.outs + publisher_greeting(st@, h));
    }

    /// Queues the greeting of a new local subscriber `h`.
    fn greet_subscriber(&mut self, st: &PubsubChannelState, h: SubscriberHandleId)
        ensures
            final(self)@ == (PubsubView { outs: old(self)@.outs + subscriber_greeting(st@, h), ..old(self)@ }),
    {
        let ghost s0 = self@;
        if !st.local_publishers.is_empty() {
            let mut to = Vec::new();
            to.push(h);
            assert(to@ =~= seq![h]);
            self.push_action(PubsubAction::ToSubscribers(to, SubscriberEvent::PeerJoined(PeerSrc::Local)));
        }
        let ghost lead = if st@.local_publishers.is_empty() {
            seq![]
        } else {
            seq![ActionView::ToSubscribers(seq![h], SubscriberEventView::PeerJoined(PeerSrc::Local))]
        };
        assert(self@.outs =~= s0.outs + lead);
        let ghost f = |q: PeerId| ActionView::ToSubscribers(seq![h], SubscriberEventView::PeerJoined(PeerSrc::Remote(q)));
        let peers = active_list(&st.remote_publishers);
        let mut i: usize = 0;
        while i < peers.len()
            invariant
                i <= peers@.len(),
                f == (|q: PeerId| ActionView::ToSubscribers(seq![h], SubscriberEventView::PeerJoined(PeerSrc::Remote(q)))),
                self@ == (PubsubView { outs: s0.outs + lead + peers@.take(i as int).map_values(f), ..s0 }),
            decreases peers@.len() - i,
        {
            let q = peers[i];
            let mut to = Vec::new();
            to.push(h);
            assert(to@ =~= seq![h]);
            self.push_action(PubsubAction::ToSubscribers(to, SubscriberEvent::PeerJoined(PeerSrc::Remote(q))));
            assert(peers@.take(i + 1).map_values(f) =~= peers@.take(i as int).map_values(f).push(f(q)));
            assert(self@.outs =~= s0.outs + lead + peers@.take(i + 1).map_values(f));
            i = i + 1;
        }
        assert(peers@.take(peers@.len() as int) =~= peers@);
        assert(self@.outs =~= s0.outs + subscriber_greeting(st@, h));
    }

    /// A local publisher `h` came to `channel`; see
    /// `PubsubView::after_publisher_created`.
    pub fn on_publisher_created(&mut self, h: PublisherHandleId, channel: PubsubChannelId)
        ensures
            final(self)@ == old(self)@.after_publisher_created(h, channel.0),
    {
        let ch = channel.0;
        let ghost s0 = self@;
        let mut st = self.take_channel(ch);
        let ghost c = st@;
        self.greet_publisher(&st, h);
        let ghost s1 = self@;
        let first = st.local_publishers.is_empty();
        if first {
            self.push_to_subscribers(&st, SubscriberEvent::PeerJoined(PeerSrc::Local));
        }
        st.local_publishers.insert(h.owner, h.local_id.0);
        let ghost c1 = ChannelView { local_publishers: c.local_publishers.insert(h.owner, h.local_id.0), ..c };
        assert(st@ =~= c1);
        if first {
            let g = next_generation(self.local_publish_generation);
            self.local_publish_generation = g;
            st.local_publish_generation = g;
            self.put_channel(ch, st);
            self.push_action(PubsubAction::Broadcast(PubsubMessage::PublisherJoined(channel, g)));
            assert(self@.outs =~= s0.outs + publisher_greeting(c, h) + to_subscribers(c, SubscriberEventView::PeerJoined(PeerSrc::Local))
                + seq![ActionView::Broadcast(MessageView::PublisherJoined(PubsubChannelId(ch), g))]);
            assert(self@.channels =~= s0.channels.insert(ch, ChannelView { local_publish_generation: g, ..c1 }));
        } else {
            self.put_channel(ch, st);
            assert(self@.channels =~= s0.channels.insert(ch, c1));
        }
    }

    /// A local subscriber `h` came to `channel`; see
    /// `PubsubView::after_subscriber_created`.
    pub fn on_subscriber_created(&mut self, h: SubscriberHandleId, channel: PubsubChannelId)
        ensures
            final(self)@ == old(self)@.after_subscriber_created(h, channel.0),
    {
        let ch = channel.0;
        let ghost s0 = self@;
        let mut st = self.take_channel(ch);
        let ghost c = st@;
        self.greet_subscriber(&st, h);
        let ghost s1 = self@;
        let first = st.local_subscribers.is_empty();
        if first {
            self.push_to_publishers(&st, PublisherEvent::PeerJoined(PeerSrc::Local));
        }
        st.local_subscribers.insert(h.owner, h.local_id.0);
        let ghost c1 = ChannelView { local_subscribers: c.local_subscribers.insert(h.owner, h.local_id.0), ..c };
        assert(st@ =~= c1);
        if first {
            let g = next_generation(self.local_subscribe_generation);
            self.local_subscribe_generation = g;
            st.local_subscribe_generation = g;
            self.put_channel(ch, st);
            self.push_action(PubsubAction::Broadcast(PubsubMessage::SubscriberJoined(channel, g)));
            assert(self@.outs =~= s0.outs + subscriber_greeting(c, h) + to_publishers(c, PublisherEventView::PeerJoined(PeerSrc::Local))
                + seq![ActionView::Broadcast(MessageView::SubscriberJoined(PubsubChannelId(ch), g))]);
            assert(self@.channels =~= s0.channels.insert(ch, ChannelView { local_subscribe_generation: g, ..c1 }));
        } else {
            self.put_channel(ch, st);
            assert(self@.channels =~= s0.channels.insert(ch, c1));
        }
    }

    /// The local publisher `h` left `channel`; see
    /// `PubsubView::after_publisher_destroyed`.
    pub fn on_publisher_destroyed(&mut self, h: PublisherHandleId, channel: PubsubChannelId)
        ensures
            final(self)@ == old(self)@.after_publisher_destroyed(h, channel.0),
    {
        let ch = channel.0;
        let ghost s0 = self@;
        let known = match self.channels.get(&ch) {
            Some(st) => match st.local_publishers.get(&h.owner) {
                Some(id) => *id == h.local_id.0,
                None => false,
            },
            None => false,
        };
        if !known {
            return ;
        }
        let mut st = self.take_channel(ch);
        let ghost c = st@;
        st.local_publishers.remove(&h.owner);
        let ghost c1 = ChannelView { local_publishers: c.local_publishers.remove(h.owner), ..c };
        assert(st@ =~= c1);
        let last = st.local_publishers.is_empty();
        if last {
            self.push_to_subscribers(&st, SubscriberEvent::PeerLeaved(PeerSrc::Local));
            let g = next_generation(self.local_publish_generation);
            self.local_publish_generation = g;
            st.local_publish_generation = g;
            self.push_action(PubsubAction::Broadcast(PubsubMessage::PublisherLeaved(channel, g)));
            assert(self@.outs =~= s0.outs + to_subscribers(c, SubscriberEventView::PeerLeaved(PeerSrc::Local)) + seq![
                ActionView::Broadcast(MessageView::PublisherLeaved(PubsubChannelId(ch), g)),
            ]);
        }
        if !st.is_fully_empty() {
            self.put_channel(ch, st);
            assert(self@.channels =~= s0.channels.insert(ch, st@));
        } else {
            assert(self@.channels =~= s0.channels.remove(ch));
        }
    }

    /// The local subscriber `h` left `channel`; see
    /// `PubsubView::after_subscriber_destroyed`.
    pub fn on_subscriber_destroyed(&mut self, h: SubscriberHandleId, channel: PubsubChannelId)
        ensures
            final(self)@ == old(self)@.after_subscriber_destroyed(h, channel.0),
    {
        let ch = channel.0;
        let ghost s0 = self@;
        let known = match self.channels.get(&ch) {
            Some(st) => match st.local_subscribers.get(&h.owner) {
                Some(id) => *id == h.local_id.0,
                None => false,
            },
            None => false,
        };
        if !known {
            return ;
        }
        let mut st = self.take_channel(ch);
        let ghost c = st@;
        st.local_subscribers.remove(&h.owner);
        let ghost c1 = ChannelView { local_subscribers: c.local_subscribers.remove(h.owner), ..c };
        assert(st@ =~= c1);
        let last = st.local_subscribers.is_empty();
        if last {
            self.push_to_publishers(&st, PublisherEvent::PeerLeaved(PeerSrc::Local));
            let g = next_generation(self.local_subscribe_generation);
            self.local_subscribe_generation = g;
            st.local_subscribe_generation = g;
            self.push_action(PubsubAction::Broadcast(PubsubMessage::SubscriberLeaved(channel, g)));
            assert(self@.outs =~= s0.outs + to_publishers(c, PublisherEventView::PeerLeaved(PeerSrc::Local)) + seq![
                ActionView::Broadcast(MessageView::SubscriberLeaved(PubsubChannelId(ch), g)),
            ]);
        }
        if !st.is_fully_empty() {
            self.put_channel(ch, st);
            assert(self@.channels =~= s0.channels.insert(ch, st@));
        } else {
            assert(self@.channels =~= s0.channels.remove(ch));
        }
    }
}

/// The message for these nodes, when there are any.
pub open spec fn to_peers(peers: Seq<PeerId>, m: MessageView) -> Seq<ActionView> {
    if peers.len() == 0 {
        seq![]
    } else {
        seq![ActionView::ToPeers(peers, m)]
    }
}

/// An RPC method name longer, in UTF-8 bytes as the machine counts them,
/// than the service accepts.
pub open spec fn method_too_long(m: Seq<char>) -> bool {
    vstd::utf8::encode_utf8(m).len() as usize > MAX_RPC_METHOD_LEN
}

pub open spec fn is_local_publisher(c: ChannelView, h: PublisherHandleId) -> bool {
    c.local_publishers.contains_key(h.owner) && c.local_publishers[h.owner] == h.local_id.0
}

pub open spec fn is_local_subscriber(c: ChannelView, h: SubscriberHandleId) -> bool {
    c.local_subscribers.contains_key(h.owner) && c.local_subscribers[h.owner] == h.local_id.0
}

impl<W> PubsubView<W> {
    pub open spec fn append(self, more: Seq<ActionView>) -> Self {
        PubsubView { outs: self.outs + more, ..self }
    }

    /// Data published on `ch` by a local guest: to the local subscribers
    /// and the active remote ones.
    pub open spec fn after_local_guest_publish(self, ch: u64, data: Seq<u8>) -> Self {
        if !self.channels.contains_key(ch) {
            self
        } else {
            let c = self.channels[ch];
            self.append(
                to_subscribers(c, SubscriberEventView::GuestPublish(data)) + to_peers(
                    active_peers(c.remote_subscribers),
                    MessageView::GuestPublish(PubsubChannelId(ch), data),
                ),
            )
        }
    }

    /// Data published on `ch` by the local publisher `h`, if it is one.
    pub open spec fn after_local_publish(self, h: PublisherHandleId, ch: u64, data: Seq<u8>) -> Self {
        if !self.channels.contains_key(ch) || !is_local_publisher(self.channels[ch], h) {
            self
        } else {
            let c = self.channels[ch];
            self.append(
                to_subscribers(c, SubscriberEventView::Publish(data)) + to_peers(
                    active_peers(c.remote_subscribers),
                    MessageView::Publish(PubsubChannelId(ch), data),
                ),
            )
        }
    }

    /// Feedback on `ch` by a local guest: to the local publishers and the
    /// active remote ones.
    pub open spec fn after_local_guest_feedback(self, ch: u64, data: Seq<u8>) -> Self {
        if !self.channels.contains_key(ch) {
            self
        } else {
            let c = self.channels[ch];
            self.append(
                to_publishers(c, PublisherEventView::GuestFeedback(data)) + to_peers(
                    active_peers(c.remote_publishers),
                    MessageView::GuestFeedback(PubsubChannelId(ch), data),
                ),
            )
        }
    }

    /// Feedback on `ch` by the local subscriber `h`, if it is one.
    pub open spec fn after_local_feedback(self, h: SubscriberHandleId, ch: u64, data: Seq<u8>) -> Self {
        if !self.channels.contains_key(ch) || !is_local_subscriber(self.channels[ch], h) {
            self
        } else {
            let c = self.channels[ch];
            self.append(
                to_publishers(c, PublisherEventView::Feedback(data)) + to_peers(
                    active_peers(c.remote_publishers),
                    MessageView::Feedback(PubsubChannelId(ch), data),
                ),
            )
        }
    }

    /// An event for the local subscribers of `ch`, if it is known.
    pub open spec fn tell_subscribers(self, ch: u64, e: SubscriberEventView) -> Self {
        if !self.channels.contains_key(ch) {
            self
        } else {
            self.append(to_subscribers(self.channels[ch], e))
        }
    }

    /// An event for the local publishers of `ch`, if it is known.
    pub open spec fn tell_publishers(self, ch: u64, e: PublisherEventView) -> Self {
        if !self.channels.contains_key(ch) {
            self
        } else {
            self.append(to_publishers(self.channels[ch], e))
        }
    }

    /// The first answer to publish question `id` from node `p`, if `p` was
    /// asked: the asker gets the data and the question is closed.
    pub open spec fn after_publish_answer_from(self, p: u64, id: u64, data: Seq<u8>) -> Self {
        if self.publish_reqs.contains_key(id) && self.publish_reqs[id].remote.contains(p) {
            PubsubView {
                publish_reqs: self.publish_reqs.remove(id),
                replies: self.replies.push((self.publish_reqs[id].waiter, Ok(data))),
                ..self
            }
        } else {
            self
        }
    }

    /// The first answer to feedback question `id` from node `p`, if `p`
    /// was asked.
    pub open spec fn after_feedback_answer_from(self, p: u64, id: u64, data: Seq<u8>) -> Self {
        if self.feedback_reqs.contains_key(id) && self.feedback_reqs[id].remote.contains(p) {
            PubsubView {
                feedback_reqs: self.feedback_reqs.remove(id),
                replies: self.replies.push((self.feedback_reqs[id].waiter, Ok(data))),
                ..self
            }
        } else {
            self
        }
    }

    /// A message from node `p`.  Data and questions reach the local
    /// handles of a known channel, those sent as a publisher or subscriber
    /// only when `p` holds that role there; questions with an overlong
    /// method name are dropped.
    pub open spec fn after_remote(self, p: u64, m: MessageView) -> Self {
        let from = PeerSrc::Remote(PeerId(p));
        match m {
            MessageView::PublisherJoined(c, g) => self.after_publisher_joined(p, c.0, g),
            MessageView::PublisherLeaved(c, g) => self.after_publisher_leaved(p, c.0, g),
            MessageView::SubscriberJoined(c, g) => self.after_subscriber_joined(p, c.0, g),
            MessageView::SubscriberLeaved(c, g) => self.after_subscriber_leaved(p, c.0, g),
            MessageView::Heartbeat(rows) => self.after_heartbeat(p, rows),
            MessageView::HeartbeatChunk(rows, is_last) => self.after_heartbeat_chunk(p, rows, is_last),
            MessageView::GuestPublish(c, d) => self.tell_subscribers(c.0, SubscriberEventView::GuestPublish(d)),
            MessageView::GuestPublishRpc(c, d, id, method) => if method_too_long(method) {
                self
            } else {
                self.tell_subscribers(c.0, SubscriberEventView::GuestPublishRpc(d, id, method, from))
            },
            MessageView::Publish(c, d) => if self.channels.contains_key(c.0) && !(
            self.channels[c.0].remote_publishers.contains_key(p) && self.channels[c.0].remote_publishers[p].active) {
                self
            } else {
                self.tell_subscribers(c.0, SubscriberEventView::Publish(d))
            },
            MessageView::PublishRpc(c, d, id, method) => if method_too_long(method) || (self.channels.contains_key(c.0)
                && !(self.channels[c.0].remote_publishers.contains_key(p)
                && self.channels[c.0].remote_publishers[p].active)) {
                self
            } else {
                self.tell_subscribers(c.0, SubscriberEventView::PublishRpc(d, id, method, from))
            },
            MessageView::PublishRpcAnswer(d, id) => self.after_publish_answer_from(p, id.0, d),
            MessageView::GuestFeedback(c, d) => self.tell_publishers(c.0, PublisherEventView::GuestFeedback(d)),
            MessageView::GuestFeedbackRpc(c, d, id, method) => if method_too_long(method) {
                self
            } else {
                self.tell_publishers(c.0, PublisherEventView::GuestFeedbackRpc(d, id, method, from))
            },
            MessageView::Feedback(c, d) => if self.channels.contains_key(c.0) && !(
            self.channels[c.0].remote_subscribers.contains_key(p) && self.channels[c.0].remote_subscribers[p].active) {
                self
            } else {
                self.tell_publishers(c.0, PublisherEventView::Feedback(d))
            },
            MessageView::FeedbackRpc(c, d, id, method) => if method_too_long(method) || (self.channels.contains_key(
                c.0,
            ) && !(self.channels[c.0].remote_subscribers.contains_key(p)
                && self.channels[c.0].remote_subscribers[p].active)) {
                self
            } else {
                self.tell_publishers(c.0, PublisherEventView::FeedbackRpc(d, id, method, from))
            },
            MessageView::FeedbackRpcAnswer(d, id) => self.after_feedback_answer_from(p, id.0, d),
        }
    }
}

/// A copy of `data`.
fn copy_bytes(data: &Vec<u8>) -> (r: Vec<u8>)
    ensures
        r@ == data@,
{
    let r = data.clone();
    assert(r@ =~= data@);
    r
}

/// Whether `method` is longer, in UTF-8 bytes, than the service accepts.
fn method_is_too_long(method: &String) -> (r: bool)
    ensures
        r == method_too_long(method@),
{
    let m = method.as_str();
    m.len() > MAX_RPC_METHOD_LEN
}

impl<W> PubsubCore<W> {
    /// Queues the message for `peers`, when there are any.
    fn push_to_peers(&mut self, peers: Vec<PeerId>, m: PubsubMessage)
        ensures
            final(self)@ == old(self)@.append(to_peers(peers@, m@)),
    {
        if peers.len() > 0 {
            self.push_action(PubsubAction::ToPeers(peers, m));
            assert(self@.outs =~= old(self)@.outs + to_peers(peers@, m@));
        } else {
            assert(old(self)@.outs + to_peers(peers@, m@) =~= old(self)@.outs);
        }
    }

    /// Queues an event for the local subscribers of `channel`, if known.
    fn tell_subscribers(&mut self, ch: u64, e: SubscriberEvent)
        ensures
            final(self)@ == old(self)@.tell_subscribers(ch, e@),
    {
        let ghost s0 = self@;
        match self.channels.get(&ch) {
            Some(st) => {
                if !st.local_subscribers.is_empty() {
                    let handles = subscriber_list(&st.local_subscribers);
                    self.push_action(PubsubAction::ToSubscribers(handles, e));
                    assert(self@.outs =~= s0.outs + to_subscribers(s0.channels[ch], e@));
                } else {
                    assert(s0.outs + to_subscribers(s0.channels[ch], e@) =~= s0.outs);
                }
            },
            None => {},
        }
    }

    /// Queues an event for the local publishers of `channel`, if known.
    fn tell_publishers(&mut self, ch: u64, e: PublisherEvent)
        ensures
            final(self)@ == old(self)@.tell_publishers(ch, e@),
    {
        let ghost s0 = self@;
        match self.channels.get(&ch) {
            Some(st) => {
                if !st.local_publishers.is_empty() {
                    let handles = publisher_list(&st.local_publishers);
                    self.push_action(PubsubAction::ToPublishers(handles, e));
                    assert(self@.outs =~= s0.outs + to_publishers(s0.channels[ch], e@));
                } else {
                    assert(s0.outs + to_publishers(s0.channels[ch], e@) =~= s0.outs);
                }
            },
            None => {},
        }
    }

    /// Data published on `channel` by a local guest; see
    /// `PubsubView::after_local_guest_publish`.
    pub fn on_local_guest_publish(&mut self, channel: PubsubChannelId, data: Vec<u8>)
        ensures
            final(self)@ == old(self)@.after_local_guest_publish(channel.0, data@),
    {
        let ch = channel.0;
        let peers = match self.channels.get(&ch) {
            Some(st) => active_list(&st.remote_subscribers),
            None => {
                return ;
            },
        };
        let ghost s0 = self@;
        assert(peers@ == active_peers(s0.channels[ch].remote_subscribers));
        self.tell_subscribers(ch, SubscriberEvent::GuestPublish(copy_bytes(&data)));
        self.push_to_peers(peers, PubsubMessage::GuestPublish(channel, data));
        assert(self@.outs =~= s0.outs + (to_subscribers(s0.channels[ch], SubscriberEventView::GuestPublish(data@))
            + to_peers(active_peers(s0.channels[ch].remote_subscribers), MessageView::GuestPublish(channel, data@))));
    }

    /// Data published on `channel` by the local publisher `h`; see
    /// `PubsubView::after_local_publish`.
    pub fn on_local_publish(&mut self, h: PublisherHandleId, channel: PubsubChannelId, data: Vec<u8>)
        ensures
            final(self)@ == old(self)@.after_local_publish(h, channel.0, data@),
    {
        let ch = channel.0;
        let peers = match self.channels.get(&ch) {
            Some(st) => {
                let known = match st.local_publishers.get(&h.owner) {
                    Some(id) => *id == h.local_id.0,
                    None => false,
                };
                if !known {
                    return ;
                }
                active_list(&st.remote_subscribers)
            },
            None => {
                return ;
            },
        };
        let ghost s0 = self@;
        self.tell_subscribers(ch, SubscriberEvent::Publish(copy_bytes(&data)));
        self.push_to_peers(peers, PubsubMessage::Publish(channel, data));
        assert(self@.outs =~= s0.outs + (to_subscribers(s0.channels[ch], SubscriberEventView::Publish(data@))
            + to_peers(active_peers(s0.channels[ch].remote_subscribers), MessageView::Publish(channel, data@))));
    }

    /// Feedback on `channel` by a local guest; see
    /// `PubsubView::after_local_guest_feedback`.
    pub fn on_local_guest_feedback(&mut self, channel: PubsubChannelId, data: Vec<u8>)
        ensures
            final(self)@ == old(self)@.after_local_guest_feedback(channel.0, data@),
    {
        let ch = channel.0;
        let peers = match self.channels.get(&ch) {
            Some(st) => active_list(&st.remote_publishers),
            None => {
                return ;
            },
        };
        let ghost s0 = self@;
        self.tell_publishers(ch, PublisherEvent::GuestFeedback(copy_bytes(&data)));
        self.push_to_peers(peers, PubsubMessage::GuestFeedback(channel, data));
        assert(self@.outs =~= s0.outs + (to_publishers(s0.channels[ch], PublisherEventView::GuestFeedback(data@))
            + to_peers(active_peers(s0.channels[ch].remote_publishers), MessageView::GuestFeedback(channel, data@))));
    }

    /// Feedback on `channel` by the local subscriber `h`; see
    /// `PubsubView::after_local_feedback`.
    pub fn on_local_feedback(&mut self, h: SubscriberHandleId, channel: PubsubChannelId, data: Vec<u8>)
        ensures
            final(self)@ == old(self)@.after_local_feedback(h, channel.0, data@),
    {
        let ch = channel.0;
        let peers = match self.channels.get(&ch) {
            Some(st) => {
                let known = match st.local_subscribers.get(&h.owner) {
                    Some(id) => *id == h.local_id.0,
                    None => false,
                };
                if !known {
                    return ;
                }
                active_list(&st.remote_publishers)
            },
            None => {
                return ;
            },
        };
        let ghost s0 = self@;
        self.tell_publishers(ch, PublisherEvent::Feedback(copy_bytes(&data)));
        self.push_to_peers(peers, PubsubMessage::Feedback(channel, data));
        assert(self@.outs =~= s0.outs + (to_publishers(s0.channels[ch], PublisherEventView::Feedback(data@))
            + to_peers(active_peers(s0.channels[ch].remote_publishers), MessageView::Feedback(channel, data@))));
    }

    /// An answer from `from` to publish question `id`; see
    /// `PubsubView::after_publish_answer_from`.
    fn on_publish_answer_from(&mut self, from: u64, id: RpcId, data: Vec<u8>)
        ensures
            final(self)@ == old(self)@.after_publish_answer_from(from, id.0, data@),
    {
        let ghost s0 = self@;
        let expected = match self.publish_rpc_reqs.get(&id.0) {
            Some(req) => req.remote.contains(&from),
            None => false,
        };
        if expected {
            let req = self.publish_rpc_reqs.remove(&id.0).unwrap();
            self.replies.push_back((req.waiter, Ok(data)));
            assert(self@.publish_reqs =~= s0.publish_reqs.remove(id.0));
            assert(self@.replies =~= s0.replies.push((s0.publish_reqs[id.0].waiter, Ok(data@))));
        }
    }

    /// An answer from `from` to feedback question `id`; see
    /// `PubsubView::after_feedback_answer_from`.
    fn on_feedback_answer_from(&mut self, from: u64, id: RpcId, data: Vec<u8>)
        ensures
            final(self)@ == old(self)@.after_feedback_answer_from(from, id.0, data@),
    {
        let ghost s0 = self@;
        let expected = match self.feedback_rpc_reqs.get(&id.0) {
            Some(req) => req.remote.contains(&from),
            None => false,
        };
        if expected {
            let req = self.feedback_rpc_reqs.remove(&id.0).unwrap();
            self.replies.push_back((req.waiter, Ok(data)));
            assert(self@.feedback_reqs =~= s0.feedback_reqs.remove(id.0));
            assert(self@.replies =~= s0.replies.push((s0.feedback_reqs[id.0].waiter, Ok(data@))));
        }
    }

    /// A message from node `from`; see `PubsubView::after_remote`.
    pub fn on_remote_message(&mut self, from: PeerId, msg: PubsubMessage)
        ensures
            final(self)@ == old(self)@.after_remote(from.0, msg@),
    {
        let p = from.0;
        let src = PeerSrc::Remote(from);
        match msg {
            PubsubMessage::PublisherJoined(c, g) => self.on_publisher_joined(from, c, g),
            PubsubMessage::PublisherLeaved(c, g) => self.on_publisher_leaved(from, c, g),
            PubsubMessage::SubscriberJoined(c, g) => self.on_subscriber_joined(from, c, g),
            PubsubMessage::SubscriberLeaved(c, g) => self.on_subscriber_leaved(from, c, g),
            PubsubMessage::Heartbeat(rows) => self.on_heartbeat(from, rows),
            PubsubMessage::HeartbeatChunk { channels, is_last } => self.on_heartbeat_chunk(from, channels, is_last),
            PubsubMessage::GuestPublish(c, d) => self.tell_subscribers(c.0, SubscriberEvent::GuestPublish(d)),
            PubsubMessage::GuestPublishRpc(c, d, id, method) => {
                if !method_is_too_long(&method) {
                    self.tell_subscribers(c.0, SubscriberEvent::GuestPublishRpc(d, id, method, src));
                }
            },
            PubsubMessage::Publish(c, d) => {
                let allowed = match self.channels.get(&c.0) {
                    Some(st) => st.has_remote_publisher(from),
                    None => true,
                };
                if allowed {
                    self.tell_subscribers(c.0, SubscriberEvent::Publish(d));
                }
            },
            PubsubMessage::PublishRpc(c, d, id, method) => {
                let allowed = !method_is_too_long(&method) && match self.channels.get(&c.0) {
                    Some(st) => st.has_remote_publisher(from),
                    None => true,
                };
                if allowed {
                    self.tell_subscribers(c.0, SubscriberEvent::PublishRpc(d, id, method, src));
                }
            },
            PubsubMessage::PublishRpcAnswer(d, id) => self.on_publish_answer_from(p, id, d),
            PubsubMessage::GuestFeedback(c, d) => self.tell_publishers(c.0, PublisherEvent::GuestFeedback(d)),
            PubsubMessage::GuestFeedbackRpc(c, d, id, method) => {
                if !method_is_too_long(&method) {
                    self.tell_publishers(c.0, PublisherEvent::GuestFeedbackRpc(d, id, method, src));
                }
            },
            PubsubMessage::Feedback(c, d) => {
                let allowed = match self.channels.get(&c.0) {
                    Some(st) => st.has_remote_subscriber(from),
                    None => true,
                };
                if allowed {
                    self.tell_publishers(c.0, PublisherEvent::Feedback(d));
                }
            },
            PubsubMessage::FeedbackRpc(c, d, id, method) => {
                let allowed = !method_is_too_long(&method) && match self.channels.get(&c.0) {
                    Some(st) => st.has_remote_subscriber(from),
                    None => true,
                };
                if allowed {
                    self.tell_publishers(c.0, PublisherEvent::FeedbackRpc(d, id, method, src));
                }
            },
            PubsubMessage::FeedbackRpcAnswer(d, id) => self.on_feedback_answer_from(p, id, d),
        }
    }
}

/// Where a question goes: the local handles and the remote nodes.
pub open spec fn publish_plan<W>(s: PubsubView<W>, asker: Option<PublisherHandleId>, ch: u64) -> Result<
    (Seq<SubscriberHandleId>, Seq<PeerId>),
    PubsubRpcError,
> {
    if !s.channels.contains_key(ch) {
        Err(PubsubRpcError::NoDestination)
    } else {
        let c = s.channels[ch];
        if (match asker {
            Some(h) => !is_local_publisher(c, h),
            None => false,
        }) {
            Err(PubsubRpcError::NoDestination)
        } else if c.local_subscribers.is_empty() && !has_active(c.remote_subscribers) {
            Err(PubsubRpcError::NoDestination)
        } else if s.publish_reqs.len() >= MAX_PENDING_RPC_REQUESTS {
            Err(PubsubRpcError::TooManyPendingRequests)
        } else {
            Ok((subscriber_handles(c.local_subscribers), active_peers(c.remote_subscribers)))
        }
    }
}

pub open spec fn feedback_plan<W>(s: PubsubView<W>, asker: Option<SubscriberHandleId>, ch: u64) -> Result<
    (Seq<PublisherHandleId>, Seq<PeerId>),
    PubsubRpcError,
> {
    if !s.channels.contains_key(ch) {
        Err(PubsubRpcError::NoDestination)
    } else {
        let c = s.channels[ch];
        if (match asker {
            Some(h) => !is_local_subscriber(c, h),
            None => false,
        }) {
            Err(PubsubRpcError::NoDestination)
        } else if c.local_publishers.is_empty() && !has_active(c.remote_publishers) {
            Err(PubsubRpcError::NoDestination)
        } else if s.feedback_reqs.len() >= MAX_PENDING_RPC_REQUESTS {
            Err(PubsubRpcError::TooManyPendingRequests)
        } else {
            Ok((publisher_handles(c.local_publishers), active_peers(c.remote_publishers)))
        }
    }
}

/// A question that reached `local` (as (owner, id)) and `remote`, asked
/// at `started` with `timeout` milliseconds to wait.
pub open spec fn new_request<W>(local: Seq<(u64, u64)>, remote: Seq<PeerId>, started: u64, timeout: u64, waiter: W) -> RequestView<W> {
    RequestView {
        started_at_ms: started,
        timeout_ms: timeout,
        remote: remote.map_values(|q: PeerId| q.0).to_set(),
        local,
        waiter,
    }
}

pub open spec fn subscriber_pairs(hs: Seq<SubscriberHandleId>) -> Seq<(u64, u64)> {
    hs.map_values(|h: SubscriberHandleId| (h.owner, h.local_id.0))
}

pub open spec fn publisher_pairs(hs: Seq<PublisherHandleId>) -> Seq<(u64, u64)> {
    hs.map_values(|h: PublisherHandleId| (h.owner, h.local_id.0))
}

/// Whether a question asked at `started`, allowed `timeout` milliseconds,
/// has run out at `now`; a clock that went back counts no time.
pub open spec fn expired(started: u64, timeout: u64, now: u64) -> bool {
    if now >= started {
        now - started >= timeout
    } else {
        timeout == 0
    }
}

/// The questions of `reqs` with ids in `keys`, in turn, closed with a
/// time-out answer when run out at `now`.
pub open spec fn expire_in<W>(
    reqs: Map<u64, RequestView<W>>,
    replies: Seq<(W, Result<Seq<u8>, PubsubRpcError>)>,
    keys: Seq<u64>,
    now: u64,
) -> (Map<u64, RequestView<W>>, Seq<(W, Result<Seq<u8>, PubsubRpcError>)>)
    decreases keys.len(),
{
    if keys.len() == 0 {
        (reqs, replies)
    } else {
        let (r, out) = expire_in(reqs, replies, keys.drop_last(), now);
        let k = keys.last();
        if r.contains_key(k) && expired(r[k].started_at_ms, r[k].timeout_ms, now) {
            (r.remove(k), out.push((r[k].waiter, Err(PubsubRpcError::Timeout))))
        } else {
            (r, out)
        }
    }
}

impl<W> PubsubView<W> {
    /// A publish question was sent: with no one reached its asker hears
    /// there is no destination; else it waits under `id`.
    pub open spec fn after_publish_rpc_sent(
        self,
        id: u64,
        local: Seq<SubscriberHandleId>,
        remote: Seq<PeerId>,
        started: u64,
        timeout: u64,
        waiter: W,
    ) -> Self {
        if local.len() == 0 && remote.len() == 0 {
            PubsubView { replies: self.replies.push((waiter, Err(PubsubRpcError::NoDestination))), ..self }
        } else {
            PubsubView {
                publish_reqs: self.publish_reqs.insert(
                    id,
                    new_request(subscriber_pairs(local), remote, started, timeout, waiter),
                ),
                ..self
            }
        }
    }

    pub open spec fn after_feedback_rpc_sent(
        self,
        id: u64,
        local: Seq<PublisherHandleId>,
        remote: Seq<PeerId>,
        started: u64,
        timeout: u64,
        waiter: W,
    ) -> Self {
        if local.len() == 0 && remote.len() == 0 {
            PubsubView { replies: self.replies.push((waiter, Err(PubsubRpcError::NoDestination))), ..self }
        } else {
            PubsubView {
                feedback_reqs: self.feedback_reqs.insert(
                    id,
                    new_request(publisher_pairs(local), remote, started, timeout, waiter),
                ),
                ..self
            }
        }
    }

    /// The local subscriber `h` answered publish question `id`: an answer
    /// for another node is sent there; one for this node settles the
    /// question if `h` was asked.
    pub open spec fn after_local_publish_answer(self, h: SubscriberHandleId, id: u64, to: PeerSrc, data: Seq<u8>) -> Self {
        match to {
            PeerSrc::Remote(q) => self.push(ActionView::ToPeers(seq![q], MessageView::PublishRpcAnswer(data, RpcId(id)))),
            PeerSrc::Local => if self.publish_reqs.contains_key(id) && self.publish_reqs[id].local.contains(
                (h.owner, h.local_id.0),
            ) {
                PubsubView {
                    publish_reqs: self.publish_reqs.remove(id),
                    replies: self.replies.push((self.publish_reqs[id].waiter, Ok(data))),
                    ..self
                }
            } else {
                self
            },
        }
    }

    /// The local publisher `h` answered feedback question `id`.
    pub open spec fn after_local_feedback_answer(self, h: PublisherHandleId, id: u64, to: PeerSrc, data: Seq<u8>) -> Self {
        match to {
            PeerSrc::Remote(q) => self.push(ActionView::ToPeers(seq![q], MessageView::FeedbackRpcAnswer(data, RpcId(id)))),
            PeerSrc::Local => if self.feedback_reqs.contains_key(id) && self.feedback_reqs[id].local.contains(
                (h.owner, h.local_id.0),
            ) {
                PubsubView {
                    feedback_reqs: self.feedback_reqs.remove(id),
                    replies: self.replies.push((self.feedback_reqs[id].waiter, Ok(data))),
                    ..self
                }
            } else {
                self
            },
        }
    }

    /// The questions run out at `now` are closed with a time-out answer,
    /// publish ones first, each kind in id order.
    pub open spec fn after_rpc_timeout(self, now: u64) -> Self {
        let (p, r1) = expire_in(self.publish_reqs, self.replies, sorted_keys(self.publish_reqs.dom()), now);
        let (f, r2) = expire_in(self.feedback_reqs, r1, sorted_keys(self.feedback_reqs.dom()), now);
        PubsubView { publish_reqs: p, feedback_reqs: f, replies: r2, ..self }
    }
}

/// Whether `pairs` holds `(owner, id)`.
fn has_pair(pairs: &Vec<(u64, u64)>, owner: u64, id: u64) -> (r: bool)
    ensures
        r == pairs@.contains((owner, id)),
{
    let mut i: usize = 0;
    while i < pairs.len()
        invariant
            i <= pairs@.len(),
            forall|j: int| 0 <= j < i ==> pairs@[j] != (owner, id),
        decreases pairs@.len() - i,
    {
        let (a, b) = pairs[i];
        if a == owner && b == id {
            assert(pairs@[i as int] == (owner, id));
            return true;
        }
        i = i + 1;
    }
    false
}

/// The nodes of `peers` as a set of numbers.
fn peer_set(peers: &Vec<PeerId>) -> (r: BTreeSet<u64>)
    ensures
        r@ == peers@.map_values(|q: PeerId| q.0).to_set(),
{
    let ghost f = |q: PeerId| q.0;
    let mut r: BTreeSet<u64> = BTreeSet::new();
    let mut i: usize = 0;
    while i < peers.len()
        invariant
            i <= peers@.len(),
            f == (|q: PeerId| q.0),
            r@ == peers@.take(i as int).map_values(f).to_set(),
        decreases peers@.len() - i,
    {
        let q = peers[i].0;
        r.insert(q);
        proof {
            assert(peers@.take(i + 1).map_values(f) =~= peers@.take(i as int).map_values(f).push(q));
            peers@.take(i as int).map_values(f).lemma_push_to_set_commute(q);
        }
        i = i + 1;
    }
    proof {
        assert(peers@.take(peers@.len() as int) =~= peers@);
        assert(r@ =~= peers@.map_values(f).to_set());
    }
    r
}

/// Closes the questions of `reqs` run out at `now`, in id order.
fn expire_requests<W>(
    reqs: &mut BTreeMap<u64, RpcRequest<W>>,
    replies: &mut VecDeque<(W, Result<Vec<u8>, PubsubRpcError>)>,
    now: u64,
)
    ensures
        (request_views(final(reqs)@), reply_views(final(replies)@)) == expire_in(
            request_views(old(reqs)@),
            reply_views(old(replies)@),
            sorted_keys(old(reqs)@.dom()),
            now,
        ),
{
    let ghost m0 = request_views(reqs@);
    let ghost o0 = reply_views(replies@);
    let keys = keys_in_order(reqs);
    let mut i: usize = 0;
    while i < keys.len()
        invariant
            i <= keys@.len(),
            keys@ == sorted_keys(old(reqs)@.dom()),
            m0 == request_views(old(reqs)@),
            o0 == reply_views(old(replies)@),
            (request_views(reqs@), reply_views(replies@)) == expire_in(m0, o0, keys@.take(i as int), now),
        decreases keys@.len() - i,
    {
        let k = keys[i];
        let ghost before_r = request_views(reqs@);
        let ghost before_o = reply_views(replies@);
        proof {
            assert(keys@.take(i + 1).drop_last() =~= keys@.take(i as int));
        }
        let run_out = match reqs.get(&k) {
            Some(r) => if now >= r.started_at_ms {
                now - r.started_at_ms >= r.timeout_ms
            } else {
                r.timeout_ms == 0
            },
            None => false,
        };
        if run_out {
            let r = reqs.remove(&k).unwrap();
            replies.push_back((r.waiter, Err(PubsubRpcError::Timeout)));
            assert(request_views(reqs@) =~= before_r.remove(k));
            assert(reply_views(replies@) =~= before_o.push((before_r[k].waiter, Err(PubsubRpcError::Timeout))));
        }
        i = i + 1;
    }
    assert(keys@.take(keys@.len() as int) =~= keys@);
}

impl<W> PubsubCore<W> {
    /// Starts a publish question on `channel`, by the local publisher
    /// `asker` or by a guest: when it cannot be asked (unknown channel,
    /// `asker` not publishing there, no subscriber, too many open), its
    /// asker hears why; else the local subscribers and remote nodes to ask
    /// are returned with the asker.
    pub fn begin_publish_rpc(&mut self, asker: Option<PublisherHandleId>, channel: PubsubChannelId, waiter: W) -> (r:
        Option<(Vec<SubscriberHandleId>, Vec<PeerId>, W)>)
        ensures
            match publish_plan(old(self)@, asker, channel.0) {
                Ok((l, rm)) => r matches Some((lv, rv, w)) && lv@ == l && rv@ == rm && w == waiter && final(self)@
                    == old(self)@,
                Err(e) => r is None && final(self)@ == (PubsubView {
                    replies: old(self)@.replies.push((waiter, Err(e))),
                    ..old(self)@
                }),
            },
    {
        let ghost s0 = self@;
        let ch = channel.0;
        let plan = match self.channels.get(&ch) {
            None => Err(PubsubRpcError::NoDestination),
            Some(st) => {
                let not_asker = match asker {
                    Some(h) => match st.local_publishers.get(&h.owner) {
                        Some(id) => *id != h.local_id.0,
                        None => true,
                    },
                    None => false,
                };
                if not_asker {
                    Err(PubsubRpcError::NoDestination)
                } else if st.local_subscribers.is_empty() && !st.has_active_remote_subscribers() {
                    Err(PubsubRpcError::NoDestination)
                } else if self.publish_rpc_reqs.len() >= MAX_PENDING_RPC_REQUESTS {
                    Err(PubsubRpcError::TooManyPendingRequests)
                } else {
                    Ok((subscriber_list(&st.local_subscribers), active_list(&st.remote_subscribers)))
                }
            },
        };
        assert(self.publish_rpc_reqs@.dom() =~= s0.publish_reqs.dom());
        match plan {
            Ok((l, rm)) => Some((l, rm, waiter)),
            Err(e) => {
                self.replies.push_back((waiter, Err(e)));
                assert(self@.replies =~= s0.replies.push((waiter, Err(e))));
                None
            },
        }
    }

    /// Starts a feedback question on `channel`, by the local subscriber
    /// `asker` or by a guest; as `begin_publish_rpc` with the roles
    /// swapped.
    pub fn begin_feedback_rpc(&mut self, asker: Option<SubscriberHandleId>, channel: PubsubChannelId, waiter: W) -> (r:
        Option<(Vec<PublisherHandleId>, Vec<PeerId>, W)>)
        ensures
            match feedback_plan(old(self)@, asker, channel.0) {
                Ok((l, rm)) => r matches Some((lv, rv, w)) && lv@ == l && rv@ == rm && w == waiter && final(self)@
                    == old(self)@,
                Err(e) => r is None && final(self)@ == (PubsubView {
                    replies: old(self)@.replies.push((waiter, Err(e))),
                    ..old(self)@
                }),
            },
    {
        let ghost s0 = self@;
        let ch = channel.0;
        let plan = match self.channels.get(&ch) {
            None => Err(PubsubRpcError::NoDestination),
            Some(st) => {
                let not_asker = match asker {
                    Some(h) => match st.local_subscribers.get(&h.owner) {
                        Some(id) => *id != h.local_id.0,
                        None => true,
                    },
                    None => false,
                };
                if not_asker {
                    Err(PubsubRpcError::NoDestination)
                } else if st.local_publishers.is_empty() && !st.has_active_remote_publishers() {
                    Err(PubsubRpcError::NoDestination)
                } else if self.feedback_rpc_reqs.len() >= MAX_PENDING_RPC_REQUESTS {
                    Err(PubsubRpcError::TooManyPendingRequests)
                } else {
                    Ok((publisher_list(&st.local_publishers), active_list(&st.remote_publishers)))
                }
            },
        };
        assert(self.feedback_rpc_reqs@.dom() =~= s0.feedback_reqs.dom());
        match plan {
            Ok((l, rm)) => Some((l, rm, waiter)),
            Err(e) => {
                self.replies.push_back((waiter, Err(e)));
                assert(self@.replies =~= s0.replies.push((waiter, Err(e))));
                None
            },
        }
    }

    /// A publish question went out and reached the local subscribers
    /// `local` and the nodes `remote`; see
    /// `PubsubView::after_publish_rpc_sent`.
    pub fn register_publish_rpc(
        &mut self,
        id: RpcId,
        local: Vec<SubscriberHandleId>,
        remote: Vec<PeerId>,
        started_at_ms: u64,
        timeout_ms: u64,
        waiter: W,
    )
        requires
            old(self)@.publish_reqs.len() < MAX_PENDING_RPC_REQUESTS,
        ensures
            final(self)@ == old(self)@.after_publish_rpc_sent(id.0, local@, remote@, started_at_ms, timeout_ms, waiter),
    {
        let ghost s0 = self@;
        if local.len() == 0 && remote.len() == 0 {
            self.replies.push_back((waiter, Err(PubsubRpcError::NoDestination)));
            assert(self@.replies =~= s0.replies.push((waiter, Err(PubsubRpcError::NoDestination))));
            return ;
        }
        let ghost f = |h: SubscriberHandleId| (h.owner, h.local_id.0);
        let mut pairs: Vec<(u64, u64)> = Vec::new();
        let mut i: usize = 0;
        while i < local.len()
            invariant
                i <= local@.len(),
                f == (|h: SubscriberHandleId| (h.owner, h.local_id.0)),
                pairs@ == local@.take(i as int).map_values(f),
            decreases local@.len() - i,
        {
            let h = local[i];
            pairs.push((h.owner, h.local_id.0));
            assert(local@.take(i + 1).map_values(f) =~= local@.take(i as int).map_values(f).push(f(h)));
            i = i + 1;
        }
        assert(local@.take(local@.len() as int) =~= local@);
        let req = RpcRequest { started_at_ms, timeout_ms, remote: peer_set(&remote), local: pairs, waiter };
        self.publish_rpc_reqs.insert(id.0, req);
        assert(self@.publish_reqs =~= s0.publish_reqs.insert(
            id.0,
            new_request(subscriber_pairs(local@), remote@, started_at_ms, timeout_ms, waiter),
        ));
    }

    /// A feedback question went out and reached the local publishers
    /// `local` and the nodes `remote`; see
    /// `PubsubView::after_feedback_rpc_sent`.
    pub fn register_feedback_rpc(
        &mut self,
        id: RpcId,
        local: Vec<PublisherHandleId>,
        remote: Vec<PeerId>,
        started_at_ms: u64,
        timeout_ms: u64,
        waiter: W,
    )
        requires
            old(self)@.feedback_reqs.len() < MAX_PENDING_RPC_REQUESTS,
        ensures
            final(self)@ == old(self)@.after_feedback_rpc_sent(id.0, local@, remote@, started_at_ms, timeout_ms, waiter),
    {
        let ghost s0 = self@;
        if local.len() == 0 && remote.len() == 0 {
            self.replies.push_back((waiter, Err(PubsubRpcError::NoDestination)));
            assert(self@.replies =~= s0.replies.push((waiter, Err(PubsubRpcError::NoDestination))));
            return ;
        }
        let ghost f = |h: PublisherHandleId| (h.owner, h.local_id.0);
        let mut pairs: Vec<(u64, u64)> = Vec::new();
        let mut i: usize = 0;
        while i < local.len()
            invariant
                i <= local@.len(),
                f == (|h: PublisherHandleId| (h.owner, h.local_id.0)),
                pairs@ == local@.take(i as int).map_values(f),
            decreases local@.len() - i,
        {
            let h = local[i];
            pairs.push((h.owner, h.local_id.0));
            assert(local@.take(i + 1).map_values(f) =~= local@.take(i as int).map_values(f).push(f(h)));
            i = i + 1;
        }
        assert(local@.take(local@.len() as int) =~= local@);
        let req = RpcRequest { started_at_ms, timeout_ms, remote: peer_set(&remote), local: pairs, waiter };
        self.feedback_rpc_reqs.insert(id.0, req);
        assert(self@.feedback_reqs =~= s0.feedback_reqs.insert(
            id.0,
            new_request(publisher_pairs(local@), remote@, started_at_ms, timeout_ms, waiter),
        ));
    }

    /// The local subscriber `h` answered publish question `id`; see
    /// `PubsubView::after_local_publish_answer`.
    pub fn on_local_publish_answer(&mut self, h: SubscriberHandleId, id: RpcId, to: PeerSrc, data: Vec<u8>)
        ensures
            final(self)@ == old(self)@.after_local_publish_answer(h, id.0, to, data@),
    {
        let ghost s0 = self@;
        match to {
            PeerSrc::Remote(q) => {
                let mut dest = Vec::new();
                dest.push(q);
                assert(dest@ =~= seq![q]);
                self.push_action(PubsubAction::ToPeers(dest, PubsubMessage::PublishRpcAnswer(data, id)));
            },
            PeerSrc::Local => {
                let asked = match self.publish_rpc_reqs.get(&id.0) {
                    Some(req) => has_pair(&req.local, h.owner, h.local_id.0),
                    None => false,
                };
                if asked {
                    let req = self.publish_rpc_reqs.remove(&id.0).unwrap();
                    self.replies.push_back((req.waiter, Ok(data)));
                    assert(self@.publish_reqs =~= s0.publish_reqs.remove(id.0));
                    assert(self@.replies =~= s0.replies.push((s0.publish_reqs[id.0].waiter, Ok(data@))));
                }
            },
        }
    }

    /// The local publisher `h` answered feedback question `id`; see
    /// `PubsubView::after_local_feedback_answer`.
    pub fn on_local_feedback_answer(&mut self, h: PublisherHandleId, id: RpcId, to: PeerSrc, data: Vec<u8>)
        ensures
            final(self)@ == old(self)@.after_local_feedback_answer(h, id.0, to, data@),
    {
        let ghost s0 = self@;
        match to {
            PeerSrc::Remote(q) => {
                let mut dest = Vec::new();
                dest.push(q);
                assert(dest@ =~= seq![q]);
                self.push_action(PubsubAction::ToPeers(dest, PubsubMessage::FeedbackRpcAnswer(data, id)));
            },
            PeerSrc::Local => {
                let asked = match self.feedback_rpc_reqs.get(&id.0) {
                    Some(req) => has_pair(&req.local, h.owner, h.local_id.0),
                    None => false,
                };
                if asked {
                    let req = self.feedback_rpc_reqs.remove(&id.0).unwrap();
                    self.replies.push_back((req.waiter, Ok(data)));
                    assert(self@.feedback_reqs =~= s0.feedback_reqs.remove(id.0));
                    assert(self@.replies =~= s0.replies.push((s0.feedback_reqs[id.0].waiter, Ok(data@))));
                }
            },
        }
    }

    /// Closes the questions run out at `now_ms`; see
    /// `PubsubView::after_rpc_timeout`.
    pub fn on_rpc_timeout(&mut self, now_ms: u64)
        ensures
            final(self)@ == old(self)@.after_rpc_timeout(now_ms),
    {
        let ghost s0 = self@;
        assert(s0.publish_reqs.dom() =~= self.publish_rpc_reqs@.dom());
        assert(s0.feedback_reqs.dom() =~= self.feedback_rpc_reqs@.dom());
        expire_requests(&mut self.publish_rpc_reqs, &mut self.replies, now_ms);
        expire_requests(&mut self.feedback_rpc_reqs, &mut self.replies, now_ms);
    }
}

/// When a question runs out, if that fits in a `u64`.
pub open spec fn deadline_of<W>(r: RequestView<W>) -> Option<u64> {
    if r.started_at_ms + r.timeout_ms <= u64::MAX {
        Some((r.started_at_ms + r.timeout_ms) as u64)
    } else {
        None
    }
}

/// The deadlines of the questions of `m`.
pub open spec fn deadlines<W>(m: Map<u64, RequestView<W>>) -> Set<u64> {
    Set::new(|x: u64| exists|k: u64| m.contains_key(k) && deadline_of(m[k]) == Some(x))
}

/// The deadlines of the questions of `m` with ids in `keys`.
pub open spec fn deadlines_of_keys<W>(m: Map<u64, RequestView<W>>, keys: Seq<u64>) -> Set<u64> {
    Set::new(|x: u64| exists|k: u64| keys.contains(k) && deadline_of(m[k]) == Some(x))
}

/// `d` is the earliest of the set `xs`, or `None` when it is empty.
pub open spec fn is_earliest(d: Option<u64>, xs: Set<u64>) -> bool {
    match d {
        None => xs.is_empty(),
        Some(x) => xs.contains(x) && forall|y: u64| xs.contains(y) ==> x <= y,
    }
}

/// One channel's heartbeat row: whether this node publishes and
/// subscribes there, with its last generations.
pub open spec fn heartbeat_row(ch: u64, c: ChannelView) -> ChannelHeartbeat {
    ChannelHeartbeat {
        channel: PubsubChannelId(ch),
        publish: !c.local_publishers.is_empty(),
        publish_generation: c.local_publish_generation,
        subscribe: !c.local_subscribers.is_empty(),
        subscribe_generation: c.local_subscribe_generation,
    }
}

/// How many chunks a heartbeat of `n` rows takes when chunked.
pub open spec fn chunk_count(n: nat) -> nat {
    ((n - 1) / (MAX_HEARTBEAT_CHANNELS_PER_BATCH as int) + 1) as nat
}

/// The heartbeat broadcasts for `rows`: one message when they fit in a
/// batch, else chunks of a batch each, the last one marked.
pub open spec fn heartbeat_messages(rows: Seq<ChannelHeartbeat>) -> Seq<ActionView> {
    let m = MAX_HEARTBEAT_CHANNELS_PER_BATCH as int;
    if rows.len() <= m {
        seq![ActionView::Broadcast(MessageView::Heartbeat(rows))]
    } else {
        Seq::new(
            chunk_count(rows.len()),
            |i: int|
                ActionView::Broadcast(
                    MessageView::HeartbeatChunk(
                        rows.subrange(i * m, if (i + 1) * m < rows.len() {
                            (i + 1) * m
                        } else {
                            rows.len() as int
                        }),
                        i == chunk_count(rows.len()) - 1,
                    ),
                ),
        )
    }
}

impl<W> PubsubView<W> {
    /// The earliest deadline of the open questions.
    pub open spec fn next_rpc_deadline(self) -> Set<u64> {
        deadlines(self.publish_reqs).union(deadlines(self.feedback_reqs))
    }

    /// This node's heartbeat rows, in channel order.
    pub open spec fn heartbeat_rows(self) -> Seq<ChannelHeartbeat> {
        sorted_keys(self.channels.dom()).map_values(|ch: u64| heartbeat_row(ch, self.channels[ch]))
    }

    /// The heartbeat is broadcast.
    pub open spec fn after_heartbeat_tick(self) -> Self {
        self.append(heartbeat_messages(self.heartbeat_rows()))
    }
}

/// The earliest of `best` and the deadlines of `reqs`.
fn earliest_deadline<W>(reqs: &BTreeMap<u64, RpcRequest<W>>, best: Option<u64>) -> (r: Option<u64>)
    ensures
        is_earliest(
            r,
            deadlines(request_views(reqs@)).union(
                match best {
                    Some(x) => set![x],
                    None => Set::empty(),
                },
            ),
        ),
{
    let ghost m = request_views(reqs@);
    let ghost b = match best {
        Some(x) => set![x],
        None => Set::<u64>::empty(),
    };
    let keys = keys_in_order(reqs);
    let mut r = best;
    let mut i: usize = 0;
    while i < keys.len()
        invariant
            i <= keys@.len(),
            keys@.to_set() == reqs@.dom(),
            m == request_views(reqs@),
            b == (match best {
                Some(x) => set![x],
                None => Set::<u64>::empty(),
            }),
            is_earliest(r, deadlines_of_keys(m, keys@.take(i as int)).union(b)),
        decreases keys@.len() - i,
    {
        let k = keys[i];
        assert(keys@.to_set().contains(k));
        let req = reqs.get(&k).unwrap();
        let d = req.started_at_ms.checked_add(req.timeout_ms);
        let ghost before = deadlines_of_keys(m, keys@.take(i as int));
        let ghost after = deadlines_of_keys(m, keys@.take(i + 1));
        proof {
            let a = keys@.take(i as int);
            let c = keys@.take(i + 1);
            assert(c =~= a.push(k));
            assert forall|x: u64| #[trigger] c.contains(x) <==> (a.contains(x) || x == k) by {
                if c.contains(x) && x != k {
                    let j = choose|j: int| 0 <= j < c.len() && c[j] == x;
                    assert(a[j] == x);
                }
                if a.contains(x) {
                    let j = choose|j: int| 0 <= j < a.len() && a[j] == x;
                    assert(c[j] == x);
                }
                if x == k {
                    assert(c[i as int] == x);
                }
            }
            assert(deadline_of(m[k]) == d);
            assert forall|x: u64| after.contains(x) <==> (before.contains(x) || d == Some(x)) by {
                if after.contains(x) {
                    let j = choose|j: u64| c.contains(j) && deadline_of(m[j]) == Some(x);
                    if j != k {
                        assert(before.contains(x));
                    }
                }
                if d == Some(x) {
                    assert(c.contains(k));
                }
                if before.contains(x) {
                    let j = choose|j: u64| a.contains(j) && deadline_of(m[j]) == Some(x);
                    assert(c.contains(j));
                }
            }
        }
        match d {
            Some(x) => {
                r = match r {
                    Some(y) => if x < y {
                        Some(x)
                    } else {
                        Some(y)
                    },
                    None => Some(x),
                };
            },
            None => {},
        }
        assert(after.union(b) =~= match d {
            Some(x) => before.union(b).insert(x),
            None => before.union(b),
        });
        i = i + 1;
    }
    proof {
        assert(keys@.take(keys@.len() as int) =~= keys@);
        let fin = deadlines_of_keys(m, keys@);
        assert(m.dom() =~= reqs@.dom());
        assert forall|x: u64| fin.contains(x) <==> deadlines(m).contains(x) by {
            if fin.contains(x) {
                let k = choose|k: u64| keys@.contains(k) && deadline_of(m[k]) == Some(x);
                assert(keys@.to_set().contains(k));
            }
            if deadlines(m).contains(x) {
                let k = choose|k: u64| m.contains_key(k) && deadline_of(m[k]) == Some(x);
                assert(keys@.to_set().contains(k));
            }
        }
        assert(fin =~= deadlines(m));
    }
    r
}

impl<W> PubsubCore<W> {
    /// The earliest deadline of the open questions, `None` when none has
    /// one.
    pub fn next_rpc_deadline(&self) -> (r: Option<u64>)
        ensures
            is_earliest(r, self@.next_rpc_deadline()),
    {
        let first = earliest_deadline(&self.publish_rpc_reqs, None);
        let r = earliest_deadline(&self.feedback_rpc_reqs, first);
        proof {
            let a = deadlines(self@.publish_reqs);
            let b = deadlines(self@.feedback_reqs);
            assert(a.union(Set::empty()) =~= a);
            let fs = match first {
                Some(x) => set![x],
                None => Set::<u64>::empty(),
            };
            assert forall|y: u64| fs.contains(y) ==> a.contains(y) by {}
            assert forall|y: u64| a.contains(y) ==> (match first {
                Some(x) => x <= y,
                None => false,
            }) by {}
            let u = b.union(fs);
            assert forall|y: u64| u.contains(y) ==> a.union(b).contains(y) by {}
            match r {
                Some(x) => {
                    assert forall|y: u64| a.union(b).contains(y) implies x <= y by {
                        if a.contains(y) {
                            assert(u.contains(first->0));
                        } else {
                            assert(u.contains(y));
                        }
                    }
                },
                None => {
                    assert(u.is_empty());
                    assert forall|y: u64| !b.contains(y) by {
                        assert(!u.contains(y));
                    }
                    assert(first is None) by {
                        if first is Some {
                            assert(u.contains(first->0));
                        }
                    }
                    assert forall|y: u64| !a.contains(y) by {
                        assert(!a.union(Set::empty()).contains(y));
                    }
                    assert(a.union(b) =~= Set::empty());
                },
            }
        }
        r
    }

    /// Broadcasts this node's heartbeat; see
    /// `PubsubView::after_heartbeat_tick`.
    pub fn on_heartbeat_tick(&mut self)
        ensures
            final(self)@ == old(self)@.after_heartbeat_tick(),
    {
        let ghost s0 = self@;
        let ghost f = |ch: u64| heartbeat_row(ch, s0.channels[ch]);
        let keys = keys_in_order(&self.channels);
        assert(self.channels@.dom() =~= s0.channels.dom());
        let mut rows: Vec<ChannelHeartbeat> = Vec::new();
        let mut i: usize = 0;
        while i < keys.len()
            invariant
                i <= keys@.len(),
                keys@.to_set() == s0.channels.dom(),
                self@ == s0,
                f == (|ch: u64| heartbeat_row(ch, s0.channels[ch])),
                rows@ == keys@.take(i as int).map_values(f),
            decreases keys@.len() - i,
        {
            let ch = keys[i];
            assert(keys@.to_set().contains(ch));
            let st = self.channels.get(&ch).unwrap();
            rows.push(
                ChannelHeartbeat {
                    channel: PubsubChannelId(ch),
                    publish: !st.local_publishers.is_empty(),
                    publish_generation: st.local_publish_generation,
                    subscribe: !st.local_subscribers.is_empty(),
                    subscribe_generation: st.local_subscribe_generation,
                },
            );
            assert(keys@.take(i + 1).map_values(f) =~= keys@.take(i as int).map_values(f).push(f(ch)));
            i = i + 1;
        }
        assert(keys@.take(keys@.len() as int) =~= keys@);
        assert(rows@ == s0.heartbeat_rows());
        let n = rows.len();
        if n <= MAX_HEARTBEAT_CHANNELS_PER_BATCH {
            self.push_action(PubsubAction::Broadcast(PubsubMessage::Heartbeat(rows)));
            assert(self@.outs =~= s0.outs + heartbeat_messages(s0.heartbeat_rows()));
            return ;
        }
        let ghost all = rows@;
        let ghost msgs = heartbeat_messages(all);
        let ghost cc = chunk_count(n as nat);
        let m = MAX_HEARTBEAT_CHANNELS_PER_BATCH;
        let mut start: usize = 0;
        let mut idx: usize = 0;
        while start < n
            invariant
                n == all.len(),
                n > m,
                m == MAX_HEARTBEAT_CHANNELS_PER_BATCH,
                rows@ == all,
                msgs == heartbeat_messages(all),
                cc == chunk_count(n as nat),
                start <= n,
                idx <= cc,
                start < n ==> start == idx * m && idx < cc,
                start == n ==> idx == cc,
                self@ == s0.append(msgs.take(idx as int)),
            decreases n - start,
        {
            proof {
                lemma_chunk_step(n as int, idx as int);
            }
            let end = if n - start > m {
                start + m
            } else {
                n
            };
            let mut chunk: Vec<ChannelHeartbeat> = Vec::new();
            let mut j = start;
            while j < end
                invariant
                    start <= j <= end,
                    end <= n,
                    rows@ == all,
                    n == all.len(),
                    chunk@ == all.subrange(start as int, j as int),
                decreases end - j,
            {
                chunk.push(rows[j]);
                assert(all.subrange(start as int, j + 1) =~= all.subrange(start as int, j as int).push(all[j as int]));
                j = j + 1;
            }
            let is_last = end == n;
            assert(is_last == (idx == cc - 1));
            assert(msgs[idx as int] == ActionView::Broadcast(MessageView::HeartbeatChunk(chunk@, is_last)));
            self.push_action(PubsubAction::Broadcast(PubsubMessage::HeartbeatChunk { channels: chunk, is_last }));
            assert(msgs.take(idx + 1) =~= msgs.take(idx as int).push(msgs[idx as int]));
            assert(self@.outs =~= s0.outs + msgs.take(idx + 1));
            start = end;
            idx = idx + 1;
        }
        assert(msgs.take(chunk_count(n as nat) as int) =~= msgs);
    }
}

/// One step of cutting `n` heartbeat rows into chunks: the chunk starting
/// at `idx` batches is the last exactly when fewer than a batch remain.
proof fn lemma_chunk_step(n: int, idx: int)
    requires
        n > 1024,
        0 <= idx,
        idx * 1024 < n,
    ensures
        idx * 1024 + 1024 == (idx + 1) * 1024,
        n - idx * 1024 > 1024 ==> idx + 1 < (n - 1) / 1024 + 1,
        n - idx * 1024 <= 1024 ==> idx + 1 == (n - 1) / 1024 + 1,
        idx < (n - 1) / 1024 + 1,
{
    assert(idx * 1024 + 1024 == (idx + 1) * 1024) by (nonlinear_arith);
    assert(idx <= (n - 1) / 1024) by (nonlinear_arith)
        requires
            idx * 1024 < n,
            0 <= idx,
    ;
    assert(n - idx * 1024 > 1024 ==> idx + 1 <= (n - 1) / 1024) by (nonlinear_arith)
        requires
            0 <= idx,
    ;
    assert(n - idx * 1024 <= 1024 ==> idx >= (n - 1) / 1024) by (nonlinear_arith)
        requires
            0 <= idx,
            n > 1024,
    ;
}

impl<W> PubsubCore<W> {
    /// The next action to perform.
    pub fn pop_action(&mut self) -> (a: Option<PubsubAction>)
        ensures
            old(self)@.outs.len() == 0 ==> a is None && final(self)@ == old(self)@,
            old(self)@.outs.len() > 0 ==> (a matches Some(x) && x@ == old(self)@.outs[0] && final(self)@ == (PubsubView {
                outs: old(self)@.outs.drop_first(),
                ..old(self)@
            })),
    {
        let ghost s0 = self@;
        let a = self.outs.pop_front();
        assert(self@.outs =~= if s0.outs.len() == 0 {
            s0.outs
        } else {
            s0.outs.drop_first()
        });
        a
    }

    /// The next answer owed to an asker.
    pub fn pop_reply(&mut self) -> (r: Option<(W, Result<Vec<u8>, PubsubRpcError>)>)
        ensures
            old(self)@.replies.len() == 0 ==> r is None && final(self)@ == old(self)@,
            old(self)@.replies.len() > 0 ==> (r matches Some(x) && (x.0, reply_view(x.1)) == old(self)@.replies[0]
                && final(self)@ == (PubsubView { replies: old(self)@.replies.drop_first(), ..old(self)@ })),
    {
        let ghost s0 = self@;
        let r = self.replies.pop_front();
        assert(self@.replies =~= if s0.replies.len() == 0 {
            s0.replies
        } else {
            s0.replies.drop_first()
        });
        r
    }
}

} // verus!
