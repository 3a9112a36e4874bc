//! Properties of the publish/subscribe decisions, stated over the views
//! that the operations' contracts use.
use vstd::prelude::*;

use super::state::{
    active_peers, bump, heartbeat_messages, is_inactive_remote_only, is_local_publisher, is_local_subscriber,
    lemma_apply_rows_frame,
    publish_plan, publisher_handles, row_channels, subscriber_handles, subscriber_join_stale, tomb_peers,
    with_tombstones, ActionView, ChannelHeartbeat,
    MessageView, PubsubView,
};
use super::{
    active_only, apply_role, ChannelView, PeerSrc, PublisherEventView, PublisherHandleId, PubsubChannelId,
    RemoteRoleState, SubscriberEventView, SubscriberHandleId, SubscriberLocalId, MAX_HEARTBEAT_CHANNELS_PER_BATCH, MAX_PENDING_RPC_REQUESTS,
    MAX_REMOTE_CREATED_CHANNELS, MAX_REMOTE_MEMBERS_PER_CHANNEL, MAX_REMOTE_ROLE_TOMBSTONES,
};
use crate::ordered::{lemma_sorted_keys_exists, sorted_keys};
use crate::peer::PeerId;

verus! {

/// A channel keeps at most `MAX_REMOTE_MEMBERS_PER_CHANNEL` members per
/// role, however many announcements arrive; and an announcement by a
/// member already known, newer than what is known of it, is always taken.
pub proof fn law_membership_bounded(m: Map<u64, RemoteRoleState>, peer: u64, g: u64, active: bool, strict: bool)
    requires
        m.dom().finite(),
        m.len() <= MAX_REMOTE_MEMBERS_PER_CHANNEL,
    ensures
        apply_role(m, peer, g, active, strict).1.dom().finite(),
        apply_role(m, peer, g, active, strict).1.len() <= MAX_REMOTE_MEMBERS_PER_CHANNEL,
        m.contains_key(peer) && (g > m[peer].generation || (!strict && g == m[peer].generation)) ==> apply_role(
            m,
            peer,
            g,
            active,
            strict,
        ).0 == Some((m[peer].active, active)),
{
    if !m.contains_key(peer) && m.len() >= MAX_REMOTE_MEMBERS_PER_CHANNEL {
        let kept = active_only(m);
        assert(kept.dom().subset_of(m.dom()));
        vstd::set_lib::lemma_len_subset(kept.dom(), m.dom());
    }
}

/// An announcement by node `p` on a known channel that is not newer than
/// what is known of `p` there changes nothing: an old leave cannot undo a
/// newer join, nor an old join a newer leave.
pub proof fn law_old_announcement_ignored<W>(s: PubsubView<W>, p: u64, ch: u64, g: u64)
    requires
        s.channels.contains_key(ch),
    ensures
        s.channels[ch].remote_publishers.contains_key(p) && g <= s.channels[ch].remote_publishers[p].generation ==> (
        s.after_publisher_joined(p, ch, g) == s && s.after_publisher_leaved(p, ch, g) == s),
        s.channels[ch].remote_subscribers.contains_key(p) && g <= s.channels[ch].remote_subscribers[p].generation ==> (
        s.after_subscriber_joined(p, ch, g) == s && s.after_subscriber_leaved(p, ch, g) == s),
{
    let c = s.channels[ch];
    assert(s.channels.insert(ch, ChannelView { remote_publishers: c.remote_publishers, ..c }) =~= s.channels);
    assert(s.channels.insert(ch, ChannelView { remote_subscribers: c.remote_subscribers, ..c }) =~= s.channels);
}

/// A leave for a channel this node does not know is remembered, so that
/// a delayed join of the same node with an older or equal generation is
/// ignored (unless the tombstones are full).
pub proof fn law_unknown_leave_blocks_older_join<W>(s: PubsubView<W>, p: u64, ch: u64, g: u64, older: u64)
    requires
        !s.channels.contains_key(ch),
        s.tombstones.contains_key((ch, p)) || s.tombstones.len() < MAX_REMOTE_ROLE_TOMBSTONES,
        older <= g,
    ensures
        s.after_publisher_leaved(p, ch, g).after_publisher_joined(p, ch, older) == s.after_publisher_leaved(p, ch, g),
        s.after_subscriber_leaved(p, ch, g).after_subscriber_joined(p, ch, older) == s.after_subscriber_leaved(p, ch, g),
{
}

/// A new local publisher hears of every active remote subscriber already
/// known on its channel.
pub proof fn law_new_publisher_meets_subscribers<W>(s: PubsubView<W>, h: PublisherHandleId, ch: u64, q: u64)
    requires
        s.channels.contains_key(ch),
        s.channels[ch].remote_subscribers.dom().finite(),
        s.channels[ch].remote_subscribers.contains_key(q),
        s.channels[ch].remote_subscribers[q].active,
    ensures
        s.after_publisher_created(h, ch).outs.contains(
            ActionView::ToPublishers(seq![h], PublisherEventView::PeerJoined(PeerSrc::Remote(PeerId(q)))),
        ),
{
    let c = s.channels[ch];
    let m = c.remote_subscribers;
    let keys = sorted_keys(m.dom());
    lemma_sorted_keys_exists(m.dom());
    assert(keys.to_set().contains(q));
    let pred = |k: u64| m[k].active;
    keys.filter_lemma(pred);
    let i = choose|i: int| 0 <= i < keys.len() && keys[i] == q;
    assert(keys.filter(pred).contains(q));
    let j = choose|j: int| 0 <= j < keys.filter(pred).len() && keys.filter(pred)[j] == q;
    let f = |q: PeerId| ActionView::ToPublishers(seq![h], PublisherEventView::PeerJoined(PeerSrc::Remote(q)));
    let peers = keys.filter(pred).map_values(|k: u64| PeerId(k));
    assert(peers[j] == PeerId(q));
    let want = f(PeerId(q));
    let lead = if c.local_subscribers.is_empty() {
        seq![]
    } else {
        seq![ActionView::ToPublishers(seq![h], PublisherEventView::PeerJoined(PeerSrc::Local))]
    };
    let greet = lead + peers.map_values(f);
    assert(greet[lead.len() + j] == want);
    let outs = s.after_publisher_created(h, ch).outs;
    assert(outs[s.outs.len() + lead.len() + j] == want);
}

/// When the last local publisher leaves a channel that has no other
/// member, the channel is dropped.
pub proof fn law_last_handle_leaving_drops_channel<W>(s: PubsubView<W>, h: PublisherHandleId, ch: u64)
    requires
        s.channels.contains_key(ch),
        s.channels[ch].local_publishers == map![h.owner => h.local_id.0],
        s.channels[ch].local_subscribers.is_empty(),
        s.channels[ch].remote_publishers.is_empty(),
        s.channels[ch].remote_subscribers.is_empty(),
    ensures
        !s.after_publisher_destroyed(h, ch).channels.contains_key(ch),
{
    let c = s.channels[ch];
    assert(c.local_publishers.remove(h.owner) =~= Map::empty());
}

/// Each time a channel gets its first local publisher, this node announces
/// a publish generation newer than any it announced before, until the
/// counter is full.
pub proof fn law_publish_generation_grows<W>(s: PubsubView<W>, h: PublisherHandleId, ch: u64)
    requires
        !s.channels.contains_key(ch) || s.channels[ch].local_publishers.is_empty(),
        s.local_publish_generation < u64::MAX,
    ensures
        s.after_publisher_created(h, ch).local_publish_generation == s.local_publish_generation + 1,
        s.after_publisher_created(h, ch).outs.last() == ActionView::Broadcast(
            MessageView::PublisherJoined(PubsubChannelId(ch), (s.local_publish_generation + 1) as u64),
        ),
{
}

/// Dropping node `p` from the channels of `keys` but those in `seen` never
/// adds a channel, and leaves `p` in none of the channels it went through.
proof fn lemma_drop_member_in<W>(s: PubsubView<W>, keys: Seq<u64>, p: u64, seen: Set<u64>)
    ensures
        forall|ch: u64| #[trigger]
            s.drop_member_in(keys, p, seen).channels.contains_key(ch) ==> s.channels.contains_key(ch),
        forall|ch: u64|
            #![trigger s.drop_member_in(keys, p, seen).channels[ch]]
            s.drop_member_in(keys, p, seen).channels.contains_key(ch) && keys.contains(ch) && !seen.contains(ch) ==> (
            !s.drop_member_in(keys, p, seen).channels[ch].remote_publishers.contains_key(p)
                && !s.drop_member_in(keys, p, seen).channels[ch].remote_subscribers.contains_key(p)),
    decreases keys.len(),
{
    if keys.len() > 0 {
        let rest = keys.drop_last();
        let k = keys.last();
        lemma_drop_member_in(s, rest, p, seen);
        let r0 = s.drop_member_in(rest, p, seen);
        let r = s.drop_member_in(keys, p, seen);
        assert(r == if seen.contains(k) {
            r0
        } else {
            r0.drop_member(k, p)
        });
        assert forall|ch: u64| #[trigger] r.channels.contains_key(ch) implies s.channels.contains_key(ch) by {
            assert(r0.channels.contains_key(ch));
        }
        assert forall|ch: u64|
            r.channels.contains_key(ch) && keys.contains(ch) && !seen.contains(ch) implies !r.channels[ch].remote_publishers.contains_key(p)
            && !r.channels[ch].remote_subscribers.contains_key(p) by {
            if ch != k {
                let i = choose|i: int| 0 <= i < keys.len() && keys[i] == ch;
                assert(rest[i] == ch);
                assert(r0.channels.contains_key(ch));
                assert(r.channels[ch] == r0.channels[ch]);
            }
        }
    }
}

/// After node `p` disconnects, no channel lists it as a publisher or as a
/// subscriber.
pub proof fn law_disconnect_forgets_peer<W>(s: PubsubView<W>, p: u64, ch: u64)
    requires
        s.channels.dom().finite(),
        s.after_disconnect(p).channels.contains_key(ch),
    ensures
        !s.after_disconnect(p).channels[ch].remote_publishers.contains_key(p),
        !s.after_disconnect(p).channels[ch].remote_subscribers.contains_key(p),
{
    let s1 = s.after_disconnect_start(p);
    let keys = sorted_keys(s.channels.dom());
    lemma_sorted_keys_exists(s.channels.dom());
    lemma_drop_member_in(s1, keys, p, Set::empty());
    assert(s1.channels.contains_key(ch));
    assert(keys.to_set().contains(ch));
}

/// Every heartbeat message this node sends holds at most
/// `MAX_HEARTBEAT_CHANNELS_PER_BATCH` rows, so no receiver refuses it.
pub proof fn law_heartbeat_batches_bounded(rows: Seq<ChannelHeartbeat>, i: int)
    requires
        0 <= i < heartbeat_messages(rows).len(),
    ensures
        match heartbeat_messages(rows)[i] {
            ActionView::Broadcast(MessageView::Heartbeat(r)) => r.len() <= MAX_HEARTBEAT_CHANNELS_PER_BATCH,
            ActionView::Broadcast(MessageView::HeartbeatChunk(r, _)) => r.len() <= MAX_HEARTBEAT_CHANNELS_PER_BATCH,
            _ => false,
        },
{
    let n = rows.len() as int;
    if n > 1024 {
        assert(i * 1024 < n && i * 1024 >= 0) by (nonlinear_arith)
            requires
                0 <= i < (n - 1) / 1024 + 1,
                n > 1024,
        ;
        assert(i * 1024 + 1024 == (i + 1) * 1024) by (nonlinear_arith);
    }
}

/// A question goes out only while fewer than `MAX_PENDING_RPC_REQUESTS`
/// are open, so the open publish questions never exceed the cap.
pub proof fn law_pending_publish_rpcs_bounded<W>(
    s: PubsubView<W>,
    asker: Option<PublisherHandleId>,
    ch: u64,
    id: u64,
    local: Seq<SubscriberHandleId>,
    remote: Seq<PeerId>,
    started: u64,
    timeout: u64,
    waiter: W,
)
    requires
        s.publish_reqs.dom().finite(),
        publish_plan(s, asker, ch) is Ok,
    ensures
        s.after_publish_rpc_sent(id, local, remote, started, timeout, waiter).publish_reqs.len()
            <= MAX_PENDING_RPC_REQUESTS,
{
}

/// Data from a node that does not publish on a known channel reaches no
/// one there.
pub proof fn law_publish_needs_membership<W>(s: PubsubView<W>, p: u64, ch: u64, data: Seq<u8>)
    requires
        s.channels.contains_key(ch),
        !(s.channels[ch].remote_publishers.contains_key(p) && s.channels[ch].remote_publishers[p].active),
    ensures
        s.after_remote(p, MessageView::Publish(PubsubChannelId(ch), data)) == s,
{
}

/// An answer to a publish question from a node that was not asked settles
/// nothing.
pub proof fn law_answer_needs_asked_responder<W>(s: PubsubView<W>, p: u64, id: u64, data: Seq<u8>)
    requires
        !(s.publish_reqs.contains_key(id) && s.publish_reqs[id].remote.contains(p)),
    ensures
        s.after_remote(p, MessageView::PublishRpcAnswer(data, super::RpcId(id))) == s,
{
}

/// Data published by a local publisher reaches every active remote
/// subscriber of the channel and every local subscriber.
pub proof fn law_publish_reaches_subscribers<W>(
    s: PubsubView<W>,
    h: PublisherHandleId,
    ch: u64,
    data: Seq<u8>,
    q: u64,
    o: u64,
)
    requires
        s.channels.contains_key(ch),
        is_local_publisher(s.channels[ch], h),
        s.channels[ch].remote_subscribers.dom().finite(),
        s.channels[ch].local_subscribers.dom().finite(),
    ensures
        s.channels[ch].remote_subscribers.contains_key(q) && s.channels[ch].remote_subscribers[q].active ==> (
        s.after_local_publish(h, ch, data).outs.last() == ActionView::ToPeers(
            active_peers(s.channels[ch].remote_subscribers),
            MessageView::Publish(PubsubChannelId(ch), data),
        ) && active_peers(s.channels[ch].remote_subscribers).contains(PeerId(q))),
        s.channels[ch].local_subscribers.contains_key(o) ==> (s.after_local_publish(h, ch, data).outs[s.outs.len() as int]
            == ActionView::ToSubscribers(
            subscriber_handles(s.channels[ch].local_subscribers),
            SubscriberEventView::Publish(data),
        ) && subscriber_handles(s.channels[ch].local_subscribers).contains(
            SubscriberHandleId { local_id: SubscriberLocalId(s.channels[ch].local_subscribers[o]), owner: o },
        )),
{
    let c = s.channels[ch];
    if c.remote_subscribers.contains_key(q) && c.remote_subscribers[q].active {
        let m = c.remote_subscribers;
        let keys = sorted_keys(m.dom());
        lemma_sorted_keys_exists(m.dom());
        assert(keys.to_set().contains(q));
        let pred = |k: u64| m[k].active;
        keys.filter_lemma(pred);
        assert(keys.filter(pred).contains(q));
        let j = choose|j: int| 0 <= j < keys.filter(pred).len() && keys.filter(pred)[j] == q;
        let peers = keys.filter(pred).map_values(|k: u64| PeerId(k));
        assert(peers[j] == PeerId(q));
        assert(peers.len() > 0);
    }
    if c.local_subscribers.contains_key(o) {
        let m = c.local_subscribers;
        let keys = sorted_keys(m.dom());
        lemma_sorted_keys_exists(m.dom());
        assert(keys.to_set().contains(o));
        let j = choose|j: int| 0 <= j < keys.len() && keys[j] == o;
        let hs = subscriber_handles(m);
        assert(hs[j] == SubscriberHandleId { local_id: SubscriberLocalId(m[o]), owner: o });
    }
}

/// Each member table of each channel is finite and within its cap.
pub open spec fn members_bounded(channels: Map<u64, ChannelView>) -> bool {
    forall|ch: u64| #[trigger]
        channels.contains_key(ch) ==> {
            &&& channels[ch].remote_publishers.dom().finite()
            &&& channels[ch].remote_subscribers.dom().finite()
            &&& channels[ch].remote_publishers.len() <= MAX_REMOTE_MEMBERS_PER_CHANNEL
            &&& channels[ch].remote_subscribers.len() <= MAX_REMOTE_MEMBERS_PER_CHANNEL
        }
}

/// The tombstones are finite and within their cap, and so is each member
/// table of each channel.
pub open spec fn tables_bounded<W>(s: PubsubView<W>) -> bool {
    &&& s.tombstones.dom().finite()
    &&& s.tombstones.len() <= MAX_REMOTE_ROLE_TOMBSTONES
    &&& members_bounded(s.channels)
}

/// Dropping an idle channel adds at most one tombstone per node that left
/// a role there and has none yet, so the cap checked before holds after.
proof fn lemma_evict_bounded<W>(s: PubsubView<W>, c: u64)
    requires
        tables_bounded(s),
    ensures
        tables_bounded(s.evict(c)),
        s.evict(c).channels.dom().subset_of(s.channels.dom()),
{
    if s.channels.contains_key(c) && is_inactive_remote_only(s.channels[c]) && s.tombstones.len() + tomb_peers(
        s.tombstones,
        c,
        s.channels[c],
    ).len() <= MAX_REMOTE_ROLE_TOMBSTONES {
        let t = s.tombstones;
        let cv = s.channels[c];
        let tp = tomb_peers(t, c, cv);
        let members = cv.remote_publishers.dom().union(cv.remote_subscribers.dom());
        assert(tp.subset_of(members));
        vstd::set_lib::lemma_len_subset(tp, members);
        let f = |p: u64| (c, p);
        let img = tp.map(f);
        vstd::set_lib::lemma_map_size_bound(tp, img, f);
        let w = with_tombstones(t, c, cv);
        assert forall|k: (u64, u64)| #[trigger] w.dom().contains(k) implies t.dom().union(img).contains(k) by {
            if !t.contains_key(k) {
                assert(tp.contains(k.1));
                assert(f(k.1) == k);
            }
        }
        assert(w.dom().subset_of(t.dom().union(img)));
        vstd::set_lib::lemma_len_union(t.dom(), img);
        vstd::set_lib::lemma_len_subset(w.dom(), t.dom().union(img));
    }
}

/// Dropping idle channels in turn keeps the tables bounded.
proof fn lemma_evict_all_bounded<W>(s: PubsubView<W>, keys: Seq<u64>)
    requires
        tables_bounded(s),
    ensures
        tables_bounded(s.evict_all(keys)),
        s.evict_all(keys).channels.dom().subset_of(s.channels.dom()),
        s.evict_all(keys).outs == s.outs,
    decreases keys.len(),
{
    if keys.len() > 0 {
        lemma_evict_all_bounded(s, keys.drop_last());
        lemma_evict_bounded(s.evict_all(keys.drop_last()), keys.last());
    }
}

/// Dropping a node from channels changes only the channels and the
/// queued actions, and keeps the member tables bounded.
proof fn lemma_drop_member_in_frame<W>(s: PubsubView<W>, keys: Seq<u64>, p: u64, seen: Set<u64>)
    requires
        members_bounded(s.channels),
    ensures
        s.drop_member_in(keys, p, seen) == (PubsubView {
            channels: s.drop_member_in(keys, p, seen).channels,
            outs: s.drop_member_in(keys, p, seen).outs,
            ..s
        }),
        members_bounded(s.drop_member_in(keys, p, seen).channels),
    decreases keys.len(),
{
    if keys.len() > 0 {
        lemma_drop_member_in_frame(s, keys.drop_last(), p, seen);
        let r = s.drop_member_in(keys.drop_last(), p, seen);
        let k = keys.last();
        if r.channels.contains_key(k) {
            let c = r.channels[k];
            assert(c.remote_publishers.remove(p).dom().subset_of(c.remote_publishers.dom()));
            assert(c.remote_subscribers.remove(p).dom().subset_of(c.remote_subscribers.dom()));
            vstd::set_lib::lemma_len_subset(c.remote_publishers.remove(p).dom(), c.remote_publishers.dom());
            vstd::set_lib::lemma_len_subset(c.remote_subscribers.remove(p).dom(), c.remote_subscribers.dom());
        }
    }
}

/// Applying heartbeat rows keeps the member tables bounded.
proof fn lemma_apply_rows_bounded<W>(s: PubsubView<W>, p: u64, rows: Seq<ChannelHeartbeat>)
    requires
        members_bounded(s.channels),
    ensures
        members_bounded(s.apply_rows(p, rows).channels),
    decreases rows.len(),
{
    if rows.len() > 0 {
        lemma_apply_rows_bounded(s, p, rows.drop_last());
        let s1 = s.apply_rows(p, rows.drop_last());
        let row = rows.last();
        let ch = row.channel.0;
        if s1.channels.contains_key(ch) {
            let c = s1.channels[ch];
            law_membership_bounded(c.remote_publishers, p, row.publish_generation, row.publish, false);
            law_membership_bounded(c.remote_subscribers, p, row.subscribe_generation, row.subscribe, false);
        }
    }
}

/// Whatever another node sends, the tombstones stay within
/// `MAX_REMOTE_ROLE_TOMBSTONES` and each member table within
/// `MAX_REMOTE_MEMBERS_PER_CHANNEL`.
pub proof fn law_remote_messages_keep_tables_bounded<W>(s: PubsubView<W>, p: u64, m: MessageView)
    requires
        tables_bounded(s),
    ensures
        tables_bounded(s.after_remote(p, m)),
{
    match m {
        MessageView::PublisherJoined(c, g) | MessageView::SubscriberJoined(c, g) => {
            let ch = c.0;
            if !s.channels.contains_key(ch) && s.channels.len() >= MAX_REMOTE_CREATED_CHANNELS {
                lemma_evict_all_bounded(s, sorted_keys(s.channels.dom()));
            }
            let (ok, s1) = s.join_channel(ch);
            if ok {
                let cv = s1.channels[ch];
                law_membership_bounded(cv.remote_publishers, p, g, true, true);
                law_membership_bounded(cv.remote_subscribers, p, g, true, true);
                let t = s1.tombstones;
                if t.contains_key((ch, p)) {
                    assert(t.remove((ch, p)).dom().subset_of(t.dom()));
                    vstd::set_lib::lemma_len_subset(t.remove((ch, p)).dom(), t.dom());
                }
            }
        },
        MessageView::PublisherLeaved(c, g) | MessageView::SubscriberLeaved(c, g) => {
            let ch = c.0;
            if s.channels.contains_key(ch) {
                let cv = s.channels[ch];
                law_membership_bounded(cv.remote_publishers, p, g, false, true);
                law_membership_bounded(cv.remote_subscribers, p, g, false, true);
            }
        },
        MessageView::Heartbeat(rows) => {
            if rows.len() <= MAX_HEARTBEAT_CHANNELS_PER_BATCH {
                let s0 = PubsubView { heartbeat_chunks: s.heartbeat_chunks.remove(p), ..s };
                let s1 = s0.apply_rows(p, rows);
                lemma_apply_rows_frame(s0, p, rows);
                lemma_apply_rows_bounded(s0, p, rows);
                lemma_drop_member_in_frame(s1, sorted_keys(s1.channels.dom()), p, row_channels(rows));
            }
        },
        MessageView::HeartbeatChunk(rows, is_last) => {
            if rows.len() <= MAX_HEARTBEAT_CHANNELS_PER_BATCH {
                let earlier = if s.heartbeat_chunks.contains_key(p) {
                    s.heartbeat_chunks[p]
                } else {
                    Set::empty()
                };
                let seen = earlier.union(row_channels(rows).intersect(s.channels.dom()));
                let s0 = PubsubView { heartbeat_chunks: s.heartbeat_chunks.insert(p, seen), ..s };
                let s1 = s0.apply_rows(p, rows);
                lemma_apply_rows_frame(s0, p, rows);
                lemma_apply_rows_bounded(s0, p, rows);
                let s2 = PubsubView { heartbeat_chunks: s1.heartbeat_chunks.remove(p), ..s1 };
                lemma_drop_member_in_frame(s2, sorted_keys(s2.channels.dom()), p, seen);
            }
        },
        _ => {},
    }
}

/// After a node disconnects, the tombstones and member tables stay within
/// their caps.
pub proof fn law_disconnect_keeps_tables_bounded<W>(s: PubsubView<W>, p: u64)
    requires
        tables_bounded(s),
    ensures
        tables_bounded(s.after_disconnect(p)),
{
    let s1 = s.after_disconnect_start(p);
    let t = s.tombstones;
    assert(s1.tombstones.dom().subset_of(t.dom()));
    vstd::set_lib::lemma_len_subset(s1.tombstones.dom(), t.dom());
    lemma_drop_member_in_frame(s1, sorted_keys(s.channels.dom()), p, Set::empty());
}

/// When a node newly subscribes on a channel that has local publishers,
/// the local publishers hear of it and the node is told that this node
/// publishes there.
pub proof fn law_new_subscriber_meets_publishers<W>(s: PubsubView<W>, p: u64, ch: u64, g: u64)
    requires
        s.channels.contains_key(ch),
        !subscriber_join_stale(s.tombstones, ch, p, g),
        !s.channels[ch].remote_subscribers.contains_key(p) || !s.channels[ch].remote_subscribers[p].active && g
            > s.channels[ch].remote_subscribers[p].generation,
        s.channels[ch].remote_subscribers.contains_key(p) || s.channels[ch].remote_subscribers.len()
            < MAX_REMOTE_MEMBERS_PER_CHANNEL,
        !s.channels[ch].local_publishers.is_empty(),
    ensures
        s.after_subscriber_joined(p, ch, g).outs == s.outs + seq![
            ActionView::ToPublishers(
                publisher_handles(s.channels[ch].local_publishers),
                PublisherEventView::PeerJoined(PeerSrc::Remote(PeerId(p))),
            ),
            ActionView::ToPeers(
                seq![PeerId(p)],
                MessageView::PublisherJoined(PubsubChannelId(ch), s.channels[ch].local_publish_generation),
            ),
        ],
        s.after_subscriber_joined(p, ch, g).channels[ch].remote_subscribers[p] == (RemoteRoleState {
            generation: g,
            active: true,
        }),
{
    let s1 = s.after_subscriber_joined(p, ch, g);
    assert(s1.outs =~= s.outs + seq![
        ActionView::ToPublishers(
            publisher_handles(s.channels[ch].local_publishers),
            PublisherEventView::PeerJoined(PeerSrc::Remote(PeerId(p))),
        ),
        ActionView::ToPeers(
            seq![PeerId(p)],
            MessageView::PublisherJoined(PubsubChannelId(ch), s.channels[ch].local_publish_generation),
        ),
    ]);
}

/// Dropping a node from the channels not in `seen` leaves the channels in
/// `seen` as they were.
proof fn lemma_drop_member_in_keeps_seen<W>(s: PubsubView<W>, keys: Seq<u64>, p: u64, seen: Set<u64>, ch: u64)
    requires
        seen.contains(ch),
    ensures
        s.drop_member_in(keys, p, seen).channels.contains_key(ch) == s.channels.contains_key(ch),
        s.channels.contains_key(ch) ==> s.drop_member_in(keys, p, seen).channels[ch] == s.channels[ch],
    decreases keys.len(),
{
    if keys.len() > 0 {
        lemma_drop_member_in_keeps_seen(s, keys.drop_last(), p, seen, ch);
    }
}

/// A heartbeat that says a node publishes on a known channel makes it an
/// active publisher there, when its generation is not older than the one
/// known and there is room: heartbeats restore memberships that were
/// lost.
pub proof fn law_heartbeat_restores_publisher<W>(s: PubsubView<W>, p: u64, row: ChannelHeartbeat)
    requires
        s.channels.contains_key(row.channel.0),
        row.publish,
        s.channels[row.channel.0].remote_publishers.contains_key(p) ==> row.publish_generation
            >= s.channels[row.channel.0].remote_publishers[p].generation,
        s.channels[row.channel.0].remote_publishers.contains_key(p) || s.channels[row.channel.0].remote_publishers.len()
            < MAX_REMOTE_MEMBERS_PER_CHANNEL,
    ensures
        s.after_heartbeat(p, seq![row]).channels.contains_key(row.channel.0),
        s.after_heartbeat(p, seq![row]).channels[row.channel.0].remote_publishers[p] == (RemoteRoleState {
            generation: row.publish_generation,
            active: true,
        }),
{
    let rows = seq![row];
    let ch = row.channel.0;
    let s0 = PubsubView { heartbeat_chunks: s.heartbeat_chunks.remove(p), ..s };
    let s1 = s0.apply_rows(p, rows);
    assert(rows.drop_last() =~= Seq::<ChannelHeartbeat>::empty());
    assert(s0.apply_rows(p, rows.drop_last()) == s0);
    assert(rows.last() == row);
    assert(s1 == s0.apply_row(p, row));
    assert(rows.map_values(|r: ChannelHeartbeat| r.channel.0) =~= seq![ch]);
    assert(row_channels(rows).contains(ch)) by {
        assert(rows.map_values(|r: ChannelHeartbeat| r.channel.0)[0] == ch);
    }
    lemma_drop_member_in_keeps_seen(s1, sorted_keys(s1.channels.dom()), p, row_channels(rows), ch);
}

/// `b` has the local publish and subscribe generations of `a`.
pub open spec fn same_generations<W>(a: PubsubView<W>, b: PubsubView<W>) -> bool {
    a.local_publish_generation == b.local_publish_generation
        && a.local_subscribe_generation == b.local_subscribe_generation
}

proof fn lemma_drop_member_in_generations<W>(s: PubsubView<W>, keys: Seq<u64>, p: u64, seen: Set<u64>)
    ensures
        same_generations(s, s.drop_member_in(keys, p, seen)),
    decreases keys.len(),
{
    if keys.len() > 0 {
        lemma_drop_member_in_generations(s, keys.drop_last(), p, seen);
    }
}

proof fn lemma_evict_all_generations<W>(s: PubsubView<W>, keys: Seq<u64>)
    ensures
        same_generations(s, s.evict_all(keys)),
    decreases keys.len(),
{
    if keys.len() > 0 {
        lemma_evict_all_generations(s, keys.drop_last());
    }
}

/// Only this node's own publishers and subscribers move its generations:
/// whatever another node sends, and a node's disconnection, keep the local
/// publish and subscribe generations as they are.
pub proof fn law_remote_events_keep_generations<W>(s: PubsubView<W>, p: u64, m: MessageView)
    ensures
        same_generations(s, s.after_remote(p, m)),
        same_generations(s, s.after_disconnect(p)),
{
    lemma_drop_member_in_generations(s.after_disconnect_start(p), sorted_keys(s.channels.dom()), p, Set::empty());
    match m {
        MessageView::PublisherJoined(c, g) | MessageView::SubscriberJoined(c, g) => {
            lemma_evict_all_generations(s, sorted_keys(s.channels.dom()));
        },
        MessageView::Heartbeat(rows) => {
            if rows.len() <= MAX_HEARTBEAT_CHANNELS_PER_BATCH {
                let s0 = PubsubView { heartbeat_chunks: s.heartbeat_chunks.remove(p), ..s };
                let s1 = s0.apply_rows(p, rows);
                lemma_apply_rows_frame(s0, p, rows);
                lemma_drop_member_in_generations(s1, sorted_keys(s1.channels.dom()), p, row_channels(rows));
            }
        },
        MessageView::HeartbeatChunk(rows, is_last) => {
            if rows.len() <= MAX_HEARTBEAT_CHANNELS_PER_BATCH {
                let earlier = if s.heartbeat_chunks.contains_key(p) {
                    s.heartbeat_chunks[p]
                } else {
                    Set::empty()
                };
                let seen = earlier.union(row_channels(rows).intersect(s.channels.dom()));
                let s0 = PubsubView { heartbeat_chunks: s.heartbeat_chunks.insert(p, seen), ..s };
                let s1 = s0.apply_rows(p, rows);
                lemma_apply_rows_frame(s0, p, rows);
                let s2 = PubsubView { heartbeat_chunks: s1.heartbeat_chunks.remove(p), ..s1 };
                lemma_drop_member_in_generations(s2, sorted_keys(s2.channels.dom()), p, seen);
            }
        },
        _ => {},
    }
}

/// Publishing, giving feedback, asking and answering questions, their
/// time-outs and the heartbeat keep the local publish and subscribe
/// generations as they are.
pub proof fn law_local_traffic_keeps_generations<W>(
    s: PubsubView<W>,
    ch: u64,
    data: Seq<u8>,
    ph: PublisherHandleId,
    sh: SubscriberHandleId,
    id: u64,
    to: PeerSrc,
    now: u64,
)
    ensures
        same_generations(s, s.after_local_guest_publish(ch, data)),
        same_generations(s, s.after_local_publish(ph, ch, data)),
        same_generations(s, s.after_local_guest_feedback(ch, data)),
        same_generations(s, s.after_local_feedback(sh, ch, data)),
        same_generations(s, s.after_local_publish_answer(sh, id, to, data)),
        same_generations(s, s.after_local_feedback_answer(ph, id, to, data)),
        same_generations(s, s.after_rpc_timeout(now)),
        same_generations(s, s.after_heartbeat_tick()),
{
}

/// This node's publish and subscribe generations move with its own handles
/// alone: a channel's first local publisher (subscriber) takes the next
/// publish (subscribe) generation, for the node and the channel, and every
/// node is told of it; so does the departure of a channel's last one; any
/// other creation or departure, and everything else that happens (messages
/// from other nodes, their disconnection, local traffic, time-outs and
/// heartbeats), leaves both generations as they are.
pub proof fn law_generations_follow_local_handles<W>(
    s: PubsubView<W>,
    ph: PublisherHandleId,
    sh: SubscriberHandleId,
    ch: u64,
    p: u64,
    m: MessageView,
    data: Seq<u8>,
    id: u64,
    to: PeerSrc,
    now: u64,
)
    ensures
        ({
            let g = s.local_publish_generation;
            let gs = s.local_subscribe_generation;
            let first_pub = s.channel_or_empty(ch).local_publishers.is_empty();
            let first_sub = s.channel_or_empty(ch).local_subscribers.is_empty();
            let last_pub = s.channels.contains_key(ch) && is_local_publisher(s.channels[ch], ph)
                && s.channels[ch].local_publishers.remove(ph.owner).is_empty();
            let last_sub = s.channels.contains_key(ch) && is_local_subscriber(s.channels[ch], sh)
                && s.channels[ch].local_subscribers.remove(sh.owner).is_empty();
            let pc = s.after_publisher_created(ph, ch);
            let sc = s.after_subscriber_created(sh, ch);
            let pd = s.after_publisher_destroyed(ph, ch);
            let sd = s.after_subscriber_destroyed(sh, ch);
            &&& pc.local_publish_generation == (if first_pub {
                bump(g)
            } else {
                g
            })
            &&& pc.local_subscribe_generation == gs
            &&& first_pub ==> pc.channels[ch].local_publish_generation == bump(g) && pc.outs.last()
                == ActionView::Broadcast(MessageView::PublisherJoined(PubsubChannelId(ch), bump(g)))
            &&& sc.local_subscribe_generation == (if first_sub {
                bump(gs)
            } else {
                gs
            })
            &&& sc.local_publish_generation == g
            &&& first_sub ==> sc.channels[ch].local_subscribe_generation == bump(gs) && sc.outs.last()
                == ActionView::Broadcast(MessageView::SubscriberJoined(PubsubChannelId(ch), bump(gs)))
            &&& pd.local_publish_generation == (if last_pub {
                bump(g)
            } else {
                g
            })
            &&& pd.local_subscribe_generation == gs
            &&& last_pub ==> pd.outs.last() == ActionView::Broadcast(
                MessageView::PublisherLeaved(PubsubChannelId(ch), bump(g)),
            )
            &&& last_pub && pd.channels.contains_key(ch) ==> pd.channels[ch].local_publish_generation == bump(g)
            &&& sd.local_subscribe_generation == (if last_sub {
                bump(gs)
            } else {
                gs
            })
            &&& sd.local_publish_generation == g
            &&& last_sub ==> sd.outs.last() == ActionView::Broadcast(
                MessageView::SubscriberLeaved(PubsubChannelId(ch), bump(gs)),
            )
            &&& last_sub && sd.channels.contains_key(ch) ==> sd.channels[ch].local_subscribe_generation == bump(gs)
            &&& same_generations(s, s.after_remote(p, m))
            &&& same_generations(s, s.after_disconnect(p))
            &&& same_generations(s, s.after_local_guest_publish(ch, data))
            &&& same_generations(s, s.after_local_publish(ph, ch, data))
            &&& same_generations(s, s.after_local_guest_feedback(ch, data))
            &&& same_generations(s, s.after_local_feedback(sh, ch, data))
            &&& same_generations(s, s.after_local_publish_answer(sh, id, to, data))
            &&& same_generations(s, s.after_local_feedback_answer(ph, id, to, data))
            &&& same_generations(s, s.after_rpc_timeout(now))
            &&& same_generations(s, s.after_heartbeat_tick())
        }),
{
    law_remote_events_keep_generations(s, p, m);
    law_local_traffic_keeps_generations(s, ch, data, ph, sh, id, to, now);
}

/// Feedback given by a local subscriber of a channel reaches every active
/// remote publisher of that channel: the queued actions grow by ones that
/// end with a message to a list of nodes holding each such publisher,
/// carrying the feedback on that channel.
pub proof fn law_feedback_reaches_publishers<W>(
    s: PubsubView<W>,
    h: SubscriberHandleId,
    ch: u64,
    data: Seq<u8>,
    q: u64,
)
    requires
        s.channels.contains_key(ch),
        is_local_subscriber(s.channels[ch], h),
        s.channels[ch].remote_publishers.dom().finite(),
        s.channels[ch].remote_publishers.contains_key(q),
        s.channels[ch].remote_publishers[q].active,
    ensures
        ({
            let s2 = s.after_local_feedback(h, ch, data);
            &&& s2.outs.len() > s.outs.len()
            &&& s2.outs.subrange(0, s.outs.len() as int) == s.outs
            &&& s2.outs.last() matches ActionView::ToPeers(peers, m) && m == MessageView::Feedback(
                PubsubChannelId(ch),
                data,
            ) && peers.contains(PeerId(q))
        }),
{
    let m = s.channels[ch].remote_publishers;
    let keys = sorted_keys(m.dom());
    lemma_sorted_keys_exists(m.dom());
    assert(keys.to_set().contains(q));
    let pred = |k: u64| m[k].active;
    keys.filter_lemma(pred);
    assert(keys.filter(pred).contains(q));
    let j = choose|j: int| 0 <= j < keys.filter(pred).len() && keys.filter(pred)[j] == q;
    let peers = keys.filter(pred).map_values(|k: u64| PeerId(k));
    assert(peers[j] == PeerId(q));
    assert(peers.len() > 0);
    let s2 = s.after_local_feedback(h, ch, data);
    assert(s2.outs.subrange(0, s.outs.len() as int) =~= s.outs);
}

/// A local publisher's answer to a feedback question it was asked closes
/// the question and hands its asker exactly that data: after the question
/// is put to local publishers among which is `ph`, the answer of `ph`
/// removes it and adds `Ok(data)` for its asker as the last reply; and in
/// any state, such an answer to a pending question that asked `ph` does
/// the same.
pub proof fn law_local_feedback_answer_settles<W>(
    s: PubsubView<W>,
    id: u64,
    local: Seq<PublisherHandleId>,
    remote: Seq<PeerId>,
    started: u64,
    timeout: u64,
    waiter: W,
    ph: PublisherHandleId,
    data: Seq<u8>,
)
    requires
        local.contains(ph),
    ensures
        ({
            let s1 = s.after_feedback_rpc_sent(id, local, remote, started, timeout, waiter);
            let s2 = s1.after_local_feedback_answer(ph, id, PeerSrc::Local, data);
            &&& !s2.feedback_reqs.contains_key(id)
            &&& s2.replies == s1.replies.push((waiter, Ok(data)))
            &&& s2.feedback_reqs == s1.feedback_reqs.remove(id)
            &&& s2.publish_reqs == s1.publish_reqs
        }),
        s.feedback_reqs.contains_key(id) && s.feedback_reqs[id].local.contains((ph.owner, ph.local_id.0)) ==> {
            let s2 = s.after_local_feedback_answer(ph, id, PeerSrc::Local, data);
            &&& !s2.feedback_reqs.contains_key(id)
            &&& s2.replies == s.replies.push((s.feedback_reqs[id].waiter, Ok(data)))
            &&& s2.outs == s.outs
        },
{
    let j = choose|j: int| 0 <= j < local.len() && local[j] == ph;
    let pairs = local.map_values(|h: PublisherHandleId| (h.owner, h.local_id.0));
    assert(pairs[j] == (ph.owner, ph.local_id.0));
    assert(pairs.contains((ph.owner, ph.local_id.0)));
}

/// Feedback given by a local subscriber of a channel reaches each local
/// publisher of that channel first, as one event to all of them; feedback
/// from a handle that does not subscribe there changes nothing.
pub proof fn law_feedback_reaches_local_publishers<W>(
    s: PubsubView<W>,
    h: SubscriberHandleId,
    ch: u64,
    data: Seq<u8>,
    o: u64,
)
    ensures
        s.channels.contains_key(ch) && is_local_subscriber(s.channels[ch], h)
            && s.channels[ch].local_publishers.dom().finite() && s.channels[ch].local_publishers.contains_key(o) ==> (
        s.after_local_feedback(h, ch, data).outs[s.outs.len() as int] == ActionView::ToPublishers(
            publisher_handles(s.channels[ch].local_publishers),
            PublisherEventView::Feedback(data),
        ) && publisher_handles(s.channels[ch].local_publishers).contains(
            PublisherHandleId { local_id: super::PublisherLocalId(s.channels[ch].local_publishers[o]), owner: o },
        )),
        !(s.channels.contains_key(ch) && is_local_subscriber(s.channels[ch], h)) ==> s.after_local_feedback(
            h,
            ch,
            data,
        ) == s,
{
    if s.channels.contains_key(ch) && is_local_subscriber(s.channels[ch], h)
        && s.channels[ch].local_publishers.dom().finite() && s.channels[ch].local_publishers.contains_key(o) {
        let m = s.channels[ch].local_publishers;
        let keys = sorted_keys(m.dom());
        lemma_sorted_keys_exists(m.dom());
        assert(keys.to_set().contains(o));
        let j = choose|j: int| 0 <= j < keys.len() && keys[j] == o;
        let hs = publisher_handles(m);
        assert(hs[j] == PublisherHandleId { local_id: super::PublisherLocalId(m[o]), owner: o });
    }
}

/// An answer to feedback question `id` given by a local publisher that the
/// question did not ask, or to a question not pending, changes nothing; an
/// answer meant for another node is sent to that node alone.
pub proof fn law_feedback_answer_routing<W>(s: PubsubView<W>, ph: PublisherHandleId, id: u64, q: PeerId, data: Seq<u8>)
    ensures
        !(s.feedback_reqs.contains_key(id) && s.feedback_reqs[id].local.contains((ph.owner, ph.local_id.0)))
            ==> s.after_local_feedback_answer(ph, id, PeerSrc::Local, data) == s,
        s.after_local_feedback_answer(ph, id, PeerSrc::Remote(q), data) == (PubsubView {
            outs: s.outs.push(ActionView::ToPeers(seq![q], MessageView::FeedbackRpcAnswer(data, super::RpcId(id)))),
            ..s
        }),
{
}

} // verus!
