use p2p_services::peer::PeerId;
use p2p_services::pubsub_service::state::{ChannelHeartbeat, PubsubAction, PubsubCore, PubsubMessage};
use p2p_services::pubsub_service::{
    publisher_event_ob, subscriber_event_ob, PublisherEventOb, SubscriberEventOb, PeerSrc, PublisherEvent, PublisherHandleId, PublisherLocalId, PubsubChannelId, PubsubChannelState,
    PubsubRpcError, RpcId, SubscriberEvent, SubscriberHandleId, SubscriberLocalId, MAX_HEARTBEAT_CHANNELS_PER_BATCH,
    MAX_PENDING_RPC_REQUESTS, MAX_REMOTE_CREATED_CHANNELS, MAX_REMOTE_MEMBERS_PER_CHANNEL, MAX_RPC_METHOD_LEN,
};

type Core = PubsubCore<u32>;

fn publisher(local: u64, owner: u64) -> PublisherHandleId {
    PublisherHandleId::new(PublisherLocalId::from_raw_for_test(local), owner)
}

fn subscriber(local: u64, owner: u64) -> SubscriberHandleId {
    SubscriberHandleId::new(SubscriberLocalId::from_raw_for_test(local), owner)
}

fn drain(core: &mut Core) -> Vec<PubsubAction> {
    let mut out = Vec::new();
    while let Some(a) = core.pop_action() {
        out.push(a);
    }
    out
}

fn replies(core: &mut Core) -> Vec<(u32, Result<Vec<u8>, PubsubRpcError>)> {
    let mut out = Vec::new();
    while let Some(r) = core.pop_reply() {
        out.push(r);
    }
    out
}

fn row(channel: u64, publish: bool, publish_generation: u64, subscribe: bool, subscribe_generation: u64) -> ChannelHeartbeat {
    ChannelHeartbeat { channel: PubsubChannelId(channel), publish, publish_generation, subscribe, subscribe_generation }
}

fn has_remote_publisher(core: &Core, channel: u64, peer: u64) -> bool {
    core.channels.get(&channel).map(|st| st.has_remote_publisher(PeerId(peer))).unwrap_or(false)
}

fn has_remote_subscriber(core: &Core, channel: u64, peer: u64) -> bool {
    core.channels.get(&channel).map(|st| st.has_remote_subscriber(PeerId(peer))).unwrap_or(false)
}

#[test]
fn remote_membership_cap_must_allow_existing_peer_updates() {
    let mut state = PubsubChannelState::default();

    for peer in 0..MAX_REMOTE_MEMBERS_PER_CHANNEL {
        assert_eq!(state.apply_remote_publisher(PeerId::from(peer as u64 + 10), 1, true), Some((false, true)));
    }

    let existing = PeerId::from(10);
    assert_eq!(state.apply_remote_publisher(existing, 2, false), Some((true, false)));
    assert!(!state.has_remote_publisher(existing), "existing peer leave must still apply when membership map is full");
}

#[test]
fn remote_membership_cap_must_evict_inactive_entries_before_rejecting_new_peer() {
    let mut state = PubsubChannelState::default();

    for peer in 0..MAX_REMOTE_MEMBERS_PER_CHANNEL {
        let active = peer != 0;
        assert_eq!(state.apply_remote_publisher(PeerId::from(peer as u64 + 10), 1, active), Some((false, active)));
    }

    let new_peer = PeerId::from(20_000);
    assert_eq!(state.apply_remote_publisher(new_peer, 1, true), Some((false, true)));
    assert!(state.has_remote_publisher(new_peer), "new peer should be admitted after pruning inactive entries");
    assert!(state.remote_publishers.len() <= MAX_REMOTE_MEMBERS_PER_CHANNEL);
}

#[test]
fn membership_cap_refuses_new_peer_when_all_members_active() {
    let mut state = PubsubChannelState::default();
    for peer in 0..MAX_REMOTE_MEMBERS_PER_CHANNEL {
        state.apply_remote_subscriber(PeerId(peer as u64), 1, true);
    }
    assert_eq!(state.apply_remote_subscriber(PeerId(50_000), 1, true), None);
    assert_eq!(state.remote_subscribers.len(), MAX_REMOTE_MEMBERS_PER_CHANNEL);
}

#[test]
fn old_or_equal_generation_is_refused_but_heartbeat_takes_equal() {
    let mut state = PubsubChannelState::default();
    assert_eq!(state.apply_remote_publisher(PeerId(1), 5, true), Some((false, true)));
    assert_eq!(state.apply_remote_publisher(PeerId(1), 5, false), None);
    assert_eq!(state.apply_remote_publisher(PeerId(1), 4, false), None);
    assert!(state.has_remote_publisher(PeerId(1)));
    assert_eq!(state.apply_remote_publisher_heartbeat(PeerId(1), 5, false), Some((true, false)));
    assert!(!state.has_remote_publisher(PeerId(1)));
}

#[test]
fn new_local_pubsub_handles_must_observe_existing_remote_members() {
    let mut core = Core::new();
    let channel = PubsubChannelId(1);
    core.on_remote_message(PeerId(2), PubsubMessage::PublisherJoined(channel, 1));
    core.on_remote_message(PeerId(3), PubsubMessage::SubscriberJoined(channel, 1));
    drain(&mut core);

    let p = publisher(11, 1);
    core.on_publisher_created(p, channel);
    let s = subscriber(12, 2);
    core.on_subscriber_created(s, channel);
    let actions = drain(&mut core);

    assert!(actions.contains(&PubsubAction::ToPublishers(vec![p], PublisherEvent::PeerJoined(PeerSrc::Remote(PeerId(3))))));
    assert!(actions.contains(&PubsubAction::ToSubscribers(vec![s], SubscriberEvent::PeerJoined(PeerSrc::Remote(PeerId(2))))));
    assert!(actions.contains(&PubsubAction::Broadcast(PubsubMessage::PublisherJoined(channel, 1))));
    assert!(actions.contains(&PubsubAction::Broadcast(PubsubMessage::SubscriberJoined(channel, 1))));
}

#[test]
fn remote_publisher_join_notifies_subscribers_and_replies() {
    let mut core = Core::new();
    let channel = PubsubChannelId(4);
    let s = subscriber(1, 1);
    core.on_subscriber_created(s, channel);
    drain(&mut core);
    core.on_remote_message(PeerId(9), PubsubMessage::PublisherJoined(channel, 3));
    assert_eq!(
        drain(&mut core),
        vec![
            PubsubAction::ToSubscribers(vec![s], SubscriberEvent::PeerJoined(PeerSrc::Remote(PeerId(9)))),
            PubsubAction::ToPeers(vec![PeerId(9)], PubsubMessage::SubscriberJoined(channel, 1)),
        ]
    );
    // the same announcement again changes nothing
    core.on_remote_message(PeerId(9), PubsubMessage::PublisherJoined(channel, 3));
    assert!(drain(&mut core).is_empty());
}

#[test]
fn unknown_publisher_leave_must_tombstone_stale_join() {
    let mut core = Core::new();
    let channel = PubsubChannelId(10);
    core.on_remote_message(PeerId(2), PubsubMessage::PublisherLeaved(channel, 2));
    core.on_remote_message(PeerId(2), PubsubMessage::PublisherJoined(channel, 1));
    core.on_subscriber_created(subscriber(5, 1), channel);
    assert!(!has_remote_publisher(&core, 10, 2));
    assert!(!drain(&mut core)
        .iter()
        .any(|a| matches!(a, PubsubAction::ToSubscribers(_, SubscriberEvent::PeerJoined(PeerSrc::Remote(_))))));
}

#[test]
fn unknown_subscriber_leave_must_tombstone_stale_join() {
    let mut core = Core::new();
    let channel = PubsubChannelId(10);
    core.on_remote_message(PeerId(2), PubsubMessage::SubscriberLeaved(channel, 2));
    core.on_remote_message(PeerId(2), PubsubMessage::SubscriberJoined(channel, 1));
    core.on_publisher_created(publisher(5, 1), channel);
    assert!(!has_remote_subscriber(&core, 10, 2));
    // a newer join is taken and clears the tombstone
    core.on_remote_message(PeerId(2), PubsubMessage::SubscriberJoined(channel, 3));
    assert!(has_remote_subscriber(&core, 10, 2));
    assert!(!core.remote_role_tombstones.contains_key(&(10, 2)));
}

#[test]
fn reclaimed_remote_publisher_tombstone_must_reject_stale_join() {
    let mut core = Core::new();
    let remote = PeerId(2);
    for channel in 0..MAX_REMOTE_CREATED_CHANNELS {
        let channel = PubsubChannelId(channel as u64 + 10);
        core.on_remote_message(remote, PubsubMessage::PublisherJoined(channel, 1));
        core.on_remote_message(remote, PubsubMessage::PublisherLeaved(channel, 2));
    }
    assert_eq!(core.channels.len(), MAX_REMOTE_CREATED_CHANNELS);
    core.on_remote_message(remote, PubsubMessage::PublisherJoined(PubsubChannelId(999_999), 1));
    assert_eq!(core.channels.len(), 1, "idle remote-only channels must be reclaimed under cap pressure");
    assert_eq!(core.remote_role_tombstones.len(), MAX_REMOTE_CREATED_CHANNELS);

    core.on_remote_message(remote, PubsubMessage::PublisherJoined(PubsubChannelId(10), 1));
    core.on_subscriber_created(subscriber(1, 1), PubsubChannelId(10));
    assert!(!has_remote_publisher(&core, 10, 2), "stale publisher join must not resurrect after reclamation");
}

#[test]
fn remote_created_channel_cap_refuses_join_when_all_channels_busy() {
    let mut core = Core::new();
    for channel in 0..MAX_REMOTE_CREATED_CHANNELS {
        core.on_remote_message(PeerId(2), PubsubMessage::PublisherJoined(PubsubChannelId(channel as u64), 1));
    }
    core.on_remote_message(PeerId(3), PubsubMessage::SubscriberJoined(PubsubChannelId(5_000_000), 1));
    assert!(!core.channels.contains_key(&5_000_000));
    assert_eq!(core.channels.len(), MAX_REMOTE_CREATED_CHANNELS);
}

#[test]
fn stale_pubsub_leave_must_not_remove_membership_after_newer_heartbeat() {
    let mut core = Core::new();
    let channel = PubsubChannelId(1);
    core.on_subscriber_created(subscriber(1, 1), channel);
    core.on_remote_message(PeerId(2), PubsubMessage::PublisherJoined(channel, 1));
    core.on_remote_message(PeerId(2), PubsubMessage::Heartbeat(vec![row(1, true, 3, false, 0)]));
    core.on_remote_message(PeerId(2), PubsubMessage::PublisherLeaved(channel, 2));
    assert!(has_remote_publisher(&core, 1, 2));
}

#[test]
fn pubsub_restart_with_reset_generation_must_restore_remote_membership() {
    let mut core = Core::new();
    let channel = PubsubChannelId(1);
    let s = subscriber(1, 1);
    core.on_subscriber_created(s, channel);
    drain(&mut core);
    let remote = PeerId(2);

    core.on_remote_message(remote, PubsubMessage::Heartbeat(vec![row(1, true, 2, false, 0)]));
    assert_eq!(drain(&mut core), vec![PubsubAction::ToSubscribers(vec![s], SubscriberEvent::PeerJoined(PeerSrc::Remote(remote)))]);
    core.on_remote_message(remote, PubsubMessage::PublisherLeaved(channel, 3));
    assert_eq!(drain(&mut core), vec![PubsubAction::ToSubscribers(vec![s], SubscriberEvent::PeerLeaved(PeerSrc::Remote(remote)))]);
    core.on_peer_disconnected(remote);
    core.on_remote_message(remote, PubsubMessage::Heartbeat(vec![row(1, true, 1, false, 0)]));
    assert!(has_remote_publisher(&core, 1, 2));
    assert_eq!(drain(&mut core), vec![PubsubAction::ToSubscribers(vec![s], SubscriberEvent::PeerJoined(PeerSrc::Remote(remote)))]);
}

#[test]
fn pubsub_peer_disconnect_must_remove_active_remote_membership() {
    let mut core = Core::new();
    let channel = PubsubChannelId(1);
    let p = publisher(1, 1);
    core.on_publisher_created(p, channel);
    core.on_remote_message(PeerId(2), PubsubMessage::SubscriberJoined(channel, 1));
    core.on_remote_message(PeerId(2), PubsubMessage::PublisherJoined(PubsubChannelId(2), 1));
    drain(&mut core);
    core.on_peer_disconnected(PeerId(2));
    assert!(!has_remote_subscriber(&core, 1, 2));
    assert!(!core.channels.contains_key(&2), "a channel left empty is pruned");
    assert_eq!(drain(&mut core), vec![PubsubAction::ToPublishers(vec![p], PublisherEvent::PeerLeaved(PeerSrc::Remote(PeerId(2))))]);
}

#[test]
fn pubsub_heartbeat_channel_batches_must_be_bounded() {
    let mut core = Core::new();
    let rows: Vec<ChannelHeartbeat> = (0..=MAX_HEARTBEAT_CHANNELS_PER_BATCH).map(|i| row(i as u64, true, 1, false, 0)).collect();
    for i in 0..=MAX_HEARTBEAT_CHANNELS_PER_BATCH {
        core.on_subscriber_created(subscriber(i as u64, i as u64), PubsubChannelId(i as u64));
    }
    core.on_remote_message(PeerId(2), PubsubMessage::Heartbeat(rows));
    assert!(!has_remote_publisher(&core, 0, 2), "an oversized heartbeat must be dropped");
}

#[test]
fn pubsub_heartbeat_channel_batch_at_cap_must_be_accepted() {
    let mut core = Core::new();
    let rows: Vec<ChannelHeartbeat> = (0..MAX_HEARTBEAT_CHANNELS_PER_BATCH).map(|i| row(i as u64, true, 1, false, 0)).collect();
    for i in 0..MAX_HEARTBEAT_CHANNELS_PER_BATCH {
        core.on_subscriber_created(subscriber(i as u64, i as u64), PubsubChannelId(i as u64));
    }
    core.on_remote_message(PeerId(2), PubsubMessage::Heartbeat(rows));
    assert!(has_remote_publisher(&core, 0, 2));
    assert!(has_remote_publisher(&core, (MAX_HEARTBEAT_CHANNELS_PER_BATCH - 1) as u64, 2));
}

#[test]
fn pubsub_heartbeat_must_remove_stale_remote_subscriber() {
    let mut core = Core::new();
    let p = publisher(1, 1);
    core.on_publisher_created(p, PubsubChannelId(1));
    core.on_remote_message(PeerId(2), PubsubMessage::SubscriberJoined(PubsubChannelId(1), 1));
    drain(&mut core);
    core.on_remote_message(PeerId(2), PubsubMessage::Heartbeat(vec![]));
    assert!(!has_remote_subscriber(&core, 1, 2));
    assert_eq!(drain(&mut core), vec![PubsubAction::ToPublishers(vec![p], PublisherEvent::PeerLeaved(PeerSrc::Remote(PeerId(2))))]);
}

#[test]
fn pubsub_chunked_heartbeat_must_not_remove_roles_from_previous_chunk() {
    let mut core = Core::new();
    let mut rows = Vec::new();
    for idx in 0..=MAX_HEARTBEAT_CHANNELS_PER_BATCH {
        core.on_subscriber_created(subscriber(idx as u64, idx as u64), PubsubChannelId(idx as u64 + 10));
        rows.push(row(idx as u64 + 10, true, 1, false, 1));
    }
    let last = (rows.len() - 1) / MAX_HEARTBEAT_CHANNELS_PER_BATCH;
    for (i, chunk) in rows.chunks(MAX_HEARTBEAT_CHANNELS_PER_BATCH).enumerate() {
        core.on_remote_message(PeerId(2), PubsubMessage::HeartbeatChunk { channels: chunk.to_vec(), is_last: i == last });
    }
    let updated = core.channels.values().filter(|st| st.has_remote_publisher(PeerId(2))).count();
    assert_eq!(updated, MAX_HEARTBEAT_CHANNELS_PER_BATCH + 1);
    assert!(core.pending_heartbeat_chunks.is_empty());
}

#[test]
fn pubsub_outbound_heartbeat_batches_must_respect_inbound_cap() {
    let mut core = Core::new();
    for idx in 0..=MAX_HEARTBEAT_CHANNELS_PER_BATCH {
        core.on_subscriber_created(subscriber(idx as u64, idx as u64), PubsubChannelId(idx as u64));
    }
    drain(&mut core);
    core.on_heartbeat_tick();
    let actions = drain(&mut core);
    assert_eq!(actions.len(), 2);
    match &actions[0] {
        PubsubAction::Broadcast(PubsubMessage::HeartbeatChunk { channels, is_last }) => {
            assert_eq!(channels.len(), MAX_HEARTBEAT_CHANNELS_PER_BATCH);
            assert!(!is_last);
            assert_eq!(channels[0], row(0, false, 0, true, 1));
        }
        other => panic!("unexpected {other:?}"),
    }
    match &actions[1] {
        PubsubAction::Broadcast(PubsubMessage::HeartbeatChunk { channels, is_last }) => {
            assert_eq!(channels.len(), 1);
            assert!(is_last);
        }
        other => panic!("unexpected {other:?}"),
    }
}

#[test]
fn small_heartbeat_is_one_message() {
    let mut core = Core::new();
    core.on_publisher_created(publisher(1, 1), PubsubChannelId(3));
    drain(&mut core);
    core.on_heartbeat_tick();
    assert_eq!(drain(&mut core), vec![PubsubAction::Broadcast(PubsubMessage::Heartbeat(vec![row(3, true, 1, false, 0)]))]);
}

#[test]
fn empty_pubsub_channels_must_be_removed_after_last_local_handle_drops() {
    let mut core = Core::new();
    let s1 = subscriber(1, 1);
    let s2 = subscriber(2, 2);
    core.on_subscriber_created(s1, PubsubChannelId(1));
    core.on_subscriber_created(s2, PubsubChannelId(1));
    core.on_subscriber_destroyed(s1, PubsubChannelId(1));
    assert!(core.channels.contains_key(&1));
    core.on_subscriber_destroyed(s2, PubsubChannelId(1));
    assert!(!core.channels.contains_key(&1));
    let actions = drain(&mut core);
    assert_eq!(actions.last(), Some(&PubsubAction::Broadcast(PubsubMessage::SubscriberLeaved(PubsubChannelId(1), 2))));
}

#[test]
fn pubsub_prune_must_preserve_channels_with_remote_state() {
    let mut core = Core::new();
    let p = publisher(1, 1);
    core.on_publisher_created(p, PubsubChannelId(1));
    core.on_remote_message(PeerId(2), PubsubMessage::SubscriberJoined(PubsubChannelId(1), 1));
    core.on_publisher_destroyed(p, PubsubChannelId(1));
    assert!(core.channels.contains_key(&1));
}

#[test]
fn pubsub_recreate_after_prune_must_use_newer_publisher_generation() {
    let mut core = Core::new();
    let p = publisher(1, 1);
    core.on_publisher_created(p, PubsubChannelId(1));
    core.on_publisher_destroyed(p, PubsubChannelId(1));
    drain(&mut core);
    core.on_publisher_created(publisher(2, 2), PubsubChannelId(1));
    assert_eq!(drain(&mut core), vec![PubsubAction::Broadcast(PubsubMessage::PublisherJoined(PubsubChannelId(1), 3))]);
}

#[test]
fn stale_pubsub_destroy_must_not_create_phantom_channel() {
    let mut core = Core::new();
    core.on_publisher_destroyed(publisher(1, 1), PubsubChannelId(77));
    core.on_subscriber_destroyed(subscriber(1, 2), PubsubChannelId(78));
    assert!(core.channels.is_empty());
    assert!(drain(&mut core).is_empty());
}

#[test]
fn duplicate_publisher_local_id_must_not_detach_live_handle() {
    let mut core = Core::new();
    let first = publisher(7, 1);
    let second = publisher(7, 2);
    core.on_publisher_created(first, PubsubChannelId(1));
    core.on_publisher_created(second, PubsubChannelId(1));
    drain(&mut core);
    core.on_subscriber_created(subscriber(3, 3), PubsubChannelId(1));
    let actions = drain(&mut core);
    assert!(actions.contains(&PubsubAction::ToPublishers(vec![first, second], PublisherEvent::PeerJoined(PeerSrc::Local))));
    // destroying with the wrong owner detaches nothing
    core.on_publisher_destroyed(publisher(7, 9), PubsubChannelId(1));
    assert_eq!(core.channels.get(&1).unwrap().local_publishers.len(), 2);
}

#[test]
fn pubsub_publish_must_require_remote_publisher_membership() {
    let mut core = Core::new();
    let s = subscriber(1, 1);
    core.on_subscriber_created(s, PubsubChannelId(1));
    drain(&mut core);
    core.on_remote_message(PeerId(2), PubsubMessage::Publish(PubsubChannelId(1), vec![1, 2]));
    assert!(drain(&mut core).is_empty());
    core.on_remote_message(PeerId(2), PubsubMessage::PublisherJoined(PubsubChannelId(1), 1));
    drain(&mut core);
    core.on_remote_message(PeerId(2), PubsubMessage::Publish(PubsubChannelId(1), vec![1, 2]));
    assert_eq!(drain(&mut core), vec![PubsubAction::ToSubscribers(vec![s], SubscriberEvent::Publish(vec![1, 2]))]);
}

#[test]
fn pubsub_rpc_methods_must_be_bounded() {
    let mut core = Core::new();
    let s = subscriber(1, 1);
    core.on_subscriber_created(s, PubsubChannelId(1));
    core.on_remote_message(PeerId(2), PubsubMessage::PublisherJoined(PubsubChannelId(1), 1));
    drain(&mut core);
    let long = "m".repeat(MAX_RPC_METHOD_LEN + 1);
    core.on_remote_message(PeerId(2), PubsubMessage::PublishRpc(PubsubChannelId(1), vec![1], RpcId(5), long));
    assert!(drain(&mut core).is_empty());
    let at_cap = "m".repeat(MAX_RPC_METHOD_LEN);
    core.on_remote_message(PeerId(2), PubsubMessage::PublishRpc(PubsubChannelId(1), vec![1], RpcId(5), at_cap.clone()));
    assert_eq!(
        drain(&mut core),
        vec![PubsubAction::ToSubscribers(vec![s], SubscriberEvent::PublishRpc(vec![1], RpcId(5), at_cap, PeerSrc::Remote(PeerId(2))))]
    );
}

#[test]
fn local_publish_goes_to_local_and_remote_subscribers() {
    let mut core = Core::new();
    let p = publisher(1, 1);
    let s = subscriber(2, 2);
    core.on_publisher_created(p, PubsubChannelId(1));
    core.on_subscriber_created(s, PubsubChannelId(1));
    core.on_remote_message(PeerId(5), PubsubMessage::SubscriberJoined(PubsubChannelId(1), 1));
    drain(&mut core);
    core.on_local_publish(p, PubsubChannelId(1), vec![9]);
    assert_eq!(
        drain(&mut core),
        vec![
            PubsubAction::ToSubscribers(vec![s], SubscriberEvent::Publish(vec![9])),
            PubsubAction::ToPeers(vec![PeerId(5)], PubsubMessage::Publish(PubsubChannelId(1), vec![9])),
        ]
    );
    // a handle that is not a publisher there publishes nothing
    core.on_local_publish(publisher(1, 7), PubsubChannelId(1), vec![9]);
    assert!(drain(&mut core).is_empty());
}

#[test]
fn pubsub_publish_rpc_no_destination() {
    let mut core = Core::new();
    assert!(core.begin_publish_rpc(None, PubsubChannelId(1), 7).is_none());
    assert_eq!(replies(&mut core), vec![(7, Err(PubsubRpcError::NoDestination))]);
    let p = publisher(1, 1);
    core.on_publisher_created(p, PubsubChannelId(1));
    assert!(core.begin_publish_rpc(Some(p), PubsubChannelId(1), 8).is_none());
    assert_eq!(replies(&mut core), vec![(8, Err(PubsubRpcError::NoDestination))]);
}

#[test]
fn pubsub_rpc_must_return_no_destination_when_all_sends_fail() {
    let mut core = Core::new();
    core.register_publish_rpc(RpcId(1), vec![], vec![], 0, 1000, 3);
    assert_eq!(replies(&mut core), vec![(3, Err(PubsubRpcError::NoDestination))]);
    assert!(core.publish_rpc_reqs.is_empty());
}

#[test]
fn pending_publish_rpc_requests_must_be_bounded() {
    let mut core = Core::new();
    let s = subscriber(1, 1);
    core.on_subscriber_created(s, PubsubChannelId(1));
    for i in 0..MAX_PENDING_RPC_REQUESTS {
        let (local, remote, w) = core.begin_publish_rpc(None, PubsubChannelId(1), i as u32).expect("room for the question");
        assert_eq!(local, vec![s]);
        assert!(remote.is_empty());
        core.register_publish_rpc(RpcId(i as u64), local, remote, 0, 1000, w);
    }
    assert!(core.begin_publish_rpc(None, PubsubChannelId(1), 99_999).is_none());
    assert_eq!(replies(&mut core), vec![(99_999, Err(PubsubRpcError::TooManyPendingRequests))]);
    assert_eq!(core.publish_rpc_reqs.len(), MAX_PENDING_RPC_REQUESTS);
}

#[test]
fn pubsub_publish_rpc_answer_must_be_bound_to_expected_responder() {
    let mut core = Core::new();
    let s = subscriber(1, 1);
    core.on_subscriber_created(s, PubsubChannelId(1));
    core.on_remote_message(PeerId(4), PubsubMessage::SubscriberJoined(PubsubChannelId(1), 1));
    let (local, remote, w) = core.begin_publish_rpc(None, PubsubChannelId(1), 1).unwrap();
    assert_eq!(remote, vec![PeerId(4)]);
    core.register_publish_rpc(RpcId(77), local, remote, 0, 1000, w);

    core.on_remote_message(PeerId(5), PubsubMessage::PublishRpcAnswer(vec![1], RpcId(77)));
    core.on_local_publish_answer(subscriber(1, 9), RpcId(77), PeerSrc::Local, vec![2]);
    assert!(replies(&mut core).is_empty());

    core.on_remote_message(PeerId(4), PubsubMessage::PublishRpcAnswer(vec![3], RpcId(77)));
    assert_eq!(replies(&mut core), vec![(1, Ok(vec![3]))]);
    assert!(core.publish_rpc_reqs.is_empty());
}

#[test]
fn pubsub_publish_rpc_local_answer() {
    let mut core = Core::new();
    let s = subscriber(1, 1);
    core.on_subscriber_created(s, PubsubChannelId(1));
    let (local, remote, w) = core.begin_publish_rpc(None, PubsubChannelId(1), 1).unwrap();
    core.register_publish_rpc(RpcId(2), local, remote, 0, 1000, w);
    core.on_local_publish_answer(s, RpcId(2), PeerSrc::Local, vec![8]);
    assert_eq!(replies(&mut core), vec![(1, Ok(vec![8]))]);
    drain(&mut core);
    // an answer meant for another node is sent there
    core.on_local_publish_answer(s, RpcId(3), PeerSrc::Remote(PeerId(6)), vec![4]);
    assert_eq!(drain(&mut core), vec![PubsubAction::ToPeers(vec![PeerId(6)], PubsubMessage::PublishRpcAnswer(vec![4], RpcId(3)))]);
}

#[test]
fn pubsub_feedback_rpc_remote_answer_and_timeout() {
    let mut core = Core::new();
    let s = subscriber(1, 1);
    core.on_subscriber_created(s, PubsubChannelId(1));
    core.on_remote_message(PeerId(4), PubsubMessage::PublisherJoined(PubsubChannelId(1), 1));
    let (local, remote, w) = core.begin_feedback_rpc(Some(s), PubsubChannelId(1), 1).unwrap();
    assert!(local.is_empty());
    core.register_feedback_rpc(RpcId(10), local, remote, 100, 50, w);
    let (local, remote, w) = core.begin_feedback_rpc(None, PubsubChannelId(1), 2).unwrap();
    core.register_feedback_rpc(RpcId(11), local, remote, 100, 500, w);
    assert_eq!(core.next_rpc_deadline(), Some(150));
    core.on_rpc_timeout(149);
    assert!(replies(&mut core).is_empty());
    core.on_rpc_timeout(150);
    assert_eq!(replies(&mut core), vec![(1, Err(PubsubRpcError::Timeout))]);
    core.on_remote_message(PeerId(4), PubsubMessage::FeedbackRpcAnswer(vec![6], RpcId(11)));
    assert_eq!(replies(&mut core), vec![(2, Ok(vec![6]))]);
    assert_eq!(core.next_rpc_deadline(), None);
}

#[test]
fn pubsub_rpc_huge_timeout_must_not_panic_deadline_calculation() {
    let mut core = Core::new();
    core.register_publish_rpc(RpcId(1), vec![subscriber(1, 1)], vec![], 10, u64::MAX, 1);
    assert_eq!(core.next_rpc_deadline(), None);
    core.on_rpc_timeout(u64::MAX);
    assert!(replies(&mut core).is_empty());
}

#[test]
fn decoded_events_keep_raw_data_when_decoding_fails() {
    let e = PublisherEvent::FeedbackRpc(vec![1, 2], RpcId(3), "m".to_string(), PeerSrc::Local);
    assert_eq!(e.payload(), Some(&vec![1, 2]));
    assert_eq!(
        publisher_event_ob::<u32>(e, None),
        PublisherEventOb::FeedbackRpcDeseializeErr(vec![1, 2], RpcId(3), "m".to_string(), PeerSrc::Local)
    );
    assert_eq!(publisher_event_ob::<u32>(PublisherEvent::Feedback(vec![9]), Some(7)), PublisherEventOb::Feedback(7));
    assert_eq!(
        subscriber_event_ob::<u32>(SubscriberEvent::PeerJoined(PeerSrc::Remote(PeerId(4))), None),
        SubscriberEventOb::PeerJoined(PeerSrc::Remote(PeerId(4)))
    );
    assert_eq!(subscriber_event_ob::<u32>(SubscriberEvent::Publish(vec![5]), None), SubscriberEventOb::PublishDeseializeErr(vec![5]));
    assert_eq!(SubscriberEvent::PeerLeaved(PeerSrc::Local).payload(), None);
}

#[test]
fn active_remote_members_are_listed_by_node() {
    let mut state = PubsubChannelState::default();
    state.apply_remote_publisher(PeerId(9), 1, true);
    state.apply_remote_publisher(PeerId(3), 1, true);
    state.apply_remote_publisher(PeerId(5), 1, false);
    state.apply_remote_subscriber(PeerId(7), 1, true);
    assert_eq!(state.active_remote_publishers(), vec![PeerId(3), PeerId(9)]);
    assert_eq!(state.active_remote_publishers_count(), 2);
    assert_eq!(state.active_remote_subscribers(), vec![PeerId(7)]);
    assert!(state.has_active_remote_publishers());
    assert!(!state.is_inactive_remote_only());
    assert!(!state.is_fully_empty());
}

#[test]
fn inactive_channel_must_not_be_reclaimed_when_tombstone_cap_would_drop_generations() {
    let mut core = Core::new();
    let inactive = [10u64, 11, 12];
    for channel in inactive {
        for peer in 0..MAX_REMOTE_MEMBERS_PER_CHANNEL {
            let peer = PeerId(peer as u64 + channel * 10_000 + 1);
            core.on_remote_message(peer, PubsubMessage::PublisherJoined(PubsubChannelId(channel), 1));
            core.on_remote_message(peer, PubsubMessage::PublisherLeaved(PubsubChannelId(channel), 2));
        }
    }
    for channel in 0..(MAX_REMOTE_CREATED_CHANNELS - 3) {
        core.on_subscriber_created(subscriber(channel as u64, channel as u64 + 1), PubsubChannelId(channel as u64 + 100_000));
    }
    assert_eq!(core.channels.len(), MAX_REMOTE_CREATED_CHANNELS);
    core.on_remote_message(PeerId(99_999), PubsubMessage::PublisherJoined(PubsubChannelId(999_999), 1));

    let protected = inactive.into_iter().find(|c| core.channels.contains_key(c)).expect("one inactive channel stays");
    assert!(core.remote_role_tombstones.len() <= 2 * MAX_REMOTE_CREATED_CHANNELS);
    let peer = PeerId(protected * 10_000 + 1);
    core.on_remote_message(peer, PubsubMessage::PublisherJoined(PubsubChannelId(protected), 1));
    assert!(!has_remote_publisher(&core, protected, peer.0));
}

#[test]
fn tombstone_must_survive_newer_join_dropped_by_channel_cap() {
    let mut core = Core::new();
    let remote = PeerId(2);
    core.on_remote_message(remote, PubsubMessage::PublisherJoined(PubsubChannelId(10), 1));
    core.on_remote_message(remote, PubsubMessage::PublisherLeaved(PubsubChannelId(10), 2));
    for channel in 0..MAX_REMOTE_CREATED_CHANNELS {
        core.on_subscriber_created(subscriber(channel as u64, channel as u64 + 1), PubsubChannelId(channel as u64 + 10_000));
    }
    core.on_remote_message(remote, PubsubMessage::PublisherJoined(PubsubChannelId(888_888), 1));
    assert!(!core.channels.contains_key(&10), "the idle channel is reclaimed into a tombstone");
    core.on_remote_message(remote, PubsubMessage::PublisherJoined(PubsubChannelId(10), 3));
    assert!(!core.channels.contains_key(&10), "the newer join is dropped at the cap");
    assert!(core.remote_role_tombstones.contains_key(&(10, 2)), "a dropped join keeps the tombstone");
    core.on_subscriber_destroyed(subscriber(0, 1), PubsubChannelId(10_000));
    core.on_remote_message(remote, PubsubMessage::PublisherJoined(PubsubChannelId(10), 1));
    core.on_subscriber_created(subscriber(77, 5_000), PubsubChannelId(10));
    assert!(!has_remote_publisher(&core, 10, 2));
}
