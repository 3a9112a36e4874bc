use p2p_services::replicate_kv_service::local_storage::LocalStore;
use p2p_services::replicate_kv_service::messages::{
    self, BroadcastEvent, BroadcastEventData, Event, KvEvent, NetEvent, RpcEvent, RpcEventData, Version,
};
use p2p_services::replicate_kv_service::remote_storage::RemoteStore;
use p2p_services::replicate_kv_service::{ReplicatedKvStore, MAX_REMOTE_STORES};
use rand::rngs::StdRng;
use rand::{Rng, SeedableRng};
use std::collections::{BTreeMap, HashMap};

#[test]
fn remote_store_creation_must_be_bounded() {
    let mut store: ReplicatedKvStore = ReplicatedKvStore::new(10, 10);

    for from in 0..=MAX_REMOTE_STORES as u64 {
        store.on_remote_event(from, NetEvent::Broadcast(BroadcastEvent { session_id: 7, data: BroadcastEventData::Version(Version(0)) }));
    }

    let remote_count = store.remotes.len();
    let queued_sync_requests = store.outs.len();

    assert!(remote_count <= MAX_REMOTE_STORES as usize, "remote stores must be bounded, got {remote_count}");
    assert!(queued_sync_requests <= MAX_REMOTE_STORES as usize, "queued full-sync requests must be bounded, got {queued_sync_requests}");
}

#[test]
fn unsolicited_rpc_response_from_unknown_peer_must_not_create_remote_store() {
    let mut store: ReplicatedKvStore = ReplicatedKvStore::new(10, 10);
    let unknown_peer = 42;

    store.on_remote_event(
        unknown_peer,
        NetEvent::Unicast(
            unknown_peer,
            RpcEvent {
                session_id: 7,
                data: RpcEventData::RpcRes(messages::RpcRes::FetchChanged(Err(messages::FetchChangedError::MissingData))),
            },
        ),
    );

    assert!(store.remotes.is_empty(), "an unsolicited RPC response from an unknown peer must not allocate remote state");
    assert!(store.outs.is_empty(), "an unsolicited RPC response from an unknown peer must not queue a full-sync request");
}

#[test]
fn replicated_kv_local_outbound_event_queue_must_be_bounded() {
    const MAX_PENDING_EVENTS: usize = 1024;
    let mut store: ReplicatedKvStore = ReplicatedKvStore::new(10, 10);

    for key in 0..=MAX_PENDING_EVENTS {
        store.set(key as u64, key as u64);
    }

    assert!(store.outs.len() <= MAX_PENDING_EVENTS, "replicated KV outbound event queue must be bounded, got {}", store.outs.len());
}

/// The request that the replica in session 1 sends to node 1.
fn request(req: messages::RpcReq) -> Option<Event> {
    Some(Event::NetEvent(NetEvent::Unicast(1, RpcEvent { session_id: 1, data: RpcEventData::RpcReq(req) })))
}

/// The answer that the local store queued last.
fn answer(local: &mut LocalStore) -> messages::RpcRes {
    match local.pop_out() {
        Some(Event::NetEvent(NetEvent::Unicast(_, RpcEvent { data: RpcEventData::RpcRes(res), .. }))) => res,
        _ => panic!("local store must answer the request"),
    }
}

#[test]
fn paginated_full_sync_must_recover_when_snapshot_version_becomes_unavailable() {
    let mut local: LocalStore = LocalStore::new(2, 10, 1);
    local.set(1, 10);
    local.set(2, 20);
    while local.pop_out().is_some() {}

    let mut remote: RemoteStore = RemoteStore::new(1, 1, 2);
    assert_eq!(
        remote.pop_out(),
        request(messages::RpcReq::FetchSnapshot {
            from: None,
            max_version: None,
            max_items: 1024,
        })
    );

    local.on_rpc_req(
        1,
        messages::RpcReq::FetchSnapshot {
            from: None,
            max_version: None,
            max_items: 1024,
        },
    );
    let messages::RpcRes::FetchSnapshot(first_page, first_version) = answer(&mut local) else {
        panic!("local store must answer the initial snapshot request");
    };
    assert_eq!(first_version, Version(2));

    remote.on_rpc_res(messages::RpcRes::FetchSnapshot(first_page, first_version));
    assert_eq!(
        remote.pop_out(),
        request(messages::RpcReq::FetchSnapshot {
            from: Some(2),
            max_version: Some(Version(2)),
            max_items: 1024,
        })
    );

    local.set(2, 21);
    while local.pop_out().is_some() {}
    local.on_rpc_req(
        1,
        messages::RpcReq::FetchSnapshot {
            from: Some(2),
            max_version: Some(Version(2)),
            max_items: 1024,
        },
    );
    let messages::RpcRes::FetchSnapshot(continuation, continuation_version) = answer(&mut local) else {
        panic!("local store must answer the continuation snapshot request");
    };
    assert_eq!(
        continuation,
        Some(messages::SnapshotData {
            slots: vec![],
            skipped_newer: vec![(2, Version(3))],
            next_key: None,
        }),
        "current local storage should skip the newer key and complete this pivoted snapshot page"
    );
    assert_eq!(continuation_version, Version(2));

    remote.on_rpc_res(messages::RpcRes::FetchSnapshot(continuation, continuation_version));

    assert_eq!(remote.pop_out(), Some(Event::KvEvent(KvEvent::Put(Some(1), 1, 10))));
    assert_eq!(
        remote.pop_out(),
        request(messages::RpcReq::FetchChanged { from: Version(3), count: 1 }),
        "after the pivoted full sync reports a skipped newer key, the remote should catch up without waiting for another broadcast"
    );
    assert_eq!(remote.pop_out(), None);

    local.on_rpc_req(1, messages::RpcReq::FetchChanged { from: Version(3), count: 1 });
    let changed = answer(&mut local);
    remote.on_rpc_res(changed);

    assert_eq!(remote.pop_out(), Some(Event::KvEvent(KvEvent::Put(Some(1), 2, 21))));
    assert_eq!(remote.pop_out(), None);
}

/// Drives a replica of `local`: each request it queues is answered by
/// `local`; returns what it told the application.
fn sync_replica(local: &mut LocalStore, remote: &mut RemoteStore) -> Vec<KvEvent> {
    let mut told = Vec::new();
    while let Some(e) = remote.pop_out() {
        match e {
            Event::NetEvent(NetEvent::Unicast(_, RpcEvent { data: RpcEventData::RpcReq(req), .. })) => {
                local.on_rpc_req(1, req);
                let res = answer(local);
                remote.on_rpc_res(res);
            }
            Event::KvEvent(k) => told.push(k),
            other => panic!("unexpected event {other:?}"),
        }
    }
    told
}

#[test]
fn multi_page_full_sync_replicates_the_whole_store() {
    // pages of two keys: five keys take three pages
    let mut local: LocalStore = LocalStore::new(2, 100, 2);
    for k in [14u64, 10, 12, 11, 13] {
        local.set(k, k * 100);
    }
    while local.pop_out().is_some() {}

    let mut remote: RemoteStore = RemoteStore::new(1, 1, 2);
    let told = sync_replica(&mut local, &mut remote);

    assert_eq!(remote.ctx.slots, local.slots);
    assert_eq!(
        told,
        (10u64..=14).map(|k| KvEvent::Put(Some(1), k, k * 100)).collect::<Vec<_>>(),
        "each key is reported once, in key order, after the last page"
    );
    match &remote.state {
        p2p_services::replicate_kv_service::remote_storage::RemoteStoreState::Working(w) => {
            assert_eq!(w.version, Version(5));
            assert!(w.sending_req.is_none());
        }
        _ => panic!("the replica must work from the store's version"),
    }
}

#[test]
fn working_replica_repairs_a_gap_from_the_store_log() {
    let mut local: LocalStore = LocalStore::new(2, 100, 10);
    local.set(1, 10);
    while local.pop_out().is_some() {}
    let mut remote: RemoteStore = RemoteStore::new(1, 1, 2);
    sync_replica(&mut local, &mut remote);

    // three changes whose broadcasts are lost
    local.set(2, 20);
    local.set(1, 11);
    local.del(2);
    while local.pop_out().is_some() {}

    remote.on_broadcast(BroadcastEvent { session_id: 2, data: BroadcastEventData::Version(Version(4)) });
    assert_eq!(
        remote.pop_out(),
        request(messages::RpcReq::FetchChanged { from: Version(2), count: 3 })
    );
    local.on_rpc_req(1, messages::RpcReq::FetchChanged { from: Version(2), count: 3 });
    let res = answer(&mut local);
    remote.on_rpc_res(res);

    assert_eq!(remote.pop_out(), Some(Event::KvEvent(KvEvent::Put(Some(1), 2, 20))));
    assert_eq!(remote.pop_out(), Some(Event::KvEvent(KvEvent::Put(Some(1), 1, 11))));
    assert_eq!(remote.pop_out(), Some(Event::KvEvent(KvEvent::Del(Some(1), 2))));
    assert_eq!(remote.pop_out(), None);
    assert_eq!(remote.ctx.slots, local.slots);
}

/// A network event on its way, delivered at the step given.
/// A network event on its way, delivered at the step given.
struct Packet {
    from: u64,
    to: u64,
    event: NetEvent,
    deliver_at: usize,
}

/// Queues the network events a store produced, dropping and delaying
/// them as the step dictates.
fn queue(
    store: &mut ReplicatedKvStore,
    from: u64,
    other: u64,
    step: usize,
    rng: &mut StdRng,
    packet_queue: &mut Vec<Packet>,
) {
    while let Some(event) = store.pop() {
        if let Event::NetEvent(net_event) = event {
            let to = match &net_event {
                NetEvent::Broadcast(_) => other,
                NetEvent::Unicast(dest, _) => *dest,
            };

            let is_unstable = step < 1500;
            let is_broadcast = matches!(net_event, NetEvent::Broadcast(_));
            let is_changed_broadcast = matches!(
                net_event,
                NetEvent::Broadcast(BroadcastEvent { data: BroadcastEventData::Changed(_), .. })
            );

            let drop_rate = if step >= 900 && is_changed_broadcast {
                100
            } else if is_unstable && is_broadcast {
                30
            } else {
                0
            };
            let max_delay = if is_unstable { 100 } else { 0 };

            if !rng.gen_ratio(drop_rate, 100) {
                let delay = rng.gen_range(0..=max_delay);
                packet_queue.push(Packet { from, to, event: net_event, deliver_at: step + delay });
            }
        }
    }
}

#[test]
fn fuzz_replicated_kv_convergence_under_network_gaps() {

    // Fixed seed for reproducible run
    let mut rng = StdRng::seed_from_u64(12345);

    let node1: u64 = 1;
    let node2: u64 = 2;

    let mut store1 = ReplicatedKvStore::new(100, 3);
    let mut store2 = ReplicatedKvStore::new(100, 3);

    let mut packet_queue: Vec<Packet> = Vec::new();

    let mut expected_kv: HashMap<u16, u16> = HashMap::new();

    let mut step = 0;
    let max_steps = 3000;

    while step < max_steps {
        // 1. Mutate node1 randomly during the first 1000 steps
        if step < 1000 && rng.gen_ratio(1, 15) {
            let key: u16 = rng.gen_range(0..20);
            let val: u16 = rng.gen_range(0..1000);
            store1.set(key as u64, val as u64);
            expected_kv.insert(key, val);
        }

        // 2. Pop events from store1 and queue them
        queue(&mut store1, node1, node2, step, &mut rng, &mut packet_queue);

        // 3. Pop events from store2 and queue them
        queue(&mut store2, node2, node1, step, &mut rng, &mut packet_queue);

        // 4. Tick both stores every 10 steps to simulate 1s tick
        if step % 10 == 0 {
            if step < 1000 {
                store1.on_tick();
            }
            store2.on_tick();
        }

        // 5. Deliver packets scheduled for this step
        let mut i = 0;
        while i < packet_queue.len() {
            if packet_queue[i].deliver_at <= step {
                let packet = packet_queue.remove(i);
                if packet.to == node1 {
                    store1.on_remote_event(packet.from, packet.event);
                } else if packet.to == node2 {
                    store2.on_remote_event(packet.from, packet.event);
                }
            } else {
                i += 1;
            }
        }

        step += 1;
    }

    // 6. Deliver all remaining packets and tick to settle down in stable phase
    for _ in 0..200 {
        while !packet_queue.is_empty() {
            let packet = packet_queue.remove(0);
            if packet.to == node1 {
                store1.on_remote_event(packet.from, packet.event);
            } else if packet.to == node2 {
                store2.on_remote_event(packet.from, packet.event);
            }
        }

        store2.on_tick();

        // Pop any new network packets generated by retries/ticks
        for (store, from, other) in [(&mut store1, node1, node2), (&mut store2, node2, node1)] {
            while let Some(event) = store.pop() {
                if let Event::NetEvent(net_event) = event {
                    let to = match &net_event {
                        NetEvent::Broadcast(_) => other,
                        NetEvent::Unicast(dest, _) => *dest,
                    };
                    packet_queue.push(Packet { from, to, event: net_event, deliver_at: 0 });
                }
            }
        }
    }

    // Assert that the replica (node2) has converged to the exact same state as node1
    let remote_store = store2.remotes.get(&node1).expect("remote store for node1 on node2 must exist");

    for (k, slot1) in &store1.local.slots {
        let slot2 = remote_store.ctx.slots.get(k).expect("key should exist on remote node2");
        assert_eq!(slot1.value, slot2.value, "Value mismatch for key {:?}", k);
        assert_eq!(slot1.version, slot2.version, "Version mismatch for key {:?}", k);
    }

    assert_eq!(remote_store.ctx.slots.len(), store1.local.slots.len(), "Remote storage has different number of keys");
}

#[test]
fn replica_converges_when_the_owner_changes_during_a_sync() {
    let mut local: LocalStore = LocalStore::new(2, 100, 2);
    for k in 10u64..=14 {
        local.set(k, k);
    }
    while local.pop_out().is_some() {}

    let mut remote: RemoteStore = RemoteStore::new(1, 1, 2);
    let first = remote.pop_out();
    assert_eq!(
        first,
        request(messages::RpcReq::FetchSnapshot { from: None, max_version: None, max_items: 1024 })
    );
    local.on_rpc_req(1, messages::RpcReq::FetchSnapshot { from: None, max_version: None, max_items: 1024 });
    let res = answer(&mut local);
    remote.on_rpc_res(res);

    // the owner changes while the sync runs; its broadcasts are lost
    local.set(13, 999);
    local.del(10);
    while local.pop_out().is_some() {}

    let mut told = sync_replica(&mut local, &mut remote);
    remote.on_broadcast(BroadcastEvent { session_id: 2, data: BroadcastEventData::Version(local.version) });
    told.extend(sync_replica(&mut local, &mut remote));

    assert_eq!(remote.ctx.slots, local.slots);
    let mut replayed: BTreeMap<u64, u64> = BTreeMap::new();
    for e in told {
        match e {
            KvEvent::Put(Some(1), k, v) => {
                replayed.insert(k, v);
            }
            KvEvent::Del(Some(1), k) => {
                replayed.remove(&k);
            }
            other => panic!("unexpected report {other:?}"),
        }
    }
    let expected: BTreeMap<u64, u64> = local.slots.iter().map(|(k, s)| (*k, s.value)).collect();
    assert_eq!(replayed, expected);
    match &remote.state {
        p2p_services::replicate_kv_service::remote_storage::RemoteStoreState::Working(w) => {
            assert_eq!(w.version, local.version);
        }
        _ => panic!("the replica must work from the owner's version"),
    }
}
