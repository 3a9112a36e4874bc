use std::collections::{BTreeMap, VecDeque};

use p2p_services::replicate_kv_service::messages::{
    Action, BroadcastEvent, BroadcastEventData, Changed, Event, FetchChangedError, KvEvent, NetEvent, RpcEvent,
    RpcEventData, RpcReq, RpcRes, Slot, SnapshotData, Version,
};
use p2p_services::replicate_kv_service::remote_storage::{
    DestroyState, RemoteStore, RemoteStoreState, StateCtx, SyncFullState, WorkingState, MAX_SNAPSHOT_SLOTS_PER_PAGE,
    REQUEST_TIMEOUT_MS,
};

/// Milliseconds since the Unix epoch, the clock the replicas read.
fn wall_ms() -> u64 {
    std::time::SystemTime::now().duration_since(std::time::UNIX_EPOCH).map(|d| d.as_millis() as u64).unwrap_or(0)
}

/// restore with some data
#[test]
fn test_restore_full_single_pkt() {
    let mut ctx: StateCtx = StateCtx {
        remote: 1,
        local_session_id: 1,
        slots: BTreeMap::new(),
        outs: VecDeque::new(),
        next_state: None,
    };

    let now = wall_ms();
    let mut state = SyncFullState::default();
    state.init(&mut ctx, now);

    assert_eq!(
        ctx.outs.pop_front(),
        Some(Event::NetEvent(NetEvent::Unicast(
            1,
            RpcEvent { session_id: 1, data: RpcEventData::RpcReq(RpcReq::FetchSnapshot {
                from: None,
                max_version: None,
                max_items: MAX_SNAPSHOT_SLOTS_PER_PAGE as u64
            }) }
        )))
    );
    assert_eq!(ctx.outs.pop_front(), None);

    // we don't need to resend again because it too fast
    state.on_tick(&mut ctx, now);
    assert_eq!(ctx.outs.pop_front(), None);

    state.on_rpc_res(
        &mut ctx,
        now,
        RpcRes::FetchSnapshot(
            Some(SnapshotData {
                slots: vec![(1, Slot::new(1, Version(1)))],
                skipped_newer: vec![],
                next_key: None,
            }),
            Version(1),
        ),
    );

    assert_eq!(ctx.slots, BTreeMap::from([(1, Slot::new(1, Version(1)))]));
    assert_eq!(ctx.next_state, Some(RemoteStoreState::Working(WorkingState::new(Version(1)))));
    assert_eq!(ctx.outs.pop_front(), Some(Event::KvEvent(KvEvent::Put(Some(1), 1, 1))));
    assert_eq!(ctx.outs.pop_front(), None);

    // we don't need to resend again because it already received answer
    state.on_tick(&mut ctx, now + REQUEST_TIMEOUT_MS + 1);
    assert_eq!(ctx.outs.pop_front(), None);
}



#[test]
fn initial_full_sync_must_not_emit_partial_snapshot_before_terminal_page() {
    let mut ctx: StateCtx = StateCtx {
        remote: 1,
        local_session_id: 1,
        slots: BTreeMap::new(),
        outs: VecDeque::new(),
        next_state: None,
    };

    let now = wall_ms();
    let mut state = SyncFullState::default();
    state.init(&mut ctx, now);
    ctx.outs.clear();

    state.on_rpc_res(
        &mut ctx,
        now,
        RpcRes::FetchSnapshot(
            Some(SnapshotData {
                slots: vec![(1, Slot::new(10, Version(1)))],
                skipped_newer: vec![],
                next_key: Some(2),
            }),
            Version(2),
        ),
    );

    assert!(ctx.slots.is_empty(), "initial full sync must not expose partial remote slots before the terminal snapshot page");
    assert!(
        !ctx.outs.iter().any(|event| matches!(event, Event::KvEvent(_))),
        "initial full sync must not emit visible KvEvent changes until the snapshot completes"
    );
}

#[test]
fn full_sync_continuation_request_must_use_next_key_and_pivot_version() {
    let mut ctx: StateCtx = StateCtx {
        remote: 1,
        local_session_id: 1,
        slots: BTreeMap::new(),
        outs: VecDeque::new(),
        next_state: None,
    };

    let now = wall_ms();
    let mut state = SyncFullState::default();
    state.init(&mut ctx, now);
    ctx.outs.clear();

    state.on_rpc_res(
        &mut ctx,
        now,
        RpcRes::FetchSnapshot(
            Some(SnapshotData {
                slots: vec![(1, Slot::new(1, Version(1)))],
                skipped_newer: vec![],
                next_key: Some(2),
            }),
            Version(1),
        ),
    );

    assert_eq!(
        ctx.outs.pop_back(),
        Some(Event::NetEvent(NetEvent::Unicast(
            1,
            RpcEvent { session_id: 1, data: RpcEventData::RpcReq(RpcReq::FetchSnapshot {
                from: Some(2),
                max_version: Some(Version(1)),
                max_items: MAX_SNAPSHOT_SLOTS_PER_PAGE as u64,
            }) }
        ))),
        "snapshot next_key must drive the next page request with the locked pivot version"
    );
}

#[test]
fn full_sync_must_accept_empty_continuation_page_with_advancing_next_key() {
    let mut ctx: StateCtx = StateCtx {
        remote: 1,
        local_session_id: 1,
        slots: BTreeMap::new(),
        outs: VecDeque::new(),
        next_state: None,
    };

    let now = wall_ms();
    let mut state = SyncFullState::default();
    state.init(&mut ctx, now);
    ctx.outs.clear();

    state.on_rpc_res(
        &mut ctx,
        now,
        RpcRes::FetchSnapshot(
            Some(SnapshotData {
                slots: vec![(1, Slot::new(1, Version(1)))],
                skipped_newer: vec![],
                next_key: Some(2),
            }),
            Version(1),
        ),
    );
    ctx.outs.clear();

    state.on_rpc_res(
        &mut ctx,
        now,
        RpcRes::FetchSnapshot(
            Some(SnapshotData {
                slots: vec![],
                skipped_newer: vec![(2, Version(2))],
                next_key: Some(3),
            }),
            Version(1),
        ),
    );

    assert_eq!(
        ctx.outs.pop_front(),
        Some(Event::NetEvent(NetEvent::Unicast(
            1,
            RpcEvent { session_id: 1, data: RpcEventData::RpcReq(RpcReq::FetchSnapshot {
                from: Some(3),
                max_version: Some(Version(1)),
                max_items: MAX_SNAPSHOT_SLOTS_PER_PAGE as u64,
            }) }
        )))
    );
    assert_eq!(ctx.outs.pop_front(), None);
    assert!(ctx.slots.is_empty(), "empty slot continuation pages must remain staged until the terminal page");
}

#[test]
fn full_sync_must_reject_empty_no_progress_continuation_page() {
    let mut ctx: StateCtx = StateCtx {
        remote: 1,
        local_session_id: 1,
        slots: BTreeMap::new(),
        outs: VecDeque::new(),
        next_state: None,
    };

    let now = wall_ms();
    let mut state = SyncFullState::default();
    state.init(&mut ctx, now);
    ctx.outs.clear();

    state.on_rpc_res(
        &mut ctx,
        now,
        RpcRes::FetchSnapshot(
            Some(SnapshotData {
                slots: vec![(1, Slot::new(1, Version(1)))],
                skipped_newer: vec![],
                next_key: Some(2),
            }),
            Version(1),
        ),
    );
    ctx.outs.clear();

    state.on_rpc_res(
        &mut ctx,
        now,
        RpcRes::FetchSnapshot(
            Some(SnapshotData {
                slots: vec![],
                skipped_newer: vec![],
                next_key: Some(3),
            }),
            Version(1),
        ),
    );

    assert_eq!(ctx.outs.pop_front(), None, "empty continuation with no scanned progress must not request another page");
    assert_eq!(ctx.next_state, None, "empty continuation with no scanned progress must not complete full sync");
}

#[test]
fn full_sync_must_accept_terminal_empty_snapshot_with_nonzero_version() {
    let mut ctx: StateCtx = StateCtx {
        remote: 1,
        local_session_id: 1,
        slots: BTreeMap::new(),
        outs: VecDeque::new(),
        next_state: None,
    };

    let now = wall_ms();
    let mut state = SyncFullState::default();
    state.init(&mut ctx, now);
    ctx.outs.clear();

    state.on_rpc_res(
        &mut ctx,
        now,
        RpcRes::FetchSnapshot(
            Some(SnapshotData {
                slots: vec![],
                skipped_newer: vec![],
                next_key: None,
            }),
            Version(1),
        ),
    );

    assert_eq!(ctx.next_state, Some(RemoteStoreState::Working(WorkingState::new(Version(1)))));
    assert!(ctx.slots.is_empty(), "terminal empty snapshot pages complete with no staged slots");
}

#[test]
fn full_sync_must_accept_snapshot_slot_without_upper_key_bound() {
    let mut ctx: StateCtx = StateCtx {
        remote: 1,
        local_session_id: 1,
        slots: BTreeMap::new(),
        outs: VecDeque::new(),
        next_state: None,
    };

    let now = wall_ms();
    let mut state = SyncFullState::default();
    state.init(&mut ctx, now);
    ctx.outs.clear();

    state.on_rpc_res(
        &mut ctx,
        now,
        RpcRes::FetchSnapshot(
            Some(SnapshotData {
                slots: vec![(2, Slot::new(2, Version(1)))],
                skipped_newer: vec![],
                next_key: None,
            }),
            Version(1),
        ),
    );

    assert_eq!(ctx.slots, BTreeMap::from([(2, Slot::new(2, Version(1)))]));
    assert_eq!(ctx.next_state, Some(RemoteStoreState::Working(WorkingState::new(Version(1)))));
}

#[test]
fn full_sync_snapshot_pages_must_be_bounded() {
    const MAX_SNAPSHOT_SLOTS_PER_PAGE: u64 = 1024;
    let mut ctx: StateCtx = StateCtx {
        remote: 1,
        local_session_id: 1,
        slots: BTreeMap::new(),
        outs: VecDeque::new(),
        next_state: None,
    };

    let now = wall_ms();
    let mut state = SyncFullState::default();
    state.init(&mut ctx, now);
    ctx.outs.clear();

    let slots = (0..=MAX_SNAPSHOT_SLOTS_PER_PAGE).map(|key| (key, Slot::new(key, Version(key as u64 + 1)))).collect::<Vec<_>>();

    state.on_rpc_res(
        &mut ctx,
        now,
        RpcRes::FetchSnapshot(
            Some(SnapshotData {
                slots,
                skipped_newer: vec![],
                next_key: None,
            }),
            Version(MAX_SNAPSHOT_SLOTS_PER_PAGE as u64 + 1),
        ),
    );

    assert!(
        ctx.slots.len() <= MAX_SNAPSHOT_SLOTS_PER_PAGE as usize,
        "full-sync snapshot pages must be capped, got {} slots",
        ctx.slots.len()
    );
}

#[test]
fn full_sync_staged_snapshot_slots_must_be_bounded_across_pages() {
    const MAX_STAGED_FOR_TEST: usize = 16 * MAX_SNAPSHOT_SLOTS_PER_PAGE as usize;

    let mut ctx: StateCtx = StateCtx {
        remote: 1,
        local_session_id: 1,
        slots: BTreeMap::new(),
        outs: VecDeque::new(),
        next_state: None,
    };

    let now = wall_ms();
    let mut state = SyncFullState::default();
    state.init(&mut ctx, now);
    ctx.outs.clear();

    for page in 0..=16 {
        let first_key = (page * MAX_SNAPSHOT_SLOTS_PER_PAGE) as u64 + 1;
        let slots = (0..MAX_SNAPSHOT_SLOTS_PER_PAGE)
            .map(|offset| {
                let key = first_key + offset as u64;
                (key, Slot::new(key, Version(key)))
            })
            .collect::<Vec<_>>();

        state.on_rpc_res(
            &mut ctx,
            now,
            RpcRes::FetchSnapshot(
                Some(SnapshotData {
                    slots,
                    skipped_newer: vec![],
                    next_key: Some(first_key + MAX_SNAPSHOT_SLOTS_PER_PAGE as u64),
                }),
                Version(MAX_STAGED_FOR_TEST as u64 + MAX_SNAPSHOT_SLOTS_PER_PAGE + 1),
            ),
        );
        ctx.outs.clear();
    }

    let staged_len = state.staged_slots.as_ref().map(BTreeMap::len).unwrap_or_default();

    assert!(
        staged_len <= MAX_STAGED_FOR_TEST,
        "full sync must cap total staged snapshot slots across continuation pages; got {staged_len}"
    );
    assert!(ctx.slots.is_empty(), "partial full-sync data must remain staged until the terminal page");
}



#[test]
fn full_sync_mismatched_continuation_version_must_restart_sync() {
    let mut ctx: StateCtx = StateCtx {
        remote: 1,
        local_session_id: 1,
        slots: BTreeMap::new(),
        outs: VecDeque::new(),
        next_state: None,
    };

    let now = wall_ms();
    let mut state = SyncFullState::default();
    state.init(&mut ctx, now);
    ctx.outs.clear();

    state.on_rpc_res(
        &mut ctx,
        now,
        RpcRes::FetchSnapshot(
            Some(SnapshotData {
                slots: vec![(1, Slot::new(1, Version(1)))],
                skipped_newer: vec![],
                next_key: Some(2),
            }),
            Version(1),
        ),
    );
    ctx.outs.clear();

    state.on_rpc_res(
        &mut ctx,
        now,
        RpcRes::FetchSnapshot(
            Some(SnapshotData {
                slots: vec![(2, Slot::new(2, Version(2)))],
                skipped_newer: vec![],
                next_key: None,
            }),
            Version(2),
        ),
    );

    assert_eq!(
        ctx.outs.pop_front(),
        Some(Event::NetEvent(NetEvent::Unicast(
            1,
            RpcEvent {
                session_id: 1,
                data: RpcEventData::RpcReq(RpcReq::FetchSnapshot {
                    from: None,
                    max_version: None,
                    max_items: MAX_SNAPSHOT_SLOTS_PER_PAGE as u64,
                })
            }
        ))),
        "continuation mismatched version must restart full sync from scratch"
    );
    assert_eq!(ctx.outs.pop_front(), None);
    assert!(!ctx.slots.contains_key(&2), "continuation snapshot page with a different declared version must be rejected");
    assert_eq!(
        ctx.next_state, None,
        "full sync must not transition to WorkingState after accepting data newer than the locked snapshot version"
    );
}



#[test]
fn full_sync_must_reject_stale_terminal_snapshot_after_continuation_request() {
    let mut ctx: StateCtx = StateCtx {
        remote: 1,
        local_session_id: 1,
        slots: BTreeMap::new(),
        outs: VecDeque::new(),
        next_state: None,
    };

    let now = wall_ms();
    let mut state = SyncFullState::default();
    state.init(&mut ctx, now);
    ctx.outs.clear();

    state.on_rpc_res(
        &mut ctx,
        now,
        RpcRes::FetchSnapshot(
            Some(SnapshotData {
                slots: vec![(1, Slot::new(10, Version(1)))],
                skipped_newer: vec![],
                next_key: Some(2),
            }),
            Version(3),
        ),
    );

    assert_eq!(
        ctx.outs.pop_front(),
        Some(Event::NetEvent(NetEvent::Unicast(
            1,
            RpcEvent { session_id: 1, data: RpcEventData::RpcReq(RpcReq::FetchSnapshot {
                from: Some(2),
                max_version: Some(Version(3)),
                max_items: MAX_SNAPSHOT_SLOTS_PER_PAGE as u64,
            }) }
        )))
    );
    assert_eq!(ctx.outs.pop_front(), None);
    assert!(ctx.slots.is_empty(), "initial full sync must stage partial snapshot pages until completion");

    state.on_rpc_res(
        &mut ctx,
        now,
        RpcRes::FetchSnapshot(
            Some(SnapshotData {
                slots: vec![(1, Slot::new(10, Version(1)))],
                skipped_newer: vec![],
                next_key: None,
            }),
            Version(1),
        ),
    );

    assert_eq!(
        ctx.next_state, None,
        "stale terminal snapshot responses must not complete full sync while a continuation range is outstanding"
    );
    assert_eq!(
        ctx.slots,
        BTreeMap::new(),
        "stale terminal snapshot responses must not hide keys still pending in the requested continuation range"
    );
}

#[test]
fn test_restore_full_resend() {
    let mut ctx: StateCtx = StateCtx {
        remote: 1,
        local_session_id: 1,
        slots: BTreeMap::new(),
        outs: VecDeque::new(),
        next_state: None,
    };

    let now = wall_ms();
    let mut state = SyncFullState::default();
    state.init(&mut ctx, now);

    assert_eq!(
        ctx.outs.pop_front(),
        Some(Event::NetEvent(NetEvent::Unicast(
            1,
            RpcEvent { session_id: 1, data: RpcEventData::RpcReq(RpcReq::FetchSnapshot {
                from: None,
                max_version: None,
                max_items: MAX_SNAPSHOT_SLOTS_PER_PAGE as u64,
            }) }
        )))
    );
    assert_eq!(ctx.outs.pop_front(), None);

    // we need to resend again because it timeout
    state.on_tick(&mut ctx, now + REQUEST_TIMEOUT_MS + 1);
    assert_eq!(
        ctx.outs.pop_front(),
        Some(Event::NetEvent(NetEvent::Unicast(
            1,
            RpcEvent { session_id: 1, data: RpcEventData::RpcReq(RpcReq::FetchSnapshot {
                from: None,
                max_version: None,
                max_items: MAX_SNAPSHOT_SLOTS_PER_PAGE as u64,
            }) }
        )))
    );
    assert_eq!(ctx.outs.pop_front(), None);
}

/// restore with some data
#[test]
fn test_restore_multi_single_pkt() {
    let mut ctx: StateCtx = StateCtx {
        remote: 1,
        local_session_id: 1,
        slots: BTreeMap::new(),
        outs: VecDeque::new(),
        next_state: None,
    };

    let now = wall_ms();
    let mut state = SyncFullState::default();
    state.init(&mut ctx, now);
    assert_eq!(
        ctx.outs.pop_front(),
        Some(Event::NetEvent(NetEvent::Unicast(
            1,
            RpcEvent { session_id: 1, data: RpcEventData::RpcReq(RpcReq::FetchSnapshot {
                from: None,
                max_version: None,
                max_items: MAX_SNAPSHOT_SLOTS_PER_PAGE as u64
            }) }
        )))
    );
    assert_eq!(ctx.outs.pop_front(), None);

    // got first sync
    state.on_rpc_res(
        &mut ctx,
        now,
        RpcRes::FetchSnapshot(
            Some(SnapshotData {
                slots: vec![(1, Slot::new(1, Version(1)))],
                skipped_newer: vec![],
                next_key: Some(2),
            }),
            Version(2),
        ),
    );

    assert_eq!(
        ctx.outs.pop_front(),
        Some(Event::NetEvent(NetEvent::Unicast(
            1,
            RpcEvent { session_id: 1, data: RpcEventData::RpcReq(RpcReq::FetchSnapshot {
                from: Some(2),
                max_version: Some(Version(2)),
                max_items: MAX_SNAPSHOT_SLOTS_PER_PAGE as u64
            }) }
        )))
    );
    assert_eq!(ctx.outs.pop_front(), None);
    assert!(ctx.slots.is_empty(), "initial full sync must stage partial snapshot pages until completion");

    // got last sync
    state.on_rpc_res(
        &mut ctx,
        now,
        RpcRes::FetchSnapshot(
            Some(SnapshotData {
                slots: vec![(2, Slot::new(2, Version(2)))],
                skipped_newer: vec![],
                next_key: None,
            }),
            Version(2),
        ),
    );

    assert_eq!(ctx.slots, BTreeMap::from([(1, Slot::new(1, Version(1))), (2, Slot::new(2, Version(2)))]));
    assert_eq!(ctx.next_state, Some(RemoteStoreState::Working(WorkingState::new(Version(2)))));
    assert_eq!(ctx.outs.pop_front(), Some(Event::KvEvent(KvEvent::Put(Some(1), 1, 1))));
    assert_eq!(ctx.outs.pop_front(), Some(Event::KvEvent(KvEvent::Put(Some(1), 2, 2))));
    assert_eq!(ctx.outs.pop_front(), None);
}

/// start with zero
#[test]
fn test_working_state_zero() {
    let mut ctx: StateCtx = StateCtx {
        remote: 1,
        local_session_id: 1,
        slots: BTreeMap::new(),
        outs: VecDeque::new(),
        next_state: None,
    };

    let now = wall_ms();
    let mut state = WorkingState::new(Version(0));

    state.on_broadcast(
        &mut ctx,
        now,
        BroadcastEvent { session_id: 2, data: BroadcastEventData::Changed(Changed {
            key: 1,
            version: Version(1),
            action: Action::Put(1),
        }) },
    );

    assert_eq!(ctx.slots, BTreeMap::from([(1, Slot::new(1, Version(1)))]));
    assert_eq!(ctx.next_state, None);
    assert_eq!(ctx.outs.pop_front(), Some(Event::KvEvent(KvEvent::Put(Some(1), 1, 1))));
    assert_eq!(ctx.outs.pop_front(), None);
}

#[test]
fn remote_delete_for_absent_key_must_not_emit_delete_event() {
    let mut ctx: StateCtx = StateCtx {
        remote: 1,
        local_session_id: 1,
        slots: BTreeMap::new(),
        outs: VecDeque::new(),
        next_state: None,
    };

    let now = wall_ms();
    let mut state = WorkingState::new(Version(0));

    state.on_broadcast(
        &mut ctx,
        now,
        BroadcastEvent { session_id: 2, data: BroadcastEventData::Changed(Changed {
            key: 7,
            version: Version(1),
            action: Action::Del,
        }) },
    );

    assert_eq!(state.version, Version(1), "a valid ordered remote delete must still advance protocol version");
    assert_eq!(ctx.slots, BTreeMap::new());
    assert_eq!(ctx.outs.pop_front(), None, "remote delete for an absent key must not emit a visible delete event");
}

/// start with zero but got out of sync
#[test]
fn test_working_state_zero_out_of_sync() {
    let mut ctx: StateCtx = StateCtx {
        remote: 1,
        local_session_id: 1,
        slots: BTreeMap::new(),
        outs: VecDeque::new(),
        next_state: None,
    };

    let now = wall_ms();
    let mut state = WorkingState::new(Version(0));

    state.on_broadcast(&mut ctx, now, BroadcastEvent { session_id: 2, data: BroadcastEventData::Version(Version(1)) });

    assert_eq!(ctx.slots, BTreeMap::new());
    assert_eq!(ctx.next_state, None);
    assert_eq!(
        ctx.outs.pop_front(),
        Some(Event::NetEvent(NetEvent::Unicast(1, RpcEvent { session_id: 1, data: RpcEventData::RpcReq(RpcReq::FetchChanged { from: Version(1), count: 1 }) })))
    );
    assert_eq!(ctx.outs.pop_front(), None);
}

/// After missing changed we got Changed event
#[test]
fn test_working_state_missing_changed() {
    let mut ctx: StateCtx = StateCtx {
        remote: 1,
        local_session_id: 1,
        slots: BTreeMap::new(),
        outs: VecDeque::new(),
        next_state: None,
    };

    let now = wall_ms();
    let mut state = WorkingState::new(Version(0));

    state.on_broadcast(
        &mut ctx,
        now,
        BroadcastEvent { session_id: 2, data: BroadcastEventData::Changed(Changed {
            key: 1,
            version: Version(2),
            action: Action::Put(1),
        }) },
    );

    assert_eq!(state.pendings.len(), 1);
    assert_eq!(ctx.slots, BTreeMap::new());
    assert_eq!(ctx.next_state, None);
    assert_eq!(
        ctx.outs.pop_front(),
        Some(Event::NetEvent(NetEvent::Unicast(1, RpcEvent { session_id: 1, data: RpcEventData::RpcReq(RpcReq::FetchChanged { from: Version(1), count: 1 }) })))
    );
    assert_eq!(ctx.outs.pop_front(), None);

    state.on_broadcast(
        &mut ctx,
        now,
        BroadcastEvent { session_id: 2, data: BroadcastEventData::Changed(Changed {
            key: 1,
            version: Version(1),
            action: Action::Put(2),
        }) },
    );

    assert_eq!(state.pendings.len(), 0);
    assert_eq!(ctx.slots, BTreeMap::from([(1, Slot::new(1, Version(2)))]));
    assert_eq!(ctx.next_state, None);
    assert_eq!(ctx.outs.pop_front(), Some(Event::KvEvent(KvEvent::Put(Some(1), 1, 2))));
    assert_eq!(ctx.outs.pop_front(), Some(Event::KvEvent(KvEvent::Put(Some(1), 1, 1))));
    assert_eq!(ctx.outs.pop_front(), None);

    // after received FetchChanged, it should be rejected
    state.on_rpc_res(
        &mut ctx,
        now,
        RpcRes::FetchChanged(Ok(vec![Changed {
            key: 1,
            version: Version(1),
            action: Action::Put(2),
        }])),
    );
    assert_eq!(ctx.outs.pop_front(), None);

    // after received FetchChanged it should not be resend
    state.on_tick(&mut ctx, now + REQUEST_TIMEOUT_MS + 1);
    assert_eq!(ctx.outs.pop_front(), None);
}

#[test]
fn working_state_must_cancel_fetch_changed_when_broadcast_fills_gap() {
    let mut ctx: StateCtx = StateCtx {
        remote: 1,
        local_session_id: 1,
        slots: BTreeMap::new(),
        outs: VecDeque::new(),
        next_state: None,
    };

    let now = wall_ms();
    let mut state = WorkingState::new(Version(0));

    state.on_broadcast(
        &mut ctx,
        now,
        BroadcastEvent { session_id: 2, data: BroadcastEventData::Changed(Changed {
            key: 1,
            version: Version(2),
            action: Action::Put(2),
        }) },
    );
    assert_eq!(
        ctx.outs.pop_front(),
        Some(Event::NetEvent(NetEvent::Unicast(1, RpcEvent { session_id: 1, data: RpcEventData::RpcReq(RpcReq::FetchChanged { from: Version(1), count: 1 }) })))
    );
    assert_eq!(ctx.outs.pop_front(), None);

    state.on_broadcast(
        &mut ctx,
        now,
        BroadcastEvent { session_id: 2, data: BroadcastEventData::Changed(Changed {
            key: 1,
            version: Version(1),
            action: Action::Put(1),
        }) },
    );
    assert_eq!(state.version, Version(2), "broadcast gap fill should advance the working version");
    while ctx.outs.pop_front().is_some() {}

    state.on_tick(&mut ctx, now + REQUEST_TIMEOUT_MS + 1);

    assert_eq!(ctx.outs.pop_front(), None, "FetchChanged retry must be cancelled after broadcasts fill the missing gap");
}

/// After missing changed we got FetchChanged response
#[test]
fn test_working_state_missing_changed2() {
    let mut ctx: StateCtx = StateCtx {
        remote: 1,
        local_session_id: 1,
        slots: BTreeMap::new(),
        outs: VecDeque::new(),
        next_state: None,
    };

    let now = wall_ms();
    let mut state = WorkingState::new(Version(0));

    state.on_broadcast(
        &mut ctx,
        now,
        BroadcastEvent { session_id: 2, data: BroadcastEventData::Changed(Changed {
            key: 1,
            version: Version(2),
            action: Action::Put(1),
        }) },
    );

    assert_eq!(state.pendings.len(), 1);
    assert_eq!(ctx.slots, BTreeMap::new());
    assert_eq!(ctx.next_state, None);
    assert_eq!(
        ctx.outs.pop_front(),
        Some(Event::NetEvent(NetEvent::Unicast(1, RpcEvent { session_id: 1, data: RpcEventData::RpcReq(RpcReq::FetchChanged { from: Version(1), count: 1 }) })))
    );
    assert_eq!(ctx.outs.pop_front(), None);

    state.on_rpc_res(
        &mut ctx,
        now,
        RpcRes::FetchChanged(Ok(vec![Changed {
            key: 1,
            version: Version(1),
            action: Action::Put(2),
        }])),
    );

    assert_eq!(state.pendings.len(), 0);
    assert_eq!(ctx.slots, BTreeMap::from([(1, Slot::new(1, Version(2)))]));
    assert_eq!(ctx.next_state, None);
    assert_eq!(ctx.outs.pop_front(), Some(Event::KvEvent(KvEvent::Put(Some(1), 1, 2))));
    assert_eq!(ctx.outs.pop_front(), Some(Event::KvEvent(KvEvent::Put(Some(1), 1, 1))));
    assert_eq!(ctx.outs.pop_front(), None);
}

#[test]
fn working_state_must_reject_unsolicited_fetch_changed_success() {
    let mut ctx: StateCtx = StateCtx {
        remote: 1,
        local_session_id: 1,
        slots: BTreeMap::new(),
        outs: VecDeque::new(),
        next_state: None,
    };

    let now = wall_ms();
    let mut state = WorkingState::new(Version(0));

    state.on_rpc_res(
        &mut ctx,
        now,
        RpcRes::FetchChanged(Ok(vec![Changed {
            key: 1,
            version: Version(1),
            action: Action::Put(9),
        }])),
    );

    assert_eq!(state.version, Version(0), "unsolicited FetchChanged success must not advance the working version");
    assert_eq!(ctx.slots, BTreeMap::new(), "unsolicited FetchChanged success must not mutate replicated slots");
    assert_eq!(ctx.outs.pop_front(), None, "unsolicited FetchChanged success must not emit local KvEvent changes");
}

#[test]
fn working_state_must_reject_unsolicited_fetch_changed_error() {
    let now = wall_ms();
    let mut remote: RemoteStore = RemoteStore { session_id: 2, ctx: StateCtx {
            remote: 1,
        local_session_id: 1,
            slots: BTreeMap::from([(7, Slot::new(70, Version(1)))]),
            outs: VecDeque::new(),
            next_state: None,
        },
        state: RemoteStoreState::Working(WorkingState::new(Version(1))),
        last_active: now,
    };

    remote.on_rpc_res(RpcRes::FetchChanged(Err(FetchChangedError::MissingData)));

    assert_eq!(
        remote.ctx.slots,
        BTreeMap::from([(7, Slot::new(70, Version(1)))]),
        "unsolicited FetchChanged errors must not clear existing remote slots"
    );
    assert_eq!(remote.pop_out(), None, "unsolicited FetchChanged errors must not emit deletes or start a full resync");
    assert_eq!(
        remote.state,
        RemoteStoreState::Working(WorkingState::new(Version(1))),
        "unsolicited FetchChanged errors must not leave WorkingState"
    );
}

#[test]
fn solicited_full_resync_must_not_delete_existing_slots_before_snapshot_completes() {
    let now = wall_ms();
    let mut remote: RemoteStore = RemoteStore { session_id: 2, ctx: StateCtx {
            remote: 1,
        local_session_id: 1,
            slots: BTreeMap::from([(1, Slot::new(10, Version(1))), (2, Slot::new(20, Version(2)))]),
            outs: VecDeque::new(),
            next_state: None,
        },
        state: RemoteStoreState::Working(WorkingState::new(Version(2))),
        last_active: now,
    };

    remote.on_broadcast(BroadcastEvent { session_id: 2, data: BroadcastEventData::Version(Version(5)) });
    assert!(matches!(
        remote.pop_out(),
        Some(Event::NetEvent(NetEvent::Unicast(1, RpcEvent { session_id: 1, data: RpcEventData::RpcReq(RpcReq::FetchChanged { from: Version(3), count: 3 }) })))
    ));
    assert_eq!(remote.pop_out(), None);

    remote.on_rpc_res(RpcRes::FetchChanged(Err(FetchChangedError::MissingData)));

    assert_eq!(
        remote.ctx.slots,
        BTreeMap::from([(1, Slot::new(10, Version(1))), (2, Slot::new(20, Version(2)))]),
        "existing remote data should remain visible until the replacement full snapshot is complete"
    );
    assert_ne!(
        remote.pop_out(),
        Some(Event::KvEvent(KvEvent::Del(Some(1), 1))),
        "a legitimate full-resync fallback must not emit false deletes before it has replacement data"
    );
}

#[test]
fn solicited_full_resync_commits_replacement_snapshot_on_completion() {
    let now = wall_ms();
    let mut remote: RemoteStore = RemoteStore { session_id: 2, ctx: StateCtx {
            remote: 1,
        local_session_id: 1,
            slots: BTreeMap::from([(1, Slot::new(10, Version(1))), (2, Slot::new(20, Version(2)))]),
            outs: VecDeque::new(),
            next_state: None,
        },
        state: RemoteStoreState::Working(WorkingState::new(Version(2))),
        last_active: now,
    };

    remote.on_broadcast(BroadcastEvent { session_id: 2, data: BroadcastEventData::Version(Version(5)) });
    assert!(matches!(
        remote.pop_out(),
        Some(Event::NetEvent(NetEvent::Unicast(1, RpcEvent { session_id: 1, data: RpcEventData::RpcReq(RpcReq::FetchChanged { from: Version(3), count: 3 }) })))
    ));
    remote.on_rpc_res(RpcRes::FetchChanged(Err(FetchChangedError::MissingData)));
    assert!(matches!(
        remote.pop_out(),
        Some(Event::NetEvent(NetEvent::Unicast(
            1,
            RpcEvent { session_id: 1, data: RpcEventData::RpcReq(RpcReq::FetchSnapshot {
                from: None,
                max_version: None,
                max_items: _
            }) }
        )))
    ));
    assert_eq!(remote.pop_out(), None);

    remote.on_rpc_res(RpcRes::FetchSnapshot(
        Some(SnapshotData {
            slots: vec![(2, Slot::new(20, Version(4)))],
            skipped_newer: vec![],
            next_key: Some(3),
        }),
        Version(5),
    ));
    assert_eq!(
        remote.ctx.slots,
        BTreeMap::from([(1, Slot::new(10, Version(1))), (2, Slot::new(20, Version(2)))]),
        "partial replacement snapshots must remain staged until full resync completes"
    );
    assert!(matches!(
        remote.pop_out(),
        Some(Event::NetEvent(NetEvent::Unicast(
            1,
            RpcEvent { session_id: 1, data: RpcEventData::RpcReq(RpcReq::FetchSnapshot {
                from: Some(3),
                max_version: Some(Version(5)),
                max_items: _
            }) }
        )))
    ));
    assert_eq!(remote.pop_out(), None);

    remote.on_rpc_res(RpcRes::FetchSnapshot(
        Some(SnapshotData {
            slots: vec![(3, Slot::new(30, Version(5)))],
            skipped_newer: vec![],
            next_key: None,
        }),
        Version(5),
    ));

    assert_eq!(remote.ctx.slots, BTreeMap::from([(2, Slot::new(20, Version(4))), (3, Slot::new(30, Version(5)))]));
    assert_eq!(remote.state, RemoteStoreState::Working(WorkingState::new(Version(5))));
    assert_eq!(remote.pop_out(), Some(Event::KvEvent(KvEvent::Del(Some(1), 1))));
    assert_eq!(remote.pop_out(), Some(Event::KvEvent(KvEvent::Put(Some(1), 3, 30))));
    assert_eq!(remote.pop_out(), None);
}

#[test]
fn full_resync_must_not_delete_skipped_pivot_key_before_catchup() {
    let now = wall_ms();
    let mut remote: RemoteStore = RemoteStore { session_id: 2, ctx: StateCtx {
            remote: 1,
        local_session_id: 1,
            slots: BTreeMap::from([(1, Slot::new(10, Version(1))), (2, Slot::new(20, Version(2)))]),
            outs: VecDeque::new(),
            next_state: None,
        },
        state: RemoteStoreState::Working(WorkingState::new(Version(2))),
        last_active: now,
    };

    remote.on_broadcast(BroadcastEvent { session_id: 2, data: BroadcastEventData::Version(Version(5)) });
    assert!(matches!(
        remote.pop_out(),
        Some(Event::NetEvent(NetEvent::Unicast(1, RpcEvent { session_id: 1, data: RpcEventData::RpcReq(RpcReq::FetchChanged { from: Version(3), count: 3 }) })))
    ));
    remote.on_rpc_res(RpcRes::FetchChanged(Err(FetchChangedError::MissingData)));
    assert!(matches!(
        remote.pop_out(),
        Some(Event::NetEvent(NetEvent::Unicast(
            1,
            RpcEvent { session_id: 1, data: RpcEventData::RpcReq(RpcReq::FetchSnapshot {
                from: None,
                max_version: None,
                max_items: _
            }) }
        )))
    ));

    remote.on_rpc_res(RpcRes::FetchSnapshot(
        Some(SnapshotData {
            slots: vec![(1, Slot::new(10, Version(1)))],
            skipped_newer: vec![],
            next_key: Some(2),
        }),
        Version(2),
    ));
    assert!(matches!(
        remote.pop_out(),
        Some(Event::NetEvent(NetEvent::Unicast(
            1,
            RpcEvent { session_id: 1, data: RpcEventData::RpcReq(RpcReq::FetchSnapshot {
                from: Some(2),
                max_version: Some(Version(2)),
                max_items: _
            }) }
        )))
    ));

    remote.on_rpc_res(RpcRes::FetchSnapshot(
        Some(SnapshotData {
            slots: vec![],
            skipped_newer: vec![(2, Version(3))],
            next_key: None,
        }),
        Version(2),
    ));

    assert_eq!(
        remote.pop_out(),
        Some(Event::NetEvent(NetEvent::Unicast(1, RpcEvent { session_id: 1, data: RpcEventData::RpcReq(RpcReq::FetchChanged { from: Version(3), count: 1 }) }))),
        "a key skipped because it is newer than the pivot must schedule catch-up without first emitting a delete"
    );
    assert_eq!(remote.pop_out(), None);
}

#[test]
fn full_sync_must_catch_up_broadcast_seen_during_snapshot() {
    let mut remote: RemoteStore = RemoteStore::new(1, 1, 2);
    assert!(matches!(
        remote.pop_out(),
        Some(Event::NetEvent(NetEvent::Unicast(
            1,
            RpcEvent { session_id: 1, data: RpcEventData::RpcReq(RpcReq::FetchSnapshot {
                from: None,
                max_version: None,
                max_items: _
            }) }
        )))
    ));

    remote.on_rpc_res(RpcRes::FetchSnapshot(
        Some(SnapshotData {
            slots: vec![(1, Slot::new(10, Version(1)))],
            skipped_newer: vec![],
            next_key: Some(2),
        }),
        Version(2),
    ));
    assert!(matches!(
        remote.pop_out(),
        Some(Event::NetEvent(NetEvent::Unicast(
            1,
            RpcEvent { session_id: 1, data: RpcEventData::RpcReq(RpcReq::FetchSnapshot {
                from: Some(2),
                max_version: Some(Version(2)),
                max_items: _
            }) }
        )))
    ));

    remote.on_broadcast(BroadcastEvent { session_id: 2, data: BroadcastEventData::Changed(Changed {
        key: 2,
        version: Version(3),
        action: Action::Put(21),
    }) });

    remote.on_rpc_res(RpcRes::FetchSnapshot(
        Some(SnapshotData {
            slots: vec![],
            skipped_newer: vec![],
            next_key: None,
        }),
        Version(2),
    ));
    assert_eq!(remote.pop_out(), Some(Event::KvEvent(KvEvent::Put(Some(1), 1, 10))));

    assert_eq!(
        remote.pop_out(),
        Some(Event::NetEvent(NetEvent::Unicast(1, RpcEvent { session_id: 1, data: RpcEventData::RpcReq(RpcReq::FetchChanged { from: Version(3), count: 1 }) }))),
        "a Changed broadcast observed during full sync must not be dropped without scheduling catch-up"
    );
}

#[test]
fn ignored_rpc_response_must_not_refresh_remote_activity() {
    let stale = wall_ms() - 11_000;
    let mut remote: RemoteStore = RemoteStore { session_id: 2, ctx: StateCtx {
            remote: 1,
        local_session_id: 1,
            slots: BTreeMap::from([(7, Slot::new(70, Version(1)))]),
            outs: VecDeque::new(),
            next_state: None,
        },
        state: RemoteStoreState::Working(WorkingState::new(Version(1))),
        last_active: stale,
    };

    remote.on_rpc_res(RpcRes::FetchSnapshot(None, Version(99)));

    assert_eq!(
        remote.last_active(),
        stale,
        "ignored or unsolicited RPC responses must not refresh remote activity and prevent timeout cleanup"
    );
    assert_eq!(remote.pop_out(), None, "ignored RPC responses must not emit local events");
}

#[test]
fn old_version_broadcast_must_not_refresh_remote_activity() {
    let stale = wall_ms() - 11_000;
    let mut remote: RemoteStore = RemoteStore { session_id: 2, ctx: StateCtx {
            remote: 1,
        local_session_id: 1,
            slots: BTreeMap::from([(7, Slot::new(70, Version(5)))]),
            outs: VecDeque::new(),
            next_state: None,
        },
        state: RemoteStoreState::Working(WorkingState::new(Version(5))),
        last_active: stale,
    };

    remote.on_broadcast(BroadcastEvent { session_id: 2, data: BroadcastEventData::Version(Version(4)) });

    assert_eq!(remote.last_active(), stale, "old-version broadcasts must not refresh remote activity and prevent timeout cleanup");
    assert_eq!(remote.pop_out(), None, "old-version broadcasts must not emit local events");
}

#[test]
fn same_version_heartbeat_must_refresh_remote_activity() {
    let stale = wall_ms() - 11_000;
    let mut remote: RemoteStore = RemoteStore { session_id: 2, ctx: StateCtx {
            remote: 1,
        local_session_id: 1,
            slots: BTreeMap::from([(7, Slot::new(70, Version(5)))]),
            outs: VecDeque::new(),
            next_state: None,
        },
        state: RemoteStoreState::Working(WorkingState::new(Version(5))),
        last_active: stale,
    };

    remote.on_broadcast(BroadcastEvent { session_id: 2, data: BroadcastEventData::Version(Version(5)) });

    assert!(
        remote.last_active() > stale,
        "same-version heartbeats must refresh remote activity so idle but connected owners do not time out"
    );
    assert_eq!(remote.pop_out(), None, "same-version heartbeats must not emit local events");
}



#[test]
fn working_state_must_not_cancel_repair_after_empty_fetch_changed_success() {
    let mut ctx: StateCtx = StateCtx {
        remote: 1,
        local_session_id: 1,
        slots: BTreeMap::new(),
        outs: VecDeque::new(),
        next_state: None,
    };

    let now = wall_ms();
    let mut state = WorkingState::new(Version(0));

    state.on_broadcast(&mut ctx, now, BroadcastEvent { session_id: 2, data: BroadcastEventData::Version(Version(1)) });
    assert_eq!(
        ctx.outs.pop_front(),
        Some(Event::NetEvent(NetEvent::Unicast(1, RpcEvent { session_id: 1, data: RpcEventData::RpcReq(RpcReq::FetchChanged { from: Version(1), count: 1 }) })))
    );
    assert_eq!(ctx.outs.pop_front(), None);

    state.on_rpc_res(&mut ctx, now, RpcRes::FetchChanged(Ok(vec![])));
    state.on_tick(&mut ctx, now + REQUEST_TIMEOUT_MS + 1);

    assert!(
        ctx.next_state.is_some() || ctx.outs.pop_front().is_some(),
        "empty FetchChanged success must not cancel the in-flight repair without retrying or starting full resync"
    );
}

#[test]
fn working_state_must_continue_repair_after_partial_fetch_changed_success() {
    let mut ctx: StateCtx = StateCtx {
        remote: 1,
        local_session_id: 1,
        slots: BTreeMap::new(),
        outs: VecDeque::new(),
        next_state: None,
    };

    let now = wall_ms();
    let mut state = WorkingState::new(Version(0));

    state.on_broadcast(&mut ctx, now, BroadcastEvent { session_id: 2, data: BroadcastEventData::Version(Version(5)) });
    assert_eq!(
        ctx.outs.pop_front(),
        Some(Event::NetEvent(NetEvent::Unicast(1, RpcEvent { session_id: 1, data: RpcEventData::RpcReq(RpcReq::FetchChanged { from: Version(1), count: 5 }) })))
    );
    assert_eq!(ctx.outs.pop_front(), None);

    state.on_rpc_res(
        &mut ctx,
        now,
        RpcRes::FetchChanged(Ok(vec![
            Changed {
                key: 1,
                version: Version(1),
                action: Action::Put(10),
            },
            Changed {
                key: 2,
                version: Version(2),
                action: Action::Put(20),
            },
        ])),
    );

    assert_eq!(ctx.outs.pop_front(), Some(Event::KvEvent(KvEvent::Put(Some(1), 1, 10))));
    assert_eq!(ctx.outs.pop_front(), Some(Event::KvEvent(KvEvent::Put(Some(1), 2, 20))));
    assert_eq!(
        ctx.outs.pop_front(),
        Some(Event::NetEvent(NetEvent::Unicast(1, RpcEvent { session_id: 1, data: RpcEventData::RpcReq(RpcReq::FetchChanged { from: Version(3), count: 3 }) }))),
        "partial FetchChanged success must continue repairing the remaining requested versions"
    );
}

#[test]
fn working_state_must_not_let_stale_fetch_changed_response_cancel_newer_repair() {
    let mut ctx: StateCtx = StateCtx {
        remote: 1,
        local_session_id: 1,
        slots: BTreeMap::new(),
        outs: VecDeque::new(),
        next_state: None,
    };

    let now = wall_ms();
    let mut state = WorkingState::new(Version(0));

    state.on_broadcast(&mut ctx, now, BroadcastEvent { session_id: 2, data: BroadcastEventData::Version(Version(1)) });
    assert_eq!(
        ctx.outs.pop_front(),
        Some(Event::NetEvent(NetEvent::Unicast(1, RpcEvent { session_id: 1, data: RpcEventData::RpcReq(RpcReq::FetchChanged { from: Version(1), count: 1 }) })))
    );
    assert_eq!(ctx.outs.pop_front(), None);

    state.on_broadcast(&mut ctx, now, BroadcastEvent { session_id: 2, data: BroadcastEventData::Version(Version(5)) });
    assert_eq!(
        ctx.outs.pop_front(),
        Some(Event::NetEvent(NetEvent::Unicast(1, RpcEvent { session_id: 1, data: RpcEventData::RpcReq(RpcReq::FetchChanged { from: Version(1), count: 5 }) })))
    );
    assert_eq!(ctx.outs.pop_front(), None);

    state.on_rpc_res(
        &mut ctx,
        now,
        RpcRes::FetchChanged(Ok(vec![Changed {
            key: 1,
            version: Version(1),
            action: Action::Put(10),
        }])),
    );

    while matches!(ctx.outs.pop_front(), Some(Event::KvEvent(_))) {}
    state.on_tick(&mut ctx, now + REQUEST_TIMEOUT_MS + 1);

    assert_eq!(
        ctx.outs.pop_front(),
        Some(Event::NetEvent(NetEvent::Unicast(1, RpcEvent { session_id: 1, data: RpcEventData::RpcReq(RpcReq::FetchChanged { from: Version(2), count: 4 }) }))),
        "stale response for the old narrow request must not cancel the newer repair for versions 2..=5"
    );
}

#[test]
fn test_working_state_resend_timeout_fetch_changed() {
    let mut ctx: StateCtx = StateCtx {
        remote: 1,
        local_session_id: 1,
        slots: BTreeMap::new(),
        outs: VecDeque::new(),
        next_state: None,
    };

    let now = wall_ms();
    let mut state = WorkingState::new(Version(0));

    state.on_broadcast(
        &mut ctx,
        now,
        BroadcastEvent { session_id: 2, data: BroadcastEventData::Changed(Changed {
            key: 1,
            version: Version(2),
            action: Action::Put(1),
        }) },
    );

    assert_eq!(state.pendings.len(), 1);
    assert_eq!(ctx.slots, BTreeMap::new());
    assert_eq!(ctx.next_state, None);
    assert_eq!(
        ctx.outs.pop_front(),
        Some(Event::NetEvent(NetEvent::Unicast(1, RpcEvent { session_id: 1, data: RpcEventData::RpcReq(RpcReq::FetchChanged { from: Version(1), count: 1 }) })))
    );
    assert_eq!(ctx.outs.pop_front(), None);

    // now after timeout we should resend
    state.on_tick(&mut ctx, now + REQUEST_TIMEOUT_MS + 1);
    assert_eq!(
        ctx.outs.pop_front(),
        Some(Event::NetEvent(NetEvent::Unicast(1, RpcEvent { session_id: 1, data: RpcEventData::RpcReq(RpcReq::FetchChanged { from: Version(1), count: 1 }) })))
    );
    assert_eq!(ctx.outs.pop_front(), None);
}

#[test]
fn working_state_must_not_duplicate_inflight_fetch_changed_for_same_gap() {
    let mut ctx: StateCtx = StateCtx {
        remote: 1,
        local_session_id: 1,
        slots: BTreeMap::new(),
        outs: VecDeque::new(),
        next_state: None,
    };

    let now = wall_ms();
    let mut state = WorkingState::new(Version(0));
    state.init(&mut ctx, now);

    state.on_broadcast(
        &mut ctx,
        now,
        BroadcastEvent { session_id: 2, data: BroadcastEventData::Changed(Changed {
            key: 10,
            version: Version(10),
            action: Action::Put(10),
        }) },
    );

    assert_eq!(
        ctx.outs.pop_front(),
        Some(Event::NetEvent(NetEvent::Unicast(1, RpcEvent { session_id: 1, data: RpcEventData::RpcReq(RpcReq::FetchChanged { from: Version(1), count: 9 }) })))
    );
    assert_eq!(ctx.outs.pop_front(), None);

    state.on_broadcast(
        &mut ctx,
        now + 10,
        BroadcastEvent { session_id: 2, data: BroadcastEventData::Changed(Changed {
            key: 11,
            version: Version(11),
            action: Action::Put(11),
        }) },
    );

    assert_eq!(
        ctx.outs.pop_front(),
        None,
        "same-gap FetchChanged repair is already in flight and must not be duplicated before timeout or response"
    );
}

#[test]
fn working_state_must_cap_pending_future_changes() {
    let mut ctx: StateCtx = StateCtx {
        remote: 1,
        local_session_id: 1,
        slots: BTreeMap::new(),
        outs: VecDeque::new(),
        next_state: None,
    };

    let now = wall_ms();
    let mut state = WorkingState::new(Version(0));

    for version in 2..=2_050 {
        state.on_broadcast(
            &mut ctx,
            now,
            BroadcastEvent { session_id: 2, data: BroadcastEventData::Changed(Changed {
                key: version as u64,
                version: Version(version),
                action: Action::Put(version as u64),
            }) },
        );
    }

    assert!(
        state.pendings.len() <= 1024,
        "future changed broadcasts from one remote must be capped to avoid unbounded memory growth"
    );
}

#[test]
fn working_state_must_reject_duplicate_pending_changed_broadcast_versions() {
    let mut ctx: StateCtx = StateCtx {
        remote: 1,
        local_session_id: 1,
        slots: BTreeMap::new(),
        outs: VecDeque::new(),
        next_state: None,
    };

    let now = wall_ms();
    let mut state = WorkingState::new(Version(0));

    state.on_broadcast(
        &mut ctx,
        now,
        BroadcastEvent { session_id: 2, data: BroadcastEventData::Changed(Changed {
            key: 7,
            version: Version(2),
            action: Action::Put(20),
        }) },
    );
    state.on_broadcast(
        &mut ctx,
        now,
        BroadcastEvent { session_id: 2, data: BroadcastEventData::Changed(Changed {
            key: 7,
            version: Version(2),
            action: Action::Put(99),
        }) },
    );
    state.on_broadcast(
        &mut ctx,
        now,
        BroadcastEvent { session_id: 2, data: BroadcastEventData::Changed(Changed {
            key: 7,
            version: Version(1),
            action: Action::Put(10),
        }) },
    );

    assert_eq!(
        ctx.slots.get(&7),
        Some(&Slot::new(20, Version(2))),
        "duplicate pending Changed broadcasts must not overwrite the first accepted value for the same version"
    );
}

#[test]
fn working_state_must_cap_pending_fetch_changed_response() {
    let mut ctx: StateCtx = StateCtx {
        remote: 1,
        local_session_id: 1,
        slots: BTreeMap::new(),
        outs: VecDeque::new(),
        next_state: None,
    };

    let now = wall_ms();
    let mut state = WorkingState::new(Version(0));
    state.on_broadcast(&mut ctx, now, BroadcastEvent { session_id: 2, data: BroadcastEventData::Version(Version(2_050)) });
    ctx.outs.clear();

    let changeds = (2..=2_050)
        .map(|version| Changed {
            key: version as u64,
            version: Version(version),
            action: Action::Put(version as u64),
        })
        .collect();

    state.on_rpc_res(&mut ctx, now, RpcRes::FetchChanged(Ok(changeds)));

    assert!(
        state.pendings.len() <= 1024,
        "future changed RPC responses from one remote must be capped to avoid unbounded memory growth, got {}",
        state.pendings.len()
    );
}

#[test]
fn destroy_remote_should_clear_slots() {
    let mut ctx: StateCtx = StateCtx {
        remote: 1,
        local_session_id: 1,
        slots: BTreeMap::from([(1, Slot::new(1, Version(1)))]),
        outs: VecDeque::new(),
        next_state: None,
    };

    let now = wall_ms();
    let mut state = DestroyState {};
    state.init(&mut ctx, now);

    assert_eq!(ctx.slots, BTreeMap::new());
    assert_eq!(ctx.next_state, None);
    assert_eq!(ctx.outs.pop_front(), Some(Event::KvEvent(KvEvent::Del(Some(1), 1))));
    assert_eq!(ctx.outs.pop_front(), None);
}

#[test]
fn test_continuation_none_response_must_not_livelock() {
    let mut ctx: StateCtx = StateCtx {
        remote: 1,
        local_session_id: 1,
        slots: BTreeMap::new(),
        outs: VecDeque::new(),
        next_state: None,
    };

    let now = wall_ms();
    let mut state = SyncFullState::default();
    state.init(&mut ctx, now);
    ctx.outs.clear();

    // Send first page of snapshot with next_key Some(2)
    state.on_rpc_res(
        &mut ctx,
        now,
        RpcRes::FetchSnapshot(
            Some(SnapshotData {
                slots: vec![(1, Slot::new(10, Version(1)))],
                skipped_newer: vec![],
                next_key: Some(2),
            }),
            Version(2),
        ),
    );
    ctx.outs.clear();

    // Receive None for continuation snapshot request
    state.on_rpc_res(&mut ctx, now, RpcRes::FetchSnapshot(None, Version(2)));

    assert_eq!(
        ctx.outs.pop_front(),
        Some(Event::NetEvent(NetEvent::Unicast(
            1,
            RpcEvent {
                session_id: 1,
                data: RpcEventData::RpcReq(RpcReq::FetchSnapshot {
                    from: None,
                    max_version: None,
                    max_items: MAX_SNAPSHOT_SLOTS_PER_PAGE as u64,
                })
            }
        ))),
        "continuation None response must restart full sync from the first snapshot page"
    );
    assert_eq!(ctx.outs.pop_front(), None);

    // Advance time past timeout and trigger tick
    state.on_tick(&mut ctx, now + REQUEST_TIMEOUT_MS + 1);

    assert_eq!(
        ctx.outs.pop_front(),
        Some(Event::NetEvent(NetEvent::Unicast(
            1,
            RpcEvent {
                session_id: 1,
                data: RpcEventData::RpcReq(RpcReq::FetchSnapshot {
                    from: None,
                    max_version: None,
                    max_items: MAX_SNAPSHOT_SLOTS_PER_PAGE as u64,
                })
            }
        ))),
        "timeout after restart must resend the first-page request, not the stale continuation"
    );
    assert_eq!(ctx.outs.pop_front(), None);
}

#[test]
fn working_state_must_catch_up_new_version_broadcast_received_during_pending_gap() {
    let mut ctx: StateCtx = StateCtx {
        remote: 1,
        local_session_id: 1,
        slots: BTreeMap::new(),
        outs: VecDeque::new(),
        next_state: None,
    };

    let now = wall_ms();
    let mut state = WorkingState::new(Version(10));

    // 1. Receive BroadcastEvent::Changed for version 12.
    // Since version 11 is missing, this is a gap.
    // It should request FetchChanged from 11 count 1.
    state.on_broadcast(&mut ctx, now, BroadcastEvent { session_id: 2, data: BroadcastEventData::Changed(Changed {
        key: 1,
        version: Version(12),
        action: Action::Put(12),
    }) });

    assert_eq!(
        ctx.outs.pop_front(),
        Some(Event::NetEvent(NetEvent::Unicast(
            1,
            RpcEvent { session_id: 1, data: RpcEventData::RpcReq(RpcReq::FetchChanged {
                from: Version(11),
                count: 1
            }) }
        )))
    );
    assert_eq!(ctx.outs.pop_front(), None);
    assert_eq!(state.version, Version(10));
    assert!(state.sending_req.is_some());
    assert!(!state.pendings.is_empty()); // contains 12

    // 2. Receive BroadcastEvent::Version for version 15.
    // Because self.pendings is not empty, this version heartbeat is currently ignored.
    state.on_broadcast(&mut ctx, now, BroadcastEvent { session_id: 2, data: BroadcastEventData::Version(Version(15)) });

    // 3. Receive the RPC response for version 11.
    state.on_rpc_res(
        &mut ctx,
        now,
        RpcRes::FetchChanged(Ok(vec![Changed {
            key: 1,
            version: Version(11),
            action: Action::Put(11),
        }])),
    );

    // After applying version 11 and 12, state.version must be 12.
    assert_eq!(state.version, Version(12));
    assert_eq!(state.pendings.len(), 0);

    // Clear any KvEvents (like Set) from outs to inspect NetEvents
    let net_events: Vec<_> = ctx.outs.iter().filter(|e| matches!(e, Event::NetEvent(_))).collect();
    assert_eq!(
        net_events,
        vec![&Event::NetEvent(NetEvent::Unicast(
            1,
            RpcEvent { session_id: 1, data: RpcEventData::RpcReq(RpcReq::FetchChanged {
                from: Version(13),
                count: 3
            }) }
        ))],
        "Node B must schedule a catch-up request for the remaining versions 13-15 after resolving the gap"
    );
}
