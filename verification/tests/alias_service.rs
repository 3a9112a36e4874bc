use std::collections::BTreeSet;

use p2p_services::alias_service::{
    AliasControl, AliasFoundLocation, AliasId, AliasMessage, AliasServiceInternal, FindRequest, FindRequestState,
    InternalOutput, RemoteAliasState, HINT_TIMEOUT_MS, MAX_ALIAS_HINT_PEERS, MAX_PENDING_FIND_REQUESTS,
    MAX_WAITERS_PER_ALIAS, SCAN_TIMEOUT_MS,
};
use p2p_services::peer::PeerId;
use tokio::sync::oneshot;

type Waiter = oneshot::Sender<Option<AliasFoundLocation>>;

/// The alias service at a test clock, answering finders as soon as an
/// answer is owed.
struct TestContext {
    internal: AliasServiceInternal<Waiter>,
    now: u64,
}

impl TestContext {
    fn new() -> Self {
        Self { internal: AliasServiceInternal::new(), now: 1000 }
    }

    fn advance_time(&mut self, ms: u64) {
        self.now += ms;
    }

    fn collect_outputs(&mut self) -> Vec<InternalOutput> {
        let mut outputs = Vec::new();
        while let Some(output) = self.internal.pop_output() {
            outputs.push(output);
        }
        outputs
    }

    fn deliver_replies(&mut self) {
        while let Some((tx, result)) = self.internal.pop_reply() {
            let _ = tx.send(result);
        }
    }

    fn on_control(&mut self, now: u64, control: AliasControl<Waiter>) {
        self.internal.on_control(now, control);
        self.deliver_replies();
    }

    fn on_msg(&mut self, now: u64, from: PeerId, msg: AliasMessage) {
        self.internal.on_msg(now, from, msg);
        self.deliver_replies();
    }

    fn on_tick(&mut self, now: u64) {
        self.internal.on_tick(now);
        self.deliver_replies();
    }

    fn on_peer_disconnected(&mut self, now: u64, peer: PeerId) {
        self.internal.on_peer_disconnected(now, peer);
        self.deliver_replies();
    }
}

#[test]
fn test_register_alias() {
    let mut ctx = TestContext::new();
    let alias_id = AliasId(1);

    // Test registering an alias
    ctx.on_control(ctx.now, AliasControl::Register(alias_id));

    // Verify local set contains the alias
    assert!(ctx.internal.local.contains_key(&alias_id.0));

    // Verify broadcast message
    let outputs = ctx.collect_outputs();
    assert_eq!(outputs.len(), 1);
    match &outputs[0] {
        InternalOutput::Broadcast(AliasMessage::NotifySet(id, generation)) => {
            assert_eq!(*id, alias_id);
            assert_eq!(*generation, 1);
        }
        _ => panic!("Expected broadcast NotifySet message"),
    }
}

#[test]
fn test_unregister_alias() {
    let mut ctx = TestContext::new();
    let alias_id = AliasId(1);

    // Register first
    ctx.on_control(ctx.now, AliasControl::Register(alias_id));
    ctx.collect_outputs(); // Clear outputs

    // Test unregistering
    ctx.on_control(ctx.now, AliasControl::Unregister(alias_id));

    // Verify local set doesn't contain the alias
    assert!(!ctx.internal.local.contains_key(&alias_id.0));

    // Verify broadcast message
    let outputs = ctx.collect_outputs();
    assert_eq!(outputs.len(), 1);
    match &outputs[0] {
        InternalOutput::Broadcast(AliasMessage::NotifyDel(id, generation)) => {
            assert_eq!(*id, alias_id);
            assert_eq!(*generation, 2);
        }
        _ => panic!("Expected broadcast NotifyDel message"),
    }
}

#[test]
fn registering_same_alias_many_times_must_not_overflow_refcount() {
    let mut ctx = TestContext::new();
    let alias_id = AliasId(1);

    for _ in 0..=u8::MAX {
        ctx.on_control(ctx.now, AliasControl::Register(alias_id));
    }

    assert_eq!(ctx.internal.local.get(&alias_id.0), Some(&256), "alias registration refcount must count every local guard");
}

#[test]
fn saturated_alias_refcount_must_not_unregister_while_guards_remain() {
    let mut ctx = TestContext::new();
    let alias_id = AliasId(1);

    for _ in 0..300 {
        ctx.on_control(ctx.now, AliasControl::Register(alias_id));
    }

    for _ in 0..255 {
        ctx.on_control(ctx.now, AliasControl::Unregister(alias_id));
    }

    assert!(
        ctx.internal.local.contains_key(&alias_id.0),
        "more than 255 live alias guards must not be truncated to 255 and unregister the alias while guards still remain"
    );
}

#[test]
fn test_find_local_alias() {
    let mut ctx = TestContext::new();
    let alias_id = AliasId(1);

    // Register alias locally
    ctx.on_control(ctx.now, AliasControl::Register(alias_id));
    ctx.collect_outputs(); // Clear outputs

    // Create a oneshot channel for the find response
    let (tx, mut rx) = oneshot::channel();

    // Test finding the local alias
    ctx.on_control(ctx.now, AliasControl::Find(alias_id, tx));

    // Verify response
    let response = rx.try_recv().expect("Should have a response");
    assert_eq!(response, Some(AliasFoundLocation::Local));

    // Verify no outputs (shouldn't need to broadcast for local find)
    let outputs = ctx.collect_outputs();
    assert!(outputs.is_empty());
}

#[test]
fn test_find_cached_alias_found() {
    let mut ctx = TestContext::new();
    let alias_id = AliasId(1);
    let peer_addr = PeerId(1);

    // Add alias to cache
    ctx.on_msg(ctx.now, peer_addr, AliasMessage::NotifySet(alias_id, 1));

    // Create a oneshot channel for the find response
    let (tx, mut rx) = oneshot::channel();

    // Test finding the cached alias
    ctx.on_control(ctx.now, AliasControl::Find(alias_id, tx));

    // Verify unicast message to check with cached peer
    let outputs = ctx.collect_outputs();
    assert_eq!(outputs, vec![InternalOutput::Unicast(peer_addr, AliasMessage::Check(alias_id))]);

    // Simulate peer response
    ctx.on_msg(ctx.now, peer_addr, AliasMessage::Found(alias_id));

    // Verify find response
    let response = rx.try_recv().expect("Should have a response");
    assert_eq!(response, Some(AliasFoundLocation::Hint(peer_addr)));
}

#[test]
fn cached_hint_find_must_ignore_found_from_unchecked_peer() {
    let mut ctx = TestContext::new();
    let alias_id = AliasId(1);
    let hinted_peer = PeerId(1);
    let unchecked_peer = PeerId(2);

    ctx.on_msg(ctx.now, hinted_peer, AliasMessage::NotifySet(alias_id, 1));

    let (tx, mut rx) = oneshot::channel();
    ctx.on_control(ctx.now, AliasControl::Find(alias_id, tx));

    assert_eq!(ctx.collect_outputs(), vec![InternalOutput::Unicast(hinted_peer, AliasMessage::Check(alias_id))]);

    ctx.on_msg(ctx.now, unchecked_peer, AliasMessage::Found(alias_id));

    assert!(rx.try_recv().is_err(), "cached hint lookup must not complete from a peer that was not checked");
    assert!(
        ctx.internal.find_reqs.contains_key(&alias_id.0),
        "cached hint lookup must remain pending after an unchecked peer replies Found"
    );
    assert!(
        !ctx.internal.cache.get(&alias_id.0).is_some_and(|peers| peers.contains(&unchecked_peer.0)),
        "unchecked Found responses must not poison the alias hint cache"
    );
}

#[test]
fn unsolicited_found_must_not_create_alias_cache_hint() {
    let mut ctx = TestContext::new();
    let alias_id = AliasId(1);
    let unsolicited_peer = PeerId(2);

    ctx.on_msg(ctx.now, unsolicited_peer, AliasMessage::Found(alias_id));

    assert!(
        !ctx.internal.cache.contains(&alias_id.0),
        "unsolicited Found messages without a pending lookup must not create alias cache hints"
    );
}

#[test]
fn scan_found_must_require_advertised_alias_lifecycle() {
    let mut ctx = TestContext::new();
    let alias_id = AliasId(1);
    let unadvertised_peer = PeerId(2);

    let (tx, mut rx) = oneshot::channel();
    ctx.on_control(ctx.now, AliasControl::Find(alias_id, tx));
    assert_eq!(ctx.collect_outputs(), vec![InternalOutput::Broadcast(AliasMessage::Scan(alias_id))]);

    ctx.on_msg(ctx.now, unadvertised_peer, AliasMessage::Found(alias_id));

    assert!(rx.try_recv().is_err(), "scan lookup must not complete from a peer that never advertised active ownership of the alias");
    assert!(!ctx.internal.cache.contains(&alias_id.0), "unadvertised scan Found responses must not poison the alias hint cache");
    assert!(
        ctx.internal.find_reqs.contains_key(&alias_id.0),
        "scan lookup should remain pending until an advertised owner answers or the scan times out"
    );
}

#[test]
fn stale_not_found_must_not_evict_alias_cache_without_pending_check() {
    let mut ctx = TestContext::new();
    let alias_id = AliasId(7);
    let hinted_peer = PeerId(2);

    ctx.on_msg(ctx.now, hinted_peer, AliasMessage::NotifySet(alias_id, 1));
    assert!(
        ctx.internal.cache.get(&alias_id.0).is_some_and(|peers| peers.contains(&hinted_peer.0)),
        "test setup should cache the hinted peer"
    );
    assert!(!ctx.internal.find_reqs.contains_key(&alias_id.0), "test setup should have no active lookup for this alias");

    ctx.on_msg(ctx.now, hinted_peer, AliasMessage::NotFound(alias_id));

    assert!(
        ctx.internal.cache.get(&alias_id.0).is_some_and(|peers| peers.contains(&hinted_peer.0)),
        "stale NotFound without a matching pending CheckHint request must not evict a valid cached hint"
    );
}

#[test]
fn stale_notify_set_must_not_resurrect_alias_after_newer_notify_del() {
    let mut ctx = TestContext::new();
    let alias_id = AliasId(7);
    let peer = PeerId(2);

    ctx.on_msg(ctx.now, peer, AliasMessage::NotifySet(alias_id, 1));
    assert!(ctx.internal.cache.get(&alias_id.0).is_some_and(|peers| peers.contains(&peer.0)));

    ctx.on_msg(ctx.now + 1, peer, AliasMessage::NotifyDel(alias_id, 2));
    assert!(!ctx.internal.cache.contains(&alias_id.0));

    ctx.on_msg(ctx.now + 2, peer, AliasMessage::NotifySet(alias_id, 1));

    assert!(!ctx.internal.cache.contains(&alias_id.0), "stale NotifySet must not resurrect an alias hint removed by a newer NotifyDel");

    let (tx, _rx) = oneshot::channel();
    ctx.on_control(ctx.now + 3, AliasControl::Find(alias_id, tx));

    assert_eq!(
        ctx.collect_outputs(),
        vec![InternalOutput::Broadcast(AliasMessage::Scan(alias_id))],
        "find must not use a resurrected stale hint"
    );
}

#[test]
fn newer_notify_set_must_restore_alias_after_notify_del() {
    let mut ctx = TestContext::new();
    let alias_id = AliasId(7);
    let peer = PeerId(2);

    ctx.on_msg(ctx.now, peer, AliasMessage::NotifySet(alias_id, 1));
    assert!(ctx.internal.cache.get(&alias_id.0).is_some_and(|peers| peers.contains(&peer.0)));

    ctx.on_msg(ctx.now + 1, peer, AliasMessage::NotifyDel(alias_id, 2));
    assert!(!ctx.internal.cache.contains(&alias_id.0));

    ctx.on_msg(ctx.now + 2, peer, AliasMessage::NotifySet(alias_id, 3));

    assert!(
        ctx.internal.cache.get(&alias_id.0).is_some_and(|peers| peers.contains(&peer.0)),
        "newer NotifySet generation must restore an alias hint after a prior NotifyDel"
    );

    let (tx, _rx) = oneshot::channel();
    ctx.on_control(ctx.now + 3, AliasControl::Find(alias_id, tx));

    assert_eq!(
        ctx.collect_outputs(),
        vec![InternalOutput::Unicast(peer, AliasMessage::Check(alias_id))],
        "find must use the valid newer hint"
    );
}

#[test]
fn alias_restart_with_reset_generation_must_restore_hint_after_disconnect() {
    let mut ctx = TestContext::new();
    let alias_id = AliasId(7);
    let peer = PeerId(2);

    ctx.on_msg(ctx.now, peer, AliasMessage::NotifySet(alias_id, 2));
    assert!(ctx.internal.cache.get(&alias_id.0).is_some_and(|peers| peers.contains(&peer.0)));

    ctx.on_msg(ctx.now + 1, peer, AliasMessage::NotifyDel(alias_id, 3));
    assert!(!ctx.internal.cache.contains(&alias_id.0));

    ctx.on_peer_disconnected(ctx.now + 2, peer);
    ctx.on_msg(ctx.now + 3, peer, AliasMessage::NotifySet(alias_id, 1));

    assert!(
        ctx.internal.cache.get(&alias_id.0).is_some_and(|peers| peers.contains(&peer.0)),
        "a restarted peer with reset alias generation must be able to restore a fresh hint"
    );

    let (tx, _rx) = oneshot::channel();
    ctx.on_control(ctx.now + 4, AliasControl::Find(alias_id, tx));

    assert_eq!(
        ctx.collect_outputs(),
        vec![InternalOutput::Unicast(peer, AliasMessage::Check(alias_id))],
        "find must use the fresh post-restart alias hint"
    );
}

#[test]
fn alias_peer_disconnect_must_clear_remote_lifecycle_and_cached_hint() {
    let mut ctx = TestContext::new();
    let alias_id = AliasId(7);
    let peer = PeerId(2);

    ctx.on_msg(ctx.now, peer, AliasMessage::NotifySet(alias_id, 2));
    assert!(ctx.internal.cache.get(&alias_id.0).is_some_and(|peers| peers.contains(&peer.0)));
    assert!(ctx.internal.remote_lifecycle.contains(&(alias_id.0, peer.0)));

    let (tx, _rx) = oneshot::channel();
    ctx.on_control(ctx.now + 1, AliasControl::Find(alias_id, tx));
    assert_eq!(ctx.collect_outputs(), vec![InternalOutput::Unicast(peer, AliasMessage::Check(alias_id))]);

    ctx.on_peer_disconnected(ctx.now + 2, peer);

    assert!(!ctx.internal.cache.contains(&alias_id.0), "disconnect must remove cached alias hints for the peer");
    assert!(
        !ctx.internal.remote_lifecycle.contains(&(alias_id.0, peer.0)),
        "disconnect must remove alias lifecycle tombstones for the peer"
    );
    assert_eq!(
        ctx.collect_outputs(),
        vec![InternalOutput::Broadcast(AliasMessage::Scan(alias_id))],
        "pending cached-hint lookups must fail over when their checked peer disconnects"
    );
}

#[test]
fn alias_peer_disconnect_must_clear_found_only_cached_hint() {
    let mut ctx = TestContext::new();
    let alias_id = AliasId(7);
    let peer = PeerId(2);

    let (tx, _rx) = oneshot::channel();
    ctx.on_control(ctx.now, AliasControl::Find(alias_id, tx));
    assert_eq!(ctx.collect_outputs(), vec![InternalOutput::Broadcast(AliasMessage::Scan(alias_id))]);

    ctx.on_msg(ctx.now + 1, peer, AliasMessage::Found(alias_id));
    assert!(
        !ctx.internal.cache.get(&alias_id.0).is_some_and(|peers| peers.contains(&peer.0)),
        "Found-only scan responses without advertised lifecycle must not create cache hints"
    );
    assert!(!ctx.internal.remote_lifecycle.contains(&(alias_id.0, peer.0)), "Found-only cache hints do not create lifecycle entries");

    ctx.on_peer_disconnected(ctx.now + 2, peer);

    assert!(!ctx.internal.cache.contains(&alias_id.0), "disconnect must leave rejected Found-only cache hints absent");
}

#[test]
fn cached_alias_peer_hints_must_be_bounded() {
    let mut ctx = TestContext::new();
    let alias_id = AliasId(1);

    for peer in 0..=MAX_ALIAS_HINT_PEERS {
        ctx.on_msg(ctx.now, PeerId::from(peer as u64 + 10), AliasMessage::NotifySet(alias_id, 1));
    }

    let cached_peers = ctx.internal.cache.get(&alias_id.0).expect("alias should be cached").len();

    assert!(cached_peers <= MAX_ALIAS_HINT_PEERS, "cached peer hints for one alias must be bounded, got {cached_peers}");
}

#[test]
fn cached_alias_existing_peer_refresh_must_work_when_hint_set_full() {
    let mut ctx = TestContext::new();
    let alias_id = AliasId(1);

    for peer in 0..MAX_ALIAS_HINT_PEERS {
        ctx.on_msg(ctx.now, PeerId::from(peer as u64 + 10), AliasMessage::NotifySet(alias_id, 1));
    }

    let existing = PeerId::from(10);
    ctx.on_msg(ctx.now + 1, existing, AliasMessage::NotifySet(alias_id, 2));

    let cached_peers = ctx.internal.cache.get(&alias_id.0).expect("alias should be cached");
    assert_eq!(cached_peers.len(), MAX_ALIAS_HINT_PEERS);
    assert!(cached_peers.contains(&existing.0), "existing cached peer must stay admitted at capacity");
    assert_eq!(
        ctx.internal.remote_lifecycle.get(&(alias_id.0, existing.0)),
        Some(&RemoteAliasState { generation: 2, active: true }),
        "existing peer lifecycle must refresh even when the hint set is full"
    );
}

#[test]
fn found_response_must_not_exceed_alias_hint_cap() {
    let mut ctx = TestContext::new();
    let alias_id = AliasId(1);

    for peer in 0..MAX_ALIAS_HINT_PEERS {
        ctx.on_msg(ctx.now, PeerId::from(peer as u64 + 10), AliasMessage::NotifySet(alias_id, 1));
    }

    let (tx, mut rx) = oneshot::channel();
    ctx.internal.find_reqs.insert(
        alias_id.0,
        FindRequest {
            state: FindRequestState::Scan(ctx.now),
            waits: vec![tx],
        },
    );

    let found_peer = PeerId::from(20_000);
    ctx.on_msg(ctx.now, found_peer, AliasMessage::NotifySet(alias_id, 1));
    assert!(
        !ctx.internal.cache.get(&alias_id.0).is_some_and(|peers| peers.contains(&found_peer.0)),
        "test setup should keep the advertised responder out of the full hint cache"
    );
    ctx.on_msg(ctx.now, found_peer, AliasMessage::Found(alias_id));

    assert_eq!(rx.try_recv().expect("scan lookup should complete"), Some(AliasFoundLocation::Scan(found_peer)));
    let cached_peers = ctx.internal.cache.get(&alias_id.0).expect("alias should be cached");
    assert_eq!(cached_peers.len(), MAX_ALIAS_HINT_PEERS, "accepted Found must not grow a full alias hint set");
    assert!(!cached_peers.contains(&found_peer.0), "new Found peer must not be retained when the hint set is full");
}

#[test]
fn test_find_cached_alias_not_found() {
    let mut ctx = TestContext::new();
    let alias_id = AliasId(1);
    let peer_addr = PeerId(1);

    // Add alias to cache
    ctx.on_msg(ctx.now, peer_addr, AliasMessage::NotifySet(alias_id, 1));

    // Create a oneshot channel for the find response
    let (tx, _rx) = oneshot::channel();

    // Test finding the cached alias
    ctx.on_control(ctx.now, AliasControl::Find(alias_id, tx));

    // Verify unicast message to check with cached peer
    let outputs = ctx.collect_outputs();
    assert_eq!(outputs, vec![InternalOutput::Unicast(peer_addr, AliasMessage::Check(alias_id))]);

    // Simulate peer response
    ctx.on_msg(ctx.now, peer_addr, AliasMessage::NotFound(alias_id));

    // Verify broadcast scan message
    let outputs = ctx.collect_outputs();
    assert_eq!(outputs, vec![InternalOutput::Broadcast(AliasMessage::Scan(alias_id))]);
}

#[test]
fn shutdown_from_cached_hint_must_unblock_pending_find() {
    let mut ctx = TestContext::new();
    let alias_id = AliasId(1);
    let hinted_peer = PeerId(2);

    ctx.on_msg(ctx.now, hinted_peer, AliasMessage::NotifySet(alias_id, 1));

    let (tx, mut rx) = oneshot::channel();
    ctx.on_control(ctx.now, AliasControl::Find(alias_id, tx));

    assert_eq!(ctx.collect_outputs(), vec![InternalOutput::Unicast(hinted_peer, AliasMessage::Check(alias_id))]);

    ctx.on_msg(ctx.now, hinted_peer, AliasMessage::Shutdown);

    assert_eq!(
        ctx.collect_outputs(),
        vec![InternalOutput::Broadcast(AliasMessage::Scan(alias_id))],
        "shutdown from the only cached hint must immediately fail over instead of waiting for hint timeout"
    );
    assert!(rx.try_recv().is_err(), "lookup should remain pending while it fails over to scan, not complete from a stopped hint");
}

#[test]
fn pending_find_must_prefer_late_local_registration_over_remote_found() {
    let mut ctx = TestContext::new();
    let alias_id = AliasId(1);
    let remote_peer = PeerId(2);

    let (tx, mut rx) = oneshot::channel();
    ctx.on_control(ctx.now, AliasControl::Find(alias_id, tx));
    assert_eq!(ctx.collect_outputs(), vec![InternalOutput::Broadcast(AliasMessage::Scan(alias_id))]);

    ctx.on_control(ctx.now, AliasControl::Register(alias_id));
    ctx.collect_outputs();

    ctx.on_msg(ctx.now, remote_peer, AliasMessage::Found(alias_id));

    assert_eq!(
        rx.try_recv().expect("pending find should complete"),
        Some(AliasFoundLocation::Local),
        "a pending alias find must resolve to Local once the alias is registered locally, not to a later remote Found"
    );
    assert!(!ctx.internal.find_reqs.contains_key(&alias_id.0), "local registration should clear the obsolete pending find request");
}

#[test]
fn test_find_cached_alias_timeout_switch_to_scan() {
    let mut ctx = TestContext::new();
    let alias_id = AliasId(1);
    let peer_addr = PeerId(1);

    // Add alias to cache
    ctx.on_msg(ctx.now, peer_addr, AliasMessage::NotifySet(alias_id, 1));

    // Create a oneshot channel for the find response
    let (tx, _rx) = oneshot::channel();

    // Test finding the cached alias
    ctx.on_control(ctx.now, AliasControl::Find(alias_id, tx));

    // Verify unicast message to check with cached peer
    let outputs = ctx.collect_outputs();
    assert_eq!(outputs, vec![InternalOutput::Unicast(peer_addr, AliasMessage::Check(alias_id))]);

    // Simulate timeout
    ctx.advance_time(HINT_TIMEOUT_MS + 1);
    ctx.on_tick(ctx.now);

    let outputs = ctx.collect_outputs();
    assert_eq!(outputs, vec![InternalOutput::Broadcast(AliasMessage::Scan(alias_id))]);
}

#[test]
fn test_find_timeout() {
    let mut ctx = TestContext::new();
    let alias_id = AliasId(1);

    // Create a oneshot channel for the find response
    let (tx, mut rx) = oneshot::channel();

    // Test finding a non-existent alias
    ctx.on_control(ctx.now, AliasControl::Find(alias_id, tx));

    // Verify broadcast scan message
    let outputs = ctx.collect_outputs();
    assert_eq!(outputs, vec![InternalOutput::Broadcast(AliasMessage::Scan(alias_id))]);

    // Advance time past timeout
    ctx.advance_time(SCAN_TIMEOUT_MS + 1);
    ctx.on_tick(ctx.now);

    // Verify timeout response
    let response = rx.try_recv().expect("Should have a response");
    assert_eq!(response, None);
}

#[test]
fn duplicate_find_waiters_for_same_alias_must_be_bounded() {
    let mut ctx = TestContext::new();
    let alias_id = AliasId(1);

    for _ in 0..MAX_WAITERS_PER_ALIAS {
        let (tx, _rx) = oneshot::channel();
        ctx.on_control(ctx.now, AliasControl::Find(alias_id, tx));
    }
    let (overflow_tx, mut overflow_rx) = oneshot::channel();
    ctx.on_control(ctx.now, AliasControl::Find(alias_id, overflow_tx));

    let waiters = ctx.internal.find_reqs.get(&alias_id.0).expect("find request should exist").waits.len();

    assert!(waiters <= MAX_WAITERS_PER_ALIAS, "duplicate find waiters for one alias must be bounded, got {waiters}");
    assert_eq!(overflow_rx.try_recv(), Ok(None), "overflow find waiter must complete immediately with no result");
    assert_eq!(ctx.internal.outs.len(), 1, "duplicate and overflow finds must not create extra scan fanout");
}

#[test]
fn distinct_pending_find_requests_must_be_bounded() {
    let mut ctx = TestContext::new();

    for id in 0..MAX_PENDING_FIND_REQUESTS {
        let (tx, _rx) = oneshot::channel();
        ctx.on_control(ctx.now, AliasControl::Find(AliasId(id as u64), tx));
    }
    let (duplicate_tx, mut duplicate_rx) = oneshot::channel();
    ctx.on_control(ctx.now, AliasControl::Find(AliasId(0), duplicate_tx));
    let (overflow_tx, mut overflow_rx) = oneshot::channel();
    ctx.on_control(ctx.now, AliasControl::Find(AliasId(MAX_PENDING_FIND_REQUESTS as u64), overflow_tx));
    let local_alias = AliasId((MAX_PENDING_FIND_REQUESTS + 1) as u64);
    ctx.internal.local.insert(local_alias.0, 1);
    let (local_tx, mut local_rx) = oneshot::channel();
    ctx.on_control(ctx.now, AliasControl::Find(local_alias, local_tx));

    let pending_finds = ctx.internal.find_reqs.len();
    let pending_scans = ctx.internal.outs.len();

    assert_eq!(pending_finds, MAX_PENDING_FIND_REQUESTS, "pending alias find requests must be bounded");
    assert_eq!(pending_scans, MAX_PENDING_FIND_REQUESTS, "pending alias scan fanout must be bounded");
    assert!(
        matches!(duplicate_rx.try_recv(), Err(oneshot::error::TryRecvError::Empty)),
        "duplicate find should join the existing request"
    );
    assert_eq!(ctx.internal.find_reqs.get(&0).expect("duplicate request should still exist").waits.len(), 2);
    assert_eq!(overflow_rx.try_recv(), Ok(None), "overflow distinct find must complete immediately with no result");
    assert_eq!(local_rx.try_recv(), Ok(Some(AliasFoundLocation::Local)), "pending-find cap must not reject immediate local hits");
}

#[test]
fn find_timeout_at_max_timestamp_must_not_overflow() {
    let mut ctx = TestContext::new();
    let alias_id = AliasId(1);
    let (tx, mut rx) = oneshot::channel();

    ctx.on_control(u64::MAX - 10, AliasControl::Find(alias_id, tx));

    ctx.on_tick(u64::MAX);

    assert!(matches!(rx.try_recv(), Err(oneshot::error::TryRecvError::Empty)), "overflowed scan deadline must not expire early");
    assert!(ctx.internal.find_reqs.contains_key(&alias_id.0), "overflowed scan deadline must keep the pending find alive");
}

#[test]
fn find_hint_timeout_at_max_timestamp_must_not_overflow() {
    let mut ctx = TestContext::new();
    let alias_id = AliasId(1);
    let hinted_peer = PeerId(2);
    ctx.on_msg(u64::MAX - 20, hinted_peer, AliasMessage::NotifySet(alias_id, 1));
    let (tx, mut rx) = oneshot::channel();

    ctx.on_control(u64::MAX - 10, AliasControl::Find(alias_id, tx));
    assert_eq!(ctx.internal.outs.pop_front(), Some(InternalOutput::Unicast(hinted_peer, AliasMessage::Check(alias_id))));

    ctx.on_tick(u64::MAX);

    assert_eq!(ctx.internal.outs.pop_front(), None, "overflowed hint deadline must not switch to scan early");
    assert!(
        matches!(rx.try_recv(), Err(oneshot::error::TryRecvError::Empty)),
        "overflowed hint deadline must keep the waiter pending"
    );
    assert!(
        matches!(ctx.internal.find_reqs.get(&alias_id.0).map(|req| &req.state), Some(FindRequestState::CheckHint(_, _))),
        "overflowed hint deadline must keep the request in CheckHint state"
    );
}

#[test]
fn local_shutdown_must_fail_pending_alias_finds() {
    let mut ctx = TestContext::new();
    let alias_id = AliasId(1);

    let (tx, mut rx) = oneshot::channel();
    ctx.on_control(ctx.now, AliasControl::Find(alias_id, tx));

    assert_eq!(ctx.collect_outputs(), vec![InternalOutput::Broadcast(AliasMessage::Scan(alias_id))]);

    ctx.on_control(ctx.now + 1, AliasControl::Shutdown);

    assert_eq!(rx.try_recv(), Ok(None), "local alias shutdown must immediately fail pending find waiters");
    assert!(!ctx.internal.find_reqs.contains_key(&alias_id.0), "local alias shutdown must clear pending find state");
    assert_eq!(ctx.collect_outputs(), vec![InternalOutput::Broadcast(AliasMessage::Shutdown)]);
}

#[test]
fn local_shutdown_must_stop_serving_local_aliases() {
    let mut ctx = TestContext::new();
    let alias_id = AliasId(1);

    ctx.on_control(ctx.now, AliasControl::Register(alias_id));
    assert!(ctx.internal.local.contains_key(&alias_id.0), "test setup should register local alias ownership");
    assert_eq!(ctx.collect_outputs(), vec![InternalOutput::Broadcast(AliasMessage::NotifySet(alias_id, 1))]);

    ctx.on_control(ctx.now + 1, AliasControl::Shutdown);
    assert_eq!(ctx.collect_outputs(), vec![InternalOutput::Broadcast(AliasMessage::Shutdown)]);

    let (tx, mut rx) = oneshot::channel();
    ctx.on_control(ctx.now + 2, AliasControl::Find(alias_id, tx));

    assert_eq!(rx.try_recv(), Ok(None), "after local shutdown, alias service must not keep resolving aliases as local");
    assert!(!ctx.internal.local.contains_key(&alias_id.0), "local alias shutdown must clear local alias ownership");

    ctx.on_control(ctx.now + 3, AliasControl::Register(alias_id));
    assert!(!ctx.internal.local.contains_key(&alias_id.0), "local alias shutdown must reject later local registrations");
    assert!(ctx.collect_outputs().is_empty(), "post-shutdown register must not broadcast NotifySet");
}

#[test]
fn test_shutdown() {
    let mut ctx = TestContext::new();
    let alias_id = AliasId(1);
    let peer_addr = PeerId(1);

    // Add some data to cache
    let mut peers = BTreeSet::new();
    peers.insert(peer_addr.0);
    ctx.internal.cache.put(alias_id.0, peers);

    // Test shutdown
    ctx.on_control(ctx.now, AliasControl::Shutdown);

    // Verify broadcast shutdown message
    let outputs = ctx.collect_outputs();
    assert_eq!(outputs, vec![InternalOutput::Broadcast(AliasMessage::Shutdown)]);

    ctx.on_control(ctx.now + 1, AliasControl::Shutdown);
    assert!(ctx.collect_outputs().is_empty(), "repeated local shutdown must not broadcast again");

    // Simulate receiving shutdown message
    ctx.on_msg(ctx.now, peer_addr, AliasMessage::Shutdown);

    // Verify cache is cleared
    assert!(ctx.internal.cache.is_empty());
}

#[test]
fn shutdown_from_one_peer_must_not_clear_aliases_from_other_peers() {
    let mut ctx = TestContext::new();
    let alias_from_peer1 = AliasId(1);
    let alias_from_peer2 = AliasId(2);
    let shared_alias = AliasId(3);
    let peer1 = PeerId(1);
    let peer2 = PeerId(2);

    ctx.on_msg(ctx.now, peer1, AliasMessage::NotifySet(alias_from_peer1, 1));
    ctx.on_msg(ctx.now, peer2, AliasMessage::NotifySet(alias_from_peer2, 1));
    ctx.on_msg(ctx.now, peer1, AliasMessage::NotifySet(shared_alias, 1));
    ctx.on_msg(ctx.now, peer2, AliasMessage::NotifySet(shared_alias, 1));

    ctx.on_msg(ctx.now, peer1, AliasMessage::Shutdown);

    assert!(!ctx.internal.cache.contains(&alias_from_peer1.0), "shutdown from one peer must remove that peer's alias hints");
    assert!(
        ctx.internal.cache.contains(&alias_from_peer2.0),
        "shutdown from one peer must not remove alias hints learned from other peers"
    );
    assert!(
        !ctx.internal.remote_lifecycle.contains(&(alias_from_peer1.0, peer1.0)),
        "shutdown must remove lifecycle owned by the stopped peer"
    );
    assert!(
        ctx.internal.remote_lifecycle.contains(&(alias_from_peer2.0, peer2.0)),
        "shutdown must not remove lifecycle owned by other peers"
    );
    assert_eq!(
        ctx.internal.cache.get(&shared_alias.0).cloned(),
        Some(BTreeSet::from([peer2.0])),
        "shutdown from one peer must only remove that peer from shared alias hints"
    );
}
