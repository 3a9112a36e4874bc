use p2p_services::metrics_service::{MetricsServiceEvent, MetricsState, MAX_METRICS_PER_INFO};
use p2p_services::peer::{ConnectionId, PeerConnectionMetric, PeerId};
use p2p_services::visualization_service::{
    is_peer_timed_out, VisualizationServiceEvent, VisualizationState, DEFAULT_COLLECT_INTERVAL_MS,
    MAX_TOPOLOGY_ROWS_PER_INFO, MAX_VISUALIZATION_REMOTE_PEERS,
};

fn drain_vis(s: &mut VisualizationState) -> Vec<VisualizationServiceEvent> {
    let mut out = Vec::new();
    while let Some(e) = s.pop_out() {
        out.push(e);
    }
    out
}

fn drain_metrics(s: &mut MetricsState) -> Vec<MetricsServiceEvent> {
    let mut out = Vec::new();
    while let Some(e) = s.pop_out() {
        out.push(e);
    }
    out
}

fn rows(n: usize) -> Vec<(ConnectionId, PeerId, u16)> {
    (0..n).map(|i| (ConnectionId(i as u64), PeerId(i as u64), 5)).collect()
}

fn metric() -> PeerConnectionMetric {
    PeerConnectionMetric { uptime: 1, rtt: 2, sent_pkt: 3, lost_pkt: 0, lost_bytes: 0, send_bytes: 10, recv_bytes: 20, current_mtu: 1200 }
}

#[test]
fn visualization_peer_timeout_deadline_must_not_overflow() {
    let last_updated = u64::MAX - 10;
    let now = u64::MAX;
    assert!(!is_peer_timed_out(now, last_updated, 6));
}

#[test]
fn peer_times_out_after_two_intervals() {
    assert!(!is_peer_timed_out(1019, 1000, 10));
    assert!(is_peer_timed_out(1020, 1000, 10));
    assert!(!is_peer_timed_out(u64::MAX, 0, u128::MAX));
}

#[test]
fn visualization_service_zero_collect_interval_uses_default() {
    let s = VisualizationState::new(Some(0), false, PeerId(1));
    assert_eq!(s.collect_interval_ms, Some(DEFAULT_COLLECT_INTERVAL_MS));
}

#[test]
fn collect_me_reports_self_at_start_and_on_tick() {
    let mut s = VisualizationState::new(Some(10), true, PeerId(1));
    assert_eq!(drain_vis(&mut s), vec![VisualizationServiceEvent::PeerJoined(PeerId(1), vec![])]);
    assert!(s.on_tick(100, PeerId(1), rows(1), vec![PeerId(2)]));
    assert_eq!(drain_vis(&mut s), vec![VisualizationServiceEvent::PeerUpdated(PeerId(1), rows(1))]);
}

#[test]
fn visualization_info_must_not_be_accepted_without_scan_request() {
    let mut s = VisualizationState::new(Some(10), false, PeerId(1));
    s.on_answer(5, PeerId(2), rows(1));
    assert!(drain_vis(&mut s).is_empty());
    assert!(s.neighbours.is_empty());
}

#[test]
fn answer_is_taken_once_per_collection_and_timeout_leaves() {
    let mut s = VisualizationState::new(Some(10), false, PeerId(1));
    assert!(s.on_tick(100, PeerId(1), vec![], vec![PeerId(2)]));
    s.on_answer(101, PeerId(2), rows(2));
    s.on_answer(102, PeerId(2), rows(3));
    assert_eq!(drain_vis(&mut s), vec![VisualizationServiceEvent::PeerJoined(PeerId(2), rows(2))]);
    assert!(s.on_tick(110, PeerId(1), vec![], vec![PeerId(2)]));
    s.on_answer(111, PeerId(2), rows(1));
    assert_eq!(drain_vis(&mut s), vec![VisualizationServiceEvent::PeerUpdated(PeerId(2), rows(1))]);
    assert!(s.on_tick(131, PeerId(1), vec![], vec![]));
    assert_eq!(drain_vis(&mut s), vec![VisualizationServiceEvent::PeerLeaved(PeerId(2))]);
    assert!(s.neighbours.is_empty());
}

#[test]
fn visualization_remote_peers_must_be_bounded() {
    let mut s = VisualizationState::new(Some(10), false, PeerId(1));
    let peers: Vec<PeerId> = (0..=MAX_VISUALIZATION_REMOTE_PEERS).map(|i| PeerId(i as u64 + 10)).collect();
    assert!(s.on_tick(100, PeerId(1), vec![], peers.clone()));
    for p in &peers {
        s.on_answer(101, *p, rows(1));
    }
    assert_eq!(s.neighbours.len(), MAX_VISUALIZATION_REMOTE_PEERS);
    // an existing peer can still update when full
    assert!(s.on_tick(102, PeerId(1), vec![], vec![PeerId(10)]));
    drain_vis(&mut s);
    s.on_answer(103, PeerId(10), rows(2));
    assert_eq!(drain_vis(&mut s), vec![VisualizationServiceEvent::PeerUpdated(PeerId(10), rows(2))]);
}

#[test]
fn visualization_info_batches_must_be_bounded() {
    let mut s = VisualizationState::new(Some(10), false, PeerId(1));
    assert!(s.on_tick(100, PeerId(1), vec![], vec![PeerId(2), PeerId(3)]));
    s.on_answer(101, PeerId(2), rows(MAX_TOPOLOGY_ROWS_PER_INFO + 1));
    s.on_answer(101, PeerId(3), rows(MAX_TOPOLOGY_ROWS_PER_INFO));
    let events = drain_vis(&mut s);
    assert_eq!(events.len(), 1);
    assert!(matches!(&events[0], VisualizationServiceEvent::PeerJoined(PeerId(3), r) if r.len() == MAX_TOPOLOGY_ROWS_PER_INFO));
}

#[test]
fn visualization_peer_disconnected_known_peer_must_emit_leave_and_clear_pending() {
    let mut s = VisualizationState::new(Some(10), false, PeerId(1));
    assert!(s.on_tick(100, PeerId(1), vec![], vec![PeerId(2)]));
    s.on_answer(101, PeerId(2), rows(1));
    drain_vis(&mut s);
    assert!(s.on_tick(110, PeerId(1), vec![], vec![PeerId(2)]));
    s.on_peer_disconnected(PeerId(2));
    assert_eq!(drain_vis(&mut s), vec![VisualizationServiceEvent::PeerLeaved(PeerId(2))]);
    s.on_answer(111, PeerId(2), rows(1));
    assert!(drain_vis(&mut s).is_empty(), "stale info after disconnect must be ignored");
    s.on_peer_disconnected(PeerId(9));
    assert!(drain_vis(&mut s).is_empty());
}

#[test]
fn visualization_scan_must_not_disclose_topology_to_non_collector() {
    let s = VisualizationState::new(None, false, PeerId(1));
    let mut s = s.with_trusted_scan_collectors(vec![PeerId(5)]);
    assert!(!s.on_scan(PeerId(6)));
    assert!(s.on_scan(PeerId(5)));
    assert!(!s.on_scan(PeerId(5)), "one answer at a time");
    s.on_scan_answered(PeerId(5));
    assert!(s.on_scan(PeerId(5)));
    assert!(!s.on_tick(1, PeerId(1), vec![], vec![]), "a non-collector does not collect");
}

#[test]
fn metrics_info_must_not_be_accepted_without_scan_request() {
    let mut s = MetricsState::new(true);
    s.on_info(PeerId(2), vec![(ConnectionId(1), PeerId(3), metric())]);
    assert!(drain_metrics(&mut s).is_empty());
}

#[test]
fn metrics_collect_and_batch_bounds() {
    let mut s = MetricsState::new(true);
    let mine = vec![(ConnectionId(1), PeerId(2), metric())];
    assert!(s.on_tick(PeerId(1), mine.clone(), vec![PeerId(2), PeerId(3)]));
    assert_eq!(drain_metrics(&mut s), vec![MetricsServiceEvent::OnPeerConnectionMetric(PeerId(1), mine)]);
    let too_many: Vec<_> = (0..=MAX_METRICS_PER_INFO).map(|i| (ConnectionId(i as u64), PeerId(9), metric())).collect();
    s.on_info(PeerId(2), too_many);
    let at_cap: Vec<_> = (0..MAX_METRICS_PER_INFO).map(|i| (ConnectionId(i as u64), PeerId(9), metric())).collect();
    s.on_info(PeerId(3), at_cap.clone());
    s.on_info(PeerId(3), at_cap.clone());
    assert_eq!(drain_metrics(&mut s), vec![MetricsServiceEvent::OnPeerConnectionMetric(PeerId(3), at_cap)]);
}

#[test]
fn metrics_scan_must_not_disclose_metrics_to_non_collector() {
    let mut s = MetricsState::new(false).with_trusted_scan_collectors(vec![PeerId(7)]);
    assert!(!s.on_scan(PeerId(8)));
    assert!(s.on_scan(PeerId(7)));
    assert!(!s.on_scan(PeerId(7)));
    s.on_scan_answered(PeerId(7));
    assert!(s.on_scan(PeerId(7)));
    let mut collector = MetricsState::new(true).with_trusted_scan_collectors(vec![PeerId(7)]);
    assert!(!collector.on_scan(PeerId(7)), "a collector does not answer scans");
}
