//! Properties of replication that span the local store, the replicas and
//! the store that drives them.
use vstd::prelude::*;

use super::local_storage::{keys_from, newer, not_newer, with_slot, LocalStoreView};
use super::messages::{
    broadcast_of, Action, BroadcastEvent, BroadcastEventData, Changed, EventView, KvEvent, NetEventView,
    RpcEventDataView, RpcReq, RpcResView, Slot, SnapshotView, Version,
};
use super::remote_storage::{
    first_page_request, max_version, put_event, CtxView, RemoteStoreView, StateView, SyncFullView, WorkingView,
    MAX_PENDING_CHANGEDS, MAX_SNAPSHOT_SLOTS_PER_PAGE, MAX_STAGED_SNAPSHOT_SLOTS,
};
use super::{push_all_bounded, push_bounded, timed_out, ReplicatedView, MAX_PENDING_OUT_EVENTS, REMOTE_TIMEOUT_MS};
use crate::ordered::{
    increasing, lemma_increasing_first_is_min, lemma_sorted_keys_exists, lemma_sorted_keys_is, sorted_keys,
};

verus! {

/// The broadcast that a local change emits.
pub open spec fn change_broadcast(session_id: u64, change: Changed) -> BroadcastEvent {
    BroadcastEvent { session_id, data: BroadcastEventData::Changed(change) }
}

/// A replica in step with a local store: applied up to its version, holding
/// its slots, with nothing held back, nothing asked for, and no newer
/// version seen.
pub open spec fn in_step(l: LocalStoreView, w: WorkingView, c: CtxView) -> bool {
    &&& w.wf()
    &&& w.version.0 == l.version
    &&& w.pendings.len() == 0
    &&& w.sending_req is None
    &&& (w.latest_seen_version matches Some(v) ==> v.0 <= l.version)
    &&& c.slots == l.slots
    &&& c.next_state is None
}

/// A `set` on one node reaches a replica in step with it: the broadcast it
/// emits, once applied, leaves the replica holding the same slots at the
/// same version, the application told of the new value, and nothing asked.
pub proof fn lemma_set_replicates(l: LocalStoreView, w: WorkingView, c: CtxView, now: u64, key: u64, value: u64)
    requires
        l.wf(),
        l.version < u64::MAX,
        in_step(l, w, c),
    ensures
        ({
            let l2 = l.after_set(key, value);
            let change = Changed { key, version: Version(l2.version), action: Action::Put(value) };
            let (accepted, w2, c2) = w.on_broadcast(c, now, change_broadcast(l.session_id, change));
            &&& l2.outs[l.outs.len() as int] == broadcast_of(l.session_id, BroadcastEventData::Changed(change))
            &&& accepted
            &&& in_step(l2, w2, c2)
            &&& c2.outs == c.outs.push(EventView::KvEvent(KvEvent::Put(Some(c.remote), key, value)))
        }),
{
    reveal_with_fuel(WorkingView::apply_pendings, 2);
    let l2 = l.after_set(key, value);
    let change = Changed { key, version: Version(l2.version), action: Action::Put(value) };
    let (ok, w1, c1) = w.enqueue(c, change);
    assert(w1.pendings =~= Map::empty().insert(l2.version, change));
    let (w3, c3) = w1.apply_change(c1, change);
    assert(w3.pendings =~= Map::empty());
    assert(w1.pendings[w1.next()] == change);
    let (accepted, w2, c2) = w.on_broadcast(c, now, change_broadcast(l.session_id, change));
    assert(w2 == w3);
    assert(c2.slots =~= l2.slots);
}

/// A `del` on one node reaches a replica in step with it: once its
/// broadcast is applied, the replica holds the same slots at the same
/// version, and the application is told of the deletion when the key was
/// there.
pub proof fn lemma_del_replicates(l: LocalStoreView, w: WorkingView, c: CtxView, now: u64, key: u64)
    requires
        l.wf(),
        l.version < u64::MAX,
        l.slots.contains_key(key),
        in_step(l, w, c),
    ensures
        ({
            let l2 = l.after_del(key);
            let change = Changed { key, version: Version(l2.version), action: Action::Del };
            let (accepted, w2, c2) = w.on_broadcast(c, now, change_broadcast(l.session_id, change));
            &&& l2.outs[l.outs.len() as int] == broadcast_of(l.session_id, BroadcastEventData::Changed(change))
            &&& accepted
            &&& in_step(l2, w2, c2)
            &&& c2.outs == c.outs.push(EventView::KvEvent(KvEvent::Del(Some(c.remote), key)))
        }),
{
    reveal_with_fuel(WorkingView::apply_pendings, 2);
    let l2 = l.after_del(key);
    let change = Changed { key, version: Version(l2.version), action: Action::Del };
    let (ok, w1, c1) = w.enqueue(c, change);
    assert(w1.pendings =~= Map::empty().insert(l2.version, change));
    let (w3, c3) = w1.apply_change(c1, change);
    assert(w3.pendings =~= Map::empty());
    assert(w1.pendings[w1.next()] == change);
    let (accepted, w2, c2) = w.on_broadcast(c, now, change_broadcast(l.session_id, change));
    assert(w2 == w3);
    assert(c2.slots =~= l2.slots);
}

/// With room in the queue, queuing events appends them.
pub proof fn lemma_push_all_with_room(outs: Seq<EventView>, es: Seq<EventView>)
    requires
        outs.len() + es.len() <= MAX_PENDING_OUT_EVENTS,
    ensures
        push_all_bounded(outs, es) == outs + es,
    decreases es.len(),
{
    if es.len() > 0 {
        lemma_push_all_with_room(outs, es.drop_last());
        assert(outs + es =~= (outs + es.drop_last()).push(es.last()));
    } else {
        assert(outs + es =~= outs);
    }
}

/// When a followed node disconnects, its replica is dropped and the
/// application is told that each of its keys is deleted, in key order, as
/// long as the queue has room for them.
pub proof fn lemma_disconnect_deletes_remote_data(s: ReplicatedView, peer: u64)
    requires
        s.wf(),
        s.remotes.contains_key(peer),
        s.outs.len() + s.remotes[peer].ctx.slots.len() <= MAX_PENDING_OUT_EVENTS,
    ensures
        ({
            let s2 = s.after_peer_disconnected(peer);
            &&& !s2.remotes.contains_key(peer)
            &&& s2.outs == s.outs + sorted_keys(s.remotes[peer].ctx.slots.dom()).map_values(
                |k: u64| EventView::KvEvent(KvEvent::Del(Some(peer), k)),
            )
        }),
{
    let r = s.remotes[peer];
    lemma_sorted_keys_exists(r.ctx.slots.dom());
    let es = r.after_destroy().ctx.outs;
    assert(es =~= sorted_keys(r.ctx.slots.dom()).map_values(
        |k: u64| EventView::KvEvent(KvEvent::Del(Some(peer), k)),
    ));
    lemma_push_all_with_room(s.outs, es);
}

proof fn lemma_filter_keeps_all<A>(s: Seq<A>, p: spec_fn(A) -> bool)
    requires
        forall|i: int| 0 <= i < s.len() ==> p(#[trigger] s[i]),
    ensures
        s.filter(p) == s,
    decreases s.len(),
{
    reveal(Seq::filter);
    if s.len() > 0 {
        lemma_filter_keeps_all(s.drop_last(), p);
        assert(s.drop_last().push(s.last()) =~= s);
    }
}

proof fn lemma_filter_drops_all<A>(s: Seq<A>, p: spec_fn(A) -> bool)
    requires
        forall|i: int| 0 <= i < s.len() ==> !p(#[trigger] s[i]),
    ensures
        s.filter(p) == Seq::<A>::empty(),
    decreases s.len(),
{
    reveal(Seq::filter);
    if s.len() > 0 {
        lemma_filter_drops_all(s.drop_last(), p);
    } else {
        assert(s =~= Seq::<A>::empty());
    }
}

/// A store whose slots fit in one page answers the first page request of a
/// full sync with all of its slots in key order, at its current version.
proof fn lemma_first_page_is_whole(l: LocalStoreView)
    requires
        l.wf(),
        l.slots.len() > 0,
        l.slots.len() <= l.compose_max_pkts,
        l.slots.len() <= MAX_SNAPSHOT_SLOTS_PER_PAGE,
    ensures
        l.answer(first_page_request()) == RpcResView::FetchSnapshot(
            Some(
                SnapshotView {
                    slots: sorted_keys(l.slots.dom()).map_values(with_slot(l.slots)),
                    skipped_newer: seq![],
                    next_key: None,
                },
            ),
            Version(l.version),
        ),
{
    let d = l.slots.dom();
    lemma_sorted_keys_exists(d);
    let ks = sorted_keys(d);
    assert(ks.to_set().contains(ks[0]));
    let start = ks[0];
    assert forall|x: u64| d.contains(x) implies start <= x by {
        assert(ks.to_set().contains(x));
        lemma_increasing_first_is_min(ks, x);
    }
    assert(d.filter(|k: u64| start <= k) =~= d);
    assert forall|i: int| 0 <= i < ks.len() implies #[trigger] not_newer(l.slots, l.version)(ks[i]) by {
        assert(ks.to_set().contains(ks[i]));
    }
    lemma_filter_keeps_all(ks, not_newer(l.slots, l.version));
    assert forall|i: int| 0 <= i < ks.len() implies !#[trigger] newer(l.slots, l.version)(ks[i]) by {
        assert(ks.to_set().contains(ks[i]));
    }
    lemma_filter_drops_all(ks, newer(l.slots, l.version));
    assert(ks.filter(newer(l.slots, l.version)).map_values(|k: u64| (k, l.slots[k].version)) =~= seq![]);
}

/// The number of keys a snapshot page of `l` covers.
pub open spec fn page_size(l: LocalStoreView) -> int {
    if (l.compose_max_pkts as int) < MAX_SNAPSHOT_SLOTS_PER_PAGE {
        l.compose_max_pkts as int
    } else {
        MAX_SNAPSHOT_SLOTS_PER_PAGE as int
    }
}

/// Where the page that starts at the `a`-th key of `l` ends.
pub open spec fn page_end(l: LocalStoreView, a: int) -> int {
    let n = l.slots.len() as int;
    if a + page_size(l) < n {
        a + page_size(l)
    } else {
        n
    }
}

/// The request a full sync of `l` sends for the page that starts at the
/// `a`-th key: the first page request, then requests from the next key at
/// the version the sync is locked to.
pub open spec fn page_request(l: LocalStoreView, a: int) -> RpcReq {
    if a == 0 {
        first_page_request()
    } else {
        RpcReq::FetchSnapshot {
            from: Some(sorted_keys(l.slots.dom())[a]),
            max_version: Some(Version(l.version)),
            max_items: MAX_SNAPSHOT_SLOTS_PER_PAGE,
        }
    }
}

/// The keys of a finite set from its `a`-th one on, in increasing order.
proof fn lemma_keys_from_rank(d: Set<u64>, a: int)
    requires
        d.finite(),
        0 <= a < d.len(),
    ensures
        keys_from(d, sorted_keys(d)[a]) == sorted_keys(d).skip(a),
{
    lemma_sorted_keys_exists(d);
    let ks = sorted_keys(d);
    let start = ks[a];
    let tail = ks.skip(a);
    let f = d.filter(|k: u64| start <= k);
    assert forall|i: int, j: int| 0 <= i < j < tail.len() implies tail[i] < tail[j] by {
        assert(tail[i] == ks[a + i] && tail[j] == ks[a + j]);
    }
    assert forall|k: u64| tail.to_set().contains(k) <==> f.contains(k) by {
        if tail.to_set().contains(k) {
            let i = choose|i: int| 0 <= i < tail.len() && tail[i] == k;
            assert(ks[a + i] == k);
            assert(ks.to_set().contains(k));
            if i > 0 {
                assert(ks[a] < ks[a + i]);
            }
        }
        if f.contains(k) {
            assert(ks.to_set().contains(k));
            let j = choose|j: int| 0 <= j < ks.len() && ks[j] == k;
            if j < a {
                assert(ks[j] < ks[a]);
            }
            assert(tail[j - a] == k);
        }
    }
    assert(tail.to_set() =~= f);
    lemma_sorted_keys_is(tail, f);
}

/// The answer `l` gives to the request for the page that starts at its
/// `a`-th key: the slots of the keys up to the page's end, in key order,
/// nothing skipped, and the key after the page when keys remain.
pub proof fn lemma_page_answer(l: LocalStoreView, a: int)
    requires
        l.wf(),
        0 <= a < l.slots.len(),
    ensures
        ({
            let ks = sorted_keys(l.slots.dom());
            let e = page_end(l, a);
            l.answer(page_request(l, a)) == RpcResView::FetchSnapshot(
                Some(
                    SnapshotView {
                        slots: ks.subrange(a, e).map_values(with_slot(l.slots)),
                        skipped_newer: seq![],
                        next_key: if e < l.slots.len() {
                            Some(ks[e])
                        } else {
                            None
                        },
                    },
                ),
                Version(l.version),
            )
        }),
{
    let d = l.slots.dom();
    lemma_sorted_keys_exists(d);
    let ks = sorted_keys(d);
    lemma_keys_from_rank(d, a);
    let cand = ks.skip(a);
    let e = page_end(l, a);
    let scanned = ks.subrange(a, e);
    if cand.len() > page_size(l) {
        assert(cand.take(page_size(l)) =~= scanned);
    } else {
        assert(cand =~= scanned);
    }
    assert forall|i: int| 0 <= i < scanned.len() implies #[trigger] not_newer(l.slots, l.version)(scanned[i]) by {
        assert(scanned[i] == ks[a + i]);
        assert(ks.to_set().contains(ks[a + i]));
    }
    lemma_filter_keeps_all(scanned, not_newer(l.slots, l.version));
    assert forall|i: int| 0 <= i < scanned.len() implies !#[trigger] newer(l.slots, l.version)(scanned[i]) by {
        assert(scanned[i] == ks[a + i]);
        assert(ks.to_set().contains(ks[a + i]));
    }
    lemma_filter_drops_all(scanned, newer(l.slots, l.version));
    assert(scanned.filter(newer(l.slots, l.version)).map_values(|k: u64| (k, l.slots[k].version)) =~= seq![]);
}

/// The slots of `m` under the first `i` keys of `ks`.
pub open spec fn listed_slots(m: Map<u64, Slot>, ks: Seq<u64>, i: int) -> Map<u64, Slot> {
    Map::new(|k: u64| ks.take(i).contains(k), |k: u64| m[k])
}

/// Staging the slots of `m` under the keys `ks[a..e]` onto a stage that
/// holds those under the first `a` keys stages exactly those under the
/// first `e` keys, and changes nothing else.
pub proof fn lemma_stage_range(s: SyncFullView, c: CtxView, m: Map<u64, Slot>, ks: Seq<u64>, a: int, e: int)
    requires
        s.staged_slots == Some(listed_slots(m, ks, a)),
        0 <= a <= e <= ks.len(),
    ensures
        s.stage_page(c, ks.subrange(a, e).map_values(with_slot(m))) == (
        SyncFullView { staged_slots: Some(listed_slots(m, ks, e)), ..s },
        c,
        ),
    decreases e - a,
{
    let page = ks.subrange(a, e).map_values(with_slot(m));
    if e > a {
        lemma_stage_range(s, c, m, ks, a, e - 1);
        assert(page.drop_last() =~= ks.subrange(a, e - 1).map_values(with_slot(m)));
        let i = e;
        let prev = ks.take(i - 1);
        assert(ks.take(i) =~= prev.push(ks[i - 1]));
        assert forall|k: u64| ks.take(i).contains(k) <==> (prev.contains(k) || k == ks[i - 1]) by {
            if ks.take(i).contains(k) && k != ks[i - 1] {
                let j = choose|j: int| 0 <= j < i && ks.take(i)[j] == k;
                assert(prev[j] == k);
            }
            if prev.contains(k) {
                let j = choose|j: int| 0 <= j < i - 1 && prev[j] == k;
                assert(ks.take(i)[j] == k);
            }
            if k == ks[i - 1] {
                assert(ks.take(i)[i - 1] == k);
            }
        }
        let x = listed_slots(m, ks, i);
        let y = listed_slots(m, ks, i - 1).insert(ks[i - 1], m[ks[i - 1]]);
        assert forall|k: u64| x.contains_key(k) <==> y.contains_key(k) by {
            assert(x.dom().contains(k) == ks.take(i).contains(k));
            assert(listed_slots(m, ks, i - 1).dom().contains(k) == prev.contains(k));
        }
        assert forall|k: u64| x.contains_key(k) implies x[k] == y[k] by {
            if k != ks[i - 1] {
                assert(prev.contains(k));
                assert(listed_slots(m, ks, i - 1).contains_key(k));
            }
        }
        assert(x =~= y);
    } else {
        assert(page =~= Seq::<(u64, Slot)>::empty());
    }
}

/// The slots under the first `a` keys of an increasing listing are `a`.
pub proof fn lemma_listed_len(m: Map<u64, Slot>, ks: Seq<u64>, a: int)
    requires
        increasing(ks),
        0 <= a <= ks.len(),
    ensures
        listed_slots(m, ks, a).dom().finite(),
        listed_slots(m, ks, a).len() == a,
{
    let t = ks.take(a);
    assert(listed_slots(m, ks, a).dom() =~= t.to_set());
    assert forall|i: int, j: int| 0 <= i < t.len() && 0 <= j < t.len() && i != j implies t[i] != t[j] by {
        if i < j {
            assert(ks[i] < ks[j]);
        } else {
            assert(ks[j] < ks[i]);
        }
    }
    t.unique_seq_to_set();
}

/// `e` asks the node `remote` for something.
pub open spec fn is_request_to(e: EventView, remote: u64) -> bool {
    e matches EventView::NetEvent(NetEventView::Unicast(to, ev)) && to == remote && ev.data is RpcReq
}

/// Every event of `outs` asks the node `remote` for something.
pub open spec fn only_requests_to(outs: Seq<EventView>, remote: u64) -> bool {
    forall|i: int| 0 <= i < outs.len() ==> is_request_to(#[trigger] outs[i], remote)
}

/// The full-sync state that has taken the pages of `l` before its `a`-th
/// key, staged their slots, and asked for the page that starts there.
pub open spec fn sync_at(s: SyncFullView, l: LocalStoreView, a: int) -> bool {
    &&& s.version == (if a == 0 {
        None
    } else {
        Some(Version(l.version))
    })
    &&& s.catchup_to is None
    &&& s.sending_req is Some
    &&& s.sending_req.unwrap().1 == page_request(l, a)
    &&& s.staged_slots == Some(listed_slots(l.slots, sorted_keys(l.slots.dom()), a))
    &&& s.skipped_newer == Map::<u64, Version>::empty()
}

/// A replica in the middle of a full sync of `l`, up to its `a`-th key:
/// it holds no slots yet and has done nothing but ask for pages.
pub open spec fn syncing(r: RemoteStoreView, l: LocalStoreView, a: int) -> bool {
    &&& r.ctx.slots == Map::<u64, Slot>::empty()
    &&& r.ctx.next_state is None
    &&& only_requests_to(r.ctx.outs, r.ctx.remote)
    &&& r.state matches StateView::SyncFull(s) && sync_at(s, l, a)
}

/// A replica that has completed a full sync of `l`: it works from `l`'s
/// version, holds `l`'s slots, and has told the application of each of them,
/// in key order, after asking the remote node for pages and nothing else.
pub open spec fn synced_with(r: RemoteStoreView, l: LocalStoreView) -> bool {
    let n = r.ctx.outs.len() - l.slots.len();
    &&& r.wf()
    &&& r.state == StateView::Working(WorkingView::new(Version(l.version)))
    &&& in_step(l, WorkingView::new(Version(l.version)), r.ctx)
    &&& n >= 0
    &&& only_requests_to(r.ctx.outs.take(n), r.ctx.remote)
    &&& r.ctx.outs.skip(n) == sorted_keys(l.slots.dom()).map_values(put_event(r.ctx.remote, l.slots))
}

/// A replica whose outstanding snapshot page requests are answered by `l`,
/// the `i`-th answer arriving at `times[i]`, until it asks for no page.
pub open spec fn serve_pages(r: RemoteStoreView, l: LocalStoreView, times: Seq<u64>) -> RemoteStoreView
    decreases times.len(),
{
    if times.len() == 0 {
        r
    } else {
        match r.state {
            StateView::SyncFull(s) => match s.sending_req {
                Some((_, req)) => serve_pages(r.after_rpc_res(times[0], l.answer(req)), l, times.drop_first()),
                None => r,
            },
            _ => r,
        }
    }
}

/// Committing a stage that holds all of `l`'s slots onto an empty replica
/// takes them all and reports each of them set, in key order.
proof fn lemma_commit_whole(s: SyncFullView, c: CtxView, l: LocalStoreView)
    requires
        l.wf(),
        c.slots == Map::<u64, Slot>::empty(),
        s.staged_slots == Some(listed_slots(l.slots, sorted_keys(l.slots.dom()), l.slots.len() as int)),
    ensures
        s.commit_staged(c).1 == (CtxView {
            slots: l.slots,
            outs: c.outs + sorted_keys(l.slots.dom()).map_values(put_event(c.remote, l.slots)),
            ..c
        }),
{
    let d = l.slots.dom();
    lemma_sorted_keys_exists(d);
    let ks = sorted_keys(d);
    lemma_sorted_keys_exists(Set::<u64>::empty());
    assert(sorted_keys(Set::<u64>::empty()) =~= Seq::<u64>::empty());
    reveal(Seq::filter);
    assert(ks.take(ks.len() as int) =~= ks);
    assert(listed_slots(l.slots, ks, ks.len() as int) =~= l.slots) by {
        assert forall|k: u64| ks.contains(k) <==> d.contains(k) by {
            assert(ks.to_set().contains(k) <==> ks.contains(k));
        }
    }
    assert(s.completed_stage(l.slots, Map::empty()) =~= l.slots);
    assert forall|i: int| 0 <= i < ks.len() implies #[trigger] super::remote_storage::changed_from(
        Map::empty(),
        l.slots,
    )(ks[i]) by {}
    lemma_filter_keeps_all(ks, super::remote_storage::changed_from(Map::empty(), l.slots));
    assert(c.slots.dom() =~= Set::<u64>::empty());
    let (s1, c1) = s.commit_staged(c);
    assert(c1.outs =~= c.outs + ks.map_values(put_event(c.remote, l.slots)));
}

/// One page of a full sync of `l`: answered by `l`, the request for the page
/// at the `a`-th key stages that page and asks for the next one, or, on the
/// last page, completes the sync with `l`'s slots at `l`'s version.
proof fn lemma_page_step(r: RemoteStoreView, l: LocalStoreView, a: int, now: u64)
    requires
        l.wf(),
        l.slots.len() <= MAX_STAGED_SNAPSHOT_SLOTS,
        0 <= a < l.slots.len(),
        syncing(r, l, a),
    ensures
        ({
            let r2 = r.after_rpc_res(now, l.answer(page_request(l, a)));
            let e = page_end(l, a);
            &&& r2.ctx.remote == r.ctx.remote
            &&& r2.session_id == r.session_id
            &&& a < e
            &&& e < l.slots.len() ==> syncing(r2, l, e) && r2.ctx.outs.len() == r.ctx.outs.len() + 1
            &&& e == l.slots.len() ==> {
                &&& r2.state == StateView::Working(WorkingView::new(Version(l.version)))
                &&& r2.ctx.slots == l.slots
                &&& r2.ctx.next_state is None
                &&& r2.ctx.outs == r.ctx.outs + sorted_keys(l.slots.dom()).map_values(
                    put_event(r.ctx.remote, l.slots),
                )
            }
        }),
{
    let d = l.slots.dom();
    lemma_sorted_keys_exists(d);
    let ks = sorted_keys(d);
    let n = l.slots.len() as int;
    let e = page_end(l, a);
    lemma_page_answer(l, a);
    lemma_listed_len(l.slots, ks, a);
    let s = r.state->SyncFull_0;
    lemma_stage_range(s, r.ctx, l.slots, ks, a, e);
    let page = ks.subrange(a, e).map_values(with_slot(l.slots));
    let snap = SnapshotView {
        slots: page,
        skipped_newer: seq![],
        next_key: if e < n {
            Some(ks[e])
        } else {
            None
        },
    };
    let (s1, c1) = s.stage_page(r.ctx, page);
    assert(s1.note_skipped(seq![]) == s1);
    let s3 = SyncFullView { version: Some(Version(l.version)), ..s1 };
    if e < n {
        let req = page_request(l, e);
        let r2 = r.after_rpc_res(now, l.answer(page_request(l, a)));
        assert(r2.ctx == c1.request(req));
        assert(r2.state == StateView::SyncFull(SyncFullView { sending_req: Some((now, req)), ..s3 }));
        assert forall|i: int| 0 <= i < r2.ctx.outs.len() implies is_request_to(#[trigger] r2.ctx.outs[i], r2.ctx.remote) by {
            if i < r.ctx.outs.len() {
                assert(r2.ctx.outs[i] == r.ctx.outs[i]);
            }
        }
    } else {
        lemma_commit_whole(s3, c1, l);
    }
}

/// From the request for the page at its `a`-th key on, a replica whose
/// page requests `l` answers completes the full sync of `l`, given an
/// answer time for each page that is left.
proof fn lemma_serve_from(r: RemoteStoreView, l: LocalStoreView, a: int, times: Seq<u64>)
    requires
        l.wf(),
        l.slots.len() <= MAX_STAGED_SNAPSHOT_SLOTS,
        0 <= a < l.slots.len(),
        syncing(r, l, a),
        times.len() >= l.slots.len() - a,
    ensures
        synced_with(serve_pages(r, l, times), l),
        serve_pages(r, l, times).ctx.remote == r.ctx.remote,
        serve_pages(r, l, times).session_id == r.session_id,
    decreases l.slots.len() - a,
{
    let n = l.slots.len() as int;
    let e = page_end(l, a);
    let r2 = r.after_rpc_res(times[0], l.answer(page_request(l, a)));
    lemma_page_step(r, l, a, times[0]);
    assert(serve_pages(r, l, times) == serve_pages(r2, l, times.drop_first()));
    if e < n {
        lemma_serve_from(r2, l, e, times.drop_first());
    } else {
        assert(serve_pages(r2, l, times.drop_first()) == r2);
        lemma_sorted_keys_exists(l.slots.dom());
        let k = r.ctx.outs.len() as int;
        assert(r2.ctx.outs.len() - n == k);
        assert(r2.ctx.outs.take(k) =~= r.ctx.outs);
        assert(r2.ctx.outs.skip(k) =~= sorted_keys(l.slots.dom()).map_values(put_event(r.ctx.remote, l.slots)));
    }
}

/// Each node ends up holding the data of every node it follows: a new
/// replica of a store, whose snapshot page requests the store answers, one
/// after another, holds exactly the store's slots once the last page has
/// come, works from the store's version with nothing held back or asked
/// for, and has told the application of each slot, in key order, having
/// queued nothing before but its page requests.  This holds for stores of
/// any size that a full sync can stage.
pub proof fn lemma_full_sync_replicates(
    l: LocalStoreView,
    remote: u64,
    local_session_id: u64,
    created_at: u64,
    times: Seq<u64>,
)
    requires
        l.wf(),
        l.slots.len() <= MAX_STAGED_SNAPSHOT_SLOTS,
        times.len() > l.slots.len(),
    ensures
        ({
            let r = serve_pages(RemoteStoreView::created(remote, local_session_id, l.session_id, created_at), l, times);
            &&& synced_with(r, l)
            &&& r.ctx.remote == remote
            &&& r.session_id == l.session_id
        }),
{
    let r0 = RemoteStoreView::created(remote, local_session_id, l.session_id, created_at);
    let d = l.slots.dom();
    lemma_sorted_keys_exists(d);
    let ks = sorted_keys(d);
    assert(is_request_to(r0.ctx.outs[0], remote));
    if l.slots.len() == 0 {
        lemma_fresh_replica_syncs(l, remote, local_session_id, created_at, times[0]);
        let r1 = r0.after_rpc_res(times[0], l.answer(first_page_request()));
        assert(serve_pages(r0, l, times) == serve_pages(r1, l, times.drop_first()));
        assert(serve_pages(r1, l, times.drop_first()) == r1);
        assert(ks.len() == 0);
        assert(r1.ctx.outs =~= r0.ctx.outs);
        assert(r1.ctx.outs.take(r1.ctx.outs.len() as int) =~= r0.ctx.outs);
        assert(r1.ctx.outs.skip(r1.ctx.outs.len() as int) =~= ks.map_values(put_event(remote, l.slots)));
    } else {
        assert(listed_slots(l.slots, ks, 0) =~= Map::<u64, Slot>::empty());
        assert(syncing(r0, l, 0));
        lemma_serve_from(r0, l, 0, times);
    }
}

/// The version a broadcast tells of.
pub open spec fn told_version(e: BroadcastEvent) -> Version {
    match e.data {
        BroadcastEventData::Changed(changed) => changed.version,
        BroadcastEventData::Version(version) => version,
    }
}

/// A full sync after it has heard the broadcasts `seen`, one after another.
pub open spec fn hear_all(s: SyncFullView, c: CtxView, seen: Seq<BroadcastEvent>) -> SyncFullView
    decreases seen.len(),
{
    if seen.len() == 0 {
        s
    } else {
        hear_all(s, c, seen.drop_last()).on_broadcast(c, seen.last()).1
    }
}

/// `t` is the newest of the version `start` (when there is one) and the
/// versions that `seen` tells of.
pub open spec fn is_newest(t: Version, start: Option<Version>, seen: Seq<BroadcastEvent>) -> bool {
    &&& forall|i: int| 0 <= i < seen.len() ==> (#[trigger] told_version(seen[i])).0 <= t.0
    &&& (start matches Some(v) ==> v.0 <= t.0)
    &&& (start == Some(t) || exists|i: int| 0 <= i < seen.len() && told_version(#[trigger] seen[i]) == t)
}

/// Broadcasts heard during a full sync change nothing but the version to
/// catch up to, which becomes the newest version told.
proof fn lemma_hear_all(s: SyncFullView, c: CtxView, seen: Seq<BroadcastEvent>)
    ensures
        hear_all(s, c, seen) == (SyncFullView { catchup_to: hear_all(s, c, seen).catchup_to, ..s }),
        s.catchup_to is None && seen.len() == 0 ==> hear_all(s, c, seen).catchup_to is None,
        !(s.catchup_to is None && seen.len() == 0) ==> (hear_all(s, c, seen).catchup_to matches Some(t)
            && is_newest(t, s.catchup_to, seen)),
    decreases seen.len(),
{
    if seen.len() > 0 {
        let prev = seen.drop_last();
        lemma_hear_all(s, c, prev);
        let h = hear_all(s, c, prev);
        let v = told_version(seen.last());
        let t = hear_all(s, c, seen).catchup_to.unwrap();
        assert(seen[seen.len() - 1] == seen.last());
        assert forall|i: int| 0 <= i < seen.len() implies (#[trigger] told_version(seen[i])).0 <= t.0 by {
            if i < prev.len() {
                assert(seen[i] == prev[i]);
            }
        }
        match h.catchup_to {
            Some(p) => {
                if t == p && s.catchup_to != Some(p) {
                    let j = choose|j: int| 0 <= j < prev.len() && told_version(#[trigger] prev[j]) == p;
                    assert(seen[j] == prev[j]);
                }
            },
            None => {},
        }
    }
}

/// A full sync completes by catching up: when it completes at version `v`
/// after hearing the broadcasts `seen`, the replica moves to the working
/// state at `v` and, when a newer version was told (or remembered before),
/// its last queued event asks for exactly the changes after `v` up to the
/// newest one; otherwise it asks for nothing and queues only what committing
/// the snapshot reports.
pub proof fn lemma_sync_catches_up(s: SyncFullView, c: CtxView, seen: Seq<BroadcastEvent>, now: u64, v: Version)
    ensures
        ({
            let h = hear_all(s, c, seen);
            let (_, c2) = h.transition(c, now, v);
            let committed = s.commit_staged(c).1;
            match h.catchup_to {
                Some(t) => if t.0 > v.0 {
                    let req = RpcReq::FetchChanged { from: Version((v.0 + 1) as u64), count: (t.0 - v.0) as u64 };
                    &&& is_newest(t, s.catchup_to, seen)
                    &&& c2.next_state == Some(
                        StateView::Working(WorkingView { sending_req: Some((now, req)), ..WorkingView::new(v) }),
                    )
                    &&& c2.outs == committed.outs.push(
                        super::messages::request_to(c.remote, c.local_session_id, req),
                    )
                } else {
                    &&& is_newest(t, s.catchup_to, seen)
                    &&& c2.next_state == Some(StateView::Working(WorkingView::new(v)))
                    &&& c2.outs == committed.outs
                },
                None => {
                    &&& s.catchup_to is None
                    &&& seen.len() == 0
                    &&& c2.next_state == Some(StateView::Working(WorkingView::new(v)))
                    &&& c2.outs == committed.outs
                },
            }
        }),
{
    lemma_hear_all(s, c, seen);
    let h = hear_all(s, c, seen);
    assert(h.commit_staged(c).1 == s.commit_staged(c).1);
}

/// `c` after the change `ch` is applied: a put sets the key's slot and is
/// reported; a delete of a present key removes it and is reported; a delete
/// of an absent key changes nothing.
pub open spec fn apply_one(c: CtxView, ch: Changed) -> CtxView {
    match ch.action {
        Action::Put(value) => c.with_slots(c.slots.insert(ch.key, Slot { value, version: ch.version })).report_put(
            ch.key,
            value,
        ),
        Action::Del => if c.slots.contains_key(ch.key) {
            c.with_slots(c.slots.remove(ch.key)).report_del(ch.key)
        } else {
            c
        },
    }
}

/// `c` after the changes `chs` are applied in order.
pub open spec fn apply_all(c: CtxView, chs: Seq<Changed>) -> CtxView
    decreases chs.len(),
{
    if chs.len() == 0 {
        c
    } else {
        apply_one(apply_all(c, chs.drop_last()), chs.last())
    }
}

/// Applying changes touches only the slots and the queued events.
proof fn lemma_apply_all_keeps(c: CtxView, chs: Seq<Changed>)
    ensures
        apply_all(c, chs) == (CtxView { slots: apply_all(c, chs).slots, outs: apply_all(c, chs).outs, ..c }),
    decreases chs.len(),
{
    if chs.len() > 0 {
        lemma_apply_all_keeps(c, chs.drop_last());
    }
}

/// `chs` are the changes right after version `v`, one per version.
pub open spec fn follows(chs: Seq<Changed>, v: u64) -> bool {
    forall|i: int| 0 <= i < chs.len() ==> (#[trigger] chs[i]).version.0 == v + 1 + i
}

/// What a store answers to a request for its changes is the run of them
/// that follows the version before the first one asked for, no longer than
/// asked.
pub proof fn lemma_fetched_changes_follow(l: LocalStoreView, from: Version, count: u64)
    requires
        l.wf(),
        l.fetch_changed(from, count) is Ok,
    ensures
        ({
            let chs = l.fetch_changed(from, count)->Ok_0;
            &&& 1 <= chs.len() <= count
            &&& chs.len() <= l.compose_max_pkts
            &&& from.0 + chs.len() <= l.version + 1
            &&& follows(chs, (from.0 - 1) as u64)
            &&& forall|i: int| 0 <= i < chs.len() ==> #[trigger] chs[i] == l.changeds[(from.0 + i) as u64]
        }),
{
    let chs = l.fetch_changed(from, count)->Ok_0;
    assert forall|i: int| 0 <= i < chs.len() implies (#[trigger] chs[i]).version.0 == (from.0 - 1) as u64 + 1 + i by {
        assert(l.changeds.contains_key((from.0 + i) as u64));
    }
}

/// Holding back the first `i` of the changes that follow the applied
/// version, with nothing held before, holds exactly them, under their
/// versions, and notes the newest as seen.
proof fn lemma_enqueue_following(w: WorkingView, c: CtxView, chs: Seq<Changed>, i: int)
    requires
        w.pendings == Map::<u64, Changed>::empty(),
        c.next_state is None,
        follows(chs, w.version.0),
        w.version.0 + chs.len() <= u64::MAX,
        chs.len() <= MAX_PENDING_CHANGEDS,
        0 <= i <= chs.len(),
    ensures
        ({
            let (w1, c1) = w.enqueue_all(c, chs.take(i));
            &&& c1 == c
            &&& w1 == (WorkingView { pendings: w1.pendings, latest_seen_version: w1.latest_seen_version, ..w })
            &&& w1.pendings.dom().finite()
            &&& w1.pendings.len() == i
            &&& forall|k: u64| #[trigger] w1.pendings.contains_key(k) <==> w.version.0 < k <= w.version.0 + i
            &&& forall|k: u64| #[trigger] w1.pendings.contains_key(k) ==> w1.pendings[k] == chs[k - w.version.0 - 1]
            &&& i == 0 ==> w1.latest_seen_version == w.latest_seen_version
            &&& i > 0 ==> w1.latest_seen_version == Some(
                match w.latest_seen_version {
                    Some(x) => max_version(x, Version((w.version.0 + i) as u64)),
                    None => Version((w.version.0 + i) as u64),
                },
            )
        }),
    decreases i,
{
    let v = w.version.0;
    if i == 0 {
        assert(chs.take(0) =~= Seq::<Changed>::empty());
    } else {
        lemma_enqueue_following(w, c, chs, i - 1);
        assert(chs.take(i).drop_last() =~= chs.take(i - 1));
        let (w0, c0) = w.enqueue_all(c, chs.take(i - 1));
        let ch = chs[i - 1];
        assert(chs.take(i).last() == ch);
        assert(ch.version.0 == v + i);
        assert(!w0.pendings.contains_key(ch.version.0));
        let (_, w1, c1) = w0.enqueue(c0, ch);
        assert forall|k: u64| #[trigger] w1.pendings.contains_key(k) <==> v < k <= v + i by {
            if k == v + i {
            } else {
                assert(w1.pendings.contains_key(k) == w0.pendings.contains_key(k));
            }
        }
        assert forall|k: u64| #[trigger] w1.pendings.contains_key(k) implies w1.pendings[k] == chs[k - v - 1] by {
            if k != v + i {
                assert(w0.pendings.contains_key(k));
            }
        }
        if i > 1 {
            match w.latest_seen_version {
                Some(x) => {},
                None => {},
            }
        }
    }
}

/// Applying held-back changes that follow the applied version one after
/// another applies all of them, in order, and then goes on as a replica
/// that holds nothing back.
proof fn lemma_apply_following(w: WorkingView, c0: CtxView, chs: Seq<Changed>, v: u64, j: int, now: u64)
    requires
        follows(chs, v),
        v + chs.len() <= u64::MAX,
        0 <= j <= chs.len(),
        w.version.0 == v + j,
        w.sending_req is None,
        w.pendings.dom().finite(),
        forall|k: u64| #[trigger] w.pendings.contains_key(k) <==> v + j < k <= v + chs.len(),
        forall|k: u64| #[trigger] w.pendings.contains_key(k) ==> w.pendings[k] == chs[k - v - 1],
    ensures
        w.apply_pendings(apply_all(c0, chs.take(j)), now) == (WorkingView {
            version: Version((v + chs.len()) as u64),
            pendings: Map::empty(),
            ..w
        }).apply_pendings(apply_all(c0, chs), now),
    decreases chs.len() - j,
{
    let n = chs.len() as int;
    if j == n {
        assert(w.pendings =~= Map::<u64, Changed>::empty());
        assert(chs.take(n) =~= chs);
    } else {
        let c = apply_all(c0, chs.take(j));
        assert(w.pendings.contains_key(w.next()));
        let ch = w.pendings[w.next()];
        assert(ch == chs[j]);
        let (w2, c2) = w.apply_change(c, ch);
        assert(chs.take(j + 1).drop_last() =~= chs.take(j));
        assert(chs.take(j + 1).last() == chs[j]);
        assert(c2 == apply_all(c0, chs.take(j + 1)));
        assert(w2.pendings.len() < w.pendings.len());
        lemma_apply_following(w2, c0, chs, v, j + 1, now);
        assert(WorkingView { version: Version((v + n) as u64), pendings: Map::empty(), ..w2 } == WorkingView {
            version: Version((v + n) as u64),
            pendings: Map::empty(),
            ..w
        });
    }
}

/// What a working replica at `w`, holding nothing back, ends as when the
/// answer to its request for `count` changes after its version brings the
/// run `chs` of them that follows: all of them applied in order, then a
/// request for what is still missing (up to the newest version seen when
/// that is later, else the rest of the range asked for), if anything is.
pub open spec fn repaired(w: WorkingView, c: CtxView, now: u64, count: u64, chs: Seq<Changed>) -> bool {
    let v = w.version.0;
    let n = chs.len();
    let top = (v + n) as u64;
    let applied = apply_all(c, chs);
    let (accepted, w2, c2) = w.on_rpc_res(c, now, RpcResView::FetchChanged(Ok(chs)));
    let latest = match w.latest_seen_version {
        Some(x) => max_version(x, Version(top)),
        None => Version(top),
    };
    let ask = if latest.0 > top {
        Some(RpcReq::FetchChanged { from: Version((top + 1) as u64), count: (latest.0 - top) as u64 })
    } else if n < count {
        Some(RpcReq::FetchChanged { from: Version((top + 1) as u64), count: (count - n) as u64 })
    } else {
        None
    };
    &&& accepted
    &&& w2.version == Version(top)
    &&& w2.pendings == Map::<u64, Changed>::empty()
    &&& w2.latest_seen_version == Some(latest)
    &&& c2.slots == applied.slots
    &&& c2.next_state is None
    &&& match ask {
        Some(req) => w2.sending_req == Some((now, req)) && c2.outs == applied.outs.push(
            super::messages::request_to(c.remote, c.local_session_id, req),
        ),
        None => w2.sending_req is None && c2.outs == applied.outs,
    }
}

/// A working replica repairs a gap from the changes it asked for: when the
/// answer to its request for the changes after its version brings the run
/// of them that follows, it applies all of them in order (and tells the
/// application of each, as applying them one by one does), and then asks
/// for what is still missing: up to the newest version seen when that is
/// later, else the rest of the range it asked for, else nothing.
pub proof fn lemma_gap_repair(w: WorkingView, c: CtxView, now: u64, sent_at: u64, count: u64, chs: Seq<Changed>)
    requires
        w.wf(),
        w.pendings == Map::<u64, Changed>::empty(),
        c.next_state is None,
        w.sending_req == Some(
            (sent_at, RpcReq::FetchChanged { from: Version((w.version.0 + 1) as u64), count }),
        ),
        1 <= chs.len() <= count,
        chs.len() <= MAX_PENDING_CHANGEDS,
        follows(chs, w.version.0),
    ensures
        repaired(w, c, now, count, chs),
{
    let v = w.version.0;
    let n = chs.len() as int;
    assert(v + count <= u64::MAX);
    lemma_enqueue_following(w, c, chs, n);
    assert(chs.take(n) =~= chs);
    let (w1, c1) = w.enqueue_all(c, chs);
    let w1b = WorkingView { sending_req: None, ..w1 };
    assert(chs.take(0) =~= Seq::<Changed>::empty());
    assert(apply_all(c, chs.take(0)) == c);
    lemma_apply_following(w1b, c, chs, v, 0, now);
    let wn = WorkingView { version: Version((v + n) as u64), pendings: Map::empty(), ..w1b };
    let applied = apply_all(c, chs);
    lemma_apply_all_keeps(c, chs);
    assert(wn.pendings.dom() =~= Set::<u64>::empty());
    assert(wn.pendings.len() == 0);
    assert(!wn.pendings.contains_key(wn.next()));
    assert(wn.in_flight() is None);
    assert(c1 == c);
    assert(w.in_flight() == Some((Version((v + 1) as u64), count)));
    let (w3, c3) = wn.apply_pendings(applied, now);
    assert(w1b.apply_pendings(c1, now) == (w3, c3));
    let top = (v + n) as u64;
    let latest = wn.latest_seen_version.unwrap();
    let (acc, w2, c2) = w.on_rpc_res(c, now, RpcResView::FetchChanged(Ok(chs)));
    assert(w.enqueue_all(c, chs) == (w1, c1));
    assert(wn.version == Version(top));
    if latest.0 > top {
        let req = RpcReq::FetchChanged { from: Version((top + 1) as u64), count: (latest.0 - top) as u64 };
        assert(w3 == WorkingView { sending_req: Some((now, req)), ..wn });
        assert(c3 == applied.request(req));
        assert(w2 == w3);
        assert(c2 == c3);
    } else {
        assert(w3 == wn);
        assert(c3 == applied);
        if n < count {
            let req = RpcReq::FetchChanged { from: Version((top + 1) as u64), count: (count - n) as u64 };
            let (w4, c4) = w3.request_fetch_changed(c3, now, Version(w3.next()), ((v + count) - top) as u64);
            assert(w4 == WorkingView { sending_req: Some((now, req)), ..wn });
            assert(c4 == applied.request(req));
            assert(w2 == w4);
            assert(c2 == c4);
        } else {
            assert(w2 == w3);
            assert(c2 == c3);
        }
    }
}

/// A working replica that holds nothing back and asks a store for the
/// changes after its version is repaired from the store's log: when the
/// store has them, the answer is the run of its logged changes that follows,
/// and the replica applies exactly those; when it has not, the replica
/// drops its request and falls back to a full sync that keeps its slots
/// until the new snapshot is complete.
pub proof fn lemma_gap_repaired_from_store(
    l: LocalStoreView,
    w: WorkingView,
    c: CtxView,
    now: u64,
    sent_at: u64,
    count: u64,
)
    requires
        l.wf(),
        w.wf(),
        w.pendings == Map::<u64, Changed>::empty(),
        c.next_state is None,
        w.sending_req == Some(
            (sent_at, RpcReq::FetchChanged { from: Version((w.version.0 + 1) as u64), count }),
        ),
        w.version.0 < u64::MAX,
        count <= MAX_PENDING_CHANGEDS || l.compose_max_pkts <= MAX_PENDING_CHANGEDS,
    ensures
        ({
            let req = RpcReq::FetchChanged { from: Version((w.version.0 + 1) as u64), count };
            match l.answer(req) {
                RpcResView::FetchChanged(Ok(chs)) => {
                    &&& 1 <= chs.len() <= count
                    &&& forall|i: int| 0 <= i < chs.len() ==> #[trigger] chs[i] == l.changeds[(w.version.0 + 1 + i) as u64]
                    &&& repaired(w, c, now, count, chs)
                },
                RpcResView::FetchChanged(Err(_)) => w.on_rpc_res(c, now, l.answer(req)) == (
                    true,
                    WorkingView { sending_req: None, ..w },
                    c.with_next(StateView::SyncFull(SyncFullView::preserving())),
                ),
                _ => false,
            }
        }),
{
    let from = Version((w.version.0 + 1) as u64);
    if l.fetch_changed(from, count) is Ok {
        lemma_fetched_changes_follow(l, from, count);
        let chs = l.fetch_changed(from, count)->Ok_0;
        assert((from.0 - 1) as u64 == w.version.0);
        lemma_gap_repair(w, c, now, sent_at, count, chs);
    }
}

/// The values the application holds after replaying, in order, onto `m`
/// the events in `outs` that tell of the data of the node `remote`.
pub open spec fn replay_told(m: Map<u64, u64>, outs: Seq<EventView>, remote: u64) -> Map<u64, u64>
    decreases outs.len(),
{
    if outs.len() == 0 {
        m
    } else {
        let prev = replay_told(m, outs.drop_last(), remote);
        match outs.last() {
            EventView::KvEvent(KvEvent::Put(Some(p), k, v)) => if p == remote {
                prev.insert(k, v)
            } else {
                prev
            },
            EventView::KvEvent(KvEvent::Del(Some(p), k)) => if p == remote {
                prev.remove(k)
            } else {
                prev
            },
            _ => prev,
        }
    }
}

/// The value under each key of `slots`.
pub open spec fn values_of(slots: Map<u64, Slot>) -> Map<u64, u64> {
    Map::new(|k: u64| slots.contains_key(k), |k: u64| slots[k].value)
}

pub proof fn lemma_replay_concat(m: Map<u64, u64>, a: Seq<EventView>, b: Seq<EventView>, remote: u64)
    ensures
        replay_told(m, a + b, remote) == replay_told(replay_told(m, a, remote), b, remote),
    decreases b.len(),
{
    if b.len() == 0 {
        assert(a + b =~= a);
    } else {
        lemma_replay_concat(m, a, b.drop_last(), remote);
        assert((a + b).drop_last() =~= a + b.drop_last());
        assert((a + b).last() == b.last());
    }
}

proof fn lemma_replay_requests(m: Map<u64, u64>, outs: Seq<EventView>, remote: u64)
    requires
        only_requests_to(outs, remote),
    ensures
        replay_told(m, outs, remote) == m,
    decreases outs.len(),
{
    if outs.len() > 0 {
        assert(is_request_to(outs[outs.len() - 1], remote));
        lemma_replay_requests(m, outs.drop_last(), remote);
    }
}

proof fn lemma_replay_puts(slots: Map<u64, Slot>, ks: Seq<u64>, remote: u64, i: int)
    requires
        0 <= i <= ks.len(),
    ensures
        replay_told(Map::empty(), ks.take(i).map_values(put_event(remote, slots)), remote) == Map::new(
            |k: u64| ks.take(i).contains(k),
            |k: u64| slots[k].value,
        ),
    decreases i,
{
    let es = ks.take(i).map_values(put_event(remote, slots));
    if i == 0 {
        assert(es =~= Seq::<EventView>::empty());
        assert(Map::new(|k: u64| ks.take(0).contains(k), |k: u64| slots[k].value) =~= Map::<u64, u64>::empty());
    } else {
        lemma_replay_puts(slots, ks, remote, i - 1);
        assert(es.drop_last() =~= ks.take(i - 1).map_values(put_event(remote, slots)));
        assert(es.last() == EventView::KvEvent(KvEvent::Put(Some(remote), ks[i - 1], slots[ks[i - 1]].value)));
        let prev = ks.take(i - 1);
        assert forall|k: u64| ks.take(i).contains(k) <==> (prev.contains(k) || k == ks[i - 1]) by {
            if ks.take(i).contains(k) && k != ks[i - 1] {
                let j = choose|j: int| 0 <= j < i && ks.take(i)[j] == k;
                assert(prev[j] == k);
            }
            if prev.contains(k) {
                let j = choose|j: int| 0 <= j < i - 1 && prev[j] == k;
                assert(ks.take(i)[j] == k);
            }
            if k == ks[i - 1] {
                assert(ks.take(i)[i - 1] == k);
            }
        }
        assert(Map::new(|k: u64| ks.take(i).contains(k), |k: u64| slots[k].value) =~= Map::new(
            |k: u64| prev.contains(k),
            |k: u64| slots[k].value,
        ).insert(ks[i - 1], slots[ks[i - 1]].value));
    }
}

/// Every node sees the owner's data: after the full sync of a new replica
/// of a store (as in `lemma_full_sync_replicates`), replaying in order what
/// the application was told of the remote node's data, starting from
/// nothing, gives exactly the store's value under each of its keys.
pub proof fn lemma_full_sync_tells_the_data(
    l: LocalStoreView,
    remote: u64,
    local_session_id: u64,
    created_at: u64,
    times: Seq<u64>,
)
    requires
        l.wf(),
        l.slots.len() <= MAX_STAGED_SNAPSHOT_SLOTS,
        times.len() > l.slots.len(),
    ensures
        ({
            let r = serve_pages(RemoteStoreView::created(remote, local_session_id, l.session_id, created_at), l, times);
            replay_told(Map::empty(), r.ctx.outs, remote) == values_of(l.slots)
        }),
{
    lemma_full_sync_replicates(l, remote, local_session_id, created_at, times);
    let r = serve_pages(RemoteStoreView::created(remote, local_session_id, l.session_id, created_at), l, times);
    let outs = r.ctx.outs;
    let n = outs.len() - l.slots.len();
    let d = l.slots.dom();
    lemma_sorted_keys_exists(d);
    let ks = sorted_keys(d);
    assert(outs =~= outs.take(n) + outs.skip(n));
    lemma_replay_concat(Map::empty(), outs.take(n), outs.skip(n), remote);
    lemma_replay_requests(Map::empty(), outs.take(n), remote);
    assert(ks.take(ks.len() as int) =~= ks);
    lemma_replay_puts(l.slots, ks, remote, ks.len() as int);
    assert(Map::new(|k: u64| ks.contains(k), |k: u64| l.slots[k].value) =~= values_of(l.slots)) by {
        assert forall|k: u64| ks.contains(k) <==> d.contains(k) by {
            assert(ks.to_set().contains(k) <==> ks.contains(k));
        }
    }
}

/// `t` is the newest of the version `start` (when there is one) and the
/// versions listed in `page`.
pub open spec fn is_newest_listed(t: Version, start: Option<Version>, page: Seq<(u64, Version)>) -> bool {
    &&& forall|i: int| 0 <= i < page.len() ==> (#[trigger] page[i]).1.0 <= t.0
    &&& (start matches Some(v) ==> v.0 <= t.0)
    &&& (start == Some(t) || exists|i: int| 0 <= i < page.len() && (#[trigger] page[i]).1 == t)
}

/// Keys a snapshot page skipped as newer are remembered, each with its
/// version, and the newest of those versions becomes one to catch up to
/// when the sync completes; nothing else changes.
pub proof fn lemma_skipped_are_caught_up(s: SyncFullView, page: Seq<(u64, Version)>)
    ensures
        s.note_skipped(page) == (SyncFullView {
            catchup_to: s.note_skipped(page).catchup_to,
            skipped_newer: s.note_skipped(page).skipped_newer,
            ..s
        }),
        forall|i: int| 0 <= i < page.len() ==> #[trigger] s.note_skipped(page).skipped_newer.contains_key(page[i].0),
        page.len() == 0 ==> s.note_skipped(page) == s,
        page.len() > 0 ==> (s.note_skipped(page).catchup_to matches Some(t) && is_newest_listed(
            t,
            s.catchup_to,
            page,
        )),
    decreases page.len(),
{
    if page.len() > 0 {
        let prev = page.drop_last();
        lemma_skipped_are_caught_up(s, prev);
        let h = s.note_skipped(prev);
        let t = s.note_skipped(page).catchup_to.unwrap();
        assert(page[page.len() - 1] == page.last());
        assert forall|i: int| 0 <= i < page.len() implies #[trigger] s.note_skipped(
            page,
        ).skipped_newer.contains_key(page[i].0) by {
            if i < prev.len() {
                assert(page[i] == prev[i]);
            }
        }
        assert forall|i: int| 0 <= i < page.len() implies (#[trigger] page[i]).1.0 <= t.0 by {
            if i < prev.len() {
                assert(page[i] == prev[i]);
            }
        }
        if prev.len() > 0 {
            let p = h.catchup_to.unwrap();
            if t == p && s.catchup_to != Some(p) {
                let j = choose|j: int| 0 <= j < prev.len() && (#[trigger] prev[j]).1 == p;
                assert(page[j] == prev[j]);
            }
        }
    }
}

/// A new replica of a store whose slots fit in one snapshot page is in step
/// with the store once the answer to its first request has come: it holds
/// the store's slots, works from the store's version, and has told the
/// application of every slot, in key order.
pub proof fn lemma_fresh_replica_syncs(
    l: LocalStoreView,
    remote: u64,
    local_session_id: u64,
    created_at: u64,
    now: u64,
)
    requires
        l.wf(),
        l.slots.len() <= l.compose_max_pkts,
        l.slots.len() <= MAX_SNAPSHOT_SLOTS_PER_PAGE,
    ensures
        ({
            let r0 = RemoteStoreView::created(remote, local_session_id, l.session_id, created_at);
            let r = r0.after_rpc_res(now, l.answer(first_page_request()));
            &&& r.wf()
            &&& r.state == StateView::Working(WorkingView::new(Version(l.version)))
            &&& in_step(l, WorkingView::new(Version(l.version)), r.ctx)
            &&& r.ctx.outs == r0.ctx.outs + sorted_keys(l.slots.dom()).map_values(put_event(remote, l.slots))
            &&& r.last_active == now
        }),
{
    let r0 = RemoteStoreView::created(remote, local_session_id, l.session_id, created_at);
    let d = l.slots.dom();
    lemma_sorted_keys_exists(d);
    let ks = sorted_keys(d);
    lemma_sorted_keys_exists(Set::<u64>::empty());
    assert(sorted_keys(Set::<u64>::empty()) =~= Seq::<u64>::empty());
    reveal(Seq::filter);
    assert forall|i: int| 0 <= i < ks.len() implies #[trigger] super::remote_storage::changed_from(
        Map::empty(),
        l.slots,
    )(ks[i]) by {}
    lemma_filter_keeps_all(ks, super::remote_storage::changed_from(Map::empty(), l.slots));
    assert(Map::new(|k: u64| ks.contains(k), |k: u64| l.slots[k]) =~= l.slots) by {
        assert forall|k: u64| ks.contains(k) <==> d.contains(k) by {
            assert(ks.to_set().contains(k) <==> ks.contains(k));
        }
    }
    if l.slots.len() > 0 {
        lemma_first_page_is_whole(l);
        let s0 = SyncFullView { sending_req: Some((created_at, first_page_request())), ..SyncFullView::preserving() };
        assert(listed_slots(l.slots, ks, 0) =~= Map::<u64, Slot>::empty());
        lemma_stage_range(s0, r0.ctx, l.slots, ks, 0, ks.len() as int);
        assert(ks.subrange(0, ks.len() as int) =~= ks);
        assert(ks.take(ks.len() as int) =~= ks);
        assert(listed_slots(l.slots, ks, ks.len() as int) =~= l.slots);
        assert(s0.completed_stage(l.slots, Map::empty()) =~= l.slots);
    } else {
        assert(d =~= Set::<u64>::empty());
        assert(l.slots =~= Map::empty());
        let s0 = SyncFullView { sending_req: Some((created_at, first_page_request())), ..SyncFullView::preserving() };
        assert(s0.completed_stage(Map::empty(), Map::empty()) =~= Map::empty());
    }
}

/// Queuing never shortens the queue.
proof fn lemma_push_all_grows(outs: Seq<EventView>, es: Seq<EventView>)
    ensures
        push_all_bounded(outs, es).len() >= outs.len(),
    decreases es.len(),
{
    if es.len() > 0 {
        lemma_push_all_grows(outs, es.drop_last());
    }
}

/// A queue left below its bound dropped nothing: it is the old queue
/// followed by the new events.
proof fn lemma_push_all_room(outs: Seq<EventView>, es: Seq<EventView>)
    requires
        push_all_bounded(outs, es).len() < MAX_PENDING_OUT_EVENTS,
    ensures
        push_all_bounded(outs, es) == outs + es,
    decreases es.len(),
{
    if es.len() == 0 {
        assert(outs + es =~= outs);
    } else {
        let p = push_all_bounded(outs, es.drop_last());
        assert(p.len() < MAX_PENDING_OUT_EVENTS);
        lemma_push_all_room(outs, es.drop_last());
        assert(outs + es =~= (outs + es.drop_last()).push(es.last()));
    }
}

/// Ticking replicas keeps which nodes are followed, and, while the queue
/// stays below its bound, every event already queued.
proof fn lemma_tick_keys_keeps(s: ReplicatedView, now: u64, keys: Seq<u64>)
    ensures
        forall|k: u64| #[trigger] s.tick_keys(now, keys).remotes.contains_key(k) == s.remotes.contains_key(k),
        s.tick_keys(now, keys).outs.len() >= s.outs.len(),
        forall|e: EventView|
            s.outs.contains(e) && s.tick_keys(now, keys).outs.len() < MAX_PENDING_OUT_EVENTS ==> #[trigger] s.tick_keys(
                now,
                keys,
            ).outs.contains(e),
    decreases keys.len(),
{
    if keys.len() > 0 {
        lemma_tick_keys_keeps(s, now, keys.drop_last());
        let t = s.tick_keys(now, keys.drop_last());
        let k = keys.last();
        if t.remotes.contains_key(k) {
            let r = t.remotes[k].after_tick(now);
            lemma_push_all_grows(t.outs, r.ctx.outs);
            let f = s.tick_keys(now, keys);
            assert forall|e: EventView|
                s.outs.contains(e) && f.outs.len() < MAX_PENDING_OUT_EVENTS implies #[trigger] f.outs.contains(e) by {
                lemma_push_all_room(t.outs, r.ctx.outs);
                assert(t.outs.contains(e));
                let i = choose|i: int| 0 <= i < t.outs.len() && t.outs[i] == e;
                assert(f.outs[i] == e);
            }
        }
    }
}

/// Dropping the silent replicas among `keys` (no key twice) drops exactly
/// those, leaves the others as they were, and, while the queue stays below
/// its bound, queues a deletion of every key each dropped replica held.
proof fn lemma_cleanup_keys(s: ReplicatedView, now: u64, keys: Seq<u64>)
    requires
        keys.no_duplicates(),
        forall|k: u64| #[trigger]
            s.remotes.contains_key(k) ==> s.remotes[k].ctx.remote == k && s.remotes[k].ctx.slots.dom().finite(),
    ensures
        ({
            let r = s.cleanup_keys(now, keys);
            &&& forall|k: u64| #[trigger]
                r.remotes.contains_key(k) == (s.remotes.contains_key(k) && !(keys.contains(k) && timed_out(
                    s.remotes[k],
                    now,
                )))
            &&& forall|k: u64| #[trigger] r.remotes.contains_key(k) ==> r.remotes[k] == s.remotes[k]
            &&& r.outs.len() >= s.outs.len()
            &&& forall|e: EventView|
                s.outs.contains(e) && r.outs.len() < MAX_PENDING_OUT_EVENTS ==> #[trigger] r.outs.contains(e)
            &&& forall|k: u64, key: u64|
                keys.contains(k) && s.remotes.contains_key(k) && timed_out(s.remotes[k], now)
                    && #[trigger] s.remotes[k].ctx.slots.contains_key(key) && r.outs.len() < MAX_PENDING_OUT_EVENTS
                    ==> r.outs.contains(EventView::KvEvent(KvEvent::Del(Some(k), key)))
        }),
    decreases keys.len(),
{
    if keys.len() > 0 {
        let p = keys.drop_last();
        let k0 = keys.last();
        assert(p.no_duplicates());
        assert(!p.contains(k0)) by {
            if p.contains(k0) {
                let i = choose|i: int| 0 <= i < p.len() && p[i] == k0;
                assert(keys[i] == keys[keys.len() - 1]);
            }
        }
        assert forall|k: u64| keys.contains(k) <==> (p.contains(k) || k == k0) by {
            if keys.contains(k) {
                let i = choose|i: int| 0 <= i < keys.len() && keys[i] == k;
                if i < p.len() {
                    assert(p[i] == k);
                }
            }
            if p.contains(k) {
                let i = choose|i: int| 0 <= i < p.len() && p[i] == k;
                assert(keys[i] == k);
            }
            if k == k0 {
                assert(keys[keys.len() - 1] == k);
            }
        }
        lemma_cleanup_keys(s, now, p);
        let t = s.cleanup_keys(now, p);
        if t.remotes.contains_key(k0) && timed_out(t.remotes[k0], now) {
            let rr = t.remotes[k0];
            let es = rr.after_destroy().ctx.outs;
            lemma_push_all_grows(t.outs, es);
            let r = s.cleanup_keys(now, keys);
            assert(r.outs == push_all_bounded(t.outs, es));
            lemma_sorted_keys_exists(rr.ctx.slots.dom());
            assert forall|e: EventView|
                s.outs.contains(e) && r.outs.len() < MAX_PENDING_OUT_EVENTS implies #[trigger] r.outs.contains(e) by {
                lemma_push_all_room(t.outs, es);
                assert(t.outs.contains(e));
                let i = choose|i: int| 0 <= i < t.outs.len() && t.outs[i] == e;
                assert(r.outs[i] == e);
            }
            assert forall|k: u64, key: u64|
                keys.contains(k) && s.remotes.contains_key(k) && timed_out(s.remotes[k], now)
                    && #[trigger] s.remotes[k].ctx.slots.contains_key(key) && r.outs.len() < MAX_PENDING_OUT_EVENTS
                    implies r.outs.contains(EventView::KvEvent(KvEvent::Del(Some(k), key))) by {
                lemma_push_all_room(t.outs, es);
                let ev = EventView::KvEvent(KvEvent::Del(Some(k), key));
                if k == k0 {
                    let ks = sorted_keys(rr.ctx.slots.dom());
                    assert(ks.to_set().contains(key));
                    let j = choose|j: int| 0 <= j < ks.len() && ks[j] == key;
                    assert(es == rr.ctx.outs + ks.map_values(super::remote_storage::del_event(rr.ctx.remote)));
                    assert(es[rr.ctx.outs.len() + j] == ev);
                    assert(r.outs[t.outs.len() + rr.ctx.outs.len() + j] == ev);
                } else {
                    assert(p.contains(k));
                    let i = choose|i: int| 0 <= i < t.outs.len() && t.outs[i] == ev;
                    assert(r.outs[i] == ev);
                }
            }
        }
    }
}

/// A tick at `now` drops exactly the followed replicas whose node has been
/// silent for `REMOTE_TIMEOUT_MS` or more, keeps the others, and, while the
/// queue stays below its bound, queues a deletion of every key that a
/// dropped replica held.
pub proof fn law_tick_drops_silent_replicas(s: ReplicatedView, now: u64)
    requires
        s.wf(),
    ensures
        ({
            let s2 = s.after_tick(now);
            &&& forall|k: u64| #[trigger]
                s2.remotes.contains_key(k) == (s.remotes.contains_key(k) && now < s.remotes[k].last_active
                    + REMOTE_TIMEOUT_MS)
            &&& forall|k: u64, key: u64|
                s.remotes.contains_key(k) && now >= s.remotes[k].last_active + REMOTE_TIMEOUT_MS
                    && #[trigger] s.remotes[k].ctx.slots.contains_key(key) && s2.outs.len() < MAX_PENDING_OUT_EVENTS
                    ==> s2.outs.contains(EventView::KvEvent(KvEvent::Del(Some(k), key)))
        }),
{
    let s1 = s.take_local(s.local.after_tick());
    let keys = sorted_keys(s1.remotes.dom());
    lemma_sorted_keys_exists(s1.remotes.dom());
    assert(keys.no_duplicates()) by {
        assert forall|i: int, j: int| 0 <= i < keys.len() && 0 <= j < keys.len() && i != j implies keys[i]
            != keys[j] by {
            if i < j {
                assert(keys[i] < keys[j]);
            } else {
                assert(keys[j] < keys[i]);
            }
        }
    }
    assert forall|k: u64| #[trigger] s1.remotes.contains_key(k) implies s1.remotes[k].ctx.remote == k
        && s1.remotes[k].ctx.slots.dom().finite() by {
        assert(s.remotes.contains_key(k));
    }
    lemma_cleanup_keys(s1, now, keys);
    let s2 = s1.cleanup(now);
    assert forall|k: u64| s1.remotes.contains_key(k) implies keys.contains(k) by {
        assert(keys.to_set().contains(k));
    }
    lemma_tick_keys_keeps(s2, now, sorted_keys(s2.remotes.dom()));
}

} // verus!
