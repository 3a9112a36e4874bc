//! Convergence of a replica with the store it follows, over any history
//! of changes at the owner and of deliveries, losses and repeats of its
//! broadcasts and answers.
use vstd::prelude::*;

use super::local_storage::{add_newer_skipped, keys_from, newer, not_newer, with_slot, with_version, LocalStoreView};
use super::messages::{
    Action, BroadcastEvent, BroadcastEventData, Changed, EventView, FetchChangedError, RpcReq, RpcResView, Slot, SnapshotView,
    Version,
};
use super::properties::{
    lemma_gap_repaired_from_store, lemma_listed_len, lemma_page_answer, lemma_replay_concat, lemma_stage_range,
    listed_slots, page_end, page_request, repaired, replay_told, serve_pages, sync_at, values_of,
};
use super::remote_storage::{
    changed_from, del_event, dropped_by, put_event, CtxView, RemoteStoreView, StateView, SyncFullView, WorkingView,
};
use super::remote_storage::{first_page_request, MAX_SNAPSHOT_SLOTS_PER_PAGE};
use super::remote_storage::{MAX_PENDING_CHANGEDS, MAX_STAGED_SNAPSHOT_SLOTS};
use crate::ordered::{lemma_increasing_first_is_min, lemma_sorted_keys_exists, sorted_keys};

verus! {

/// `m` after the change `ch`: a put sets the key's slot, a delete removes it.
pub open spec fn apply_slot(m: Map<u64, Slot>, ch: Changed) -> Map<u64, Slot> {
    match ch.action {
        Action::Put(value) => m.insert(ch.key, Slot { value, version: ch.version }),
        Action::Del => m.remove(ch.key),
    }
}

/// The slots that the changes `h` leave, applied in order from nothing.
pub open spec fn replay_slots(h: Seq<Changed>) -> Map<u64, Slot>
    decreases h.len(),
{
    if h.len() == 0 {
        Map::empty()
    } else {
        apply_slot(replay_slots(h.drop_last()), h.last())
    }
}

/// The change at each version of `h` carries that version.
pub open spec fn numbered(h: Seq<Changed>) -> bool {
    forall|i: int| 0 <= i < h.len() ==> (#[trigger] h[i]).version.0 == i + 1
}

/// `h` is the history of the store `l`: its changes, one per version, in
/// order; its slots are what they leave, and its log holds some of them.
pub open spec fn history_of(h: Seq<Changed>, l: LocalStoreView) -> bool {
    &&& l.version == h.len()
    &&& numbered(h)
    &&& l.slots == replay_slots(h)
    &&& l.changeds.dom().finite()
    &&& forall|k: u64| #[trigger] l.changeds.contains_key(k) ==> 1 <= k <= h.len() && l.changeds[k] == h[k - 1]
}

/// Some change of `h` after version `v` touches the key `k`.
pub open spec fn changed_after(h: Seq<Changed>, v: int, k: u64) -> bool {
    exists|j: int| v <= j < h.len() && (#[trigger] h[j]).key == k
}

/// `slots` hold what `h` leaves under every key that no change of `h`
/// after version `v` touches.
pub open spec fn agrees_after(slots: Map<u64, Slot>, h: Seq<Changed>, v: int) -> bool {
    forall|k: u64|
        #![trigger slots.contains_key(k)]
        #![trigger replay_slots(h).contains_key(k)]
        !changed_after(h, v, k) ==> (slots.contains_key(k) == replay_slots(h).contains_key(k) && (
        slots.contains_key(k) ==> slots[k] == replay_slots(h)[k]))
}

pub proof fn lemma_replay_finite(h: Seq<Changed>)
    ensures
        replay_slots(h).dom().finite(),
    decreases h.len(),
{
    if h.len() > 0 {
        lemma_replay_finite(h.drop_last());
    }
}

/// A key that no change after `v` touches has, in what `h` leaves, what
/// the first `v` changes left.
pub proof fn lemma_unchanged_keeps(h: Seq<Changed>, v: int, k: u64)
    requires
        0 <= v <= h.len(),
        !changed_after(h, v, k),
    ensures
        replay_slots(h).contains_key(k) == replay_slots(h.take(v)).contains_key(k),
        replay_slots(h).contains_key(k) ==> replay_slots(h)[k] == replay_slots(h.take(v))[k],
    decreases h.len(),
{
    if h.len() == v {
        assert(h.take(v) =~= h);
    } else {
        let p = h.drop_last();
        assert(h[h.len() - 1].key != k);
        assert(!changed_after(p, v, k)) by {
            if changed_after(p, v, k) {
                let j = choose|j: int| v <= j < p.len() && (#[trigger] p[j]).key == k;
                assert(h[j] == p[j]);
            }
        }
        lemma_unchanged_keeps(p, v, k);
        assert(p.take(v) =~= h.take(v));
    }
}

/// A slot that `h` leaves carries the version of the last change to its
/// key: that change touches the key and none after it does.
pub proof fn lemma_slot_is_last_change(h: Seq<Changed>, k: u64)
    requires
        numbered(h),
        replay_slots(h).contains_key(k),
    ensures
        1 <= replay_slots(h)[k].version.0 <= h.len(),
        h[replay_slots(h)[k].version.0 - 1].key == k,
        !changed_after(h, replay_slots(h)[k].version.0 as int, k),
    decreases h.len(),
{
    let p = h.drop_last();
    let last = h[h.len() - 1];
    assert(h.last() == last);
    if last.key == k {
        assert(last.action is Put);
    } else {
        assert(numbered(p)) by {
            assert forall|i: int| 0 <= i < p.len() implies (#[trigger] p[i]).version.0 == i + 1 by {
                assert(p[i] == h[i]);
            }
        }
        lemma_slot_is_last_change(p, k);
        let ver = replay_slots(h)[k].version.0;
        assert(h[ver - 1] == p[ver - 1]);
        assert(!changed_after(h, ver as int, k)) by {
            if changed_after(h, ver as int, k) {
                let j = choose|j: int| ver <= j < h.len() && (#[trigger] h[j]).key == k;
                if j < p.len() {
                    assert(p[j] == h[j]);
                }
            }
        }
    }
}

/// A slot that `h` leaves is untouched after `v` exactly when its version
/// is at most `v`.
pub proof fn lemma_slot_version_vs_changes(h: Seq<Changed>, v: int, k: u64)
    requires
        numbered(h),
        0 <= v,
        replay_slots(h).contains_key(k),
    ensures
        replay_slots(h)[k].version.0 <= v <==> !changed_after(h, v, k),
{
    lemma_slot_is_last_change(h, k);
    let ver = replay_slots(h)[k].version.0 as int;
    if ver > v {
        assert(h[ver - 1].key == k);
        assert(changed_after(h, v, k));
    } else {
        if changed_after(h, v, k) {
            let j = choose|j: int| v <= j < h.len() && (#[trigger] h[j]).key == k;
            assert(changed_after(h, ver, k));
        }
    }
}

/// Applying the change after version `v` keeps the slots agreeing with
/// the history, one version further.
pub proof fn lemma_agree_apply(slots: Map<u64, Slot>, h: Seq<Changed>, v: int)
    requires
        0 <= v < h.len(),
        agrees_after(slots, h, v),
    ensures
        agrees_after(apply_slot(slots, h[v]), h, v + 1),
{
    let ch = h[v];
    let s2 = apply_slot(slots, ch);
    assert forall|k: u64|
        #![trigger s2.contains_key(k)]
        #![trigger replay_slots(h).contains_key(k)]
        !changed_after(h, v + 1, k) implies (s2.contains_key(k) == replay_slots(h).contains_key(k)
        && (s2.contains_key(k) ==> s2[k] == replay_slots(h)[k])) by {
        if k == ch.key {
            lemma_unchanged_keeps(h, v + 1, k);
            let t = h.take(v + 1);
            assert(t.drop_last() =~= h.take(v));
            assert(t.last() == ch);
            assert(replay_slots(t) == apply_slot(replay_slots(h.take(v)), ch));
            match ch.action {
                Action::Put(value) => {
                    assert(s2.contains_key(k) && s2[k] == Slot { value, version: ch.version });
                    assert(replay_slots(t).contains_key(k) && replay_slots(t)[k] == Slot { value, version: ch.version });
                },
                Action::Del => {
                    assert(!s2.contains_key(k));
                    assert(!replay_slots(t).contains_key(k));
                },
            }
        } else {
            assert(!changed_after(h, v, k)) by {
                if changed_after(h, v, k) {
                    let j = choose|j: int| v <= j < h.len() && (#[trigger] h[j]).key == k;
                    assert(j != v);
                    assert(changed_after(h, v + 1, k));
                }
            }
            assert(slots.contains_key(k) == replay_slots(h).contains_key(k));
        }
    }
}

/// A new change at the owner keeps every agreement with the history.
pub proof fn lemma_agree_grow(slots: Map<u64, Slot>, h: Seq<Changed>, v: int, ch: Changed)
    requires
        0 <= v <= h.len(),
        agrees_after(slots, h, v),
    ensures
        agrees_after(slots, h.push(ch), v),
{
    let h2 = h.push(ch);
    assert(h2.drop_last() =~= h);
    assert forall|k: u64| !changed_after(h2, v, k) implies (slots.contains_key(k) == replay_slots(h2).contains_key(k)
        && (slots.contains_key(k) ==> slots[k] == replay_slots(h2)[k])) by {
        assert(h2[h.len() as int] == ch);
        assert(ch.key != k);
        assert(!changed_after(h, v, k)) by {
            if changed_after(h, v, k) {
                let j = choose|j: int| v <= j < h.len() && (#[trigger] h[j]).key == k;
                assert(h2[j] == h[j]);
            }
        }
    }
}

/// Whatever `h` leaves, slots agreeing with it after its last version hold
/// exactly that.
pub proof fn lemma_agree_at_end(slots: Map<u64, Slot>, h: Seq<Changed>)
    requires
        agrees_after(slots, h, h.len() as int),
    ensures
        slots == replay_slots(h),
{
    assert forall|k: u64| slots.contains_key(k) == replay_slots(h).contains_key(k) by {
        assert(!changed_after(h, h.len() as int, k));
    }
    assert forall|k: u64| #[trigger] slots.contains_key(k) implies slots[k] == replay_slots(h)[k] by {
        assert(!changed_after(h, h.len() as int, k));
    }
    assert(slots =~= replay_slots(h));
}

/// A set or a delete at the owner extends its history by the change it
/// records, if it records one.
pub proof fn lemma_owner_steps(l: LocalStoreView, h: Seq<Changed>, key: u64, value: u64)
    requires
        history_of(h, l),
    ensures
        l.version < u64::MAX ==> history_of(
            h.push(Changed { key, version: Version((l.version + 1) as u64), action: Action::Put(value) }),
            l.after_set(key, value),
        ),
        l.version == u64::MAX ==> l.after_set(key, value) == l,
        l.version < u64::MAX && l.slots.contains_key(key) ==> history_of(
            h.push(Changed { key, version: Version((l.version + 1) as u64), action: Action::Del }),
            l.after_del(key),
        ),
        !(l.version < u64::MAX && l.slots.contains_key(key)) ==> l.after_del(key) == l,
{
    if l.version < u64::MAX {
        let v = Version((l.version + 1) as u64);
        let put = Changed { key, version: v, action: Action::Put(value) };
        let del = Changed { key, version: v, action: Action::Del };
        assert(h.push(put).drop_last() =~= h);
        assert(h.push(del).drop_last() =~= h);
        let l2 = l.after_set(key, value);
        assert forall|k: u64| #[trigger] l2.changeds.contains_key(k) implies 1 <= k <= h.push(put).len()
            && l2.changeds[k] == h.push(put)[k - 1] by {
            if k != v.0 {
                assert(l.changeds.contains_key(k));
            }
        }
        assert(l2.slots =~= replay_slots(h.push(put)));
        assert(l2.changeds.dom().subset_of(l.changeds.dom().insert(v.0)));
        vstd::set_lib::lemma_set_subset_finite(l.changeds.dom().insert(v.0), l2.changeds.dom());
        if l.slots.contains_key(key) {
            let l3 = l.after_del(key);
            assert forall|k: u64| #[trigger] l3.changeds.contains_key(k) implies 1 <= k <= h.push(del).len()
                && l3.changeds[k] == h.push(del)[k - 1] by {
                if k != v.0 {
                    assert(l.changeds.contains_key(k));
                }
            }
            assert(l3.slots =~= replay_slots(h.push(del)));
            assert(l3.changeds.dom().subset_of(l.changeds.dom().insert(v.0)));
            vstd::set_lib::lemma_set_subset_finite(l.changeds.dom().insert(v.0), l3.changeds.dom());
        }
    }
}

/// `ch` is one of the changes of `h`, at its own version.
pub open spec fn in_history(ch: Changed, h: Seq<Changed>) -> bool {
    1 <= ch.version.0 <= h.len() && ch == h[ch.version.0 - 1]
}

/// The changes a working replica holds back are changes of `h` after the
/// version it applied, each under its own version.
pub open spec fn pend_sound(w: WorkingView, h: Seq<Changed>) -> bool {
    &&& w.version.0 <= h.len()
    &&& w.pendings.dom().finite()
    &&& forall|k: u64| #[trigger]
        w.pendings.contains_key(k) ==> w.version.0 < k <= h.len() && w.pendings[k] == h[k - 1]
}

/// A working replica of the store with history `h`, holding `slots`: what
/// it holds back is from `h`, it asks for the missing changes while it
/// holds anything back, and its slots agree with `h` after its version.
pub open spec fn working_sound(w: WorkingView, slots: Map<u64, Slot>, h: Seq<Changed>) -> bool {
    &&& pend_sound(w, h)
    &&& (w.pendings.len() > 0 ==> w.sending_req is Some)
    &&& agrees_after(slots, h, w.version.0 as int)
}

proof fn lemma_apply_change_slots(w: WorkingView, c: CtxView, ch: Changed)
    ensures
        w.apply_change(c, ch).1 == (CtxView {
            slots: apply_slot(c.slots, ch),
            outs: w.apply_change(c, ch).1.outs,
            ..c
        }),
{
    match ch.action {
        Action::Put(_) => {},
        Action::Del => {
            if !c.slots.contains_key(ch.key) {
                assert(c.slots.remove(ch.key) =~= c.slots);
            }
        },
    }
}

/// Applying the held-back changes that are due keeps a replica sound and
/// leaves it asking for the missing ones while it holds anything back.
proof fn lemma_apply_pendings_sound(w: WorkingView, c: CtxView, h: Seq<Changed>, now: u64)
    requires
        numbered(h),
        pend_sound(w, h),
        agrees_after(c.slots, h, w.version.0 as int),
        told_ok(c),
    ensures
        working_sound(w.apply_pendings(c, now).0, w.apply_pendings(c, now).1.slots, h),
        told_ok(w.apply_pendings(c, now).1),
        w.apply_pendings(c, now).1 == (CtxView {
            slots: w.apply_pendings(c, now).1.slots,
            outs: w.apply_pendings(c, now).1.outs,
            ..c
        }),
    decreases w.pendings.len(),
{
    let v = w.version.0;
    if w.pendings.dom().finite() && v < u64::MAX && w.pendings.contains_key(w.next()) {
        let ch = w.pendings[w.next()];
        assert(ch == h[v as int]);
        lemma_apply_change_slots(w, c, ch);
        let (w2, c2) = w.apply_change(c, ch);
        lemma_agree_apply(c.slots, h, v as int);
        lemma_told_apply(w, c, ch);
        assert(w.pendings.dom().remove(w.next()).len() < w.pendings.dom().len());
        assert(w2.pendings == w.pendings.remove(w.next()));
        lemma_apply_pendings_sound(w2, c2, h, now);
    } else if w.pendings.len() > 0 {
        let d = w.pendings.dom();
        lemma_sorted_keys_exists(d);
        let first = sorted_keys(d)[0];
        assert(sorted_keys(d).to_set().contains(first));
        assert(d.contains(first));
        assert(first > v);
        assert(first != w.next());
        lemma_told_request(c, RpcReq::FetchChanged { from: Version(w.next()), count: (first - w.next()) as u64 });
    } else {
        if let Some(latest) = w.latest_seen_version {
            lemma_told_request(c, RpcReq::FetchChanged { from: Version(w.next()), count: (latest.0 - v) as u64 });
        }
    }
}

/// Holding back one change of `h` keeps a replica's held changes sound; at
/// the hold-back limit the replica turns to a full sync instead.
proof fn lemma_enqueue_sound(w: WorkingView, c: CtxView, h: Seq<Changed>, ch: Changed)
    requires
        pend_sound(w, h),
        in_history(ch, h),
    ensures
        ({
            let (ok, w2, c2) = w.enqueue(c, ch);
            &&& !ok ==> w2 == w && c2 == c
            &&& ok && c2.next_state == c.next_state ==> pend_sound(w2, h) && c2 == c && w2.version == w.version
                && w2.sending_req == w.sending_req
            &&& c2.next_state != c.next_state ==> c2 == c.with_next(StateView::SyncFull(SyncFullView::preserving()))
        }),
{
    let (ok, w2, c2) = w.enqueue(c, ch);
    if ok && c2.next_state == c.next_state {
        assert forall|k: u64| #[trigger] w2.pendings.contains_key(k) implies w.version.0 < k <= h.len()
            && w2.pendings[k] == h[k - 1] by {
            if k != ch.version.0 {
                assert(w.pendings.contains_key(k));
            }
        }
    }
}

/// Holding back changes of `h` one after another keeps a replica's held
/// changes sound, or turns it to a full sync.
proof fn lemma_enqueue_all_sound(w: WorkingView, c: CtxView, h: Seq<Changed>, chs: Seq<Changed>)
    requires
        pend_sound(w, h),
        c.next_state is None,
        forall|i: int| 0 <= i < chs.len() ==> in_history(#[trigger] chs[i], h),
    ensures
        ({
            let (w2, c2) = w.enqueue_all(c, chs);
            &&& c2.next_state is None ==> pend_sound(w2, h) && c2 == c && w2.version == w.version
            &&& c2.next_state is Some ==> c2 == c.with_next(StateView::SyncFull(SyncFullView::preserving()))
        }),
    decreases chs.len(),
{
    if chs.len() > 0 {
        let p = chs.drop_last();
        assert forall|i: int| 0 <= i < p.len() implies in_history(#[trigger] p[i], h) by {
            assert(p[i] == chs[i]);
        }
        lemma_enqueue_all_sound(w, c, h, p);
        let (w1, c1) = w.enqueue_all(c, p);
        assert(in_history(chs[chs.len() - 1], h));
        if c1.next_state is None {
            lemma_enqueue_sound(w1, c1, h, chs.last());
        }
    }
}

/// What a working replica's handler leaves: a sound working replica with
/// the same peer and no next state, or a turn to a full sync that keeps
/// its slots.
pub open spec fn working_outcome(w2: WorkingView, c2: CtxView, c: CtxView, h: Seq<Changed>) -> bool {
    &&& told_ok(c2)
    &&& c2.remote == c.remote
    &&& c2.next_state is None ==> working_sound(w2, c2.slots, h) && c2 == (CtxView {
        slots: c2.slots,
        outs: c2.outs,
        ..c
    })
    &&& c2.next_state is Some ==> c2.next_state == Some(StateView::SyncFull(SyncFullView::preserving()))
}

/// A broadcast of the owner keeps a working replica sound.
proof fn lemma_working_broadcast(w: WorkingView, c: CtxView, h: Seq<Changed>, now: u64, e: BroadcastEvent)
    requires
        numbered(h),
        working_sound(w, c.slots, h),
        c.next_state is None,
        told_ok(c),
        e.data matches BroadcastEventData::Changed(ch) ==> in_history(ch, h),
    ensures
        working_outcome(w.on_broadcast(c, now, e).1, w.on_broadcast(c, now, e).2, c, h),
{
    match e.data {
        BroadcastEventData::Changed(ch) => {
            lemma_enqueue_sound(w, c, h, ch);
            let (ok, w1, c1) = w.enqueue(c, ch);
            if ok && c1.next_state is None {
                lemma_apply_pendings_sound(w1, c1, h, now);
            }
        },
        BroadcastEventData::Version(u) => {
            if u.0 > w.version.0 {
                lemma_told_request(c, RpcReq::FetchChanged { from: Version(w.next()), count: (u.0 - w.version.0) as u64 });
            }
        },
    }
}

/// Ticks keep a working replica sound.
proof fn lemma_working_tick(w: WorkingView, c: CtxView, h: Seq<Changed>, now: u64)
    requires
        working_sound(w, c.slots, h),
        told_ok(c),
    ensures
        working_sound(w.on_tick(c, now).0, w.on_tick(c, now).1.slots, h),
        w.on_tick(c, now).1 == (CtxView { outs: w.on_tick(c, now).1.outs, ..c }),
        told_ok(w.on_tick(c, now).1),
{
    if let Some((_, q)) = w.sending_req {
        lemma_told_request(c, q);
    }
}

/// An answer with changes of `h`, or a refusal, keeps a working replica
/// sound.
proof fn lemma_working_answer(w: WorkingView, c: CtxView, h: Seq<Changed>, now: u64, res: RpcResView)
    requires
        numbered(h),
        working_sound(w, c.slots, h),
        c.next_state is None,
        told_ok(c),
        res matches RpcResView::FetchChanged(Ok(chs)) ==> forall|i: int|
            0 <= i < chs.len() ==> in_history(#[trigger] chs[i], h),
    ensures
        working_outcome(w.on_rpc_res(c, now, res).1, w.on_rpc_res(c, now, res).2, c, h),
{
    match res {
        RpcResView::FetchChanged(Ok(chs)) => {
            match w.in_flight() {
                Some((from, count)) => {
                    if count != 0 {
                        lemma_enqueue_all_sound(w, c, h, chs);
                        let (w1, c1) = w.enqueue_all(c, chs);
                        if !(chs.len() > 0 && c1.next_state is Some) {
                            let w1b = WorkingView { sending_req: None, ..w1 };
                            lemma_apply_pendings_sound(w1b, c1, h, now);
                            let (w3, c3) = w1b.apply_pendings(c1, now);
                            let to = from.0 + count - 1;
                            if w3.sending_req is None && w3.version.0 < to {
                                lemma_told_request(c3, RpcReq::FetchChanged { from: Version(w3.next()), count: (to - w3.version.0) as u64 });
                            }
                        }
                    }
                },
                None => {},
            }
        },
        _ => {},
    }
}

/// Staging a page onto a stage keeps the other fields, stages every key
/// of the page, and takes each staged value from the old stage or the page.
proof fn lemma_stage_any(s: SyncFullView, c: CtxView, page: Seq<(u64, Slot)>)
    requires
        s.staged_slots is Some,
    ensures
        ({
            let (s2, c2) = s.stage_page(c, page);
            let st = s.staged_slots.unwrap();
            &&& c2 == c
            &&& s2.staged_slots is Some
            &&& s2 == (SyncFullView { staged_slots: s2.staged_slots, ..s })
            &&& forall|k: u64| #[trigger] st.contains_key(k) ==> s2.staged_slots.unwrap().contains_key(k)
            &&& forall|i: int| 0 <= i < page.len() ==> s2.staged_slots.unwrap().contains_key(#[trigger] page[i].0)
            &&& forall|k: u64| #[trigger]
                s2.staged_slots.unwrap().contains_key(k) ==> (st.contains_key(k) && s2.staged_slots.unwrap()[k]
                    == st[k]) || exists|i: int|
                    0 <= i < page.len() && #[trigger] page[i] == (k, s2.staged_slots.unwrap()[k])
        }),
    decreases page.len(),
{
    if page.len() > 0 {
        let p = page.drop_last();
        lemma_stage_any(s, c, p);
        let (s1, c1) = s.stage_page(c, p);
        let st1 = s1.staged_slots.unwrap();
        let (k0, x0) = page.last();
        let st2 = st1.insert(k0, x0);
        assert(page[page.len() - 1] == (k0, x0));
        assert forall|i: int| 0 <= i < page.len() implies st2.contains_key(#[trigger] page[i].0) by {
            if i < p.len() {
                assert(p[i] == page[i]);
            }
        }
        assert forall|k: u64| #[trigger] st2.contains_key(k) implies (s.staged_slots.unwrap().contains_key(k)
            && st2[k] == s.staged_slots.unwrap()[k]) || exists|i: int|
            0 <= i < page.len() && #[trigger] page[i] == (k, st2[k]) by {
            if k != k0 {
                if !(s.staged_slots.unwrap().contains_key(k) && st2[k] == s.staged_slots.unwrap()[k]) {
                    let i = choose|i: int| 0 <= i < p.len() && #[trigger] p[i] == (k, st1[k]);
                    assert(page[i] == p[i]);
                }
            }
        }
    }
}

/// Noting skipped keys keeps the stage, the request and the locked version,
/// and notes only keys of the page besides those noted before.
proof fn lemma_note_any(s: SyncFullView, page: Seq<(u64, Version)>)
    ensures
        s.note_skipped(page) == (SyncFullView {
            skipped_newer: s.note_skipped(page).skipped_newer,
            catchup_to: s.note_skipped(page).catchup_to,
            ..s
        }),
        forall|k: u64| #[trigger]
            s.note_skipped(page).skipped_newer.contains_key(k) ==> s.skipped_newer.contains_key(k) || exists|i: int|
                0 <= i < page.len() && (#[trigger] page[i]).0 == k,
    decreases page.len(),
{
    if page.len() > 0 {
        let p = page.drop_last();
        lemma_note_any(s, p);
        assert(page[page.len() - 1] == page.last());
        assert forall|k: u64| #[trigger] s.note_skipped(page).skipped_newer.contains_key(k) implies s.skipped_newer.contains_key(k)
            || exists|i: int| 0 <= i < page.len() && (#[trigger] page[i]).0 == k by {
            if k != page.last().0 && !s.skipped_newer.contains_key(k) {
                let i = choose|i: int| 0 <= i < p.len() && (#[trigger] p[i]).0 == k;
                assert(page[i] == p[i]);
            }
        }
    }
}

/// `e` is an entry of `acc`, or names the key of a logged change at one of
/// the versions `vs`.
pub open spec fn from_acc_or_log(
    e: (u64, Version),
    acc: Seq<(u64, Version)>,
    vs: Seq<u64>,
    changeds: Map<u64, Changed>,
) -> bool {
    acc.contains(e) || exists|j: int| 0 <= j < vs.len() && (#[trigger] changeds[vs[j]]).key == e.0
}

/// Each entry a last page adds to the skipped list is a key that a logged
/// change at one of the versions `vs` touched.
proof fn lemma_added_skipped(
    vs: Seq<u64>,
    changeds: Map<u64, Changed>,
    start: u64,
    taken: Seq<(u64, Slot)>,
    acc: Seq<(u64, Version)>,
)
    ensures
        forall|i: int|
            0 <= i < add_newer_skipped(vs, changeds, start, taken, acc).len() ==> from_acc_or_log(
                #[trigger] add_newer_skipped(vs, changeds, start, taken, acc)[i],
                acc,
                vs,
                changeds,
            ),
    decreases vs.len(),
{
    let r = add_newer_skipped(vs, changeds, start, taken, acc);
    if vs.len() == 0 {
        assert forall|i: int| 0 <= i < r.len() implies from_acc_or_log(#[trigger] r[i], acc, vs, changeds) by {
            assert(acc[i] == r[i]);
        }
    } else {
        let p = vs.drop_last();
        lemma_added_skipped(p, changeds, start, taken, acc);
        let prev = add_newer_skipped(p, changeds, start, taken, acc);
        assert forall|i: int| 0 <= i < r.len() implies from_acc_or_log(#[trigger] r[i], acc, vs, changeds) by {
            if i < prev.len() {
                assert(r[i] == prev[i]);
                assert(from_acc_or_log(prev[i], acc, p, changeds));
                if !acc.contains(prev[i]) {
                    let j = choose|j: int| 0 <= j < p.len() && (#[trigger] changeds[p[j]]).key == prev[i].0;
                    assert(vs[j] == p[j]);
                }
            } else {
                assert(vs[vs.len() - 1] == vs.last());
            }
        }
    }
}

/// Whether a scan that starts at `from` (at the first key when `None`)
/// reaches the key `k`.
pub open spec fn scan_reaches(from: Option<u64>, k: u64) -> bool {
    match from {
        Some(p) => p <= k,
        None => true,
    }
}

/// A snapshot page that the store with history `h` gives at version `v`,
/// at any time since: each slot it lists is the one version `v` held, each
/// key it lists as skipped was changed after `v`, and it lists the slot of
/// every key that version `v` held, that no later change touched, and that
/// lies in the range the page scanned.
proof fn lemma_snapshot_facts(l: LocalStoreView, h: Seq<Changed>, from: Option<u64>, v: u64)
    requires
        history_of(h, l),
        v <= l.version,
        l.snapshot(from, Some(Version(v)), MAX_SNAPSHOT_SLOTS_PER_PAGE) is Some,
    ensures
        ({
            let snap = l.snapshot(from, Some(Version(v)), MAX_SNAPSHOT_SLOTS_PER_PAGE).unwrap();
            let at = replay_slots(h.take(v as int));
            &&& forall|i: int|
                0 <= i < snap.slots.len() ==> at.contains_key((#[trigger] snap.slots[i]).0) && snap.slots[i].1
                    == at[snap.slots[i].0]
            &&& forall|i: int|
                0 <= i < snap.skipped_newer.len() ==> changed_after(h, v as int, (#[trigger] snap.skipped_newer[i]).0)
            &&& forall|k: u64|
                #![trigger at.contains_key(k)]
                at.contains_key(k) && !changed_after(h, v as int, k) && scan_reaches(from, k) && (
                snap.next_key matches Some(q) ==> k < q) ==> exists|i: int|
                    0 <= i < snap.slots.len() && (#[trigger] snap.slots[i]).0 == k
        }),
{
    broadcast use vstd::seq_lib::group_filter_ensures, vstd::set_lib::lemma_set_subset_finite;

    let slots = l.slots;
    let d = slots.dom();
    lemma_replay_finite(h);
    lemma_sorted_keys_exists(d);
    let start = match from {
        Some(k) => k,
        None => sorted_keys(d)[0],
    };
    let f = d.filter(|k: u64| start <= k);
    assert(f.subset_of(d));
    lemma_sorted_keys_exists(f);
    let cand = keys_from(d, start);
    assert(cand == sorted_keys(f));
    let limit: int = if l.compose_max_pkts < MAX_SNAPSHOT_SLOTS_PER_PAGE {
        l.compose_max_pkts as int
    } else {
        MAX_SNAPSHOT_SLOTS_PER_PAGE as int
    };
    let scanned = if cand.len() > limit {
        cand.take(limit)
    } else {
        cand
    };
    let snap = l.snapshot(from, Some(Version(v)), MAX_SNAPSHOT_SLOTS_PER_PAGE).unwrap();
    let at = replay_slots(h.take(v as int));
    let kept = scanned.filter(not_newer(slots, v));
    let over = scanned.filter(newer(slots, v));
    assert(snap.slots == kept.map_values(with_slot(slots)));
    // scanned keys are keys of the store
    assert forall|x: u64| scanned.contains(x) implies d.contains(x) by {
        let i = choose|i: int| 0 <= i < scanned.len() && scanned[i] == x;
        assert(cand[i] == x);
        assert(cand.to_set().contains(x));
    }
    assert forall|i: int| 0 <= i < snap.slots.len() implies at.contains_key((#[trigger] snap.slots[i]).0)
        && snap.slots[i].1 == at[snap.slots[i].0] by {
        let x = kept[i];
        assert(not_newer(slots, v)(x));
        assert(kept.contains(x));
        scanned.lemma_filter_contains_rev(not_newer(slots, v), x);
        assert(scanned.contains(x));
        lemma_slot_version_vs_changes(h, v as int, x);
        lemma_unchanged_keeps(h, v as int, x);
    }
    let skipped = over.map_values(with_version(slots));
    assert forall|i: int| 0 <= i < skipped.len() implies changed_after(h, v as int, (#[trigger] skipped[i]).0) by {
        let x = over[i];
        assert(newer(slots, v)(x));
        assert(over.contains(x));
        scanned.lemma_filter_contains_rev(newer(slots, v), x);
        assert(scanned.contains(x));
        lemma_slot_version_vs_changes(h, v as int, x);
    }
    if snap.skipped_newer != skipped {
        let vs = keys_from(l.changeds.dom(), (v + 1) as u64);
        let g = l.changeds.dom().filter(|k: u64| ((v + 1) as u64) <= k);
        assert(g.subset_of(l.changeds.dom()));
        lemma_sorted_keys_exists(g);
        assert(vs == sorted_keys(g));
        let taken = kept.map_values(with_slot(slots));
        lemma_added_skipped(vs, l.changeds, start, taken, skipped);
        assert(snap.skipped_newer == add_newer_skipped(vs, l.changeds, start, taken, skipped));
        assert forall|i: int| 0 <= i < snap.skipped_newer.len() implies changed_after(
            h,
            v as int,
            (#[trigger] snap.skipped_newer[i]).0,
        ) by {
            let e = snap.skipped_newer[i];
            assert(from_acc_or_log(e, skipped, vs, l.changeds));
            if skipped.contains(e) {
                let j = choose|j: int| 0 <= j < skipped.len() && skipped[j] == e;
                assert(changed_after(h, v as int, skipped[j].0));
            } else {
                let j = choose|j: int| 0 <= j < vs.len() && (#[trigger] l.changeds[vs[j]]).key == e.0;
                let w = vs[j];
                assert(vs.to_set().contains(w));
                assert(g.contains(w));
                assert(l.changeds.contains_key(w));
                assert(h[w - 1].key == e.0);
                assert(changed_after(h, v as int, e.0));
            }
        }
    }
    assert forall|k: u64|
        #![trigger at.contains_key(k)]
        at.contains_key(k) && !changed_after(h, v as int, k) && scan_reaches(from, k) && (
        snap.next_key matches Some(q) ==> k < q) implies exists|i: int|
        0 <= i < snap.slots.len() && (#[trigger] snap.slots[i]).0 == k by {
        lemma_unchanged_keeps(h, v as int, k);
        assert(d.contains(k));
        lemma_slot_version_vs_changes(h, v as int, k);
        if from is None {
            assert(sorted_keys(d).to_set().contains(k));
            lemma_increasing_first_is_min(sorted_keys(d), k);
        }
        assert(f.contains(k));
        assert(cand.to_set().contains(k));
        let i0 = choose|i: int| 0 <= i < cand.len() && cand[i] == k;
        if cand.len() > limit {
            if i0 >= limit {
                if i0 > limit {
                    assert(cand[limit] < cand[i0]);
                }
                assert(false);
            }
            assert(scanned[i0] == k);
        } else {
            assert(scanned[i0] == k);
        }
        assert(not_newer(slots, v)(scanned[i0]));
        assert(kept.contains(k));
        let m = choose|m: int| 0 <= m < kept.len() && kept[m] == k;
        assert(snap.slots[m].0 == k);
    }
}

/// Every key that version `v` of `h` held, that no later change touched,
/// and that a scan from `from` does not reach, is staged in `st`.
pub open spec fn staged_before(st: Map<u64, Slot>, h: Seq<Changed>, v: int, from: Option<u64>) -> bool {
    forall|k: u64|
        #![trigger replay_slots(h.take(v)).contains_key(k)]
        replay_slots(h.take(v)).contains_key(k) && !changed_after(h, v, k) && !scan_reaches(from, k)
            ==> st.contains_key(k)
}

/// A stage and skipped list taken at version `v` of `h`: each staged slot
/// is the one version `v` held, and each skipped key was changed after it.
pub open spec fn stage_sound(st: Map<u64, Slot>, skipped: Map<u64, Version>, h: Seq<Changed>, v: int) -> bool {
    &&& forall|k: u64| #[trigger]
        st.contains_key(k) ==> replay_slots(h.take(v)).contains_key(k) && st[k] == replay_slots(h.take(v))[k]
    &&& forall|k: u64| #[trigger] skipped.contains_key(k) ==> changed_after(h, v, k)
}

/// A full sync of the store with history `h`: it waits for a page, asks
/// for the first one until it has locked a version, and from then on has
/// staged, at the locked version, every key before the page it asks for.
pub open spec fn sync_sound(s: SyncFullView, h: Seq<Changed>) -> bool {
    &&& s.staged_slots is Some
    &&& s.sending_req is Some
    &&& match s.version {
        None => {
            &&& s.sending_req.unwrap().1 == first_page_request()
            &&& s.staged_slots.unwrap() == Map::<u64, Slot>::empty()
            &&& s.skipped_newer == Map::<u64, Version>::empty()
        },
        Some(v) => {
            &&& v.0 <= h.len()
            &&& stage_sound(s.staged_slots.unwrap(), s.skipped_newer, h, v.0 as int)
            &&& s.sending_req.unwrap().1 matches RpcReq::FetchSnapshot { from: Some(p), max_version: Some(mv), max_items }
                && mv == v && max_items == MAX_SNAPSHOT_SLOTS_PER_PAGE && staged_before(
                s.staged_slots.unwrap(),
                h,
                v.0 as int,
                Some(p),
            )
        },
    }
}

/// What a full sync's handler leaves: a sound full sync that touched only
/// the queued events, or a sound working replica at the locked version.
pub open spec fn sync_outcome(s2: SyncFullView, c2: CtxView, c: CtxView, h: Seq<Changed>) -> bool {
    &&& told_ok(c2)
    &&& c2.next_state is None ==> sync_sound(s2, h) && c2 == (CtxView { outs: c2.outs, ..c })
    &&& c2.next_state is Some ==> (c2.next_state matches Some(StateView::Working(w)) && working_sound(
        w,
        c2.slots,
        h,
    )) && c2 == (CtxView { slots: c2.slots, outs: c2.outs, next_state: c2.next_state, ..c })
}

/// The facts of a snapshot page taken at version `v` and scanned from `from`.
pub open spec fn page_facts(snap: SnapshotView, h: Seq<Changed>, v: int, from: Option<u64>) -> bool {
    let at = replay_slots(h.take(v));
    &&& forall|i: int|
        0 <= i < snap.slots.len() ==> at.contains_key((#[trigger] snap.slots[i]).0) && snap.slots[i].1
            == at[snap.slots[i].0]
    &&& forall|i: int| 0 <= i < snap.skipped_newer.len() ==> changed_after(h, v, (#[trigger] snap.skipped_newer[i]).0)
    &&& forall|k: u64|
        #![trigger at.contains_key(k)]
        at.contains_key(k) && !changed_after(h, v, k) && scan_reaches(from, k) && (snap.next_key matches Some(
            q,
        ) ==> k < q) ==> exists|i: int| 0 <= i < snap.slots.len() && (#[trigger] snap.slots[i]).0 == k
}

/// Taking a page of facts at version `v` keeps a full sync sound, or
/// completes it into a working replica whose slots agree with `h` after `v`.
proof fn lemma_take_page(
    s: SyncFullView,
    c: CtxView,
    h: Seq<Changed>,
    now: u64,
    snap: SnapshotView,
    v: u64,
    from: Option<u64>,
    max_version: Option<Version>,
)
    requires
        numbered(h),
        sync_sound(s, h),
        c.next_state is None,
        v <= h.len(),
        s.version is None || s.version == Some(Version(v)),
        s.version is None ==> from is None,
        max_version is None || max_version == Some(Version(v)),
        stage_sound(s.staged_slots.unwrap(), s.skipped_newer, h, v as int),
        staged_before(s.staged_slots.unwrap(), h, v as int, from),
        page_facts(snap, h, v as int, from),
        told_ok(c),
    ensures
        ({
            let (_, s2, c2) = s.on_page(c, now, snap, Version(v), max_version, MAX_SNAPSHOT_SLOTS_PER_PAGE);
            sync_outcome(s2, c2, c, h)
        }),
{
    let (acc, s2, c2) = s.on_page(c, now, snap, Version(v), max_version, MAX_SNAPSHOT_SLOTS_PER_PAGE);
    let page_items = snap.slots.len() + snap.skipped_newer.len();
    let st = s.staged_slots.unwrap();
    let at = replay_slots(h.take(v as int));
    if page_items > MAX_SNAPSHOT_SLOTS_PER_PAGE || page_items > MAX_SNAPSHOT_SLOTS_PER_PAGE || (page_items == 0
        && snap.next_key is Some) {
    } else if st.len() + s.skipped_newer.len() + page_items > super::remote_storage::MAX_STAGED_SNAPSHOT_SLOTS {
    } else {
        lemma_stage_any(s, c, snap.slots);
        let (s1, c1) = s.stage_page(c, snap.slots);
        lemma_note_any(s1, snap.skipped_newer);
        let s2n = s1.note_skipped(snap.skipped_newer);
        let st2 = s2n.staged_slots.unwrap();
        let sk2 = s2n.skipped_newer;
        let s3 = SyncFullView { version: Some(Version(v)), ..s2n };
        assert(stage_sound(st2, sk2, h, v as int)) by {
            assert forall|k: u64| #[trigger] st2.contains_key(k) implies at.contains_key(k) && st2[k] == at[k] by {
                if !(st.contains_key(k) && st2[k] == st[k]) {
                    let i = choose|i: int| 0 <= i < snap.slots.len() && #[trigger] snap.slots[i] == (k, st2[k]);
                    assert(at.contains_key(snap.slots[i].0));
                }
            }
            assert forall|k: u64| #[trigger] sk2.contains_key(k) implies changed_after(h, v as int, k) by {
                if !s.skipped_newer.contains_key(k) {
                    let i = choose|i: int| 0 <= i < snap.skipped_newer.len() && (#[trigger] snap.skipped_newer[i]).0 == k;
                    assert(changed_after(h, v as int, snap.skipped_newer[i].0));
                }
            }
        }
        // every key reached by this page, up to its next key, is staged now
        assert forall|k: u64|
            at.contains_key(k) && !changed_after(h, v as int, k) && (snap.next_key matches Some(q) ==> k < q)
            implies #[trigger] st2.contains_key(k) by {
            if scan_reaches(from, k) {
                let i = choose|i: int| 0 <= i < snap.slots.len() && (#[trigger] snap.slots[i]).0 == k;
                assert(st2.contains_key(snap.slots[i].0));
            } else {
                assert(st.contains_key(k));
            }
        }
        match snap.next_key {
            Some(q) => {
                assert(staged_before(st2, h, v as int, Some(q)));
                assert(sync_sound(s2, h));
                lemma_told_request(c1, RpcReq::FetchSnapshot { from: Some(q), max_version: Some(Version(v)), max_items: MAX_SNAPSHOT_SLOTS_PER_PAGE });
            },
            None => {
                let (s5, c5) = s3.transition(c1, now, Version(v));
                let done = s3.completed_stage(st2, c1.slots);
                assert(c5.slots == done);
                lemma_replay_finite(h.take(v as int));
                assert(st2.dom().subset_of(at.dom()));
                vstd::set_lib::lemma_set_subset_finite(at.dom(), st2.dom());
                lemma_told_commit(s3, c1);
                let c1b = s3.commit_staged(c1).1;
                if let Some(t) = s3.catchup_to {
                    if t.0 > v {
                        lemma_told_request(c1b, RpcReq::FetchChanged { from: Version((v + 1) as u64), count: (t.0 - v) as u64 });
                    }
                }
                assert(agrees_after(done, h, v as int)) by {
                    assert forall|k: u64|
                        #![trigger done.contains_key(k)]
                        #![trigger replay_slots(h).contains_key(k)]
                        !changed_after(h, v as int, k) implies (done.contains_key(k)
                        == replay_slots(h).contains_key(k) && (done.contains_key(k) ==> done[k]
                        == replay_slots(h)[k])) by {
                        lemma_unchanged_keeps(h, v as int, k);
                        assert(!sk2.contains_key(k));
                        if st2.contains_key(k) {
                        } else {
                            if at.contains_key(k) {
                                assert(st2.contains_key(k));
                            }
                        }
                    }
                }
            },
        }
    }
}

/// The owner's answer to the page a sound full sync asks for keeps it sound
/// or completes it into a sound working replica.
proof fn lemma_sync_answer(s: SyncFullView, c: CtxView, l: LocalStoreView, h: Seq<Changed>, now: u64)
    requires
        history_of(h, l),
        sync_sound(s, h),
        c.next_state is None,
        told_ok(c),
    ensures
        ({
            let (_, s2, c2) = s.on_rpc_res(c, now, l.answer(s.sending_req.unwrap().1));
            sync_outcome(s2, c2, c, h)
        }),
{
    let req = s.sending_req.unwrap().1;
    let res = l.answer(req);
    let (acc, s2, c2) = s.on_rpc_res(c, now, res);
    lemma_replay_finite(h);
    match s.version {
        None => {
            let v = l.version;
            assert(h.take(v as int) =~= h);
            let snap_opt = l.snapshot(None, Some(Version(v)), MAX_SNAPSHOT_SLOTS_PER_PAGE);
            assert(res == RpcResView::FetchSnapshot(snap_opt, Version(v)));
            if snap_opt is Some {
                lemma_snapshot_facts(l, h, None, v);
                lemma_take_page(s, c, h, now, snap_opt.unwrap(), v, None, None);
            } else {
                let d = l.slots.dom();
                lemma_sorted_keys_exists(d);
                assert(sorted_keys(d).len() == 0);
                assert(d =~= sorted_keys(d).to_set());
                assert(replay_slots(h) =~= Map::<u64, Slot>::empty());
                let (s5, c5) = s.transition(c, now, Version(v));
                let done = s.completed_stage(Map::empty(), c.slots);
                assert(done =~= Map::<u64, Slot>::empty());
                lemma_told_commit(s, c);
                let c1b = s.commit_staged(c).1;
                if let Some(t) = s.catchup_to {
                    if t.0 > v {
                        lemma_told_request(c1b, RpcReq::FetchChanged { from: Version((v + 1) as u64), count: (t.0 - v) as u64 });
                    }
                }
                assert(agrees_after(done, h, v as int)) by {
                    assert forall|k: u64|
                        #![trigger done.contains_key(k)]
                        #![trigger replay_slots(h).contains_key(k)]
                        !changed_after(h, v as int, k) implies (done.contains_key(k)
                        == replay_slots(h).contains_key(k) && (done.contains_key(k) ==> done[k]
                        == replay_slots(h)[k])) by {}
                }
            }
        },
        Some(v) => {
            let p = req->FetchSnapshot_from.unwrap();
            assert(l.snapshot_version(Some(v)) == v.0);
            let snap_opt = l.snapshot(Some(p), Some(v), MAX_SNAPSHOT_SLOTS_PER_PAGE);
            assert(res == RpcResView::FetchSnapshot(snap_opt, v));
            if snap_opt is Some {
                lemma_snapshot_facts(l, h, Some(p), v.0);
                lemma_take_page(s, c, h, now, snap_opt.unwrap(), v.0, Some(p), Some(v));
            } else {
                lemma_told_request(c, first_page_request());
            }
        },
    }
}

/// Broadcasts, answers with changes and ticks keep a full sync sound.
proof fn lemma_sync_other(s: SyncFullView, c: CtxView, h: Seq<Changed>, now: u64, e: BroadcastEvent, r: RpcResView)
    requires
        sync_sound(s, h),
        r is FetchChanged,
        told_ok(c),
    ensures
        told_ok(s.on_tick(c, now).1),
        sync_sound(s.on_broadcast(c, e).1, h),
        s.on_broadcast(c, e).2 == c,
        sync_sound(s.on_tick(c, now).0, h),
        s.on_tick(c, now).1 == (CtxView { outs: s.on_tick(c, now).1.outs, ..c }),
        s.on_rpc_res(c, now, r) == (false, s, c),
{
    if let Some((_, q)) = s.sending_req {
        lemma_told_request(c, q);
    }
}

/// A sound full sync stays sound as the owner's history grows.
proof fn lemma_sync_grow(s: SyncFullView, h: Seq<Changed>, ch: Changed)
    requires
        sync_sound(s, h),
    ensures
        sync_sound(s, h.push(ch)),
{
    let h2 = h.push(ch);
    if let Some(v) = s.version {
        let vi = v.0 as int;
        assert(h2.take(vi) =~= h.take(vi));
        assert forall|k: u64| changed_after(h, vi, k) implies changed_after(h2, vi, k) by {
            let j = choose|j: int| vi <= j < h.len() && (#[trigger] h[j]).key == k;
            assert(h2[j] == h[j]);
        }
        let st = s.staged_slots.unwrap();
        assert(stage_sound(st, s.skipped_newer, h2, vi));
        let p = s.sending_req.unwrap().1->FetchSnapshot_from.unwrap();
        assert(staged_before(st, h2, vi, Some(p))) by {
            assert forall|k: u64|
                #![trigger replay_slots(h2.take(vi)).contains_key(k)]
                replay_slots(h2.take(vi)).contains_key(k) && !changed_after(h2, vi, k) && !scan_reaches(Some(p), k)
                implies st.contains_key(k) by {
                if changed_after(h, vi, k) {
                    assert(changed_after(h2, vi, k));
                }
            }
        }
    }
}

/// A sound working replica stays sound as the owner's history grows.
proof fn lemma_working_grow(w: WorkingView, slots: Map<u64, Slot>, h: Seq<Changed>, ch: Changed)
    requires
        working_sound(w, slots, h),
    ensures
        working_sound(w, slots, h.push(ch)),
{
    lemma_agree_grow(slots, h, w.version.0 as int, ch);
    let h2 = h.push(ch);
    assert forall|k: u64| #[trigger] w.pendings.contains_key(k) implies w.version.0 < k <= h2.len() && w.pendings[k]
        == h2[k - 1] by {
        assert(h2[k - 1] == h[k - 1]);
    }
}

/// One event in the life of a store and of a replica of it on another
/// node.  A broadcast, request or answer that is lost is simply no step;
/// one that is late or repeated is a step of its own.
pub enum Step {
    /// The owner sets a key to a value.
    Put(u64, u64),
    /// The owner deletes a key.
    Del(u64),
    /// The replica's clock ticks, at the time given.
    Tick(u64),
    /// The owner's broadcast of its change at the version given reaches the
    /// replica, at the time given.
    Change(u64, u64),
    /// The owner's broadcast of the version given, once the owner has
    /// reached it, reaches the replica, at the time given.
    Version(u64, u64),
    /// The owner answers the snapshot page request the replica has
    /// outstanding, and the answer reaches the replica at the time given.
    Answer(u64),
    /// An answer with the owner's changes after the version given, as many
    /// as given, reaches the replica at the time given (any answer the owner
    /// can give to a request for changes, however late or repeated).
    Changes(u64, u64, u64),
    /// An answer refusing a request for changes reaches the replica, at the
    /// time given.
    Missing(u64),
}

/// The request the replica waits to have answered, if any.
pub open spec fn outstanding(r: RemoteStoreView) -> Option<RpcReq> {
    match r.state {
        StateView::SyncFull(s) => match s.sending_req {
            Some((_, q)) => Some(q),
            None => None,
        },
        StateView::Working(w) => match w.sending_req {
            Some((_, q)) => Some(q),
            None => None,
        },
        StateView::Destroy => None,
    }
}

/// The owner `l` with history `h` and the replica `r` after one step.
pub open spec fn step(l: LocalStoreView, h: Seq<Changed>, r: RemoteStoreView, st: Step) -> (
    LocalStoreView,
    Seq<Changed>,
    RemoteStoreView,
) {
    match st {
        Step::Put(k, value) => if l.version < u64::MAX {
            (
                l.after_set(k, value),
                h.push(Changed { key: k, version: Version((l.version + 1) as u64), action: Action::Put(value) }),
                r,
            )
        } else {
            (l, h, r)
        },
        Step::Del(k) => if l.version < u64::MAX && l.slots.contains_key(k) {
            (l.after_del(k), h.push(Changed { key: k, version: Version((l.version + 1) as u64), action: Action::Del }), r)
        } else {
            (l, h, r)
        },
        Step::Tick(now) => (l, h, r.after_tick(now)),
        Step::Change(j, now) => if 1 <= j <= h.len() {
            (
                l,
                h,
                r.after_broadcast(
                    now,
                    BroadcastEvent { session_id: l.session_id, data: BroadcastEventData::Changed(h[j - 1]) },
                ),
            )
        } else {
            (l, h, r)
        },
        Step::Version(u, now) => if u <= l.version {
            (
                l,
                h,
                r.after_broadcast(now, BroadcastEvent { session_id: l.session_id, data: BroadcastEventData::Version(Version(u)) }),
            )
        } else {
            (l, h, r)
        },
        Step::Answer(now) => match outstanding(r) {
            Some(q) => if q is FetchSnapshot {
                (l, h, r.after_rpc_res(now, l.answer(q)))
            } else {
                (l, h, r)
            },
            None => (l, h, r),
        },
        Step::Changes(lo, n, now) => if lo + n <= h.len() {
            (l, h, r.after_rpc_res(now, RpcResView::FetchChanged(Ok(h.subrange(lo as int, lo + n)))))
        } else {
            (l, h, r)
        },
        Step::Missing(now) => (l, h, r.after_rpc_res(now, RpcResView::FetchChanged(Err(FetchChangedError::MissingData)))),
    }
}

/// The owner, its history and the replica after the steps, in order.
pub open spec fn run(l: LocalStoreView, h: Seq<Changed>, r: RemoteStoreView, steps: Seq<Step>) -> (
    LocalStoreView,
    Seq<Changed>,
    RemoteStoreView,
)
    decreases steps.len(),
{
    if steps.len() == 0 {
        (l, h, r)
    } else {
        let (l1, h1, r1) = run(l, h, r, steps.drop_last());
        step(l1, h1, r1, steps.last())
    }
}

/// A replica of the store with history `h` that is sound: a sound full
/// sync, or a sound working replica, with no next state pending.
pub open spec fn replica_sound(r: RemoteStoreView, h: Seq<Changed>) -> bool {
    &&& r.ctx.next_state is None
    &&& told_ok(r.ctx)
    &&& match r.state {
        StateView::SyncFull(s) => sync_sound(s, h),
        StateView::Working(w) => working_sound(w, r.ctx.slots, h),
        StateView::Destroy => false,
    }
}

/// A new replica is sound, whatever the history of its owner.
pub proof fn lemma_created_sound(remote: u64, local_session_id: u64, remote_session_id: u64, now: u64, h: Seq<Changed>)
    ensures
        replica_sound(RemoteStoreView::created(remote, local_session_id, remote_session_id, now), h),
{
    let r = RemoteStoreView::created(remote, local_session_id, remote_session_id, now);
    assert(r.ctx.outs.drop_last() =~= Seq::<EventView>::empty());
    assert(replay_told(Map::empty(), r.ctx.outs.drop_last(), remote) == Map::<u64, u64>::empty());
    assert(r.ctx.outs.last() is NetEvent);
    assert(replay_told(Map::empty(), r.ctx.outs, remote) == Map::<u64, u64>::empty());
    assert(values_of(Map::<u64, Slot>::empty()) =~= Map::<u64, u64>::empty());
    assert(Map::<u64, Slot>::empty().dom() =~= Set::<u64>::empty());
}

/// A new store has the empty history.
pub proof fn lemma_initial_history(session_id: u64, max_changeds: usize, compose_max_pkts: usize)
    ensures
        history_of(Seq::empty(), LocalStoreView::initial(session_id, max_changeds, compose_max_pkts)),
{
    assert(replay_slots(Seq::<Changed>::empty()) =~= Map::<u64, Slot>::empty());
}

/// Settling a handler's outcome keeps a replica sound.
proof fn lemma_settle_sound(r: RemoteStoreView, acc: bool, state: StateView, c: CtxView, now: u64, h: Seq<Changed>)
    requires
        c.next_state is None ==> match state {
            StateView::SyncFull(s) => sync_sound(s, h),
            StateView::Working(w) => working_sound(w, c.slots, h),
            StateView::Destroy => false,
        },
        c.next_state is Some ==> c.next_state == Some(StateView::SyncFull(SyncFullView::preserving())) || (
        c.next_state matches Some(StateView::Working(w)) && working_sound(w, c.slots, h)),
        told_ok(c),
    ensures
        replica_sound(r.settle(acc, state, c, now), h),
        r.settle(acc, state, c, now).ctx.remote == c.remote,
{
    lemma_told_request(CtxView { next_state: None, ..c }, first_page_request());
}

/// Each step keeps the owner's history and the replica sound.
proof fn lemma_step_sound(l: LocalStoreView, h: Seq<Changed>, r: RemoteStoreView, st: Step)
    requires
        history_of(h, l),
        replica_sound(r, h),
    ensures
        history_of(step(l, h, r, st).1, step(l, h, r, st).0),
        replica_sound(step(l, h, r, st).2, step(l, h, r, st).1),
        step(l, h, r, st).0.session_id == l.session_id,
        step(l, h, r, st).2.ctx.remote == r.ctx.remote,
{
    let c = r.ctx;
    match st {
        Step::Put(k, value) => {
            lemma_owner_steps(l, h, k, value);
            if l.version < u64::MAX {
                let ch = Changed { key: k, version: Version((l.version + 1) as u64), action: Action::Put(value) };
                match r.state {
                    StateView::SyncFull(s) => lemma_sync_grow(s, h, ch),
                    StateView::Working(w) => lemma_working_grow(w, c.slots, h, ch),
                    _ => {},
                }
            }
        },
        Step::Del(k) => {
            lemma_owner_steps(l, h, k, 0);
            if l.version < u64::MAX && l.slots.contains_key(k) {
                let ch = Changed { key: k, version: Version((l.version + 1) as u64), action: Action::Del };
                match r.state {
                    StateView::SyncFull(s) => lemma_sync_grow(s, h, ch),
                    StateView::Working(w) => lemma_working_grow(w, c.slots, h, ch),
                    _ => {},
                }
            }
        },
        Step::Tick(now) => {
            match r.state {
                StateView::SyncFull(s) => lemma_sync_other(
                    s,
                    c,
                    h,
                    now,
                    BroadcastEvent { session_id: 0, data: BroadcastEventData::Version(Version(0)) },
                    RpcResView::FetchChanged(Err(FetchChangedError::MissingData)),
                ),
                StateView::Working(w) => lemma_working_tick(w, c, h, now),
                _ => {},
            }
        },
        Step::Change(j, now) => {
            if 1 <= j <= h.len() {
                let e = BroadcastEvent { session_id: l.session_id, data: BroadcastEventData::Changed(h[j - 1]) };
                match r.state {
                    StateView::SyncFull(s) => {
                        lemma_sync_other(s, c, h, now, e, RpcResView::FetchChanged(Err(FetchChangedError::MissingData)));
                        let (acc, s2, c2) = s.on_broadcast(c, e);
                        lemma_settle_sound(r, acc, StateView::SyncFull(s2), c2, now, h);
                    },
                    StateView::Working(w) => {
                        lemma_working_broadcast(w, c, h, now, e);
                        let (acc, w2, c2) = w.on_broadcast(c, now, e);
                        lemma_settle_sound(r, acc, StateView::Working(w2), c2, now, h);
                    },
                    _ => {},
                }
            }
        },
        Step::Version(u, now) => {
            if u <= l.version {
                let e = BroadcastEvent { session_id: l.session_id, data: BroadcastEventData::Version(Version(u)) };
                match r.state {
                    StateView::SyncFull(s) => {
                        lemma_sync_other(s, c, h, now, e, RpcResView::FetchChanged(Err(FetchChangedError::MissingData)));
                        let (acc, s2, c2) = s.on_broadcast(c, e);
                        lemma_settle_sound(r, acc, StateView::SyncFull(s2), c2, now, h);
                    },
                    StateView::Working(w) => {
                        lemma_working_broadcast(w, c, h, now, e);
                        let (acc, w2, c2) = w.on_broadcast(c, now, e);
                        lemma_settle_sound(r, acc, StateView::Working(w2), c2, now, h);
                    },
                    _ => {},
                }
            }
        },
        Step::Answer(now) => {
            match outstanding(r) {
                Some(q) => {
                    if q is FetchSnapshot {
                        match r.state {
                            StateView::SyncFull(s) => {
                                lemma_sync_answer(s, c, l, h, now);
                                let (acc, s2, c2) = s.on_rpc_res(c, now, l.answer(q));
                                lemma_settle_sound(r, acc, StateView::SyncFull(s2), c2, now, h);
                            },
                            StateView::Working(w) => {
                                lemma_working_answer(w, c, h, now, l.answer(q));
                                let (acc, w2, c2) = w.on_rpc_res(c, now, l.answer(q));
                                lemma_settle_sound(r, acc, StateView::Working(w2), c2, now, h);
                            },
                            _ => {},
                        }
                    }
                },
                None => {},
            }
        },
        Step::Changes(lo, n, now) => {
            if lo + n <= h.len() {
                let chs = h.subrange(lo as int, lo + n);
                let res = RpcResView::FetchChanged(Ok(chs));
                assert forall|i: int| 0 <= i < chs.len() implies in_history(#[trigger] chs[i], h) by {
                    assert(chs[i] == h[lo + i]);
                }
                match r.state {
                    StateView::SyncFull(s) => {
                        lemma_sync_other(
                            s,
                            c,
                            h,
                            now,
                            BroadcastEvent { session_id: 0, data: BroadcastEventData::Version(Version(0)) },
                            res,
                        );
                    },
                    StateView::Working(w) => {
                        lemma_working_answer(w, c, h, now, res);
                        let (acc, w2, c2) = w.on_rpc_res(c, now, res);
                        lemma_settle_sound(r, acc, StateView::Working(w2), c2, now, h);
                    },
                    _ => {},
                }
            }
        },
        Step::Missing(now) => {
            let res = RpcResView::FetchChanged(Err(FetchChangedError::MissingData));
            match r.state {
                StateView::SyncFull(s) => {
                    lemma_sync_other(
                        s,
                        c,
                        h,
                        now,
                        BroadcastEvent { session_id: 0, data: BroadcastEventData::Version(Version(0)) },
                        res,
                    );
                },
                StateView::Working(w) => {
                    lemma_working_answer(w, c, h, now, res);
                    let (acc, w2, c2) = w.on_rpc_res(c, now, res);
                    lemma_settle_sound(r, acc, StateView::Working(w2), c2, now, h);
                },
                _ => {},
            }
        },
    }
}

/// Any run of steps keeps the owner's history and the replica sound.
proof fn lemma_run_sound(l: LocalStoreView, h: Seq<Changed>, r: RemoteStoreView, steps: Seq<Step>)
    requires
        history_of(h, l),
        replica_sound(r, h),
    ensures
        history_of(run(l, h, r, steps).1, run(l, h, r, steps).0),
        replica_sound(run(l, h, r, steps).2, run(l, h, r, steps).1),
        run(l, h, r, steps).0.session_id == l.session_id,
        run(l, h, r, steps).2.ctx.remote == r.ctx.remote,
    decreases steps.len(),
{
    if steps.len() > 0 {
        lemma_run_sound(l, h, r, steps.drop_last());
        let (l1, h1, r1) = run(l, h, r, steps.drop_last());
        lemma_step_sound(l1, h1, r1, steps.last());
    }
}

/// A sound replica that has applied its owner's last version holds exactly
/// the owner's slots.
pub proof fn lemma_caught_up_holds_owner_slots(l: LocalStoreView, h: Seq<Changed>, r: RemoteStoreView)
    requires
        history_of(h, l),
        replica_sound(r, h),
        r.state matches StateView::Working(w) && w.version.0 == l.version,
    ensures
        r.ctx.slots == l.slots,
{
    lemma_agree_at_end(r.ctx.slots, h);
}

/// Each node ends up holding the data of the node it follows.  Start from
/// a store `l` with history `h` and a sound replica of it (a new one is
/// sound, see `lemma_created_sound`), and run any steps: the owner sets and
/// deletes keys; the replica's clock ticks; the owner's broadcasts reach the
/// replica in any order, late, repeated or not at all; its answers to the
/// replica's page requests come while they are outstanding; and any answer
/// with its changes, or a refusal, comes at any time.  Then the replica
/// stays sound, and whenever it has applied the owner's current version it
/// holds exactly the owner's slots.  When the run ends with the broadcast of
/// the owner's current version reaching the replica, and the replica is
/// left with no request outstanding, it has applied that version and holds
/// exactly the owner's slots.
pub proof fn lemma_replica_converges(l: LocalStoreView, h: Seq<Changed>, r: RemoteStoreView, steps: Seq<Step>)
    requires
        history_of(h, l),
        replica_sound(r, h),
    ensures
        ({
            let (l2, h2, r2) = run(l, h, r, steps);
            &&& history_of(h2, l2)
            &&& replica_sound(r2, h2)
            &&& r2.ctx.remote == r.ctx.remote
            &&& replay_told(Map::empty(), r2.ctx.outs, r.ctx.remote) == values_of(r2.ctx.slots)
            &&& (r2.state matches StateView::Working(w) && w.version.0 == l2.version) ==> r2.ctx.slots == l2.slots
                && replay_told(Map::empty(), r2.ctx.outs, r.ctx.remote) == values_of(l2.slots)
            &&& (steps.len() > 0 && (steps.last() matches Step::Version(u, _) && u == l2.version) && outstanding(
                r2,
            ) is None) ==> (r2.state matches StateView::Working(w) && w.version.0 == l2.version)
                && r2.ctx.slots == l2.slots && replay_told(Map::empty(), r2.ctx.outs, r.ctx.remote) == values_of(
                l2.slots,
            )
        }),
{
    lemma_run_sound(l, h, r, steps);
    let (l2, h2, r2) = run(l, h, r, steps);
    if r2.state matches StateView::Working(w) && w.version.0 == l2.version {
        lemma_caught_up_holds_owner_slots(l2, h2, r2);
    }
    if steps.len() > 0 && (steps.last() matches Step::Version(u, _) && u == l2.version) && outstanding(r2) is None {
        lemma_run_sound(l, h, r, steps.drop_last());
        let (l1, h1, r1) = run(l, h, r, steps.drop_last());
        match steps.last() {
            Step::Version(u, now) => {
            assert(l1 == l2 && h1 == h2);
            let e = BroadcastEvent { session_id: l1.session_id, data: BroadcastEventData::Version(Version(u)) };
            assert(r2 == r1.after_broadcast(now, e));
            match r1.state {
                StateView::Working(w) => {
                    assert(w.version.0 <= u);
                    if w.version.0 < u {
                        let (acc, w2, c2) = w.on_broadcast(r1.ctx, now, e);
                        if w.pendings.len() == 0 {
                            assert(w2.sending_req is Some);
                        } else {
                            assert(w2.sending_req is Some);
                        }
                        assert(outstanding(r2) is Some);
                    }
                    lemma_caught_up_holds_owner_slots(l2, h2, r2);
                },
                StateView::SyncFull(s) => {
                    assert(outstanding(r2) is Some);
                },
                _ => {},
            }
            },
            _ => {},
        }
    }
}

/// What the replica told the application of the remote node's data,
/// replayed in order from nothing, gives the values it holds.
pub open spec fn told_ok(c: CtxView) -> bool {
    &&& c.slots.dom().finite()
    &&& replay_told(Map::empty(), c.outs, c.remote) == values_of(c.slots)
}

proof fn lemma_told_push_net(c: CtxView, e: EventView)
    requires
        told_ok(c),
        e is NetEvent,
    ensures
        told_ok(c.push(e)),
{
    assert(c.push(e).outs.drop_last() =~= c.outs);
}

proof fn lemma_told_request(c: CtxView, q: RpcReq)
    requires
        told_ok(c),
    ensures
        told_ok(c.request(q)),
{
    lemma_told_push_net(c, super::messages::request_to(c.remote, c.local_session_id, q));
}

proof fn lemma_told_apply(w: WorkingView, c: CtxView, ch: Changed)
    requires
        told_ok(c),
    ensures
        told_ok(w.apply_change(c, ch).1),
{
    let c2 = w.apply_change(c, ch).1;
    assert(c2.remote == c.remote);
    match ch.action {
        Action::Put(value) => {
            assert(c2.outs.drop_last() =~= c.outs);
            assert(values_of(c2.slots) =~= values_of(c.slots).insert(ch.key, value));
        },
        Action::Del => {
            if c.slots.contains_key(ch.key) {
                assert(c2.outs.drop_last() =~= c.outs);
                assert(values_of(c2.slots) =~= values_of(c.slots).remove(ch.key));
            }
        },
    }
}

proof fn lemma_replay_dels(m: Map<u64, u64>, ks: Seq<u64>, remote: u64)
    ensures
        replay_told(m, ks.map_values(del_event(remote)), remote) == m.remove_keys(ks.to_set()),
    decreases ks.len(),
{
    let es = ks.map_values(del_event(remote));
    if ks.len() == 0 {
        assert(es =~= Seq::<EventView>::empty());
        assert(m.remove_keys(ks.to_set()) =~= m);
    } else {
        let p = ks.drop_last();
        lemma_replay_dels(m, p, remote);
        assert(es.drop_last() =~= p.map_values(del_event(remote)));
        assert(es.last() == del_event(remote)(ks.last()));
        assert forall|k: u64| ks.to_set().contains(k) <==> (p.to_set().contains(k) || k == ks.last()) by {
            if ks.to_set().contains(k) {
                let i = choose|i: int| 0 <= i < ks.len() && ks[i] == k;
                if i < p.len() {
                    assert(p[i] == k);
                }
            }
            if p.to_set().contains(k) {
                let i = choose|i: int| 0 <= i < p.len() && p[i] == k;
                assert(ks[i] == k);
            }
            if k == ks.last() {
                assert(ks[ks.len() - 1] == k);
            }
        }
        assert(m.remove_keys(ks.to_set()) =~= m.remove_keys(p.to_set()).remove(ks.last()));
    }
}

proof fn lemma_replay_put_keys(m: Map<u64, u64>, ks: Seq<u64>, remote: u64, done: Map<u64, Slot>)
    ensures
        replay_told(m, ks.map_values(put_event(remote, done)), remote) == m.union_prefer_right(
            Map::new(|k: u64| ks.contains(k), |k: u64| done[k].value),
        ),
    decreases ks.len(),
{
    let es = ks.map_values(put_event(remote, done));
    if ks.len() == 0 {
        assert(es =~= Seq::<EventView>::empty());
        assert(m.union_prefer_right(Map::new(|k: u64| ks.contains(k), |k: u64| done[k].value)) =~= m);
    } else {
        let p = ks.drop_last();
        lemma_replay_put_keys(m, p, remote, done);
        assert(es.drop_last() =~= p.map_values(put_event(remote, done)));
        assert(es.last() == put_event(remote, done)(ks.last()));
        assert forall|k: u64| ks.contains(k) <==> (p.contains(k) || k == ks.last()) by {
            if ks.contains(k) {
                let i = choose|i: int| 0 <= i < ks.len() && ks[i] == k;
                if i < p.len() {
                    assert(p[i] == k);
                }
            }
            if p.contains(k) {
                let i = choose|i: int| 0 <= i < p.len() && p[i] == k;
                assert(ks[i] == k);
            }
            if k == ks.last() {
                assert(ks[ks.len() - 1] == k);
            }
        }
        assert(m.union_prefer_right(Map::new(|k: u64| ks.contains(k), |k: u64| done[k].value)) =~= m.union_prefer_right(
            Map::new(|k: u64| p.contains(k), |k: u64| done[k].value),
        ).insert(ks.last(), done[ks.last()].value));
    }
}

/// Committing a stage tells the application exactly what changes between
/// the slots held and the slots committed.
proof fn lemma_told_commit(s: SyncFullView, c: CtxView)
    requires
        told_ok(c),
        s.staged_slots is Some,
        s.staged_slots.unwrap().dom().finite(),
    ensures
        told_ok(s.commit_staged(c).1),
{
    broadcast use vstd::seq_lib::group_filter_ensures;

    let st = s.staged_slots.unwrap();
    let sk = s.skipped_newer;
    let done = s.completed_stage(st, c.slots);
    assert(done.dom().subset_of(st.dom().union(c.slots.dom())));
    vstd::set_lib::lemma_set_subset_finite(st.dom().union(c.slots.dom()), done.dom());
    lemma_sorted_keys_exists(c.slots.dom());
    lemma_sorted_keys_exists(done.dom());
    let ka = sorted_keys(c.slots.dom());
    let kb = sorted_keys(done.dom());
    let dk = ka.filter(dropped_by(st, sk));
    let pk = kb.filter(changed_from(c.slots, done));
    let dels = dk.map_values(del_event(c.remote));
    let puts = pk.map_values(put_event(c.remote, done));
    let c2 = s.commit_staged(c).1;
    assert(c2.outs == c.outs + dels + puts);
    let m0 = values_of(c.slots);
    lemma_replay_concat(Map::empty(), c.outs + dels, puts, c.remote);
    lemma_replay_concat(Map::empty(), c.outs, dels, c.remote);
    lemma_replay_dels(m0, dk, c.remote);
    let m1 = m0.remove_keys(dk.to_set());
    lemma_replay_put_keys(m1, pk, c.remote, done);
    assert forall|k: u64| dk.to_set().contains(k) <==> (c.slots.contains_key(k) && dropped_by(st, sk)(k)) by {
        if dk.to_set().contains(k) {
            assert(dk.contains(k));
            ka.lemma_filter_contains_rev(dropped_by(st, sk), k);
            let i = choose|i: int| 0 <= i < dk.len() && dk[i] == k;
            assert(dropped_by(st, sk)(dk[i]));
            assert(ka.to_set().contains(k));
        }
        if c.slots.contains_key(k) && dropped_by(st, sk)(k) {
            assert(ka.to_set().contains(k));
            let i = choose|i: int| 0 <= i < ka.len() && ka[i] == k;
            assert(dk.contains(ka[i]));
            assert(dk.to_set().contains(k));
        }
    }
    assert forall|k: u64| pk.contains(k) <==> (done.contains_key(k) && changed_from(c.slots, done)(k)) by {
        if pk.contains(k) {
            kb.lemma_filter_contains_rev(changed_from(c.slots, done), k);
            let i = choose|i: int| 0 <= i < pk.len() && pk[i] == k;
            assert(changed_from(c.slots, done)(pk[i]));
            assert(kb.to_set().contains(k));
        }
        if done.contains_key(k) && changed_from(c.slots, done)(k) {
            assert(kb.to_set().contains(k));
            let i = choose|i: int| 0 <= i < kb.len() && kb[i] == k;
            assert(pk.contains(kb[i]));
        }
    }
    let fin = m1.union_prefer_right(Map::new(|k: u64| pk.contains(k), |k: u64| done[k].value));
    assert(fin =~= values_of(done));
}

/// A replica in a full sync of `l`, up to its `a`-th key, that still holds
/// the slots it had (a replica that turned to a full sync keeps its slots
/// until the sync completes) and has told the application of just those.
pub open spec fn resyncing(r: RemoteStoreView, l: LocalStoreView, a: int) -> bool {
    &&& r.ctx.next_state is None
    &&& told_ok(r.ctx)
    &&& r.state matches StateView::SyncFull(s) && sync_at(s, l, a)
}

/// One page of a full sync of a store that does not change: answered by
/// the store, the request for the page at the `a`-th key stages that page
/// and asks for the next one, or, on the last page, completes the sync with
/// the store's slots at its version.
proof fn lemma_resync_step(r: RemoteStoreView, l: LocalStoreView, a: int, now: u64)
    requires
        l.wf(),
        l.slots.len() <= MAX_STAGED_SNAPSHOT_SLOTS,
        0 <= a < l.slots.len(),
        resyncing(r, l, a),
    ensures
        ({
            let r2 = r.after_rpc_res(now, l.answer(page_request(l, a)));
            let e = page_end(l, a);
            &&& r2.ctx.remote == r.ctx.remote
            &&& a < e
            &&& e < l.slots.len() ==> resyncing(r2, l, e)
            &&& e == l.slots.len() ==> {
                &&& r2.state == StateView::Working(WorkingView::new(Version(l.version)))
                &&& r2.ctx.slots == l.slots
                &&& r2.ctx.next_state is None
                &&& told_ok(r2.ctx)
            }
        }),
{
    let d = l.slots.dom();
    lemma_sorted_keys_exists(d);
    let ks = sorted_keys(d);
    let n = l.slots.len() as int;
    let e = page_end(l, a);
    lemma_page_answer(l, a);
    lemma_listed_len(l.slots, ks, a);
    let s = r.state->SyncFull_0;
    lemma_stage_range(s, r.ctx, l.slots, ks, a, e);
    let page = ks.subrange(a, e).map_values(with_slot(l.slots));
    let (s1, c1) = s.stage_page(r.ctx, page);
    assert(s1.note_skipped(seq![]) == s1);
    let s3 = SyncFullView { version: Some(Version(l.version)), ..s1 };
    if e < n {
        let req = page_request(l, e);
        lemma_told_request(c1, req);
        let r2 = r.after_rpc_res(now, l.answer(page_request(l, a)));
        assert(r2.ctx == c1.request(req));
    } else {
        lemma_listed_len(l.slots, ks, n);
        assert(ks.take(n) =~= ks);
        assert(listed_slots(l.slots, ks, n) =~= l.slots) by {
            assert forall|k: u64| ks.contains(k) <==> d.contains(k) by {
                assert(ks.to_set().contains(k) <==> ks.contains(k));
            }
        }
        lemma_told_commit(s3, c1);
        assert(s3.completed_stage(l.slots, c1.slots) =~= l.slots);
    }
}

proof fn lemma_resync_serve(r: RemoteStoreView, l: LocalStoreView, a: int, times: Seq<u64>)
    requires
        l.wf(),
        l.slots.len() <= MAX_STAGED_SNAPSHOT_SLOTS,
        0 <= a < l.slots.len(),
        resyncing(r, l, a),
        times.len() >= l.slots.len() - a,
    ensures
        ({
            let r2 = serve_pages(r, l, times);
            &&& r2.state == StateView::Working(WorkingView::new(Version(l.version)))
            &&& r2.ctx.slots == l.slots
            &&& r2.ctx.next_state is None
            &&& told_ok(r2.ctx)
            &&& r2.ctx.remote == r.ctx.remote
        }),
    decreases l.slots.len() - a,
{
    let e = page_end(l, a);
    let r2 = r.after_rpc_res(times[0], l.answer(page_request(l, a)));
    lemma_resync_step(r, l, a, times[0]);
    assert(serve_pages(r, l, times) == serve_pages(r2, l, times.drop_first()));
    if e < l.slots.len() {
        lemma_resync_serve(r2, l, e, times.drop_first());
    } else {
        assert(serve_pages(r2, l, times.drop_first()) == r2);
    }
}

/// A replica that has just turned to a full sync (a new one, or one that
/// was refused the changes it asked for, or held back too many) completes
/// it from a store that does not change while its page requests are
/// answered one after another, however many slots it held before: it then
/// works from the store's version, holds exactly the store's slots, and
/// replaying what it told the application gives the store's values.  This
/// holds for stores of any size that a full sync can stage.
pub proof fn lemma_resync_completes(l: LocalStoreView, r: RemoteStoreView, sent_at: u64, times: Seq<u64>)
    requires
        l.wf(),
        l.slots.len() <= MAX_STAGED_SNAPSHOT_SLOTS,
        r.state == StateView::SyncFull(
            SyncFullView { sending_req: Some((sent_at, first_page_request())), ..SyncFullView::preserving() },
        ),
        r.ctx.next_state is None,
        told_ok(r.ctx),
        times.len() > l.slots.len(),
    ensures
        ({
            let r2 = serve_pages(r, l, times);
            &&& r2.state == StateView::Working(WorkingView::new(Version(l.version)))
            &&& r2.ctx.slots == l.slots
            &&& replay_told(Map::empty(), r2.ctx.outs, r.ctx.remote) == values_of(l.slots)
        }),
{
    let d = l.slots.dom();
    lemma_sorted_keys_exists(d);
    let ks = sorted_keys(d);
    if l.slots.len() == 0 {
        assert(d =~= ks.to_set());
        assert(l.slots =~= Map::<u64, Slot>::empty());
        let s = r.state->SyncFull_0;
        let r1 = r.after_rpc_res(times[0], l.answer(first_page_request()));
        assert(l.answer(first_page_request()) == RpcResView::FetchSnapshot(None, Version(l.version)));
        lemma_told_commit(s, r.ctx);
        assert(s.completed_stage(Map::empty(), r.ctx.slots) =~= Map::<u64, Slot>::empty());
        assert(serve_pages(r, l, times) == serve_pages(r1, l, times.drop_first()));
        assert(serve_pages(r1, l, times.drop_first()) == r1);
    } else {
        assert(listed_slots(l.slots, ks, 0) =~= Map::<u64, Slot>::empty());
        assert(resyncing(r, l, 0));
        lemma_resync_serve(r, l, 0, times);
    }
}

/// A replica whose outstanding requests for changes are answered by `l`,
/// the `i`-th answer arriving at `times[i]`, while it works and asks.
pub open spec fn serve_changes(r: RemoteStoreView, l: LocalStoreView, times: Seq<u64>) -> RemoteStoreView
    decreases times.len(),
{
    if times.len() == 0 {
        r
    } else {
        match r.state {
            StateView::Working(w) => match w.sending_req {
                Some((_, q)) => serve_changes(r.after_rpc_res(times[0], l.answer(q)), l, times.drop_first()),
                None => r,
            },
            _ => r,
        }
    }
}

/// A sound working replica that holds nothing back, has seen the owner's
/// version `T` and asks for the changes after its own up to `T`.
pub open spec fn catching_up(r: RemoteStoreView, l: LocalStoreView, h: Seq<Changed>) -> bool {
    &&& replica_sound(r, h)
    &&& r.state matches StateView::Working(w) && {
        &&& w.pendings == Map::<u64, Changed>::empty()
        &&& w.latest_seen_version == Some(Version(l.version))
        &&& w.version.0 < l.version
        &&& w.version.0 >= l.log_start()
        &&& w.sending_req matches Some((_, q)) && q == RpcReq::FetchChanged {
            from: Version((w.version.0 + 1) as u64),
            count: (l.version - w.version.0) as u64,
        }
    }
}

proof fn lemma_catch_up_serve(r: RemoteStoreView, l: LocalStoreView, h: Seq<Changed>, times: Seq<u64>)
    requires
        l.wf(),
        history_of(h, l),
        l.version < u64::MAX,
        l.compose_max_pkts <= MAX_PENDING_CHANGEDS,
        catching_up(r, l, h),
        times.len() >= l.version - r.state->Working_0.version.0,
    ensures
        ({
            let r2 = serve_changes(r, l, times);
            &&& replica_sound(r2, h)
            &&& r2.ctx.remote == r.ctx.remote
            &&& r2.state matches StateView::Working(w2) && w2.version.0 == l.version && w2.sending_req is None
        }),
    decreases l.version - r.state->Working_0.version.0,
{
    let w = r.state->Working_0;
    let c = r.ctx;
    let v = w.version.0;
    let t = l.version;
    let (sent_at, q) = w.sending_req.unwrap();
    let count = (t - v) as u64;
    let from = Version((v + 1) as u64);
    let now = times[0];
    assert(w.wf());
    lemma_gap_repaired_from_store(l, w, c, now, sent_at, count);
    assert(l.fetch_changed(from, count) is Ok);
    let chs = l.fetch_changed(from, count)->Ok_0;
    assert forall|i: int| 0 <= i < chs.len() implies in_history(#[trigger] chs[i], h) by {
        assert(chs[i] == l.changeds[(v + 1 + i) as u64]);
        assert(l.changeds.contains_key((v + 1 + i) as u64));
    }
    let res = l.answer(q);
    lemma_working_answer(w, c, h, now, res);
    let (acc, w2, c2) = w.on_rpc_res(c, now, res);
    assert(repaired(w, c, now, count, chs));
    let r2 = r.after_rpc_res(now, res);
    assert(r2.state == StateView::Working(w2));
    assert(serve_changes(r, l, times) == serve_changes(r2, l, times.drop_first()));
    if w2.version.0 < t {
        lemma_catch_up_serve(r2, l, h, times.drop_first());
    } else {
        assert(w2.sending_req is None);
        assert(serve_changes(r2, l, times.drop_first()) == r2);
    }
}

/// A working replica that holds nothing back and asks for nothing catches
/// up with a store that no longer changes once the store's version
/// broadcast reaches it and the store answers the requests for changes it
/// then sends, one after another: it ends working at the store's version,
/// asking for nothing, holding exactly the store's slots, and replaying
/// what it told the application gives the store's values.  This needs the
/// store's log to reach back to the replica's version and the store's
/// batches to fit what a replica holds back (when the log does not reach
/// back, the store refuses, and `lemma_resync_completes` takes over).
pub proof fn lemma_catch_up_completes(
    l: LocalStoreView,
    h: Seq<Changed>,
    r: RemoteStoreView,
    now: u64,
    times: Seq<u64>,
)
    requires
        l.wf(),
        history_of(h, l),
        l.version < u64::MAX,
        l.compose_max_pkts <= MAX_PENDING_CHANGEDS,
        replica_sound(r, h),
        r.state matches StateView::Working(w) && w.pendings == Map::<u64, Changed>::empty() && w.sending_req is None
            && w.version.0 >= l.log_start() && (w.latest_seen_version matches Some(x) ==> x.0 <= l.version),
        times.len() >= l.version,
    ensures
        ({
            let e = BroadcastEvent { session_id: l.session_id, data: BroadcastEventData::Version(Version(l.version)) };
            let r2 = serve_changes(r.after_broadcast(now, e), l, times);
            &&& r2.state matches StateView::Working(w2) && w2.version.0 == l.version && w2.sending_req is None
            &&& r2.ctx.slots == l.slots
            &&& replay_told(Map::empty(), r2.ctx.outs, r.ctx.remote) == values_of(l.slots)
        }),
{
    let w = r.state->Working_0;
    let e = BroadcastEvent { session_id: l.session_id, data: BroadcastEventData::Version(Version(l.version)) };
    let r1 = r.after_broadcast(now, e);
    lemma_working_broadcast(w, r.ctx, h, now, e);
    if w.version.0 < l.version {
        assert(catching_up(r1, l, h));
        lemma_catch_up_serve(r1, l, h, times);
        let r2 = serve_changes(r1, l, times);
        lemma_caught_up_holds_owner_slots(l, h, r2);
    } else {
        assert(r1.state == r.state && r1.ctx == r.ctx);
        assert(serve_changes(r1, l, times) == r1);
        lemma_caught_up_holds_owner_slots(l, h, r1);
    }
}

} // verus!
