//! Properties of the alias service, stated over the view that the
//! operations' contracts use.
use vstd::prelude::*;

use super::{
    accepts, answered, hint_admitted, hints_of, AliasControl, AliasFoundLocation, AliasId, AliasMessage, AliasView,
    FindView, InternalOutput, MAX_PENDING_FIND_REQUESTS, MAX_WAITERS_PER_ALIAS,
};
use crate::ordered::{lemma_sorted_keys_exists, sorted_keys};
use crate::peer::PeerId;

verus! {

/// Registering an alias answers every finder waiting for it: here.
pub proof fn law_register_answers_finders<W>(s: AliasView<W>, now: u64, a: AliasId)
    requires
        !s.shutting_down,
        s.find_reqs.contains_key(a.0),
    ensures
        s.after_control(now, AliasControl::Register(a)).replies == s.replies + answered(
            s.find_reqs[a.0].waits,
            Some(AliasFoundLocation::Local),
        ),
        !s.after_control(now, AliasControl::Register(a)).find_reqs.contains_key(a.0),
{
}

/// Finding an alias registered here is answered at once: here.
pub proof fn law_find_local_alias<W>(s: AliasView<W>, now: u64, a: AliasId, w: W)
    requires
        !s.shutting_down,
        !s.find_reqs.contains_key(a.0),
        s.local.contains_key(a.0),
    ensures
        s.after_control(now, AliasControl::Find(a, w)) == s.reply(w, Some(AliasFoundLocation::Local)),
{
}

/// An announcement that is not newer than one already taken from the
/// same node changes nothing: an old announcement cannot undo a newer one.
pub proof fn law_old_announcement_ignored<W>(s: AliasView<W>, now: u64, from: u64, a: AliasId, g: u64)
    requires
        s.lifecycle.contains_key((a.0, from)),
        g <= s.lifecycle[(a.0, from)].generation,
    ensures
        s.after_msg(now, from, AliasMessage::NotifySet(a, g)) == s,
        s.after_msg(now, from, AliasMessage::NotifyDel(a, g)) == s,
        s.msg_hint_put(from, AliasMessage::NotifySet(a, g)) is None,
        s.msg_lifecycle_put(from, AliasMessage::NotifySet(a, g)) is None,
        s.msg_lifecycle_put(from, AliasMessage::NotifyDel(a, g)) is None,
{
}

/// A `Found` for an alias that no find is looking for changes nothing.
pub proof fn law_unsolicited_found_ignored<W>(s: AliasView<W>, now: u64, from: u64, a: AliasId)
    requires
        !s.find_reqs.contains_key(a.0),
    ensures
        s.after_msg(now, from, AliasMessage::Found(a)) == s,
        s.msg_hint_put(from, AliasMessage::Found(a)) is None,
{
}

/// Registering an alias not held here and unregistering it again leaves
/// the registrations as they were, and announces a newer generation each
/// time (until the counter is full).
pub proof fn law_register_unregister_round_trip<W>(s: AliasView<W>, now: u64, a: AliasId)
    requires
        !s.shutting_down,
        !s.local.contains_key(a.0),
        !s.local_generations.contains_key(a.0) || s.local_generations[a.0] < u64::MAX - 1,
    ensures
        s.after_control(now, AliasControl::Register(a)).after_control(now, AliasControl::Unregister(a)).local
            == s.local,
        s.after_control(now, AliasControl::Register(a)).after_control(now, AliasControl::Unregister(a)).outs.last()
            == InternalOutput::Broadcast(
            AliasMessage::NotifyDel(
                a,
                (s.after_control(now, AliasControl::Register(a)).local_generations[a.0] + 1) as u64,
            ),
        ),
        s.after_control(now, AliasControl::Register(a)).local_generations[a.0] > (if s.local_generations.contains_key(
            a.0,
        ) {
            s.local_generations[a.0]
        } else {
            0
        }),
{
    let s1 = s.after_control(now, AliasControl::Register(a));
    assert(s1.local[a.0] == 1);
    assert(s1.local.remove(a.0) =~= s.local);
}

/// Finds are bounded: at most `MAX_PENDING_FIND_REQUESTS` aliases are
/// looked for at once, with at most `MAX_WAITERS_PER_ALIAS` waiters each.
pub proof fn law_finds_bounded<W>(s: AliasView<W>, now: u64, a: AliasId, w: W)
    requires
        s.find_reqs.dom().finite(),
        s.find_reqs.len() <= MAX_PENDING_FIND_REQUESTS,
        forall|k: u64| #[trigger] s.find_reqs.contains_key(k) ==> s.find_reqs[k].waits.len() <= MAX_WAITERS_PER_ALIAS,
    ensures
        s.after_control(now, AliasControl::Find(a, w)).find_reqs.len() <= MAX_PENDING_FIND_REQUESTS,
        forall|k: u64| #[trigger]
            s.after_control(now, AliasControl::Find(a, w)).find_reqs.contains_key(k) ==> s.after_control(
                now,
                AliasControl::Find(a, w),
            ).find_reqs[k].waits.len() <= MAX_WAITERS_PER_ALIAS,
{
}

/// Once shutting down, finds are answered "not found" at once and
/// registrations are ignored.
pub proof fn law_shutdown_refuses<W>(s: AliasView<W>, now: u64, a: AliasId, w: W)
    requires
        s.shutting_down,
    ensures
        s.after_control(now, AliasControl::Find(a, w)) == s.reply(w, None),
        s.after_control(now, AliasControl::Register(a)) == s,
{
}

/// A node whose announcement of an alias was taken, with its hint kept,
/// is asked first when the alias is looked for: the find sends it a
/// `Check`.
pub proof fn law_announced_node_is_checked<W>(
    s: AliasView<W>,
    now: u64,
    p: u64,
    a: AliasId,
    g: u64,
    later: u64,
    w: W,
)
    requires
        !s.shutting_down,
        accepts(s.lifecycle, a.0, p, g),
        hint_admitted(s.cache, a.0, p),
        hints_of(s.cache, a.0).finite(),
        !s.find_reqs.contains_key(a.0),
        !s.local.contains_key(a.0),
        s.find_reqs.len() < MAX_PENDING_FIND_REQUESTS,
    ensures
        s.after_msg(now, p, AliasMessage::NotifySet(a, g)).after_control(later, AliasControl::Find(a, w)).outs.contains(
            InternalOutput::Unicast(PeerId(p), AliasMessage::Check(a)),
        ),
{
    let s1 = s.after_msg(now, p, AliasMessage::NotifySet(a, g));
    let hs = hints_of(s.cache, a.0).insert(p);
    assert(s1.cache[a.0] == hs);
    let keys = sorted_keys(hs);
    lemma_sorted_keys_exists(hs);
    assert(keys.to_set().contains(p));
    let j = choose|j: int| 0 <= j < keys.len() && keys[j] == p;
    let sent = keys.map_values(|q: u64| InternalOutput::Unicast(PeerId(q), AliasMessage::Check(a)));
    assert(sent[j] == InternalOutput::Unicast(PeerId(p), AliasMessage::Check(a)));
    let s2 = s1.after_control(later, AliasControl::Find(a, w));
    assert(s2.outs == s1.outs + sent);
    assert(s2.outs[s1.outs.len() + j] == InternalOutput::Unicast(PeerId(p), AliasMessage::Check(a)));
}

/// The answers that end the finds of `reqs` under `keys`, in order, with
/// no location: each waiter of each find, in the order it came.
pub open spec fn no_location_answers<W>(reqs: Map<u64, FindView<W>>, keys: Seq<u64>) -> Seq<
    (W, Option<AliasFoundLocation>),
>
    decreases keys.len(),
{
    if keys.len() == 0 {
        seq![]
    } else {
        no_location_answers(reqs, keys.drop_last()) + answered(reqs[keys.last()].waits, None)
    }
}

/// Ending the finds under distinct keys answers their waiters with no
/// location, in order, removes those finds, and changes nothing else.
proof fn lemma_fail_all<W>(s: AliasView<W>, keys: Seq<u64>)
    requires
        keys.no_duplicates(),
        forall|i: int| 0 <= i < keys.len() ==> s.find_reqs.contains_key(#[trigger] keys[i]),
    ensures
        s.fail_all(keys) == (AliasView {
            find_reqs: s.find_reqs.remove_keys(keys.to_set()),
            replies: s.replies + no_location_answers(s.find_reqs, keys),
            ..s
        }),
    decreases keys.len(),
{
    if keys.len() == 0 {
        assert(s.find_reqs.remove_keys(keys.to_set()) =~= s.find_reqs);
        assert(s.replies + no_location_answers(s.find_reqs, keys) =~= s.replies);
    } else {
        let prev = keys.drop_last();
        let k = keys.last();
        assert forall|i: int| 0 <= i < prev.len() implies s.find_reqs.contains_key(#[trigger] prev[i]) by {
            assert(prev[i] == keys[i]);
        }
        lemma_fail_all(s, prev);
        let r = s.fail_all(prev);
        assert(!prev.to_set().contains(k)) by {
            if prev.to_set().contains(k) {
                let i = choose|i: int| 0 <= i < prev.len() && prev[i] == k;
                assert(keys[i] == keys[keys.len() - 1]);
            }
        }
        assert(s.find_reqs.contains_key(keys[keys.len() - 1]));
        assert(r.find_reqs.contains_key(k));
        assert(r.find_reqs[k] == s.find_reqs[k]);
        assert(r.find_reqs.remove(k) =~= s.find_reqs.remove_keys(keys.to_set())) by {
            assert(keys.to_set() =~= prev.to_set().insert(k)) by {
                assert(keys =~= prev.push(k));
                assert forall|x: u64| keys.to_set().contains(x) <==> (prev.to_set().contains(x) || x == k) by {
                    if keys.to_set().contains(x) {
                        let i = choose|i: int| 0 <= i < keys.len() && keys[i] == x;
                        if i < prev.len() {
                            assert(prev[i] == x);
                        }
                    }
                    if prev.to_set().contains(x) {
                        let i = choose|i: int| 0 <= i < prev.len() && prev[i] == x;
                        assert(keys[i] == x);
                    }
                    if x == k {
                        assert(keys[keys.len() - 1] == x);
                    }
                }
            }
        }
        assert(r.replies + answered(r.find_reqs[k].waits, None) =~= s.replies + no_location_answers(
            s.find_reqs,
            keys,
        ));
    }
}

/// Shutting down ends every find under way, its waiters answered with no
/// location in alias order, drops the local aliases, and tells the other
/// nodes; from then on a further shutdown or a registration changes
/// nothing, and a find is answered at once with no location.
pub proof fn law_shutdown_ends_finds<W>(s: AliasView<W>, now: u64, later: u64, a: AliasId, w: W)
    requires
        !s.shutting_down,
        s.find_reqs.dom().finite(),
    ensures
        ({
            let s2 = s.after_control(now, AliasControl::Shutdown);
            &&& s2.shutting_down
            &&& s2.find_reqs == Map::<u64, FindView<W>>::empty()
            &&& s2.local == Map::<u64, usize>::empty()
            &&& s2.replies == s.replies + no_location_answers(s.find_reqs, sorted_keys(s.find_reqs.dom()))
            &&& s2.outs == s.outs.push(InternalOutput::Broadcast(AliasMessage::Shutdown))
            &&& s2.after_control(later, AliasControl::Shutdown) == s2
            &&& s2.after_control(later, AliasControl::Register(a)) == s2
            &&& s2.after_control(later, AliasControl::Find(a, w)) == s2.reply(w, None)
        }),
{
    let d = s.find_reqs.dom();
    lemma_sorted_keys_exists(d);
    let keys = sorted_keys(d);
    assert(keys.no_duplicates()) by {
        assert forall|i: int, j: int| 0 <= i < keys.len() && 0 <= j < keys.len() && i != j implies keys[i]
            != keys[j] by {
            if i < j {
                assert(keys[i] < keys[j]);
            } else {
                assert(keys[j] < keys[i]);
            }
        }
    }
    assert forall|i: int| 0 <= i < keys.len() implies s.find_reqs.contains_key(#[trigger] keys[i]) by {
        assert(keys.to_set().contains(keys[i]));
    }
    lemma_fail_all(s, keys);
    assert(s.find_reqs.remove_keys(keys.to_set()) =~= Map::<u64, FindView<W>>::empty());
}

/// A `Check` is answered, to the node that asked, `Found` exactly when the
/// alias is registered here now, and `NotFound` otherwise; so once a
/// registration is undone by its unregistration, the answer is `NotFound`.
pub proof fn law_check_answers_registration<W>(s: AliasView<W>, now: u64, later: u64, from: u64, a: AliasId)
    ensures
        s.after_msg(now, from, AliasMessage::Check(a)).outs == s.outs.push(
            InternalOutput::Unicast(
                PeerId(from),
                if s.local.contains_key(a.0) {
                    AliasMessage::Found(a)
                } else {
                    AliasMessage::NotFound(a)
                },
            ),
        ),
        !s.shutting_down && !s.local.contains_key(a.0) ==> s.after_control(now, AliasControl::Register(a)).after_control(
            now,
            AliasControl::Unregister(a),
        ).after_msg(later, from, AliasMessage::Check(a)).outs.last() == InternalOutput::Unicast(
            PeerId(from),
            AliasMessage::NotFound(a),
        ),
        !s.shutting_down ==> s.after_control(now, AliasControl::Register(a)).after_msg(
            later,
            from,
            AliasMessage::Check(a),
        ).outs.last() == InternalOutput::Unicast(PeerId(from), AliasMessage::Found(a)),
{
}

} // verus!
