//! Ordered views of `u64`-keyed maps: the keys of a finite set listed in
//! increasing order, and the in-order key listing of a `BTreeMap`.
use std::collections::{BTreeMap, BTreeSet};
use vstd::prelude::*;
use vstd::std_specs::cmp::OrdSpec;
use vstd::std_specs::iter::IteratorSpec;

verus! {

broadcast use vstd::std_specs::btree::group_btree_axioms, vstd::laws_cmp::group_laws_cmp;

/// Every element of `s` is smaller than every later element.
pub open spec fn increasing(s: Seq<u64>) -> bool {
    forall|i: int, j: int| 0 <= i < j < s.len() ==> s[i] < s[j]
}

/// `s` lists the elements of `d`, each once, in increasing order.
pub open spec fn lists_in_order(s: Seq<u64>, d: Set<u64>) -> bool {
    increasing(s) && s.to_set() == d
}

/// The elements of the set `d` in increasing order.
pub open spec fn sorted_keys(d: Set<u64>) -> Seq<u64> {
    choose|s: Seq<u64>| lists_in_order(s, d)
}

/// The first element of an increasing sequence is its least.
pub proof fn lemma_increasing_first_is_min(s: Seq<u64>, x: u64)
    requires
        increasing(s),
        s.len() > 0,
        s.contains(x),
    ensures
        s[0] <= x,
{
    let i = choose|i: int| 0 <= i < s.len() && s[i] == x;
    if i > 0 {
        assert(s[0] < s[i]);
    }
}

/// Two increasing listings of the same set are the same sequence.
pub proof fn lemma_lists_in_order_unique(s1: Seq<u64>, s2: Seq<u64>)
    requires
        increasing(s1),
        increasing(s2),
        s1.to_set() == s2.to_set(),
    ensures
        s1 == s2,
    decreases s1.len(),
{
    if s1.len() == 0 {
        if s2.len() > 0 {
            assert(s2.to_set().contains(s2[0]));
            assert(!s1.to_set().contains(s2[0]));
        }
        assert(s2.len() == 0);
        assert(s1 =~= s2);
    } else {
        assert(s1.to_set().contains(s1[0]));
        assert(s2.to_set().contains(s1[0]));
        assert(s2.len() > 0);
        assert(s2.to_set().contains(s2[0]));
        assert(s1.to_set().contains(s2[0]));
        lemma_increasing_first_is_min(s1, s2[0]);
        lemma_increasing_first_is_min(s2, s1[0]);
        assert(s1[0] == s2[0]);
        let t1 = s1.drop_first();
        let t2 = s2.drop_first();
        assert forall|x: u64| t1.to_set().contains(x) implies t2.to_set().contains(x) by {
            let i = choose|i: int| 0 <= i < t1.len() && t1[i] == x;
            assert(s1[i + 1] == x);
            assert(s1[0] < x);
            assert(s2.to_set().contains(x));
            let j = choose|j: int| 0 <= j < s2.len() && s2[j] == x;
            assert(j != 0);
            assert(t2[j - 1] == x);
        }
        assert forall|x: u64| t2.to_set().contains(x) implies t1.to_set().contains(x) by {
            let i = choose|i: int| 0 <= i < t2.len() && t2[i] == x;
            assert(s2[i + 1] == x);
            assert(s2[0] < x);
            assert(s1.to_set().contains(x));
            let j = choose|j: int| 0 <= j < s1.len() && s1[j] == x;
            assert(j != 0);
            assert(t1[j - 1] == x);
        }
        assert(t1.to_set() =~= t2.to_set());
        lemma_lists_in_order_unique(t1, t2);
        assert(s1.len() == s2.len());
        assert forall|i: int| 0 <= i < s1.len() implies s1[i] == s2[i] by {
            if i > 0 {
                assert(s1[i] == t1[i - 1]);
                assert(s2[i] == t2[i - 1]);
            }
        }
        assert(s1 =~= s2);
    }
}

/// Any increasing listing of `d` is `sorted_keys(d)`.
pub proof fn lemma_sorted_keys_is(s: Seq<u64>, d: Set<u64>)
    requires
        lists_in_order(s, d),
    ensures
        sorted_keys(d) == s,
{
    let t = sorted_keys(d);
    assert(lists_in_order(t, d));
    lemma_lists_in_order_unique(s, t);
}

proof fn lemma_max_exists(d: Set<u64>) -> (m: u64)
    requires
        d.finite(),
        d.len() > 0,
    ensures
        d.contains(m),
        forall|x: u64| d.contains(x) ==> x <= m,
    decreases d.len(),
{
    let x = d.choose();
    assert(d.contains(x));
    if d.len() == 1 {
        assert(d.remove(x).len() == 0);
        assert forall|y: u64| d.contains(y) implies y <= x by {
            if y != x {
                assert(d.remove(x).contains(y));
            }
        }
        x
    } else {
        let m2 = lemma_max_exists(d.remove(x));
        if x > m2 {
            x
        } else {
            assert forall|y: u64| d.contains(y) implies y <= m2 by {
                if y != x {
                    assert(d.remove(x).contains(y));
                }
            }
            m2
        }
    }
}

/// Every finite set of keys has an increasing listing.
pub proof fn lemma_sorted_keys_exists(d: Set<u64>)
    requires
        d.finite(),
    ensures
        lists_in_order(sorted_keys(d), d),
        sorted_keys(d).len() == d.len(),
    decreases d.len(),
{
    if d.len() == 0 {
        assert(Seq::<u64>::empty().to_set() =~= d);
        lemma_sorted_keys_is(Seq::<u64>::empty(), d);
    } else {
        let m = lemma_max_exists(d);
        let rest = d.remove(m);
        lemma_sorted_keys_exists(rest);
        let t = sorted_keys(rest);
        let s = t.push(m);
        assert forall|i: int, j: int| 0 <= i < j < s.len() implies s[i] < s[j] by {
            if j == s.len() - 1 {
                assert(t.to_set().contains(s[i]));
                assert(rest.contains(s[i]));
                assert(s[i] <= m);
            }
        }
        assert forall|x: u64| s.to_set().contains(x) <==> d.contains(x) by {
            if s.to_set().contains(x) {
                let i = choose|i: int| 0 <= i < s.len() && s[i] == x;
                if i < t.len() {
                    assert(t[i] == x);
                    assert(t.to_set().contains(x));
                }
            }
            if d.contains(x) && x != m {
                assert(rest.contains(x));
                assert(t.to_set().contains(x));
                let i = choose|i: int| 0 <= i < t.len() && t[i] == x;
                assert(s[i] == x);
            }
            if x == m {
                assert(s[s.len() - 1] == x);
            }
        }
        assert(s.to_set() =~= d);
        lemma_sorted_keys_is(s, d);
    }
}

/// The keys of `m`, in increasing order.
pub fn keys_in_order<T>(m: &BTreeMap<u64, T>) -> (r: Vec<u64>)
    ensures
        lists_in_order(r@, m@.dom()),
        r@ == sorted_keys(m@.dom()),
        r@.len() == m@.dom().len(),
{
    let mut r: Vec<u64> = Vec::new();
    let iter0 = m.iter();
    let ghost s = iter0.remaining().map_values(|kv: (&u64, &T)| *kv.0);
    proof {
        assert(vstd::laws_cmp::obeys_cmp::<u64>());
        assert forall|i: int, j: int| 0 <= i < j < s.len() implies s[i] < s[j] by {
            assert(vstd::std_specs::btree::increasing_seq(s));
            assert(s[i].cmp_spec(&s[j]) is Less);
        }
        assert forall|k: u64| m@.dom().contains(k) implies s.contains(k) by {
            let p = iter0.remaining();
            assert(p.contains((&k, &m@[k])));
            let i = choose|i: int| 0 <= i < p.len() && p[i] == (&k, &m@[k]);
            assert(s[i] == k);
        }
        assert forall|k: u64| s.contains(k) implies m@.dom().contains(k) by {
            let i = choose|i: int| 0 <= i < s.len() && s[i] == k;
            assert(m@.contains_key(*iter0.remaining()[i].0));
        }
        assert(s.to_set() =~= m@.dom());
    }
    for kv in it: iter0
        invariant
            it.seq().map_values(|kv: (&u64, &T)| *kv.0) == s,
            r@ == s.take(it.index()),
    {
        proof {
            assert(s[it.index()] == *kv.0);
        }
        r.push(*kv.0);
        assert(r@ =~= s.take(it.index() + 1));
    }
    assert(r@ =~= s);
    proof {
        lemma_sorted_keys_is(r@, m@.dom());
        s.unique_seq_to_set();
    }
    r
}

/// The keys of `m`, each once.
pub fn pair_keys<T>(m: &BTreeMap<(u64, u64), T>) -> (r: Vec<(u64, u64)>)
    ensures
        r@.to_set() == m@.dom(),
        r@.no_duplicates(),
        r@.len() == m@.dom().len(),
{
    let mut r: Vec<(u64, u64)> = Vec::new();
    let iter0 = m.iter();
    let ghost p = iter0.remaining();
    let ghost s = p.map_values(|kv: (&(u64, u64), &T)| *kv.0);
    proof {
        assert(vstd::laws_cmp::obeys_cmp::<(u64, u64)>());
        assert forall|k: (u64, u64)| m@.dom().contains(k) implies s.contains(k) by {
            assert(p.contains((&k, &m@[k])));
            let i = choose|i: int| 0 <= i < p.len() && p[i] == (&k, &m@[k]);
            assert(s[i] == k);
        }
        assert forall|k: (u64, u64)| s.contains(k) implies m@.dom().contains(k) by {
            let i = choose|i: int| 0 <= i < s.len() && s[i] == k;
            assert(m@.contains_key(*p[i].0));
        }
        assert(s.to_set() =~= m@.dom());
        assert forall|i: int, j: int| 0 <= i < s.len() && 0 <= j < s.len() && i != j implies s[i] != s[j] by {
            assert(m@.contains_key(*p[i].0) && m@[*p[i].0] == *p[i].1);
            assert(m@.contains_key(*p[j].0) && m@[*p[j].0] == *p[j].1);
            if s[i] == s[j] {
                assert(p[i] == p[j]);
            }
        }
    }
    for kv in it: iter0
        invariant
            it.seq().map_values(|kv: (&(u64, u64), &T)| *kv.0) == s,
            r@ == s.take(it.index()),
    {
        proof {
            assert(s[it.index()] == *kv.0);
        }
        r.push(*kv.0);
        assert(r@ =~= s.take(it.index() + 1));
    }
    assert(r@ =~= s);
    proof {
        s.unique_seq_to_set();
    }
    r
}

/// The elements of `s`, in increasing order.
pub fn set_in_order(s: &BTreeSet<u64>) -> (r: Vec<u64>)
    ensures
        lists_in_order(r@, s@),
        r@ == sorted_keys(s@),
        r@.len() == s@.len(),
{
    let mut r: Vec<u64> = Vec::new();
    let iter0 = s.iter();
    let ghost q = iter0.remaining().map_values(|x: &u64| *x);
    proof {
        assert(vstd::laws_cmp::obeys_cmp::<u64>());
        broadcast use vstd::laws_cmp::lemma_ref_obeys_cmp_spec;

        assert(vstd::laws_cmp::obeys_cmp::<&u64>());
        assert(vstd::std_specs::btree::key_obeys_cmp_spec::<u64>());
        assert(iter0 == vstd::std_specs::btree::spec_btree_keys_iter(s));
        assert(vstd::std_specs::btree::increasing_seq(vstd::std_specs::btree::spec_btree_keys_iter(s).remaining()));
        assert(q =~= iter0.remaining().unref());
        assert forall|i: int, j: int| 0 <= i < j < q.len() implies q[i] < q[j] by {
            let rem = iter0.remaining();
            vstd::std_specs::btree::axiom_increasing_seq_meaning(rem);
            let a: &u64 = rem[i];
            let b: &u64 = rem[j];
            assert(vstd::std_specs::cmp::OrdSpec::cmp_spec(&a, &b) is Less);
        }
    }
    for x in it: iter0
        invariant
            it.seq().map_values(|x: &u64| *x) == q,
            r@ == q.take(it.index()),
    {
        proof {
            assert(q[it.index()] == *x);
        }
        r.push(*x);
        assert(r@ =~= q.take(it.index() + 1));
    }
    assert(r@ =~= q);
    proof {
        lemma_sorted_keys_is(r@, s@);
        q.unique_seq_to_set();
    }
    r
}

} // verus!
