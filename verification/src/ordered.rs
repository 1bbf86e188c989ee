//! The keys of an ordered map, as a sequence.

use std::collections::BTreeMap;
use vstd::prelude::*;

verus! {

broadcast use vstd::std_specs::btree::group_btree_axioms;

/// Each number is below the next.
pub open spec fn strictly_ascending(s: Seq<usize>) -> bool {
    forall|i: int, j: int| 0 <= i < j < s.len() ==> s[i] < s[j]
}

/// The numbers of `d` in ascending order.
pub open spec fn ascending(d: Set<usize>) -> Seq<usize> {
    choose|s: Seq<usize>| strictly_ascending(s) && s.to_set() == d
}

/// There is only one way to list the numbers of a set in ascending order.
pub proof fn lemma_ascending_unique(a: Seq<usize>, b: Seq<usize>)
    requires
        strictly_ascending(a),
        strictly_ascending(b),
        a.to_set() == b.to_set(),
    ensures
        a == b,
    decreases a.len(),
{
    if a.len() == 0 {
        if b.len() > 0 {
            assert(b.to_set().contains(b[0]));
            assert(a.contains(b[0]));
        }
        assert(a =~= b);
    } else {
        assert(a.to_set().contains(a.last()));
        assert(b.contains(a.last()));
        assert(b.to_set().contains(b.last()));
        assert(a.contains(b.last()));
        assert(a.last() == b.last());
        let a1 = a.drop_last();
        let b1 = b.drop_last();
        assert(a1.to_set() =~= b1.to_set()) by {
            assert forall|x: usize| a1.to_set().contains(x) <==> b1.to_set().contains(x) by {
                if a1.contains(x) {
                    let i = choose|i: int| 0 <= i < a1.len() && a1[i] == x;
                    assert(a[i] == x);
                    assert(a.to_set().contains(x));
                    assert(b.contains(x));
                    let j = choose|j: int| 0 <= j < b.len() && b[j] == x;
                    assert(b1[j] == x);
                }
                if b1.contains(x) {
                    let i = choose|i: int| 0 <= i < b1.len() && b1[i] == x;
                    assert(b[i] == x);
                    assert(b.to_set().contains(x));
                    assert(a.contains(x));
                    let j = choose|j: int| 0 <= j < a.len() && a[j] == x;
                    assert(a1[j] == x);
                }
            }
        }
        lemma_ascending_unique(a1, b1);
        assert(a =~= a1.push(a.last()));
        assert(b =~= b1.push(b.last()));
    }
}

/// A listing in ascending order is the one that [`ascending`] names.
pub proof fn lemma_is_ascending(s: Seq<usize>, d: Set<usize>)
    requires
        strictly_ascending(s),
        s.to_set() == d,
    ensures
        ascending(d) == s,
{
    let t = ascending(d);
    lemma_ascending_unique(t, s);
}

/// What a filter keeps of an ascending row ascends.
pub proof fn lemma_filter_ascends(s: Seq<usize>, keep: spec_fn(usize) -> bool)
    requires
        strictly_ascending(s),
    ensures
        strictly_ascending(s.filter(keep)),
        forall|i: int| 0 <= i < s.filter(keep).len() ==> s.contains(#[trigger] s.filter(keep)[i]) && keep(
            s.filter(keep)[i],
        ),
        forall|x: usize| s.contains(x) && #[trigger] keep(x) ==> s.filter(keep).contains(x),
    decreases s.len(),
{
    reveal(Seq::filter);
    if s.len() > 0 {
        let t = s.drop_last();
        lemma_filter_ascends(t, keep);
        let f = t.filter(keep);
        let g = s.filter(keep);
        assert forall|i: int| 0 <= i < g.len() implies s.contains(#[trigger] g[i]) && keep(g[i]) by {
            if i < f.len() {
                assert(t.contains(f[i]));
                let j = choose|j: int| 0 <= j < t.len() && t[j] == f[i];
                assert(s[j] == g[i]);
            } else {
                assert(s[s.len() - 1] == g[i]);
            }
        }
        assert forall|i: int, j: int| 0 <= i < j < g.len() implies g[i] < g[j] by {
            if j == f.len() {
                assert(t.contains(f[i]));
                let n = choose|n: int| 0 <= n < t.len() && t[n] == f[i];
                assert(s[n] < s[s.len() - 1]);
            }
        }
        assert forall|x: usize| s.contains(x) && #[trigger] keep(x) implies g.contains(x) by {
            let n = choose|n: int| 0 <= n < s.len() && s[n] == x;
            if n < t.len() {
                assert(t[n] == x);
                assert(f.contains(x));
                let i = choose|i: int| 0 <= i < f.len() && f[i] == x;
                assert(g[i] == x);
            } else {
                assert(g[f.len() as int] == x);
            }
        }
    }
}

/// Every finite set can be listed in ascending order.
pub proof fn lemma_ascending_exists(d: Set<usize>)
    requires
        d.finite(),
    ensures
        strictly_ascending(ascending(d)),
        ascending(d).to_set() == d,
        ascending(d).len() == d.len(),
{
    let s = lemma_list(d);
    lemma_is_ascending(s, d);
}

proof fn lemma_list(d: Set<usize>) -> (s: Seq<usize>)
    requires
        d.finite(),
    ensures
        strictly_ascending(s),
        s.to_set() == d,
        s.len() == d.len(),
    decreases d.len(),
{
    if d.len() == 0 {
        assert(d =~= Set::empty());
        let s = Seq::<usize>::empty();
        assert(s.to_set() =~= d);
        s
    } else {
        let x = d.choose();
        let m = lemma_greatest(d, x);
        let t = lemma_list(d.remove(m));
        let s = t.push(m);
        assert forall|i: int, j: int| 0 <= i < j < s.len() implies s[i] < s[j] by {
            assert(t.to_set().contains(t[i]));
            if j < t.len() {
                assert(t.to_set().contains(t[j]));
            }
        }
        assert forall|y: usize| s.to_set().contains(y) <==> d.contains(y) by {
            if d.contains(y) && y != m {
                assert(t.to_set().contains(y));
                let i = choose|i: int| 0 <= i < t.len() && t[i] == y;
                assert(s[i] == y);
            }
            if s.contains(y) {
                let i = choose|i: int| 0 <= i < s.len() && s[i] == y;
                if i < t.len() {
                    assert(t.to_set().contains(t[i]));
                }
            }
            assert(s[t.len() as int] == m);
        }
        assert(s.to_set() =~= d);
        s
    }
}

proof fn lemma_greatest(d: Set<usize>, x: usize) -> (m: usize)
    requires
        d.contains(x),
    ensures
        d.contains(m),
        forall|y: usize| #[trigger] d.contains(y) ==> y <= m,
    decreases usize::MAX - x,
{
    if exists|y: usize| #[trigger] d.contains(y) && y > x {
        let y = choose|y: usize| #[trigger] d.contains(y) && y > x;
        lemma_greatest(d, y)
    } else {
        x
    }
}

proof fn use_order(keys: Seq<usize>, i: int, j: int)
    requires
        vstd::std_specs::btree::increasing_seq(keys),
        0 <= i < j < keys.len(),
    ensures
        keys[i] < keys[j],
{
    broadcast use vstd::laws_cmp::group_laws_cmp;

    assert(vstd::laws_cmp::obeys_cmp::<usize>());
    assert(vstd::std_specs::cmp::OrdSpec::cmp_spec(&keys[i], &keys[j]) is Less);
}

/// The keys of `m` in ascending order.
pub fn sorted_keys<V>(m: &BTreeMap<usize, V>) -> (r: Vec<usize>)
    ensures
        r@ == ascending(m@.dom()),
        strictly_ascending(r@),
        r@.to_set() == m@.dom(),
        r@.len() == m@.dom().len(),
{
    let mut r: Vec<usize> = Vec::new();
    let ghost pairs = vstd::std_specs::iter::IteratorSpec::remaining(&m.iter());
    for (k, _v) in it: m.iter()
        invariant
            it.seq() == pairs,
            r@.len() == it.index(),
            forall|i: int| 0 <= i < r@.len() ==> r@[i] == *pairs[i].0,
    {
        r.push(*k);
    }
    proof {
        let keys = pairs.map_values(|kv: (&usize, &V)| *kv.0);
        assert(keys =~= r@);
        assert(vstd::std_specs::btree::increasing_seq(keys));
        assert forall|i: int, j: int| 0 <= i < j < r@.len() implies r@[i] < r@[j] by {
            use_order(keys, i, j);
        }
        assert forall|k: usize| r@.to_set().contains(k) <==> m@.dom().contains(k) by {
            if r@.contains(k) {
                let i = choose|i: int| 0 <= i < r@.len() && r@[i] == k;
                assert(m@.contains_key(*pairs[i].0));
            }
            if m@.contains_key(k) {
                assert(pairs.contains((&k, &m@[k])));
                let i = choose|i: int| 0 <= i < pairs.len() && pairs[i] == (&k, &m@[k]);
                assert(r@[i] == k);
            }
        }
        assert(r@.to_set() =~= m@.dom());
        lemma_is_ascending(r@, m@.dom());
    }
    r
}

} // verus!
