//! Facts about sequences.

use vstd::prelude::*;

verus! {

/// Filtering one more element keeps it or not.
pub proof fn lemma_filter_push<A>(s: Seq<A>, a: A, keep: spec_fn(A) -> bool)
    ensures
        s.push(a).filter(keep) == (if keep(a) { s.filter(keep).push(a) } else { s.filter(keep) }),
{
    reveal(Seq::filter);
    assert(s.push(a).drop_last() =~= s);
}

/// Where no element occurs twice, a filter keeps just those that satisfy it, and as many as the
/// set of them has.
pub proof fn lemma_filter_counts(s: Seq<usize>, keep: spec_fn(usize) -> bool)
    requires
        s.no_duplicates(),
    ensures
        forall|x: usize| #[trigger] s.filter(keep).contains(x) <==> s.contains(x) && keep(x),
        s.filter(keep).len() == s.to_set().filter(keep).len(),
        s.filter(keep).no_duplicates(),
        s.to_set().filter(keep).finite(),
    decreases s.len(),
{
    reveal(Seq::filter);
    if s.len() == 0 {
        assert(s.to_set().filter(keep) =~= Set::empty());
    } else {
        let t = s.drop_last();
        let a = s.last();
        assert(s =~= t.push(a));
        assert forall|i: int, j: int| 0 <= i < t.len() && 0 <= j < t.len() && i != j implies t[i] != t[j] by {
            assert(s[i] != s[j]);
        }
        lemma_filter_counts(t, keep);
        lemma_filter_push(t, a, keep);
        assert(!t.contains(a)) by {
            if t.contains(a) {
                let i = choose|i: int| 0 <= i < t.len() && t[i] == a;
                assert(s[i] == s[s.len() - 1]);
            }
        }
        assert forall|x: usize| s.contains(x) <==> t.contains(x) || x == a by {
            if s.contains(x) && x != a {
                let i = choose|i: int| 0 <= i < s.len() && s[i] == x;
                assert(t[i] == x);
            }
            if t.contains(x) {
                let i = choose|i: int| 0 <= i < t.len() && t[i] == x;
                assert(s[i] == x);
            }
            assert(s[s.len() - 1] == a);
        }
        let f = t.filter(keep);
        let g = s.filter(keep);
        if keep(a) {
            assert(g == f.push(a));
            assert(s.to_set().filter(keep) =~= t.to_set().filter(keep).insert(a));
            assert forall|x: usize| #[trigger] g.contains(x) <==> s.contains(x) && keep(x) by {
                if g.contains(x) {
                    let i = choose|i: int| 0 <= i < g.len() && g[i] == x;
                    if i < f.len() {
                        assert(f[i] == x);
                        assert(f.contains(x));
                    }
                }
                if s.contains(x) && keep(x) {
                    if x == a {
                        assert(g[f.len() as int] == x);
                    } else {
                        assert(f.contains(x));
                        let i = choose|i: int| 0 <= i < f.len() && f[i] == x;
                        assert(g[i] == x);
                    }
                }
            }
            assert forall|i: int, j: int| 0 <= i < g.len() && 0 <= j < g.len() && i != j implies g[i] != g[j] by {
                if i == f.len() {
                    assert(f.contains(f[j]));
                } else if j == f.len() {
                    assert(f.contains(f[i]));
                } else {
                    assert(f[i] != f[j]);
                }
            }
        } else {
            assert(g == f);
            assert(s.to_set().filter(keep) =~= t.to_set().filter(keep));
            assert forall|x: usize| #[trigger] g.contains(x) <==> s.contains(x) && keep(x) by {
                assert(f.contains(x) <==> t.contains(x) && keep(x));
            }
        }
    }
}

/// How many elements satisfy `hit`.
pub open spec fn hits<A>(s: Seq<A>, hit: spec_fn(A) -> bool) -> nat {
    s.filter(hit).len()
}

/// The first `n` elements that satisfy `hit`, or all of them where there are fewer.
pub open spec fn first_hits<A>(s: Seq<A>, hit: spec_fn(A) -> bool, n: nat) -> Seq<A> {
    if n < hits(s, hit) {
        s.filter(hit).take(n as int)
    } else {
        s.filter(hit)
    }
}

/// `s` without the first `n` elements that satisfy `hit`, and with the next `m` of them
/// replaced through `to`.
pub open spec fn sifted<A>(s: Seq<A>, hit: spec_fn(A) -> bool, n: nat, m: nat, to: spec_fn(A) -> A) -> Seq<A>
    decreases s.len(),
{
    if s.len() == 0 {
        Seq::empty()
    } else {
        let front = sifted(s.drop_last(), hit, n, m, to);
        let k = hits(s.drop_last(), hit);
        if !hit(s.last()) || k >= n + m {
            front.push(s.last())
        } else if k < n {
            front
        } else {
            front.push(to(s.last()))
        }
    }
}

/// How the three grow with one more element.
pub proof fn lemma_sift_step<A>(s: Seq<A>, i: int, hit: spec_fn(A) -> bool, n: nat, m: nat, to: spec_fn(A) -> A)
    requires
        0 <= i < s.len(),
    ensures
        ({
            let k = hits(s.take(i), hit);
            let front = sifted(s.take(i), hit, n, m, to);
            let got = first_hits(s.take(i), hit, n);
            &&& hits(s.take(i + 1), hit) == (if hit(s[i]) { k + 1 } else { k })
            &&& hit(s[i]) && k < n ==> {
                &&& sifted(s.take(i + 1), hit, n, m, to) == front
                &&& first_hits(s.take(i + 1), hit, n) == got.push(s[i])
            }
            &&& !(hit(s[i]) && k < n) ==> first_hits(s.take(i + 1), hit, n) == got
            &&& hit(s[i]) && n <= k < n + m ==> sifted(s.take(i + 1), hit, n, m, to) == front.push(to(s[i]))
            &&& !hit(s[i]) || k >= n + m ==> sifted(s.take(i + 1), hit, n, m, to) == front.push(s[i])
        }),
{
    let t = s.take(i + 1);
    assert(t =~= s.take(i).push(s[i]));
    assert(t.drop_last() =~= s.take(i));
    lemma_filter_push(s.take(i), s[i], hit);
    let f = s.take(i).filter(hit);
    let k = hits(s.take(i), hit);
    if hit(s[i]) {
        assert(t.filter(hit) == f.push(s[i]));
        if k < n {
            assert(f.push(s[i]).take(k as int + 1) =~= f.push(s[i]));
        } else {
            assert(f.push(s[i]).take(n as int) =~= f.take(n as int));
            assert(f.take(k as int) =~= f);
        }
    }
}

/// Nothing is lost: what is left and what was taken are as many as there were.
pub proof fn lemma_sift_count<A>(s: Seq<A>, hit: spec_fn(A) -> bool, n: nat, m: nat, to: spec_fn(A) -> A)
    ensures
        sifted(s, hit, n, m, to).len() + first_hits(s, hit, n).len() == s.len(),
        first_hits(s, hit, n).len() == (if n < hits(s, hit) { n } else { hits(s, hit) }),
    decreases s.len(),
{
    reveal(Seq::filter);
    if s.len() > 0 {
        let t = s.drop_last();
        lemma_sift_count(t, hit, n, m, to);
        lemma_sift_step(s, s.len() - 1, hit, n, m, to);
        assert(s.take(s.len() - 1) =~= t);
        assert(s.take(s.len() as int) =~= s);
    }
}

/// The elements of `s` at the places where `marks` holds `m`.
pub open spec fn marked<A>(s: Seq<A>, marks: Seq<bool>, m: bool) -> Seq<A>
    decreases s.len(),
{
    if s.len() == 0 {
        Seq::empty()
    } else {
        let front = marked(s.drop_last(), marks, m);
        if marks[s.len() - 1] == m {
            front.push(s.last())
        } else {
            front
        }
    }
}

/// Marks behind the end of `s` do not matter, and one more element is kept or not.
pub proof fn lemma_marked_push<A>(s: Seq<A>, a: A, marks: Seq<bool>, b: bool, m: bool)
    requires
        marks.len() == s.len(),
    ensures
        marked(s.push(a), marks.push(b), m) == (if b == m {
            marked(s, marks, m).push(a)
        } else {
            marked(s, marks, m)
        }),
{
    assert(s.push(a).drop_last() =~= s);
    lemma_marked_local(s, marks.push(b), marks, m);
}

proof fn lemma_marked_local<A>(s: Seq<A>, marks: Seq<bool>, others: Seq<bool>, m: bool)
    requires
        s.len() <= marks.len(),
        s.len() <= others.len(),
        forall|i: int| 0 <= i < s.len() ==> marks[i] == others[i],
    ensures
        marked(s, marks, m) == marked(s, others, m),
    decreases s.len(),
{
    if s.len() > 0 {
        lemma_marked_local(s.drop_last(), marks, others, m);
    }
}

/// Marks that tell who satisfies `keep` pick what a filter picks.
pub proof fn lemma_marked_filter<A>(s: Seq<A>, marks: Seq<bool>, m: bool, keep: spec_fn(A) -> bool)
    requires
        marks.len() == s.len(),
        forall|i: int| 0 <= i < s.len() ==> (#[trigger] marks[i] == m) == keep(s[i]),
    ensures
        marked(s, marks, m) == s.filter(keep),
    decreases s.len(),
{
    reveal(Seq::filter);
    if s.len() > 0 {
        let n = s.len() - 1;
        assert(marks[n] == marks.drop_last().push(marks.last())[n]);
        assert forall|i: int| 0 <= i < n implies (#[trigger] marks.drop_last()[i] == m) == keep(s.drop_last()[i]) by {
            assert(marks[i] == marks.drop_last()[i]);
        }
        lemma_marked_filter(s.drop_last(), marks.drop_last(), m, keep);
        lemma_marked_local(s.drop_last(), marks, marks.drop_last(), m);
        assert((marks[n] == m) == keep(s[n]));
    }
}

} // verus!
