//! Searching a byte string for a pattern.

use vstd::prelude::*;

verus! {

/// The first `k` bytes of `pat` are the `k` bytes of `t` that end before position `n`.
pub open spec fn ends_with_prefix(t: Seq<u8>, n: int, pat: Seq<u8>, k: int) -> bool {
    &&& 0 <= k <= n <= t.len()
    &&& k <= pat.len()
    &&& forall|x: int| 0 <= x < k ==> #[trigger] pat[x] == t[n - k + x]
}

/// `pat` stands in `data` at position `i`.
pub open spec fn occurs_at(data: Seq<u8>, pat: Seq<u8>, i: int) -> bool {
    0 <= i && i + pat.len() <= data.len() && data.subrange(i, i + pat.len()) == pat
}

/// Every position at which `pat` stands within the first `n` bytes of `data`, in ascending order.
pub open spec fn occurrences(data: Seq<u8>, pat: Seq<u8>, n: nat) -> Seq<usize>
    decreases n,
{
    if n == 0 {
        Seq::empty()
    } else {
        let before = occurrences(data, pat, (n - 1) as nat);
        if occurs_at(data, pat, n - pat.len()) {
            before.push((n - pat.len()) as usize)
        } else {
            before
        }
    }
}

/// `k` is the length of the longest prefix of `pat`, shorter than `lim`, that ends before
/// position `n` of `t`.
spec fn longest_prefix(t: Seq<u8>, n: int, pat: Seq<u8>, lim: int, k: int) -> bool {
    &&& k < lim
    &&& ends_with_prefix(t, n, pat, k)
    &&& forall|j: int| k < j < lim ==> !ends_with_prefix(t, n, pat, j)
}

/// Of two prefixes that end at one place the shorter ends the longer.
proof fn lemma_nested(t: Seq<u8>, n: int, pat: Seq<u8>, q: int, k: int)
    requires
        ends_with_prefix(t, n, pat, q),
        ends_with_prefix(t, n, pat, k),
        k <= q,
    ensures
        ends_with_prefix(pat, q, pat, k),
{
    assert forall|x: int| 0 <= x < k implies #[trigger] pat[x] == pat[q - k + x] by {
        assert(pat[q - k + x] == t[n - q + (q - k + x)]);
    }
}

/// What ends a prefix that ends at some place ends there too.
proof fn lemma_transfer(t: Seq<u8>, n: int, pat: Seq<u8>, q: int, k: int)
    requires
        ends_with_prefix(t, n, pat, q),
        ends_with_prefix(pat, q, pat, k),
    ensures
        ends_with_prefix(t, n, pat, k),
{
    assert forall|x: int| 0 <= x < k implies #[trigger] pat[x] == t[n - k + x] by {
        assert(pat[q - k + x] == t[n - q + (q - k + x)]);
    }
}

/// A prefix grows by one byte exactly if the next bytes agree.
proof fn lemma_grow(t: Seq<u8>, n: int, pat: Seq<u8>, k: int)
    requires
        0 <= n < t.len(),
        0 <= k < pat.len(),
    ensures
        ends_with_prefix(t, n + 1, pat, k + 1) <==> ends_with_prefix(t, n, pat, k) && pat[k] == t[n],
{
    if ends_with_prefix(t, n + 1, pat, k + 1) {
        assert(pat[k] == t[n + 1 - (k + 1) + k]);
        assert forall|x: int| 0 <= x < k implies #[trigger] pat[x] == t[n - k + x] by {
            assert(pat[x] == t[n + 1 - (k + 1) + x]);
        }
    }
    if ends_with_prefix(t, n, pat, k) && pat[k] == t[n] {
        assert forall|x: int| 0 <= x < k + 1 implies #[trigger] pat[x] == t[n + 1 - (k + 1) + x] by {
            if x < k {
                assert(pat[x] == t[n - k + x]);
            }
        }
    }
}

/// The candidate `q` and every longer one have been tried against the byte after position `n`;
/// the next one to try is the longest proper border of the first `q` bytes.
proof fn lemma_fall_back(t: Seq<u8>, n: int, pat: Seq<u8>, lim: int, q: int, b: int)
    requires
        0 < q,
        0 <= n < t.len(),
        lim <= pat.len(),
        ends_with_prefix(t, n, pat, q),
        pat[q] != t[n],
        longest_prefix(pat, q, pat, q, b),
        forall|j: int| q < j < lim && ends_with_prefix(t, n, pat, j) ==> pat[j] != t[n],
    ensures
        ends_with_prefix(t, n, pat, b),
        forall|j: int| b < j < lim && ends_with_prefix(t, n, pat, j) ==> pat[j] != t[n],
{
    lemma_transfer(t, n, pat, q, b);
    assert forall|j: int| b < j < lim && ends_with_prefix(t, n, pat, j) implies pat[j] != t[n] by {
        if j < q {
            lemma_nested(t, n, pat, q, j);
        }
    }
}

/// One more byte of the text: `q` is the longest candidate that the byte extends, or zero.
proof fn lemma_advance(t: Seq<u8>, n: int, pat: Seq<u8>, lim: int, q: int, r: int)
    requires
        0 <= n < t.len(),
        0 <= q < lim <= pat.len(),
        ends_with_prefix(t, n, pat, q),
        q == 0 || pat[q] == t[n],
        forall|j: int| q < j < lim && ends_with_prefix(t, n, pat, j) ==> pat[j] != t[n],
        r == (if pat[q] == t[n] { q + 1 } else { q }),
    ensures
        longest_prefix(t, n + 1, pat, lim + 1, r),
{
    lemma_grow(t, n, pat, q);
    let n1 = n + 1;
    assert forall|j: int| r < j < lim + 1 implies !ends_with_prefix(t, n1, pat, j) by {
        lemma_grow(t, n, pat, j - 1);
    }
}

proof fn lemma_whole(t: Seq<u8>, n: int, pat: Seq<u8>)
    requires
        pat.len() <= n <= t.len(),
    ensures
        ends_with_prefix(t, n, pat, pat.len() as int) <==> occurs_at(t, pat, n - pat.len()),
{
    let s = t.subrange(n - pat.len(), n);
    if ends_with_prefix(t, n, pat, pat.len() as int) {
        assert forall|x: int| 0 <= x < pat.len() implies s[x] == pat[x] by {
            assert(pat[x] == t[n - pat.len() + x]);
        }
        assert(s =~= pat);
    }
    if occurs_at(t, pat, n - pat.len()) {
        assert forall|x: int| 0 <= x < pat.len() implies #[trigger] pat[x] == t[n - pat.len() + x] by {
            assert(s[x] == t[n - pat.len() + x]);
        }
    }
}

/// Positions at which `pattern` stands in `data`, overlapping ones included, in ascending order.
///
/// The search stops once `max_matches` positions have been found, but not before the first one.
/// An empty pattern stands nowhere.
pub fn mem_scan_pattern(data: &[u8], pattern: &[u8], max_matches: usize) -> (results: Vec<usize>)
    ensures
        pattern@.len() == 0 ==> results@.len() == 0,
        pattern@.len() > 0 ==> ({
            let all = occurrences(data@, pattern@, data@.len());
            let limit = if max_matches == 0 { 1 } else { max_matches as int };
            results@ == (if all.len() <= limit { all } else { all.take(limit) })
        }),
{
    let mut results: Vec<usize> = Vec::new();
    if pattern.len() == 0 || data.len() < pattern.len() {
        proof {
            if pattern@.len() > 0 {
                lemma_too_short(data@, pattern@, data@.len());
            }
        }
        return results;
    }
    let plen: usize = pattern.len();
    let fail: Vec<usize> = failure_table(pattern);
    let ghost pat = pattern@;
    let ghost t = data@;
    let ghost limit = if max_matches == 0 { 1 } else { max_matches as int };
    let mut q: usize = 0;
    let mut i: usize = 0;
    while i < data.len()
        invariant
            i <= data@.len(),
            t == data@,
            pat == pattern@,
            plen == pat.len(),
            0 < plen <= t.len(),
            fail@.len() == plen,
            forall|x: int| 0 <= x < plen ==> longest_prefix(pat, x + 1, pat, x + 1, #[trigger] fail@[x] as int),
            longest_prefix(t, i as int, pat, plen as int, q as int),
            results@ == occurrences(t, pat, i as nat),
            limit == (if max_matches == 0 { 1 } else { max_matches as int }),
            results@.len() < limit,
        decreases data@.len() - i,
    {
        while q > 0 && pattern[q] != data[i]
            invariant
                i < t.len(),
                t == data@,
                pat == pattern@,
                plen == pat.len(),
                fail@.len() == plen,
                forall|x: int| 0 <= x < plen ==> longest_prefix(pat, x + 1, pat, x + 1, #[trigger] fail@[x] as int),
                q < plen,
                ends_with_prefix(t, i as int, pat, q as int),
                forall|j: int| q < j < plen && ends_with_prefix(t, i as int, pat, j) ==> pat[j] != t[i as int],
            decreases q,
        {
            proof {
                lemma_fall_back(t, i as int, pat, plen as int, q as int, fail@[q - 1] as int);
            }
            q = fail[q - 1];
        }
        let ghost q0 = q as int;
        if pattern[q] == data[i] {
            q += 1;
        }
        proof {
            lemma_advance(t, i as int, pat, plen as int, q0, q as int);
            if i + 1 >= plen {
                lemma_whole(t, i + 1, pat);
            }
        }
        if q == plen {
            results.push(i + 1 - plen);
            if results.len() >= max_matches {
                proof {
                    lemma_prefix_of_occurrences(t, pat, (i + 1) as nat, t.len());
                    let all = occurrences(t, pat, t.len());
                    assert(all.take(limit) =~= results@);
                }
                return results;
            }
            proof {
                let b = fail@[plen - 1] as int;
                let n1 = i + 1;
                lemma_transfer(t, n1, pat, q as int, b);
                assert forall|j: int| b < j < plen implies !ends_with_prefix(t, n1, pat, j) by {
                    if ends_with_prefix(t, n1, pat, j) {
                        lemma_nested(t, n1, pat, q as int, j);
                    }
                }
            }
            q = fail[q - 1];
        }
        i += 1;
    }
    results
}

/// For each prefix of the pattern, the length of its longest proper border.
fn failure_table(pattern: &[u8]) -> (fail: Vec<usize>)
    requires
        pattern@.len() > 0,
    ensures
        fail@.len() == pattern@.len(),
        forall|x: int|
            0 <= x < pattern@.len() ==> longest_prefix(pattern@, x + 1, pattern@, x + 1, #[trigger] fail@[x] as int),
{
    let plen: usize = pattern.len();
    let ghost pat = pattern@;
    let mut fail: Vec<usize> = Vec::with_capacity(plen);
    fail.push(0);
    let mut k: usize = 0;
    let mut i: usize = 1;
    while i < plen
        invariant
            1 <= i <= plen,
            pat == pattern@,
            plen == pat.len(),
            fail@.len() == i,
            forall|x: int| 0 <= x < i ==> longest_prefix(pat, x + 1, pat, x + 1, #[trigger] fail@[x] as int),
            k == fail@[i - 1],
        decreases plen - i,
    {
        while k > 0 && pattern[k] != pattern[i]
            invariant
                1 <= i < plen,
                pat == pattern@,
                plen == pat.len(),
                fail@.len() == i,
                forall|x: int| 0 <= x < i ==> longest_prefix(pat, x + 1, pat, x + 1, #[trigger] fail@[x] as int),
                k < i,
                ends_with_prefix(pat, i as int, pat, k as int),
                forall|j: int| k < j < i && ends_with_prefix(pat, i as int, pat, j) ==> pat[j] != pat[i as int],
            decreases k,
        {
            proof {
                lemma_fall_back(pat, i as int, pat, i as int, k as int, fail@[k - 1] as int);
            }
            k = fail[k - 1];
        }
        let ghost k0 = k as int;
        if pattern[k] == pattern[i] {
            k += 1;
        }
        proof {
            lemma_advance(pat, i as int, pat, i as int, k0, k as int);
        }
        fail.push(k);
        i += 1;
    }
    fail
}

proof fn lemma_too_short(data: Seq<u8>, pat: Seq<u8>, n: nat)
    requires
        data.len() < pat.len(),
    ensures
        occurrences(data, pat, n).len() == 0,
    decreases n,
{
    if n > 0 {
        lemma_too_short(data, pat, (n - 1) as nat);
    }
}

/// What stands in a longer part of the text continues what stands in a shorter one.
pub proof fn lemma_prefix_of_occurrences(data: Seq<u8>, pat: Seq<u8>, m: nat, n: nat)
    requires
        m <= n,
    ensures
        occurrences(data, pat, m).len() <= occurrences(data, pat, n).len(),
        occurrences(data, pat, n).take(occurrences(data, pat, m).len() as int) == occurrences(data, pat, m),
    decreases n,
{
    if m < n {
        lemma_prefix_of_occurrences(data, pat, m, (n - 1) as nat);
        let a = occurrences(data, pat, m);
        let b = occurrences(data, pat, (n - 1) as nat);
        let c = occurrences(data, pat, n);
        assert(c.take(a.len() as int) =~= b.take(a.len() as int));
    } else {
        assert(occurrences(data, pat, n).take(occurrences(data, pat, m).len() as int) =~= occurrences(data, pat, m));
    }
}

/// A position is listed exactly if the pattern stands there.
pub proof fn law_occurrences_complete(data: Seq<u8>, pat: Seq<u8>, n: nat, i: usize)
    requires
        0 < pat.len(),
        n <= data.len() <= usize::MAX,
    ensures
        occurrences(data, pat, n).contains(i) <==> occurs_at(data, pat, i as int) && i + pat.len() <= n,
    decreases n,
{
    if n > 0 {
        law_occurrences_complete(data, pat, (n - 1) as nat, i);
        let b = occurrences(data, pat, (n - 1) as nat);
        let c = occurrences(data, pat, n);
        if b.contains(i) {
            let x = choose|x: int| 0 <= x < b.len() && b[x] == i;
            assert(c[x] == i);
        }
        if occurs_at(data, pat, n - pat.len()) && i == n - pat.len() {
            assert(c[c.len() - 1] == i);
        }
        if c.contains(i) && !b.contains(i) {
            let x = choose|x: int| 0 <= x < c.len() && c[x] == i;
            assert(x == b.len());
        }
    }
}

} // verus!
