//! Mounts: which part of a path lies on which device.

use crate::cpu::context::{fnv_mix, FNV_BASIS, FNV_PRIME};
use std::collections::BTreeMap;
use vstd::prelude::*;
use vstd::string::*;
use vstd::utf8::*;

verus! {

broadcast use {vstd::std_specs::btree::group_btree_axioms, vstd::laws_cmp::group_laws_cmp};

/// How many mounts a path may lead through.
pub const MNT_DEPTH: usize = 8;

#[derive(Debug)]
pub struct MountEntry {
    pub prefix: String,
    pub target: String,
}

/// What a mount stands for.
#[verifier::ext_equal]
pub ghost struct MountView {
    pub prefix: Seq<char>,
    pub target: Seq<char>,
}

impl View for MountEntry {
    type V = MountView;

    open spec fn view(&self) -> MountView {
        MountView { prefix: self.prefix@, target: self.target@ }
    }
}

impl Clone for MountEntry {
    fn clone(&self) -> (r: Self)
        ensures
            r@ == self@,
    {
        MountEntry { prefix: self.prefix.clone(), target: self.target.clone() }
    }
}

/// The mounts in the order in which they were bound.
pub struct MountTable {
    pub entries: Vec<MountEntry>,
}

/// What a row of mounts stands for.
pub open spec fn mounts_view(v: Seq<MountEntry>) -> Seq<MountView> {
    v.map_values(|m: MountEntry| m@)
}

impl View for MountTable {
    type V = Seq<MountView>;

    open spec fn view(&self) -> Seq<MountView> {
        mounts_view(self.entries@)
    }
}

/// The mount covers the path.
pub open spec fn covers(m: MountView, path: Seq<char>) -> bool {
    m.prefix.len() > 0 && m.prefix.is_prefix_of(path)
}

/// Among the first `n` mounts, the first with the longest prefix that covers the path.
pub open spec fn best_mount(ms: Seq<MountView>, path: Seq<char>, n: nat) -> Option<int>
    decreases n,
{
    if n == 0 {
        None
    } else {
        let best = best_mount(ms, path, (n - 1) as nat);
        if !covers(ms[n - 1], path) {
            best
        } else {
            match best {
                None => Some(n - 1),
                Some(i) => if ms[n - 1].prefix.len() > ms[i].prefix.len() {
                    Some(n - 1)
                } else {
                    best
                },
            }
        }
    }
}

/// A path with every run of slashes made one.
pub open spec fn collapsed(path: Seq<char>) -> Seq<char>
    decreases path.len(),
{
    if path.len() == 0 {
        Seq::empty()
    } else {
        let front = collapsed(path.drop_last());
        if path.last() == '/' && path.len() >= 2 && path[path.len() - 2] == '/' {
            front
        } else {
            front.push(path.last())
        }
    }
}

/// What a path leads to: the device of the mount that covers it, a colon, and what the rest of
/// the path leads to. `None` if it leads through more mounts than `fuel`.
pub open spec fn resolved(ms: Seq<MountView>, path: Seq<char>, fuel: nat) -> Option<Seq<char>>
    decreases fuel,
{
    if fuel == 0 {
        None
    } else {
        match best_mount(ms, path, ms.len()) {
            None => Some(collapsed(path)),
            Some(i) => match resolved(ms, path.skip(ms[i].prefix.len() as int), (fuel - 1) as nat) {
                None => None,
                Some(sub) => Some(ms[i].target.push(':') + sub),
            },
        }
    }
}

/// How many mounts a path may still lead through after `depth` of them.
pub open spec fn mounts_left(depth: usize) -> nat {
    if depth < MNT_DEPTH {
        (MNT_DEPTH - depth) as nat
    } else {
        0
    }
}

pub open spec fn other_prefix(pfx: Seq<char>) -> spec_fn(MountView) -> bool {
    |m: MountView| m.prefix != pfx
}

/// What a mount hashes to.
pub open spec fn mount_hash(m: MountView) -> u64 {
    let bytes = encode_utf8(m.prefix).map_values(|b: u8| b as u64);
    (fnv_mix(bytes) ^ encode_utf8(m.target).len() as u64).wrapping_mul(0x517cc1b727220a95)
}

/// The places of the first `n` mounts by their hashes. Of two with the same hash the later counts.
pub open spec fn rehashed(ms: Seq<MountView>, n: nat) -> Map<u64, usize>
    decreases n,
{
    if n == 0 {
        Map::empty()
    } else {
        rehashed(ms, (n - 1) as nat).insert(mount_hash(ms[n - 1]), (n - 1) as usize)
    }
}

fn chars_of(s: &str) -> (r: Vec<char>)
    ensures
        r@ == s@,
{
    let mut out: Vec<char> = Vec::new();
    let n: usize = s.unicode_len();
    let mut i: usize = 0;
    while i < n
        invariant
            i <= n,
            n == s@.len(),
            out@ == s@.take(i as int),
        decreases n - i,
    {
        out.push(s.get_char(i));
        i += 1;
        assert(out@ =~= s@.take(i as int));
    }
    assert(s@.take(i as int) =~= s@);
    out
}

fn same_text(a: &str, b: &str) -> (r: bool)
    ensures
        r == (a@ == b@),
{
    let x = a.to_owned();
    let y = b.to_owned();
    x == y
}

impl MountTable {
    pub fn new() -> (r: Self)
        ensures
            r@ == Seq::<MountView>::empty(),
    {
        let r = MountTable { entries: Vec::new() };
        assert(r@ =~= Seq::empty());
        r
    }

    /// Binds a prefix to a target, unless it is bound to that target already.
    pub fn bind(&mut self, pfx: &str, tgt: &str)
        ensures
            final(self)@ == (if old(self)@.contains(MountView { prefix: pfx@, target: tgt@ }) {
                old(self)@
            } else {
                old(self)@.push(MountView { prefix: pfx@, target: tgt@ })
            }),
    {
        let ghost want = MountView { prefix: pfx@, target: tgt@ };
        let mut i: usize = 0;
        while i < self.entries.len()
            invariant
                i <= self.entries@.len(),
                self@ == old(self)@,
                want == (MountView { prefix: pfx@, target: tgt@ }),
                forall|k: int| 0 <= k < i ==> self@[k] != want,
            decreases self.entries@.len() - i,
        {
            assert(self@[i as int] == self.entries@[i as int]@);
            if same_text(self.entries[i].prefix.as_str(), pfx) && same_text(self.entries[i].target.as_str(), tgt) {
                assert(self@[i as int] == want);
                return ;
            }
            i += 1;
        }
        self.entries.push(MountEntry { prefix: pfx.to_owned(), target: tgt.to_owned() });
        assert(self@ =~= old(self)@.push(want));
    }

    /// The mount whose prefix is the longest that starts the path from place `from` on.
    fn longest_prefix_match(&self, path: &Vec<char>, from: usize) -> (r: Option<usize>)
        requires
            from <= path@.len(),
        ensures
            r is Some == best_mount(self@, path@.skip(from as int), self@.len()) is Some,
            r is Some ==> {
                &&& r->Some_0 == best_mount(self@, path@.skip(from as int), self@.len())->Some_0
                &&& r->Some_0 < self.entries@.len()
                &&& covers(self@[r->Some_0 as int], path@.skip(from as int))
            },
    {
        let ghost rest = path@.skip(from as int);
        let mut best: Option<usize> = None;
        let mut best_len: usize = 0;
        let mut i: usize = 0;
        while i < self.entries.len()
            invariant
                i <= self.entries@.len(),
                from <= path@.len(),
                rest == path@.skip(from as int),
                best is Some == best_mount(self@, rest, i as nat) is Some,
                best is None ==> best_len == 0,
                best is Some ==> {
                    &&& best->Some_0 == best_mount(self@, rest, i as nat)->Some_0
                    &&& best->Some_0 < i
                    &&& best_len == self@[best->Some_0 as int].prefix.len()
                    &&& covers(self@[best->Some_0 as int], rest)
                },
            decreases self.entries@.len() - i,
        {
            let p = chars_of(self.entries[i].prefix.as_str());
            assert(self@[i as int].prefix == p@);
            if starts_with(path, from, &p) && p.len() > best_len {
                best_len = p.len();
                best = Some(i);
            }
            i += 1;
        }
        best
    }

    /// What the path from place `from` on leads to, after `depth` mounts.
    fn resolve_from(&self, path: &Vec<char>, from: usize, depth: usize) -> (r: Result<String, &'static str>)
        requires
            from <= path@.len(),
            depth <= MNT_DEPTH,
        ensures
            match resolved(self@, path@.skip(from as int), (MNT_DEPTH - depth) as nat) {
                Some(s) => r is Ok && r->Ok_0@ == s,
                None => r == Err::<String, _>("mount depth exceeded"),
            },
        decreases MNT_DEPTH - depth,
    {
        if depth >= MNT_DEPTH {
            return Err("mount depth exceeded");
        }
        match self.longest_prefix_match(path, from) {
            Some(idx) => {
                let m = &self.entries[idx];
                let plen: usize = m.prefix.as_str().unicode_len();
                assert(self@[idx as int] == m@);
                let total: usize = path.len();
                assert(plen <= total - from);
                assert(path@.skip(from as int).skip(plen as int) =~= path@.skip(from + plen));
                match self.resolve_from(path, from + plen, depth + 1) {
                    Ok(sub) => {
                        let mut result: String = m.target.clone();
                        result.push(':');
                        result.append(sub.as_str());
                        Ok(result)
                    },
                    Err(e) => Err(e),
                }
            },
            None => Ok(collapse(path, from)),
        }
    }

    /// What a path leads to that was reached through `depth` mounts.
    pub fn resolve_inner(&self, path: &str, depth: usize) -> (r: Result<String, &'static str>)
        ensures
            match resolved(self@, path@, mounts_left(depth)) {
                Some(s) => r is Ok && r->Ok_0@ == s,
                None => r == Err::<String, _>("mount depth exceeded"),
            },
    {
        if depth >= MNT_DEPTH {
            return Err("mount depth exceeded");
        }
        let p = chars_of(path);
        assert(p@.skip(0) =~= path@);
        self.resolve_from(&p, 0, depth)
    }

    /// What a path leads to.
    pub fn resolve(&self, path: &str) -> (r: Result<String, &'static str>)
        ensures
            match resolved(self@, path@, MNT_DEPTH as nat) {
                Some(s) => r is Ok && r->Ok_0@ == s,
                None => r == Err::<String, _>("mount depth exceeded"),
            },
    {
        self.resolve_inner(path, 0)
    }

    /// Takes all mounts with that prefix off, and tells whether there were any.
    pub fn unmount(&mut self, pfx: &str) -> (r: bool)
        ensures
            final(self)@ == old(self)@.filter(other_prefix(pfx@)),
            r == (final(self)@.len() < old(self)@.len()),
    {
        let ghost ms = self@;
        let before: usize = self.entries.len();
        let mut rest: Vec<MountEntry> = Vec::new();
        let mut i: usize = 0;
        proof {
            reveal(Seq::filter);
            assert(ms.take(0).filter(other_prefix(pfx@)) =~= Seq::empty());
            assert(mounts_view(rest@) =~= Seq::empty());
        }
        while i < self.entries.len()
            invariant
                i <= self.entries@.len(),
                ms == self@,
                mounts_view(rest@) == ms.take(i as int).filter(other_prefix(pfx@)),
            decreases self.entries@.len() - i,
        {
            let m = self.entries[i].clone();
            proof {
                assert(m@ == ms[i as int]);
                assert(ms.take(i as int).push(m@) =~= ms.take(i + 1));
                crate::sequences::lemma_filter_push(ms.take(i as int), m@, other_prefix(pfx@));
                assert(mounts_view(rest@.push(m)) =~= mounts_view(rest@).push(m@));
            }
            if !same_text(m.prefix.as_str(), pfx) {
                rest.push(m);
            }
            i += 1;
        }
        assert(ms.take(i as int) =~= ms);
        self.entries = rest;
        assert(self@.len() == self.entries@.len());
        self.entries.len() < before
    }

    pub fn list_mounts(&self) -> (r: Vec<(String, String)>)
        ensures
            r@.len() == self@.len(),
            forall|i: int| 0 <= i < r@.len() ==> (#[trigger] r@[i]).0@ == self@[i].prefix && r@[i].1@ == self@[i].target,
    {
        let mut out: Vec<(String, String)> = Vec::new();
        let mut i: usize = 0;
        while i < self.entries.len()
            invariant
                i <= self.entries@.len(),
                out@.len() == i,
                forall|k: int|
                    0 <= k < i ==> (#[trigger] out@[k]).0@ == self@[k].prefix && out@[k].1@ == self@[k].target,
            decreases self.entries@.len() - i,
        {
            assert(self@[i as int] == self.entries@[i as int]@);
            out.push((self.entries[i].prefix.clone(), self.entries[i].target.clone()));
            i += 1;
        }
        out
    }

    /// The mount that covers the path with the longest prefix.
    pub fn find_mount(&self, path: &str) -> (r: Option<MountEntry>)
        ensures
            match best_mount(self@, path@, self@.len()) {
                Some(i) => r is Some && r->Some_0@ == self@[i],
                None => r is None,
            },
    {
        let p = chars_of(path);
        assert(p@.skip(0) =~= path@);
        match self.longest_prefix_match(&p, 0) {
            Some(i) => Some(self.entries[i].clone()),
            None => None,
        }
    }

    pub fn mount_count(&self) -> (r: usize)
        ensures
            r == self@.len(),
    {
        self.entries.len()
    }

    pub fn has_prefix(&self, pfx: &str) -> (r: bool)
        ensures
            r == exists|i: int| 0 <= i < self@.len() && (#[trigger] self@[i]).prefix == pfx@,
    {
        let mut i: usize = 0;
        while i < self.entries.len()
            invariant
                i <= self.entries@.len(),
                forall|k: int| 0 <= k < i ==> (#[trigger] self@[k]).prefix != pfx@,
            decreases self.entries@.len() - i,
        {
            assert(self@[i as int] == self.entries@[i as int]@);
            if same_text(self.entries[i].prefix.as_str(), pfx) {
                assert(self@[i as int].prefix == pfx@);
                return true;
            }
            i += 1;
        }
        false
    }
}

fn starts_with(path: &Vec<char>, from: usize, p: &Vec<char>) -> (r: bool)
    requires
        from <= path@.len(),
    ensures
        r == p@.is_prefix_of(path@.skip(from as int)),
{
    let ghost rest = path@.skip(from as int);
    if p.len() > path.len() - from {
        return false;
    }
    let mut j: usize = 0;
    while j < p.len()
        invariant
            j <= p@.len(),
            from + p@.len() <= path@.len(),
            path@.len() <= usize::MAX,
            rest == path@.skip(from as int),
            forall|k: int| 0 <= k < j ==> p@[k] == rest[k],
        decreases p@.len() - j,
    {
        assert(rest[j as int] == path@[from + j]);
        if p[j] != path[from + j] {
            assert(p@.is_prefix_of(rest) ==> p@[j as int] == rest.take(p@.len() as int)[j as int]);
            return false;
        }
        j += 1;
    }
    assert(p@ =~= rest.take(p@.len() as int));
    true
}

fn collapse(path: &Vec<char>, from: usize) -> (r: String)
    requires
        from <= path@.len(),
    ensures
        r@ == collapsed(path@.skip(from as int)),
{
    let ghost rest = path@.skip(from as int);
    let mut out: String = String::new();
    let mut prev_slash: bool = false;
    let mut i: usize = from;
    assert(out@ =~= collapsed(rest.take(0)));
    while i < path.len()
        invariant
            from <= i <= path@.len(),
            rest == path@.skip(from as int),
            out@ == collapsed(rest.take(i - from)),
            prev_slash == (i > from && path@[i - 1] == '/'),
        decreases path@.len() - i,
    {
        let ch: char = path[i];
        proof {
            let t = rest.take(i + 1 - from);
            assert(t.drop_last() =~= rest.take(i - from));
            assert(t.last() == ch);
            if i > from {
                assert(t[t.len() - 2] == path@[i - 1]);
            }
        }
        if ch == '/' {
            if !prev_slash {
                out.push(ch);
            }
            prev_slash = true;
        } else {
            out.push(ch);
            prev_slash = false;
        }
        i += 1;
    }
    assert(rest.take(i - from) =~= rest);
    out
}

fn hash_of(m: &MountEntry) -> (h: u64)
    ensures
        h == mount_hash(m@),
{
    let b = m.prefix.as_str().as_bytes();
    let ghost words = b@.map_values(|b: u8| b as u64);
    let mut h: u64 = FNV_BASIS;
    let mut i: usize = 0;
    while i < b.len()
        invariant
            i <= b@.len(),
            words == b@.map_values(|b: u8| b as u64),
            h == fnv_mix(words.take(i as int)),
        decreases b@.len() - i,
    {
        assert(words.take(i + 1).drop_last() =~= words.take(i as int));
        h = (h ^ b[i] as u64).wrapping_mul(FNV_PRIME);
        i += 1;
    }
    assert(words.take(i as int) =~= words);
    let t = m.target.as_str().as_bytes();
    (h ^ t.len() as u64).wrapping_mul(0x517cc1b727220a95)
}

/// The places of the mounts by their hashes.
pub fn rehash_mount_cache(entries: &[MountEntry]) -> (r: BTreeMap<u64, usize>)
    ensures
        r@ == rehashed(mounts_view(entries@), entries@.len()),
{
    let mut map: BTreeMap<u64, usize> = BTreeMap::new();
    let mut i: usize = 0;
    while i < entries.len()
        invariant
            i <= entries@.len(),
            map@ == rehashed(mounts_view(entries@), i as nat),
        decreases entries@.len() - i,
    {
        let h: u64 = hash_of(&entries[i]);
        assert(mounts_view(entries@)[i as int] == entries@[i as int]@);
        map.insert(h, i);
        i += 1;
    }
    map
}

/// The mount that is chosen covers the path; no mount with a longer prefix does, and none before
/// it has one as long.
pub proof fn law_best_mount_is_longest(ms: Seq<MountView>, path: Seq<char>, n: nat)
    requires
        n <= ms.len(),
    ensures
        match best_mount(ms, path, n) {
            None => forall|j: int| 0 <= j < n ==> !covers(#[trigger] ms[j], path),
            Some(i) => {
                &&& 0 <= i < n
                &&& covers(ms[i], path)
                &&& forall|j: int|
                    0 <= j < n && covers(#[trigger] ms[j], path) ==> ms[j].prefix.len() < ms[i].prefix.len() || (
                    ms[j].prefix.len() == ms[i].prefix.len() && i <= j)
            },
        },
    decreases n,
{
    if n > 0 {
        law_best_mount_is_longest(ms, path, (n - 1) as nat);
    }
}

/// A path that no mount covers leads to itself, with runs of slashes made one.
pub proof fn law_uncovered_path(ms: Seq<MountView>, path: Seq<char>)
    requires
        forall|j: int| 0 <= j < ms.len() ==> !covers(#[trigger] ms[j], path),
    ensures
        resolved(ms, path, MNT_DEPTH as nat) == Some(collapsed(path)),
{
    law_best_mount_is_longest(ms, path, ms.len());
}

/// No slash follows a slash.
pub open spec fn single_slashes(path: Seq<char>) -> bool {
    forall|i: int, j: int| 0 <= i && j == i + 1 && j < path.len() ==> !(#[trigger] path[i] == '/' && #[trigger] path[j] == '/')
}

/// A collapsed path has no two slashes in a row, and collapsing it again changes nothing.
pub proof fn law_collapse(path: Seq<char>)
    ensures
        single_slashes(collapsed(path)),
        collapsed(collapsed(path)) == collapsed(path),
{
    lemma_collapsed(path);
    lemma_already_collapsed(collapsed(path));
}

proof fn lemma_collapsed(path: Seq<char>)
    ensures
        single_slashes(collapsed(path)),
        path.len() > 0 ==> collapsed(path).len() > 0 && collapsed(path).last() == path.last(),
    decreases path.len(),
{
    if path.len() > 0 {
        let f = collapsed(path.drop_last());
        let c = collapsed(path);
        lemma_collapsed(path.drop_last());
        assert forall|i: int, j: int| 0 <= i && j == i + 1 && j < c.len() implies !(#[trigger] c[i] == '/'
            && #[trigger] c[j] == '/') by {
            if c.len() > f.len() && j == f.len() {
                assert(c[i] == f.last());
                assert(f.last() == path[path.len() - 2]);
            } else {
                assert(c[i] == f[i] && c[j] == f[j]);
            }
        }
    }
}

pub proof fn lemma_already_collapsed(path: Seq<char>)
    requires
        single_slashes(path),
    ensures
        collapsed(path) == path,
    decreases path.len(),
{
    if path.len() > 0 {
        let t = path.drop_last();
        assert forall|i: int, j: int| 0 <= i && j == i + 1 && j < t.len() implies !(#[trigger] t[i] == '/'
            && #[trigger] t[j] == '/') by {
            assert(path[i] == t[i] && path[j] == t[j]);
        }
        lemma_already_collapsed(t);
        if path.len() >= 2 {
            assert(!(path[path.len() - 2] == '/' && path[path.len() - 1] == '/'));
        }
        assert(t.push(path.last()) =~= path);
    } else {
        assert(collapsed(path) =~= path);
    }
}

/// After an unmount nothing with that prefix is left, and every other mount is.
pub proof fn law_unmount(ms: Seq<MountView>, pfx: Seq<char>, m: MountView)
    ensures
        ms.filter(other_prefix(pfx)).contains(m) <==> ms.contains(m) && m.prefix != pfx,
{
    let left = ms.filter(other_prefix(pfx));
    if left.contains(m) {
        let i = choose|i: int| 0 <= i < left.len() && left[i] == m;
        ms.lemma_filter_pred(other_prefix(pfx), i);
        ms.lemma_filter_contains_rev(other_prefix(pfx), m);
    }
    if ms.contains(m) && m.prefix != pfx {
        let i = choose|i: int| 0 <= i < ms.len() && ms[i] == m;
        ms.lemma_filter_contains(other_prefix(pfx), i);
    }
}

/// The first of the longest mounts that cover a path decides where it leads.
pub proof fn law_longest_mount_decides(ms: Seq<MountView>, path: Seq<char>, i: int, fuel: nat)
    requires
        0 <= i < ms.len(),
        fuel > 0,
        covers(ms[i], path),
        forall|j: int|
            0 <= j < ms.len() && covers(#[trigger] ms[j], path) ==> ms[j].prefix.len() < ms[i].prefix.len() || (
            ms[j].prefix.len() == ms[i].prefix.len() && i <= j),
    ensures
        resolved(ms, path, fuel) == (match resolved(ms, path.skip(ms[i].prefix.len() as int), (fuel - 1) as nat) {
            Some(sub) => Some(ms[i].target.push(':') + sub),
            None => None,
        }),
{
    law_best_mount_is_longest(ms, path, ms.len());
    let best = best_mount(ms, path, ms.len());
    assert(best is Some);
    let b = best->Some_0;
    assert(covers(ms[b], path));
    assert(b == i);
}

/// One step of resolving: a path that no mount covers leads to itself with runs of slashes made
/// one; any other leads to the target of the first of the longest mounts that cover it, a colon,
/// and what the rest leads to one step further on.
pub proof fn law_resolve_step(ms: Seq<MountView>, path: Seq<char>, depth: usize)
    requires
        depth < MNT_DEPTH,
    ensures
        (forall|j: int| 0 <= j < ms.len() ==> !covers(#[trigger] ms[j], path)) ==> resolved(
            ms,
            path,
            mounts_left(depth),
        ) == Some(collapsed(path)),
        forall|i: int|
            0 <= i < ms.len() && #[trigger] covers(ms[i], path) && (forall|j: int|
                0 <= j < ms.len() && covers(#[trigger] ms[j], path) ==> ms[j].prefix.len() < ms[i].prefix.len() || (
                ms[j].prefix.len() == ms[i].prefix.len() && i <= j)) ==> resolved(ms, path, mounts_left(depth)) == (
            match resolved(ms, path.skip(ms[i].prefix.len() as int), mounts_left((depth + 1) as usize)) {
                Some(sub) => Some(ms[i].target.push(':') + sub),
                None => None,
            }),
{
    law_best_mount_is_longest(ms, path, ms.len());
    assert forall|i: int|
        0 <= i < ms.len() && #[trigger] covers(ms[i], path) && (forall|j: int|
            0 <= j < ms.len() && covers(#[trigger] ms[j], path) ==> ms[j].prefix.len() < ms[i].prefix.len() || (
            ms[j].prefix.len() == ms[i].prefix.len() && i <= j)) implies resolved(ms, path, mounts_left(depth)) == (
    match resolved(ms, path.skip(ms[i].prefix.len() as int), mounts_left((depth + 1) as usize)) {
        Some(sub) => Some(ms[i].target.push(':') + sub),
        None => None,
    }) by {
        law_longest_mount_decides(ms, path, i, mounts_left(depth));
        assert((mounts_left(depth) - 1) as nat == mounts_left((depth + 1) as usize));
    }
}

} // verus!
