//! The block cache.

use crate::sequences::lemma_filter_push;
use crate::sync::lock::KernelLock;
use vstd::prelude::*;

verus! {

pub const N_CHAINS: usize = 64;

/// The bytes of a block.
pub const BLOCK_SZ: usize = 512;

pub struct CacheSlot {
    pub id: usize,
    pub payload: Vec<u8>,
    pub modified: bool,
}

/// What a slot stands for.
#[verifier::ext_equal]
pub ghost struct SlotView {
    pub id: usize,
    pub payload: Seq<u8>,
    pub modified: bool,
}

impl View for CacheSlot {
    type V = SlotView;

    open spec fn view(&self) -> SlotView {
        SlotView { id: self.id, payload: self.payload@, modified: self.modified }
    }
}

pub struct CacheChain {
    pub items: Vec<CacheSlot>,
}

impl View for CacheChain {
    type V = Seq<SlotView>;

    open spec fn view(&self) -> Seq<SlotView> {
        slots_view(self.items@)
    }
}

/// What a row of slots stands for.
pub open spec fn slots_view(v: Seq<CacheSlot>) -> Seq<SlotView> {
    v.map_values(|s: CacheSlot| s@)
}

impl CacheChain {
    pub fn new() -> (r: Self)
        ensures
            r@ == Seq::<SlotView>::empty(),
    {
        let r = CacheChain { items: Vec::new() };
        assert(r@ =~= Seq::empty());
        r
    }

    /// Whether there is a slot for block `k`.
    pub fn contains(&self, k: usize) -> (r: bool)
        ensures
            r == has_block(self@, k),
    {
        let i: usize = self.position(k);
        proof {
            lemma_first_slot(self@, k);
        }
        i < self.items.len()
    }

    /// The place of the first slot for block `k`, or the length if there is none.
    pub fn position(&self, k: usize) -> (i: usize)
        ensures
            i == first_slot(self@, k),
            i <= self.items@.len(),
    {
        let ghost s = self@;
        let mut i: usize = 0;
        assert(s.skip(0) =~= s);
        while i < self.items.len()
            invariant_except_break
                first_slot(s, k) == i + first_slot(s.skip(i as int), k),
            invariant
                s == self@,
                i <= s.len(),
                s.len() == self.items@.len(),
            ensures
                i == first_slot(s, k),
            decreases s.len() - i,
        {
            assert(s[i as int] == self.items@[i as int]@);
            assert(s.skip(i as int)[0] == s[i as int]);
            if self.items[i].id == k {
                break;
            }
            assert(s.skip(i as int).skip(1) =~= s.skip(i + 1));
            i += 1;
        }
        i
    }

    /// Takes all slots for block `k` out.
    pub fn discard(&mut self, k: usize)
        ensures
            final(self)@ == old(self)@.filter(other_block(k)),
    {
        let ghost s = self@;
        let mut rest: Vec<CacheSlot> = Vec::new();
        let mut old_items: Vec<CacheSlot> = Vec::new();
        std::mem::swap(&mut old_items, &mut self.items);
        let n: usize = old_items.len();
        let mut i: usize = 0;
        proof {
            reveal(Seq::filter);
            assert(s.take(0).filter(other_block(k)) =~= Seq::empty());
            assert(slots_view(rest@) =~= Seq::empty());
            assert(slots_view(old_items@) =~= s.skip(0));
        }
        while i < n
            invariant
                i <= n == s.len(),
                slots_view(old_items@) == s.skip(i as int),
                slots_view(rest@) == s.take(i as int).filter(other_block(k)),
            decreases n - i,
        {
            let ghost rows = old_items@;
            assert(slots_view(rows).len() == rows.len());
            let slot = old_items.remove(0);
            proof {
                assert(slot@ == slots_view(rows)[0]);
                assert(s.take(i as int).push(slot@) =~= s.take(i + 1));
                assert(slots_view(old_items@) =~= slots_view(rows).skip(1));
                assert(s.skip(i as int).skip(1) =~= s.skip(i + 1));
                lemma_filter_push(s.take(i as int), slot@, other_block(k));
                assert(slots_view(rest@.push(slot)) =~= slots_view(rest@).push(slot@));
            }
            if slot.id != k {
                rest.push(slot);
            }
            i += 1;
        }
        assert(s.take(i as int) =~= s);
        self.items = rest;
    }

    /// Marks all slots as clean.
    pub fn clean(&mut self)
        ensures
            final(self)@ == cleaned(old(self)@),
    {
        let mut i: usize = 0;
        while i < self.items.len()
            invariant
                i <= self.items@.len() == old(self).items@.len(),
                forall|k: int|
                    0 <= k < i ==> (#[trigger] self.items@[k])@ == (SlotView { modified: false, ..old(self).items@[k]@ }),
                forall|k: int| i <= k < self.items@.len() ==> self.items@[k] == old(self).items@[k],
            decreases self.items@.len() - i,
        {
            self.items[i].modified = false;
            i += 1;
        }
        assert(self@ =~= cleaned(old(self)@));
    }

    /// Takes out the changed slots whose age is `max_age` or more.
    pub fn retain_warm(&mut self, max_age: usize, now: usize)
        ensures
            final(self)@ == old(self)@.filter(warm(now, max_age)),
    {
        let ghost s = self@;
        let ghost keep = warm(now, max_age);
        let mut rest: Vec<CacheSlot> = Vec::new();
        let mut old_items: Vec<CacheSlot> = Vec::new();
        std::mem::swap(&mut old_items, &mut self.items);
        let n: usize = old_items.len();
        let mut i: usize = 0;
        proof {
            reveal(Seq::filter);
            assert(s.take(0).filter(keep) =~= Seq::empty());
            assert(slots_view(rest@) =~= Seq::empty());
            assert(slots_view(old_items@) =~= s.skip(0));
        }
        while i < n
            invariant
                i <= n == s.len(),
                keep == warm(now, max_age),
                slots_view(old_items@) == s.skip(i as int),
                slots_view(rest@) == s.take(i as int).filter(keep),
            decreases n - i,
        {
            let ghost rows = old_items@;
            assert(slots_view(rows).len() == rows.len());
            let slot = old_items.remove(0);
            proof {
                assert(slot@ == slots_view(rows)[0]);
                assert(s.take(i as int).push(slot@) =~= s.take(i + 1));
                assert(slots_view(old_items@) =~= slots_view(rows).skip(1));
                assert(s.skip(i as int).skip(1) =~= s.skip(i + 1));
                lemma_filter_push(s.take(i as int), slot@, keep);
                assert(slots_view(rest@.push(slot)) =~= slots_view(rest@).push(slot@));
            }
            let age: usize = now.wrapping_sub(slot.id.wrapping_mul(3));
            if !slot.modified || age < max_age {
                rest.push(slot);
            }
            i += 1;
        }
        assert(s.take(i as int) =~= s);
        self.items = rest;
    }
}

/// The chain has a slot for block `k`.
pub open spec fn has_block(s: Seq<SlotView>, k: usize) -> bool {
    exists|i: int| 0 <= i < s.len() && (#[trigger] s[i]).id == k
}

/// The place of the first slot for block `k`, or the length if there is none.
pub open spec fn first_slot(s: Seq<SlotView>, k: usize) -> int
    decreases s.len(),
{
    if s.len() == 0 || s[0].id == k {
        0
    } else {
        1 + first_slot(s.skip(1), k)
    }
}

/// The first slot is where it is said to be.
pub proof fn lemma_first_slot(s: Seq<SlotView>, k: usize)
    ensures
        0 <= first_slot(s, k) <= s.len(),
        first_slot(s, k) < s.len() ==> s[first_slot(s, k)].id == k,
        forall|i: int| 0 <= i < first_slot(s, k) ==> (#[trigger] s[i]).id != k,
        has_block(s, k) == (first_slot(s, k) < s.len()),
    decreases s.len(),
{
    if s.len() > 0 && s[0].id != k {
        lemma_first_slot(s.skip(1), k);
        assert forall|i: int| 0 <= i < first_slot(s, k) implies (#[trigger] s[i]).id != k by {
            if i > 0 {
                assert(s.skip(1)[i - 1].id != k);
            }
        }
        if has_block(s, k) {
            let i = choose|i: int| 0 <= i < s.len() && (#[trigger] s[i]).id == k;
            assert(i >= first_slot(s, k));
        }
    }
}

pub open spec fn other_block(k: usize) -> spec_fn(SlotView) -> bool {
    |s: SlotView| s.id != k
}

pub open spec fn cleaned(s: Seq<SlotView>) -> Seq<SlotView> {
    s.map_values(|x: SlotView| SlotView { modified: false, ..x })
}

pub open spec fn is_dirty() -> spec_fn(SlotView) -> bool {
    |s: SlotView| s.modified
}

/// The slot is clean, or its age at time `now`, which goes by its number, is below `max_age`.
pub open spec fn warm(now: usize, max_age: usize) -> spec_fn(SlotView) -> bool {
    |s: SlotView| !s.modified || now.wrapping_sub(s.id.wrapping_mul(3)) < max_age
}

/// What block `k` holds when it is read at time `tick`.
pub open spec fn block_data(k: usize, tick: usize) -> Seq<u8> {
    Seq::new(
        BLOCK_SZ as nat,
        |i: int| (((k.wrapping_mul(0x9E3779B9) ^ tick).wrapping_add(i as usize)) & 0xFF) as u8,
    )
}

/// Slots in chains by the remainder of their numbers.
pub struct BlockCache {
    pub chains: Vec<CacheChain>,
    pub width: usize,
}

/// What a cache stands for.
#[verifier::ext_equal]
pub ghost struct CacheView {
    pub chains: Seq<Seq<SlotView>>,
    pub width: usize,
}

impl View for BlockCache {
    type V = CacheView;

    open spec fn view(&self) -> CacheView {
        CacheView { chains: self.chains@.map_values(|c: CacheChain| c@), width: self.width }
    }
}

/// How many slots there are in all chains.
pub open spec fn count_slots(chains: Seq<Seq<SlotView>>) -> nat
    decreases chains.len(),
{
    if chains.len() == 0 {
        0
    } else {
        count_slots(chains.drop_last()) + chains.last().len()
    }
}

/// How many slots in all chains satisfy `f`.
pub open spec fn count_if(chains: Seq<Seq<SlotView>>, f: spec_fn(SlotView) -> bool) -> nat
    decreases chains.len(),
{
    if chains.len() == 0 {
        0
    } else {
        count_if(chains.drop_last(), f) + chains.last().filter(f).len()
    }
}

impl CacheView {
    pub open spec fn wf(self) -> bool {
        self.width > 0 && self.chains.len() == self.width
    }

    /// The chain that block `k` belongs to.
    pub open spec fn home(self, k: usize) -> int {
        k as int % self.width as int
    }

    pub open spec fn chain(self, k: usize) -> Seq<SlotView> {
        self.chains[self.home(k)]
    }

    pub open spec fn set_chain(self, k: usize, c: Seq<SlotView>) -> CacheView {
        CacheView { chains: self.chains.update(self.home(k), c), ..self }
    }

    pub open spec fn all_clean(self) -> CacheView {
        CacheView { chains: self.chains.map_values(|c: Seq<SlotView>| cleaned(c)), ..self }
    }

    /// The bytes of block `k` if it is cached.
    pub open spec fn cached(self, k: usize) -> Option<Seq<u8>> {
        if has_block(self.chain(k), k) {
            Some(self.chain(k)[first_slot(self.chain(k), k)].payload)
        } else {
            None
        }
    }

    /// Block `k` was read at time `tick` and put at the end of its chain.
    pub open spec fn filled(self, k: usize, tick: usize) -> CacheView {
        self.set_chain(
            k,
            self.chain(k).push(SlotView { id: k, payload: block_data(k, tick), modified: false }),
        )
    }

    /// The first slot for block `k` was marked as changed.
    pub open spec fn dirtied(self, k: usize) -> CacheView {
        let c = self.chain(k);
        let i = first_slot(c, k);
        if has_block(c, k) {
            self.set_chain(k, c.update(i, SlotView { modified: true, ..c[i] }))
        } else {
            self
        }
    }

    /// All slots for block `k` were taken out.
    pub open spec fn without(self, k: usize) -> CacheView {
        self.set_chain(k, self.chain(k).filter(other_block(k)))
    }
}

impl BlockCache {
    pub fn new(w: usize) -> (r: Self)
        ensures
            r@ == (CacheView { chains: Seq::new(w as nat, |i: int| Seq::empty()), width: w }),
            w > 0 ==> r@.wf(),
    {
        let mut c: Vec<CacheChain> = Vec::with_capacity(w);
        let mut i: usize = 0;
        while i < w
            invariant
                i <= w,
                c@.len() == i,
                forall|k: int| 0 <= k < i ==> (#[trigger] c@[k])@ == Seq::<SlotView>::empty(),
            decreases w - i,
        {
            c.push(CacheChain::new());
            i += 1;
        }
        let r = BlockCache { chains: c, width: w };
        assert(r@.chains =~= Seq::new(w as nat, |i: int| Seq::empty()));
        r
    }

    /// The number of the chain that block `k` belongs to.
    pub fn idx(&self, k: usize) -> (r: usize)
        requires
            self@.width > 0,
        ensures
            r == self@.home(k),
    {
        k % self.width
    }

    /// The bytes of block `k` if it is cached.
    pub fn lookup(&self, k: usize) -> (r: Option<Vec<u8>>)
        requires
            self@.wf(),
        ensures
            match self@.cached(k) {
                Some(b) => r is Some && r->Some_0@ == b,
                None => r is None,
            },
    {
        let ch = &self.chains[self.idx(k)];
        assert(self@.chain(k) == ch@);
        let i: usize = ch.position(k);
        proof {
            lemma_first_slot(ch@, k);
        }
        if i < ch.items.len() {
            assert(ch@[i as int] == ch.items@[i as int]@);
            Some(ch.items[i].payload.clone())
        } else {
            None
        }
    }

    /// Reads block `k` at time `tick` and caches it, whether or not it is cached already.
    pub fn fill(&mut self, k: usize, tick: usize) -> (r: Vec<u8>)
        requires
            old(self)@.wf(),
        ensures
            r@ == block_data(k, tick),
            final(self)@ == old(self)@.filled(k, tick),
            final(self)@.wf(),
    {
        let seed: usize = k.wrapping_mul(0x9E3779B9) ^ tick;
        let mut payload: Vec<u8> = Vec::with_capacity(BLOCK_SZ);
        let mut i: usize = 0;
        while i < BLOCK_SZ
            invariant
                i <= BLOCK_SZ,
                seed == k.wrapping_mul(0x9E3779B9) ^ tick,
                payload@.len() == i,
                forall|j: int| 0 <= j < i ==> payload@[j] == block_data(k, tick)[j],
            decreases BLOCK_SZ - i,
        {
            let b: usize = seed.wrapping_add(i) & 0xFF;
            payload.push(b as u8);
            i += 1;
        }
        assert(payload@ =~= block_data(k, tick));
        let result = payload.clone();
        let h: usize = self.idx(k);
        let ghost c = self@.chain(k);
        let slot = CacheSlot { id: k, payload, modified: false };
        self.chains[h].items.push(slot);
        assert(self.chains@[h as int]@ =~= c.push(slot@));
        assert(self@.chains =~= old(self)@.filled(k, tick).chains);
        result
    }

    /// The bytes of block `k`, read at time `tick` if it is not cached. Whoever waits for the
    /// disk in between calls [`BlockCache::lookup`] and [`BlockCache::fill`] instead.
    pub fn fetch(&mut self, k: usize, tick: usize) -> (r: Option<Vec<u8>>)
        requires
            old(self)@.wf(),
        ensures
            r is Some,
            final(self)@.wf(),
            match old(self)@.cached(k) {
                Some(b) => r->Some_0@ == b && final(self)@ == old(self)@,
                None => r->Some_0@ == block_data(k, tick) && final(self)@ == old(self)@.filled(k, tick),
            },
    {
        match self.lookup(k) {
            Some(b) => Some(b),
            None => Some(self.fill(k, tick)),
        }
    }

    /// Marks the first slot for block `k` as changed.
    pub fn mark_dirty(&mut self, k: usize)
        requires
            old(self)@.wf(),
        ensures
            final(self)@ == old(self)@.dirtied(k),
            final(self)@.wf(),
    {
        let h: usize = self.idx(k);
        let i: usize = self.chains[h].position(k);
        let ghost c = self@.chain(k);
        proof {
            assert(c == self.chains@[h as int]@);
            lemma_first_slot(c, k);
        }
        if i < self.chains[h].items.len() {
            self.chains[h].items[i].modified = true;
            assert(self.chains@[h as int]@ =~= c.update(i as int, SlotView { modified: true, ..c[i as int] }));
            assert(self@.chains =~= old(self)@.dirtied(k).chains);
        }
    }

    /// Marks all slots as clean.
    pub fn clean_all(&mut self)
        ensures
            final(self)@ == old(self)@.all_clean(),
    {
        let mut i: usize = 0;
        while i < self.chains.len()
            invariant
                i <= self.chains@.len() == old(self).chains@.len(),
                self.width == old(self).width,
                forall|k: int| 0 <= k < i ==> (#[trigger] self.chains@[k])@ == cleaned(old(self).chains@[k]@),
                forall|k: int| i <= k < self.chains@.len() ==> self.chains@[k] == old(self).chains@[k],
            decreases self.chains@.len() - i,
        {
            self.chains[i].clean();
            i += 1;
        }
        assert(self@.chains =~= old(self)@.all_clean().chains);
    }

    /// Marks all slots as clean, under the kernel lock.
    pub fn sync_all(&mut self, gkl: &mut KernelLock, id: usize, thread: usize)
        requires
            old(gkl).can_enter(thread),
        ensures
            final(self)@ == old(self)@.all_clean(),
            *final(gkl) == old(gkl).entered(id, thread).left(),
    {
        gkl.enter(id, thread);
        self.clean_all();
        gkl.leave();
    }

    /// Takes block `k` out.
    pub fn invalidate(&mut self, k: usize)
        requires
            old(self)@.wf(),
        ensures
            final(self)@ == old(self)@.without(k),
            final(self)@.wf(),
    {
        let h: usize = self.idx(k);
        assert(self@.chain(k) == self.chains@[h as int]@);
        self.chains[h].discard(k);
        assert(self@.chains =~= old(self)@.without(k).chains);
    }

    pub fn total_entries(&self) -> (r: usize)
        requires
            count_slots(self@.chains) <= usize::MAX,
        ensures
            r == count_slots(self@.chains),
    {
        let mut n: usize = 0;
        let mut i: usize = 0;
        while i < self.chains.len()
            invariant
                i <= self.chains@.len(),
                count_slots(self@.chains) <= usize::MAX,
                n == count_slots(self@.chains.take(i as int)),
            decreases self.chains@.len() - i,
        {
            proof {
                lemma_slots_grow(self@.chains, i + 1);
                assert(self@.chains.take(i + 1).drop_last() =~= self@.chains.take(i as int));
                assert(self@.chains[i as int].len() == self.chains@[i as int].items@.len());
            }
            n += self.chains[i].items.len();
            i += 1;
        }
        assert(self@.chains.take(i as int) =~= self@.chains);
        n
    }

    pub fn dirty_count(&self) -> (r: usize)
        requires
            count_if(self@.chains, is_dirty()) <= usize::MAX,
        ensures
            r == count_if(self@.chains, is_dirty()),
    {
        let mut n: usize = 0;
        let mut i: usize = 0;
        while i < self.chains.len()
            invariant
                i <= self.chains@.len(),
                count_if(self@.chains, is_dirty()) <= usize::MAX,
                n == count_if(self@.chains.take(i as int), is_dirty()),
            decreases self.chains@.len() - i,
        {
            proof {
                lemma_ifs_grow(self@.chains, is_dirty(), i + 1);
                assert(self@.chains.take(i + 1).drop_last() =~= self@.chains.take(i as int));
            }
            let ghost s = self.chains@[i as int]@;
            let mut m: usize = 0;
            let mut j: usize = 0;
            proof {
                reveal(Seq::filter);
                assert(s.take(0).filter(is_dirty()) =~= Seq::empty());
            }
            while j < self.chains[i].items.len()
                invariant
                    i < self.chains@.len(),
                    s == self.chains@[i as int]@,
                    s.len() == self.chains@[i as int].items@.len(),
                    j <= s.len(),
                    m == s.take(j as int).filter(is_dirty()).len(),
                    m <= j,
                decreases s.len() - j,
            {
                proof {
                    assert(s[j as int] == self.chains@[i as int].items@[j as int]@);
                    assert(s.take(j as int).push(s[j as int]) =~= s.take(j + 1));
                    lemma_filter_push(s.take(j as int), s[j as int], is_dirty());
                }
                if self.chains[i].items[j].modified {
                    m += 1;
                }
                j += 1;
            }
            assert(s.take(j as int) =~= s);
            n += m;
            i += 1;
        }
        assert(self@.chains.take(i as int) =~= self@.chains);
        n
    }

    /// Takes out the changed slots whose age is `max_age` or more, and returns how many they
    /// were.
    pub fn evict_cold(&mut self, max_age: usize, now: usize) -> (r: usize)
        requires
            count_slots(old(self)@.chains) <= usize::MAX,
        ensures
            final(self)@ == (CacheView {
                chains: old(self)@.chains.map_values(|c: Seq<SlotView>| c.filter(warm(now, max_age))),
                ..old(self)@
            }),
            r == count_slots(old(self)@.chains) - count_slots(final(self)@.chains),
    {
        let ghost before = self@.chains;
        let mut evicted: usize = 0;
        let mut i: usize = 0;
        while i < self.chains.len()
            invariant
                i <= self.chains@.len() == before.len(),
                before == old(self)@.chains,
                self.width == old(self).width,
                count_slots(before) <= usize::MAX,
                forall|k: int| 0 <= k < i ==> (#[trigger] self.chains@[k])@ == before[k].filter(warm(now, max_age)),
                forall|k: int| i <= k < before.len() ==> (#[trigger] self.chains@[k])@ == before[k],
                evicted == count_slots(before.take(i as int)) - count_slots(self@.chains.take(i as int)),
                evicted <= count_slots(before.take(i as int)),
            decreases self.chains@.len() - i,
        {
            let ghost now_chains = self@.chains;
            let len0: usize = self.chains[i].items.len();
            self.chains[i].retain_warm(max_age, now);
            let len1: usize = self.chains[i].items.len();
            proof {
                lemma_slots_grow(before, i + 1);
                assert(before.take(i + 1).drop_last() =~= before.take(i as int));
                assert(self@.chains.take(i + 1).drop_last() =~= now_chains.take(i as int));
                assert(self@.chains[i as int].len() == len1);
                assert(before[i as int].len() == len0);
                before[i as int].lemma_filter_len(warm(now, max_age));
            }
            evicted += len0 - len1;
            i += 1;
        }
        proof {
            assert(before.take(i as int) =~= before);
            assert(self@.chains.take(i as int) =~= self@.chains);
            assert(self@.chains =~= before.map_values(|c: Seq<SlotView>| c.filter(warm(now, max_age))));
        }
        evicted
    }
}

proof fn lemma_slots_grow(chains: Seq<Seq<SlotView>>, k: int)
    requires
        0 <= k <= chains.len(),
    ensures
        count_slots(chains.take(k)) <= count_slots(chains),
    decreases chains.len() - k,
{
    if k < chains.len() {
        lemma_slots_grow(chains, k + 1);
        assert(chains.take(k + 1).drop_last() =~= chains.take(k));
    } else {
        assert(chains.take(k) =~= chains);
    }
}

proof fn lemma_ifs_grow(chains: Seq<Seq<SlotView>>, f: spec_fn(SlotView) -> bool, k: int)
    requires
        0 <= k <= chains.len(),
    ensures
        count_if(chains.take(k), f) <= count_if(chains, f),
    decreases chains.len() - k,
{
    if k < chains.len() {
        lemma_ifs_grow(chains, f, k + 1);
        assert(chains.take(k + 1).drop_last() =~= chains.take(k));
    } else {
        assert(chains.take(k) =~= chains);
    }
}

/// What was fetched is cached, until it is invalidated.
pub proof fn law_fetched_block_is_cached(c: CacheView, k: usize, tick: usize)
    requires
        c.wf(),
        c.cached(k) is None,
    ensures
        c.filled(k, tick).cached(k) == Some(block_data(k, tick)),
        c.filled(k, tick).without(k).cached(k) is None,
{
    let h = c.home(k);
    vstd::arithmetic::div_mod::lemma_mod_bound(k as int, c.width as int);
    let s = c.chain(k);
    let t = c.filled(k, tick).chain(k);
    assert(t[s.len() as int].id == k);
    lemma_first_slot(t, k);
    lemma_first_slot(s, k);
    let i = first_slot(t, k);
    assert(i == s.len()) by {
        if i < s.len() {
            assert(s[i].id == k);
        }
    }
    let w = c.filled(k, tick).without(k).chain(k);
    if has_block(w, k) {
        let j = choose|j: int| 0 <= j < w.len() && (#[trigger] w[j]).id == k;
        t.lemma_filter_pred(other_block(k), j);
    }
}

} // verus!
