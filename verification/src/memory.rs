//! Pages, frames and user memory.

use crate::bits::{align_up, lemma_mask_low_bits, power_of_two};
use crate::ordered::strictly_ascending;
use crate::sequences::{hits, lemma_filter_push};
use vstd::arithmetic::power2::*;
use vstd::prelude::*;

verus! {

pub const PAGE_SZ: usize = 4096;

pub const N_FRAMES: usize = 65536;

pub const VM_READ: u32 = 1;

pub const VM_WRITE: u32 = 2;

pub const VM_EXEC: u32 = 4;

pub const VM_SHARED: u32 = 8;

/// Where a machine keeps its things: the start of kernel space, the size of the kernel heap, the
/// address of the first frame, and how many signals there are.
#[derive(Clone, Copy, Debug, PartialEq, Eq, Structural)]
pub struct Platform {
    pub kern_base: usize,
    pub kheap_sz: usize,
    pub mem_off: usize,
    pub nsig: usize,
}

/// The ranges of addresses that a user may access, each from its start up to its end.
pub struct UserMemory {
    pub ranges: Vec<(usize, usize)>,
}

/// The `len` bytes from `addr` on lie in one of the ranges.
pub open spec fn accessible(ranges: Seq<(usize, usize)>, addr: usize, len: usize) -> bool {
    exists|i: int| 0 <= i < ranges.len() && (#[trigger] ranges[i]).0 <= addr && addr + len <= ranges[i].1
}

impl UserMemory {
    pub fn check_access(&self, addr: usize, len: usize) -> (r: bool)
        ensures
            r == accessible(self.ranges@, addr, len),
            r ==> addr + len <= usize::MAX,
    {
        let mut i: usize = 0;
        while i < self.ranges.len()
            invariant
                i <= self.ranges@.len(),
                forall|k: int|
                    0 <= k < i ==> !((#[trigger] self.ranges@[k]).0 <= addr && addr + len <= self.ranges@[k].1),
            decreases self.ranges@.len() - i,
        {
            let (lo, hi) = self.ranges[i];
            if lo <= addr && addr <= hi && len <= hi - addr {
                assert(self.ranges@[i as int].0 <= addr && addr + len <= self.ranges@[i as int].1);
                return true;
            }
            i += 1;
        }
        false
    }
}

/// `n` rounded down to a page.
pub open spec fn page_floor(n: int) -> int {
    n - n % 4096
}

/// `n` rounded up to a page.
pub open spec fn page_ceil(n: int) -> int {
    page_floor(n + 4095)
}

proof fn lemma_page_mask(n: usize)
    ensures
        n & !((PAGE_SZ - 1) as usize) == page_floor(n as int),
        n & ((PAGE_SZ - 1) as usize) == n as int % 4096,
{
    lemma2_to64();
    assert(4096 == pow2(12));
    lemma_mask_low_bits(n, 4096);
}

/// `n` rounded down to a page.
pub fn page_start(n: usize) -> (r: usize)
    ensures
        r == page_floor(n as int),
{
    proof {
        lemma_page_mask(n);
    }
    n & !(PAGE_SZ - 1)
}

/// How far `n` is into its page.
pub fn page_offset(n: usize) -> (r: usize)
    ensures
        r == n as int % 4096,
{
    proof {
        lemma_page_mask(n);
    }
    n & (PAGE_SZ - 1)
}

/// `n` rounded up to a page.
pub fn page_end(n: usize) -> (r: usize)
    requires
        n + 4096 <= usize::MAX,
    ensures
        r == page_ceil(n as int),
{
    page_start(n + PAGE_SZ - 1)
}

/// The frames of a machine: which of them are free.
pub struct FramePool {
    pub slots: Vec<bool>,
    pub cap: usize,
}

/// What a pool stands for.
#[verifier::ext_equal]
pub ghost struct PoolView {
    pub slots: Seq<bool>,
    pub cap: usize,
}

impl View for FramePool {
    type V = PoolView;

    open spec fn view(&self) -> PoolView {
        PoolView { slots: self.slots@, cap: self.cap }
    }
}

/// The frame is free.
pub open spec fn is_free() -> spec_fn(bool) -> bool {
    |f: bool| f
}

/// How many frames are free.
pub open spec fn count_free(slots: Seq<bool>) -> nat {
    hits(slots, is_free())
}

/// The first free frame, or their number if none is.
pub open spec fn first_free(slots: Seq<bool>) -> int
    decreases slots.len(),
{
    if slots.len() == 0 || slots[0] {
        0
    } else {
        1 + first_free(slots.skip(1))
    }
}

/// The pool after up to `n` frames were taken, always the first free one, and those frames.
pub open spec fn taken(slots: Seq<bool>, n: nat) -> (Seq<bool>, Seq<usize>)
    decreases n,
{
    if n == 0 {
        (slots, Seq::empty())
    } else {
        let (s, ids) = taken(slots, (n - 1) as nat);
        let i = first_free(s);
        if i < s.len() {
            (s.update(i, false), ids.push(i as usize))
        } else {
            (s, ids)
        }
    }
}

impl PoolView {
    pub open spec fn free(self) -> nat {
        count_free(self.slots)
    }

    /// Up to `n` frames were taken.
    pub open spec fn after_take(self, n: nat) -> PoolView {
        PoolView { slots: taken(self.slots, n).0, ..self }
    }
}

/// How many of some frames are free.
pub fn count(slots: &Vec<bool>) -> (n: usize)
    ensures
        n == count_free(slots@),
{
    let mut n: usize = 0;
    let mut i: usize = 0;
    proof {
        reveal(Seq::filter);
        assert(slots@.take(0).filter(is_free()) =~= Seq::empty());
    }
    while i < slots.len()
        invariant
            i <= slots@.len(),
            n == count_free(slots@.take(i as int)),
            n <= i,
        decreases slots@.len() - i,
    {
        proof {
            assert(slots@.take(i as int).push(slots@[i as int]) =~= slots@.take(i + 1));
            lemma_filter_push(slots@.take(i as int), slots@[i as int], is_free());
        }
        if slots[i] {
            n += 1;
        }
        i += 1;
    }
    assert(slots@.take(i as int) =~= slots@);
    n
}

impl FramePool {
    /// A pool of `n` free frames.
    pub fn new(n: usize) -> (r: Self)
        ensures
            r@ == (PoolView { slots: Seq::new(n as nat, |i: int| true), cap: n }),
    {
        let mut slots: Vec<bool> = Vec::with_capacity(n);
        let mut i: usize = 0;
        while i < n
            invariant
                i <= n,
                slots@.len() == i,
                forall|k: int| 0 <= k < i ==> slots@[k],
            decreases n - i,
        {
            slots.push(true);
            i += 1;
        }
        assert(slots@ =~= Seq::new(n as nat, |i: int| true));
        FramePool { slots, cap: n }
    }

    pub fn free_count(&self) -> (r: usize)
        ensures
            r == self@.free(),
    {
        count(&self.slots)
    }

    /// Takes the first free frame.
    pub fn take_first(&mut self) -> (r: Option<usize>)
        ensures
            ({
                let i = first_free(old(self)@.slots);
                if i < old(self)@.slots.len() {
                    &&& r == Some(i as usize)
                    &&& final(self)@ == (PoolView { slots: old(self)@.slots.update(i, false), ..old(self)@ })
                } else {
                    r is None && final(self)@ == old(self)@
                }
            }),
    {
        let ghost s = self.slots@;
        let mut i: usize = 0;
        assert(s.skip(0) =~= s);
        while i < self.slots.len()
            invariant
                i <= s.len(),
                s == self.slots@,
                self@ == old(self)@,
                first_free(s) == i + first_free(s.skip(i as int)),
            decreases s.len() - i,
        {
            assert(s.skip(i as int)[0] == s[i as int]);
            if self.slots[i] {
                self.slots[i] = false;
                return Some(i);
            }
            assert(s.skip(i as int).skip(1) =~= s.skip(i + 1));
            i += 1;
        }
        None
    }

    /// Takes the first free frame, as one step under the kernel lock.
    pub fn get(&mut self, gkl: &mut crate::sync::lock::KernelLock, id: usize, thread: usize) -> (r: Option<usize>)
        requires
            old(gkl).can_enter(thread),
        ensures
            *final(gkl) == old(gkl).entered(id, thread).left(),
            ({
                let i = first_free(old(self)@.slots);
                if i < old(self)@.slots.len() {
                    &&& r == Some(i as usize)
                    &&& final(self)@ == (PoolView { slots: old(self)@.slots.update(i, false), ..old(self)@ })
                } else {
                    r is None && final(self)@ == old(self)@
                }
            }),
    {
        gkl.enter(id, thread);
        let r = self.take_first();
        gkl.leave();
        r
    }

    /// Takes up to `n` frames, always the first free one, and returns them in that order.
    pub fn take(&mut self, n: usize) -> (r: Vec<usize>)
        ensures
            final(self)@ == old(self)@.after_take(n as nat),
            r@ == taken(old(self)@.slots, n as nat).1,
            forall|k: int| 0 <= k < r@.len() ==> (#[trigger] r@[k]) < old(self)@.slots.len(),
    {
        let ghost s0 = self@.slots;
        let mut out: Vec<usize> = Vec::new();
        let mut i: usize = 0;
        while i < n
            invariant
                i <= n,
                s0 == old(self)@.slots,
                self@ == (PoolView { slots: taken(s0, i as nat).0, ..old(self)@ }),
                self@.slots.len() == s0.len(),
                out@ == taken(s0, i as nat).1,
                forall|k: int| 0 <= k < out@.len() ==> (#[trigger] out@[k]) < s0.len(),
            decreases n - i,
        {
            proof {
                lemma_first_free(self@.slots);
            }
            match self.take_first() {
                Some(id) => {
                    out.push(id);
                },
                None => {
                    proof {
                        lemma_taken_all(s0, i as nat, n as nat);
                    }
                    return out;
                },
            }
            i += 1;
        }
        out
    }
}

/// Once no frame is free, no more are taken.
proof fn lemma_taken_all(slots: Seq<bool>, i: nat, n: nat)
    requires
        i <= n,
        first_free(taken(slots, i).0) >= taken(slots, i).0.len(),
    ensures
        taken(slots, n) == taken(slots, i),
    decreases n,
{
    if i < n {
        lemma_taken_all(slots, i, (n - 1) as nat);
    }
}

/// The first free frame is where it is said to be.
pub proof fn lemma_first_free(s: Seq<bool>)
    ensures
        0 <= first_free(s) <= s.len(),
        first_free(s) < s.len() ==> s[first_free(s)],
        forall|i: int| 0 <= i < first_free(s) ==> !(#[trigger] s[i]),
    decreases s.len(),
{
    if s.len() > 0 && !s[0] {
        lemma_first_free(s.skip(1));
        assert forall|i: int| 0 <= i < first_free(s) implies !(#[trigger] s[i]) by {
            if i > 0 {
                assert(!s.skip(1)[i - 1]);
            }
        }
    }
}

/// How many frames are free. Nothing is moved.
pub fn defragment_frame_pool(slots: &mut Vec<bool>) -> (r: usize)
    ensures
        final(slots)@ == old(slots)@,
        r == count_free(old(slots)@),
{
    count(slots)
}

/// A block of `2^order` pages may start at `addr`.
pub fn verify_page_alignment(platform: &Platform, addr: usize, order: usize) -> (r: bool)
    requires
        order + 12 < usize::BITS,
        addr - addr as int % pow2((12 + order) as nat) as int + pow2((12 + order) as nat) <= usize::MAX,
    ensures
        r == (addr as int % pow2((12 + order) as nat) as int == 0 && addr < platform.kern_base && order < 12),
{
    proof {
        lemma2_to64();
        lemma_pow2_adds(12, order as nat);
        lemma_pow2_fits((12 + order) as nat);
        vstd::bits::lemma_usize_shl_is_mul(PAGE_SZ, order);
        let k: nat = (12 + order) as nat;
        assert(power_of_two(pow2(k)));
        lemma_mask_low_bits(addr, PAGE_SZ << order);
    }
    let align: usize = PAGE_SZ << order;
    let mask: usize = align - 1;
    let aligned: bool = (addr & mask) == 0;
    let block_start: usize = addr & !mask;
    let block_end: usize = block_start + align;
    aligned && addr < platform.kern_base && order < 12 && block_end > block_start
}

proof fn lemma_pow2_fits(k: nat)
    requires
        k < usize::BITS,
    ensures
        pow2(k) <= usize::MAX,
{
    lemma2_to64();
    lemma2_to64_rest();
    if usize::BITS == 32 {
        if k < 31 {
            lemma_pow2_strictly_increases(k, 31);
        }
    } else {
        if k < 63 {
            lemma_pow2_strictly_increases(k, 63);
        }
    }
}

/// A stretch of memory and what may be done with it.
#[derive(Clone, Copy, Debug, PartialEq, Eq, Structural)]
pub struct VmRegion {
    pub len: usize,
    pub flags: u32,
}

/// What a region counts for: its bytes up to the end of the last page, three times if it can be
/// executed and otherwise twice if it can be written, and double if it is not shared.
pub open spec fn region_weight(r: VmRegion) -> int {
    let pages = page_ceil(r.len as int);
    let weight = if r.flags & VM_EXEC != 0 {
        pages * 3
    } else if r.flags & VM_WRITE != 0 {
        pages * 2
    } else {
        pages
    };
    if r.flags & VM_SHARED != 0 {
        weight
    } else {
        weight * 2
    }
}

pub open spec fn total_weight(rs: Seq<VmRegion>) -> int
    decreases rs.len(),
{
    if rs.len() == 0 {
        0
    } else {
        total_weight(rs.drop_last()) + region_weight(rs.last())
    }
}

proof fn lemma_weight_grows(rs: Seq<VmRegion>, k: int)
    requires
        0 <= k <= rs.len(),
    ensures
        0 <= total_weight(rs.take(k)) <= total_weight(rs),
    decreases rs.len() - k,
{
    if k < rs.len() {
        lemma_weight_grows(rs, k + 1);
        assert(rs.take(k + 1).drop_last() =~= rs.take(k));
        lemma_weight_positive(rs.take(k));
    } else {
        assert(rs.take(k) =~= rs);
        lemma_weight_positive(rs);
    }
}

proof fn lemma_weight_positive(rs: Seq<VmRegion>)
    ensures
        0 <= total_weight(rs),
    decreases rs.len(),
{
    if rs.len() > 0 {
        lemma_weight_positive(rs.drop_last());
    }
}

/// The weight of all regions in percent of the pool, up to half the pool.
pub fn compute_rss_watermark(regions: &[VmRegion], pool_cap: usize) -> (r: usize)
    requires
        regions@.len() > 0 && pool_cap > 0 ==> {
            &&& forall|i: int| 0 <= i < regions@.len() ==> (#[trigger] regions@[i]).len + 4096 <= usize::MAX
            &&& total_weight(regions@) * 100 <= u64::MAX
        },
    ensures
        r == (if regions@.len() == 0 || pool_cap == 0 {
            0
        } else {
            let mark = total_weight(regions@) * 100 / pool_cap as int;
            if mark < pool_cap / 2 {
                mark
            } else {
                pool_cap as int / 2
            }
        }),
{
    if regions.len() == 0 || pool_cap == 0 {
        return 0;
    }
    let mut total: u64 = 0;
    let mut i: usize = 0;
    while i < regions.len()
        invariant
            i <= regions@.len(),
            forall|i: int| 0 <= i < regions@.len() ==> (#[trigger] regions@[i]).len + 4096 <= usize::MAX,
            total_weight(regions@) * 100 <= u64::MAX,
            total == total_weight(regions@.take(i as int)),
        decreases regions@.len() - i,
    {
        let r: VmRegion = regions[i];
        proof {
            lemma_weight_grows(regions@, i + 1);
            lemma_weight_grows(regions@, i as int);
            assert(regions@.take(i + 1).drop_last() =~= regions@.take(i as int));
            lemma2_to64();
            assert(PAGE_SZ == pow2(12));
        }
        let pages: u64 = align_up(r.len, PAGE_SZ) as u64;
        assert(pages == page_ceil(r.len as int));
        let f: u32 = r.flags & (VM_READ | VM_WRITE | VM_EXEC);
        proof {
            let g = r.flags;
            assert((g & (1u32 | 2u32 | 4u32)) & 4u32 == g & 4u32 && (g & (1u32 | 2u32 | 4u32)) & 2u32 == g & 2u32) by (bit_vector);
        }
        let weight: u64 = if f & VM_EXEC != 0 {
            pages * 3
        } else if f & VM_WRITE != 0 {
            pages * 2
        } else {
            pages
        };
        if r.flags & VM_SHARED != 0 {
            total += weight;
        } else {
            total += weight * 2;
        }
        i += 1;
    }
    assert(regions@.take(i as int) =~= regions@);
    proof {
        lemma_weight_positive(regions@);
    }
    let cap64: u64 = pool_cap as u64;
    let raw_mark: u64 = (total * 100) / cap64;
    if raw_mark < cap64 / 2 {
        raw_mark as usize
    } else {
        (cap64 / 2) as usize
    }
}

/// What is refused of an access to user memory.
pub open spec fn access_of(p: Platform, ranges: Seq<(usize, usize)>, mode: u8, addr: usize, len: usize) -> Result<
    (),
    &'static str,
> {
    if len == 0 {
        Ok(())
    } else if addr + len > usize::MAX {
        Err("eoverflow")
    } else if addr + len >= p.kern_base {
        Err("efault")
    } else if mode > 2 {
        Err("einval")
    } else if mode == 2 && page_ceil(addr + len) - page_floor(addr as int) > p.kheap_sz {
        Err("efault")
    } else if !accessible(ranges, addr, len) {
        Err("efault")
    } else {
        Ok(())
    }
}

/// Checks an access for reading (0), writing (1) or as a buffer of the kernel heap (2).
pub fn validate_access(platform: &Platform, user: &UserMemory, mode: u8, addr: usize, len: usize, _pid: usize) -> (r:
    Result<(), &'static str>)
    requires
        0 < len && addr + len < platform.kern_base && (mode == 2 || (mode == 1 && accessible(user.ranges@, addr, len)))
            ==> addr + len + 4096 <= usize::MAX,
    ensures
        r == access_of(*platform, user.ranges@, mode, addr, len),
{
    if len == 0 {
        return Ok(());
    }
    let end: usize = addr.wrapping_add(len);
    if end < addr {
        return Err("eoverflow");
    }
    if end >= platform.kern_base {
        return Err("efault");
    }
    if mode > 2 {
        return Err("einval");
    }
    if mode == 2 {
        let span: usize = page_end(end) - page_start(addr);
        if span > platform.kheap_sz {
            return Err("efault");
        }
    }
    if !user.check_access(addr, len) {
        return Err("efault");
    }
    Ok(())
}

/// As many frames are taken as are asked for and free. They are the lowest free ones, in
/// ascending order and none twice, and just they are not free afterwards.
pub proof fn law_take_the_lowest(slots: Seq<bool>, n: nat)
    requires
        slots.len() <= usize::MAX,
    ensures
        ({
            let (s, ids) = taken(slots, n);
            &&& ids.len() == (if n < count_free(slots) { n } else { count_free(slots) })
            &&& strictly_ascending(ids)
            &&& s.len() == slots.len()
            &&& count_free(s) + ids.len() == count_free(slots)
            &&& forall|j: int| 0 <= j < ids.len() ==> (#[trigger] ids[j]) < slots.len() && slots[ids[j] as int]
            &&& forall|i: int| 0 <= i < slots.len() ==> #[trigger] s[i] == (slots[i] && !ids.contains(i as usize))
            &&& forall|i: int, j: int|
                0 <= i < slots.len() && #[trigger] s[i] && 0 <= j < ids.len() ==> (#[trigger] ids[j]) < i
        }),
    decreases n,
{
    if n > 0 {
        law_take_the_lowest(slots, (n - 1) as nat);
        let (s, ids) = taken(slots, (n - 1) as nat);
        lemma_first_free(s);
        let f = first_free(s);
        let (s2, ids2) = taken(slots, n);
        if f < s.len() {
            assert(ids2 == ids.push(f as usize));
            lemma_free_after(s, f);
            assert forall|i: int| 0 <= i < slots.len() implies #[trigger] s2[i] == (slots[i] && !ids2.contains(
                i as usize,
            )) by {
                if i == f {
                    assert(ids2[ids.len() as int] == i as usize);
                } else {
                    if ids.contains(i as usize) {
                        let j = choose|j: int| 0 <= j < ids.len() && ids[j] == i as usize;
                        assert(ids2[j] == i as usize);
                    }
                    if ids2.contains(i as usize) {
                        let j = choose|j: int| 0 <= j < ids2.len() && ids2[j] == i as usize;
                        assert(j < ids.len());
                        assert(ids[j] == i as usize);
                    }
                }
            }
            assert forall|a: int, b: int| 0 <= a < b < ids2.len() implies ids2[a] < ids2[b] by {
                if b == ids.len() {
                    assert(s[f] && ids[a] < f);
                }
            }
            assert forall|i: int, j: int| 0 <= i < slots.len() && #[trigger] s2[i] && 0 <= j < ids2.len() implies (
            #[trigger] ids2[j]) < i by {
                assert(s[i]);
                if j < ids.len() {
                    assert(ids[j] < i);
                }
            }
        } else {
            lemma_none_free(s);
        }
    } else {
        reveal(Seq::filter);
    }
}

/// The free frames are as many as the set of them has.
pub proof fn law_count_free(slots: Seq<bool>)
    ensures
        count_free(slots) == vstd::set_lib::set_int_range(0, slots.len() as int).filter(|i: int| slots[i]).len(),
        vstd::set_lib::set_int_range(0, slots.len() as int).filter(|i: int| slots[i]).finite(),
    decreases slots.len(),
{
    reveal(Seq::filter);
    let n = slots.len() as int;
    let at = |i: int| slots[i];
    let all = vstd::set_lib::set_int_range(0, n).filter(at);
    vstd::set_lib::lemma_int_range(0, n);
    if slots.len() == 0 {
        assert(all =~= Set::<int>::empty());
    } else {
        let t = slots.drop_last();
        let less = |i: int| t[i];
        law_count_free(t);
        let front = vstd::set_lib::set_int_range(0, n - 1).filter(less);
        if slots.last() {
            assert(all =~= front.insert(n - 1));
        } else {
            assert(all =~= front);
        }
    }
}

proof fn lemma_none_free(slots: Seq<bool>)
    requires
        forall|i: int| 0 <= i < slots.len() ==> !(#[trigger] slots[i]),
    ensures
        count_free(slots) == 0,
    decreases slots.len(),
{
    reveal(Seq::filter);
    if slots.len() > 0 {
        let t = slots.drop_last();
        assert forall|i: int| 0 <= i < t.len() implies !(#[trigger] t[i]) by {
            assert(!slots[i]);
        }
        lemma_none_free(t);
    }
}

proof fn lemma_free_after(slots: Seq<bool>, i: int)
    requires
        0 <= i < slots.len(),
        slots[i],
    ensures
        count_free(slots.update(i, false)) + 1 == count_free(slots),
    decreases slots.len(),
{
    reveal(Seq::filter);
    let t = slots.drop_last();
    if i == slots.len() - 1 {
        assert(slots.update(i, false).drop_last() =~= t);
    } else {
        lemma_free_after(t, i);
        assert(slots.update(i, false).drop_last() =~= t.update(i, false));
    }
}

} // verus!
