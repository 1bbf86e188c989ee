//! What holds of the calls on memory.

use crate::kernel::state::KernelView;
use crate::kernel::syscall::{Call, SYS_BRK, SYS_MMAP, SYS_MUNMAP};
use crate::memory::{law_count_free, law_take_the_lowest};
use crate::proc::task::TaskView;
use vstd::prelude::*;

verus! {

/// The frames of the kernel that are free.
pub open spec fn free_frames(k: KernelView) -> Set<int> {
    vstd::set_lib::set_int_range(0, k.pool.slots.len() as int).filter(|i: int| k.pool.slots[i])
}

/// `b` is the end of the page that `n` falls into, or `n` itself where that is one.
pub open spec fn page_up(n: int, b: int) -> bool {
    b % 4096 == 0 && n <= b < n + 4096
}

/// `after` is `k` but for the frames and for where the data of process `t` ends.
pub open spec fn only_memory(k: KernelView, after: KernelView, t: usize) -> bool {
    &&& after.tasks == k.tasks.set_task(t, TaskView { vm_token: after.task(t).vm_token, ..k.task(t) })
    &&& after == (KernelView { tasks: after.tasks, pool: after.pool, ..k })
    &&& after.pool.cap == k.pool.cap
    &&& after.pool.slots.len() == k.pool.slots.len()
}

/// Moving the end of data from the page boundary `a` to the page boundary `b` above it takes as
/// many frames as there are pages in between, all of them free before, and is refused only if
/// fewer are free. Moving it down takes and gives back none.
pub proof fn law_break_takes_the_pages_between(k: KernelView, c: Call, t: usize, a: int, b: int)
    requires
        k.wf(),
        k.pool.slots.len() <= usize::MAX,
        k.cpus[0] == Some(t),
        c.nr == SYS_BRK,
        0 < c.a0 < k.platform.kern_base,
        c.a0 + 4096 <= usize::MAX,
        a == k.task(t).vm_token,
        a % 4096 == 0,
        page_up(c.a0 as int, b),
    ensures
        ({
            let (after, r) = k.syscall_of(c);
            let more = if a < b {
                (b - a) / 4096
            } else {
                0
            };
            &&& r == (if free_frames(k).len() < more {
                Err::<usize, &'static str>("enomem")
            } else {
                Ok(b as usize)
            })
            &&& r is Err ==> after == k
            &&& r is Ok ==> {
                &&& only_memory(k, after, t)
                &&& after.task(t).vm_token == b
                &&& free_frames(after).subset_of(free_frames(k))
                &&& free_frames(after).len() == free_frames(k).len() - more
            }
        }),
{
    let after = k.syscall_of(c).0;
    let n = c.a0 as int;
    assert(n + 4095 - (n + 4095) % 4096 == b);
    law_count_free(k.pool.slots);
    law_count_free(after.pool.slots);
    if a < b {
        let more = (b - a) / 4096;
        law_take_the_lowest(k.pool.slots, more as nat);
        let s = crate::memory::taken(k.pool.slots, more as nat).0;
        assert forall|i: int| free_frames(after).contains(i) implies free_frames(k).contains(i) by {
            if k.syscall_of(c).1 is Ok {
                assert(s[i] ==> k.pool.slots[i]);
            }
        }
    }
}

/// Growing in two steps leaves as many frames as growing in one.
pub proof fn law_break_grows_in_steps(k: KernelView, first: Call, second: Call, t: usize, a: int, b: int, c: int)
    requires
        k.wf(),
        k.pool.slots.len() <= usize::MAX,
        k.cpus[0] == Some(t),
        first.nr == SYS_BRK,
        second.nr == SYS_BRK,
        0 < first.a0 < k.platform.kern_base,
        0 < second.a0 < k.platform.kern_base,
        first.a0 + 4096 <= usize::MAX,
        second.a0 + 4096 <= usize::MAX,
        a == k.task(t).vm_token,
        a % 4096 == 0,
        page_up(first.a0 as int, b),
        page_up(second.a0 as int, c),
        a <= b <= c,
        k.syscall_of(second).1 is Ok,
    ensures
        ({
            let mid = k.syscall_of(first);
            let end = mid.0.syscall_of(second);
            let once = k.syscall_of(second);
            &&& mid.1 is Ok
            &&& end.1 == once.1
            &&& free_frames(end.0).len() == free_frames(once.0).len()
            &&& end.0.task(t).vm_token == once.0.task(t).vm_token
        }),
{
    law_break_takes_the_pages_between(k, first, t, a, b);
    law_break_takes_the_pages_between(k, second, t, a, c);
    let mid = k.syscall_of(first).0;
    assert((c - a) / 4096 == (b - a) / 4096 + (c - b) / 4096);
    lemma_still_sound(k, mid, t);
    law_break_takes_the_pages_between(mid, second, t, b, c);
}

proof fn lemma_still_sound(k: KernelView, after: KernelView, t: usize)
    requires
        k.wf(),
        t < k.tasks.tasks.len(),
        only_memory(k, after, t),
    ensures
        after.wf(),
{
    assert(k.tasks.knows(k.task(t)) && k.task(t).wf(k.store));
    crate::kernel::state::lemma_set_task_wf(k, k.store, t, after.task(t));
    let plain = k.set_task(t, after.task(t));
    assert(plain.wf());
    assert(plain.tasks == after.tasks);
}

/// Asking for 0 gives the place where data starts out, asking for kernel space is refused, and
/// without a running process the end is only rounded up. None of these changes anything.
pub proof fn law_break_without_a_move(k: KernelView, c: Call, b: int)
    requires
        c.nr == SYS_BRK,
        c.a0 == 0 || c.a0 >= k.platform.kern_base || k.cpus[0] is None,
        c.a0 + 4096 <= usize::MAX,
        page_up(c.a0 as int, b),
    ensures
        k.syscall_of(c).0 == k,
        k.syscall_of(c).1 == (if c.a0 == 0 {
            Ok::<usize, &'static str>(0x40_0000)
        } else if c.a0 >= k.platform.kern_base {
            Err("enomem")
        } else {
            Ok(b as usize)
        }),
{
    let n = c.a0 as int;
    assert(n + 4095 - (n + 4095) % 4096 == b);
}

/// A mapping is refused if it is empty, if fewer frames are free than it has pages, or if it is
/// of a file and starts behind its own length. A fixed one goes where it was asked to go. No frame
/// is taken.
pub proof fn law_mapping_needs_frames(k: KernelView, c: Call, pages: int, start: int)
    requires
        c.nr == SYS_MMAP,
        k.mmap_ok(c.a0, c.a1, c.a3, c.a4),
        c.a1 > 0 ==> page_up(c.a1 as int, pages * 4096),
        start % 4096 == 0,
        start <= c.a5 < start + 4096,
    ensures
        ({
            let (after, r) = k.syscall_of(c);
            &&& after == k
            &&& r == Err::<usize, &'static str>("einval") <==> c.a1 == 0 || (free_frames(k).len() >= pages && c.a3 & 0x20
                == 0 && start > pages * 4096)
            &&& r == Err::<usize, &'static str>("enomem") <==> c.a1 > 0 && free_frames(k).len() < pages
            &&& r is Err ==> r == Err::<usize, &'static str>("einval") || r == Err::<usize, &'static str>("enomem")
            &&& r is Ok && c.a0 != 0 && c.a3 & 0x10 != 0 ==> r->Ok_0 == c.a0
        }),
{
    law_count_free(k.pool.slots);
    let n = c.a1 as int;
    let o = c.a5 as int;
    assert(c.a1 > 0 ==> n + 4095 - (n + 4095) % 4096 == pages * 4096);
    assert(o - o % 4096 == start);
    assert("einval" != "enomem") by {
        reveal_strlit("einval");
        reveal_strlit("enomem");
        assert("einval"@[1] != "enomem"@[1]);
    }
}

/// Mappings that are not fixed and are made by turns of the clock or for another file lie where
/// they lie for the same sum: only the sum of the two counts.
pub proof fn law_mapping_place_depends_on_time_and_file(k: KernelView, later: KernelView, c: Call, d: Call)
    requires
        c.nr == SYS_MMAP,
        d.nr == SYS_MMAP,
        c.a0 == 0,
        d.a0 == 0,
        c.a1 == d.a1,
        k.platform == later.platform,
        k.clk.wall + c.a4 == later.clk.wall + d.a4,
        k.syscall_of(c).1 is Ok,
        later.syscall_of(d).1 is Ok,
    ensures
        k.syscall_of(c).1 == later.syscall_of(d).1,
{
}

/// Only what starts at a page can be unmapped, and that always.
pub proof fn law_unmap_wants_a_page(k: KernelView, c: Call)
    requires
        c.nr == SYS_MUNMAP,
    ensures
        k.syscall_of(c).0 == k,
        k.syscall_of(c).1 == (if c.a0 % 4096 == 0 {
            Ok::<usize, &'static str>(0)
        } else {
            Err("einval")
        }),
{
}

} // verus!
