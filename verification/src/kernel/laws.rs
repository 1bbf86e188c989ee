//! What holds of the kernel as a whole.

use crate::fs::filelike::FileView;
use crate::fs::pipe::{PipeDir, PipeNode};
use crate::kernel::service::{closes_on_exec, execed, freed, pipe_fds, with_pipe};
use crate::kernel::state::{kernel_concluded, running, KernelView};
use crate::kernel::sys_mem::MMAP_BASE;
use crate::kernel::sys_proc::{SIGCHLD, SIGKILL, SIGSTOP, UNMASKABLE};
use crate::kernel::syscall::{Call, SYS_DUP2, SYS_FORK};
use crate::memory::{law_take_the_lowest, page_ceil, taken};
use crate::proc::fdtable::{free_fd, lemma_free_fd_is_lowest, lemma_some_fd_is_free};
use crate::proc::table::{adopted, all_signalled, law_drop_spares_the_referred};
use crate::proc::task::{law_signal_queued_once, masked, TaskView};
use crate::word::as_signed;
use vstd::prelude::*;

verus! {

/// A call that is refused leaves the kernel as it was. The exceptions are a fork, which uses up a
/// number, and a duplication onto a number, which closes what is there.
pub proof fn law_refused_call_changes_nothing(k: KernelView, c: Call)
    requires
        c.nr != SYS_FORK,
        c.nr != SYS_DUP2,
        k.syscall_of(c).1 is Err,
    ensures
        k.syscall_of(c).0 == k,
{
    assert(all_signalled(k.tasks.tasks, Seq::empty(), c.a1 as i32, (-1) as isize) =~= k.tasks.tasks);
    assert forall|ts: Seq<usize>| ts.len() == 0 implies #[trigger] k.signalled(ts, c.a1) == k by {
        assert(ts =~= Seq::empty());
    }
}

/// When a call is concluded, whoever runs, is held, is the root or has a number is as the call
/// left it, but for who waits for its events.
pub proof fn law_conclusion_spares_the_referred<F: Fn(usize, u32) -> bool>(
    run: F,
    held: Seq<usize>,
    mid: KernelView,
    after: KernelView,
    t: usize,
)
    requires
        kernel_concluded(run, held, mid, after),
        t < mid.tasks.tasks.len(),
        held.contains(t) || mid.cpus.contains(Some(t)) || mid.tasks.root == Some(t) || exists|id: usize| #[trigger]
            mid.tasks.map.dom().contains(id) && mid.tasks.map[id] == t,
    ensures
        after.task(t) == (TaskView { event: after.task(t).event, ..mid.task(t) }),
        after.tasks.map == mid.tasks.map,
        after.cpus == mid.cpus,
{
    let n = mid.cpus.len();
    let all = held + running(mid.cpus, n);
    if held.contains(t) {
        let i = choose|i: int| 0 <= i < held.len() && held[i] == t;
        assert(all[i] == t);
    } else if mid.cpus.contains(Some(t)) {
        let c = choose|c: int| 0 <= c < n && mid.cpus[c] == Some(t);
        let i = lemma_running(mid.cpus, n, c, t);
        assert(all[held.len() + i] == t);
    }
    law_drop_spares_the_referred(mid.tasks, mid.store, all, mid.tasks.tasks.len(), t);
}

proof fn lemma_running(cpus: Seq<Option<usize>>, n: nat, c: int, t: usize) -> (i: int)
    requires
        0 <= c < n <= cpus.len(),
        cpus[c] == Some(t),
    ensures
        0 <= i < running(cpus, n).len(),
        running(cpus, n)[i] == t,
    decreases n,
{
    if c == n - 1 {
        running(cpus, n).len() - 1
    } else {
        lemma_running(cpus, (n - 1) as nat, c, t)
    }
}

/// No process ever masks the signals that cannot be masked, if it starts so.
pub proof fn law_unmaskable_signals(k: KernelView, how: usize, set_addr: usize, oldset_addr: usize, t: usize)
    requires
        k.current() == Some(t),
        t < k.tasks.tasks.len(),
        k.task(t).sig_mask & UNMASKABLE == 0,
    ensures
        ({
            let m = k.sigmask_of(how, set_addr, oldset_addr).0.task(t).sig_mask;
            &&& m & UNMASKABLE == 0
            &&& !masked(m, SIGKILL as i32)
            &&& !masked(m, SIGSTOP as i32)
        }),
{
    let mask = k.task(t).sig_mask;
    let set = set_addr as u64;
    assert(mask & 0x8_0200 == 0 ==> ((mask | set) & !0x8_0200u64) & 0x8_0200 == 0 && (mask & !set) & 0x8_0200 == 0 && (set
        & !0x8_0200u64) & 0x8_0200 == 0) by (bit_vector);
    let m = k.sigmask_of(how, set_addr, oldset_addr).0.task(t).sig_mask;
    assert(m & 0x8_0200 == 0 ==> m & (1u64 << 9u64) == 0 && m & (1u64 << 19u64) == 0) by (bit_vector);
}

/// A mapping that is not fixed starts at a page and lies between its base and the kernel.
pub proof fn law_mapping_lies_in_user_space(k: KernelView, addr: usize, len: usize, flags: usize, fd: usize, offset: usize)
    requires
        k.mmap_ok(addr, len, flags, fd),
        addr == 0 || flags & 0x10 == 0,
        k.mmap_of(addr, len, flags, fd, offset) is Ok,
    ensures
        ({
            let at = k.mmap_of(addr, len, flags, fd, offset)->Ok_0;
            &&& at % 4096 == 0
            &&& MMAP_BASE <= at
            &&& at + page_ceil(len as int) < k.platform.kern_base
        }),
{
    let room = k.platform.kern_base - MMAP_BASE - page_ceil(len as int);
    let slot = (k.clk.wall * 4096 + fd * 4096) % room;
    vstd::arithmetic::div_mod::lemma_mod_bound(k.clk.wall * 4096 + fd * 4096, room);
    assert(0 <= slot < room);
}

/// The end of data that a process gets is at a page, and not before what it asked for.
pub proof fn law_break_is_rounded_up(k: KernelView, new_brk: usize)
    requires
        k.brk_ok(new_brk),
        new_brk > 0,
        k.brk_of(new_brk).1 is Ok,
    ensures
        ({
            let at = k.brk_of(new_brk).1->Ok_0;
            at % 4096 == 0 && new_brk <= at < new_brk + 4096
        }),
{
}

/// The two ends of a new pipe get different numbers that were free, the lower one to read from,
/// and nothing else changes.
pub proof fn law_pipe_ends(t: TaskView, data: usize, other: usize)
    requires
        t.files.dom().finite(),
        t.files.dom().len() < usize::MAX,
    ensures
        ({
            let (rd, wr) = pipe_fds(t, data);
            let after = with_pipe(t, data);
            &&& rd < wr
            &&& !t.files.dom().contains(rd) && !t.files.dom().contains(wr)
            &&& after.files[rd] == FileView::Pipe(PipeNode { data, dir: PipeDir::Read })
            &&& after.files[wr] == FileView::Pipe(PipeNode { data, dir: PipeDir::Write })
            &&& other != rd && other != wr ==> after.files.dom().contains(other) == t.files.dom().contains(other)
            &&& t.files.dom().contains(other) ==> after.files[other] == t.files[other]
        }),
{
    let rd = free_fd(t.files.dom(), 0);
    let one = t.with_file(FileView::Pipe(PipeNode { data, dir: PipeDir::Read }));
    lemma_some_fd_is_free(t.files.dom());
    lemma_free_fd_is_lowest(t.files.dom(), 0);
    assert(one.files.dom() =~= t.files.dom().insert(rd));
    lemma_some_fd_is_free(one.files.dom());
    lemma_free_fd_is_lowest(one.files.dom(), 0);
    let wr = free_fd(one.files.dom(), 0);
    assert(!one.files.dom().contains(wr));
    if wr < rd {
        assert(t.files.dom().contains(wr));
    }
}

/// A program that is started anew keeps just the files that are not to be closed then.
pub proof fn law_exec_closes_marked_files(t: TaskView, path: Seq<char>, sp: u64, fd: usize)
    ensures
        execed(t, path, sp).files.dom().contains(fd) <==> t.files.dom().contains(fd) && !closes_on_exec(t.files[fd]),
        execed(t, path, sp).files.dom().contains(fd) ==> execed(t, path, sp).files[fd] == t.files[fd],
{
}

/// Two forks in a row give different numbers.
pub proof fn law_fork_numbers_differ(k: KernelView)
    requires
        k.fork_of().1 is Ok,
        k.fork_of().0.fork_of().1 is Ok,
    ensures
        k.fork_of().1->Ok_0 != k.fork_of().0.fork_of().1->Ok_0,
{
}

/// Once the running process has exited it counts as ended and has no file open, its parent was
/// sent a signal, and its children belong to process number 1 if there is one.
pub proof fn law_exit_ends_the_process(k: KernelView, status: usize, t: usize)
    requires
        k.wf(),
        k.current() == Some(t),
    ensures
        ({
            let after = k.exit_of(status);
            let me = k.task(t);
            &&& after.task(t).status == Some((status & 0xFF) as i32)
            &&& after.task(t).files.dom() == Set::<usize>::empty()
            &&& after.task(t).exit_code == status
            &&& me.parent matches Some(p) ==> after.task(p).has_queued(SIGCHLD, as_signed(me.id))
            &&& k.tasks.map.dom().contains(1) ==> forall|j: int|
                0 <= j < me.subtasks.len() ==> after.task(#[trigger] me.subtasks[j]).parent == Some(k.tasks.map[1])
        }),
{
    let me = k.task(t);
    let gone = k.tasks.exited(t, status);
    assert(k.tasks.knows(me));
    let told = match me.parent {
        Some(p) => gone.set_task(p, gone.tasks[p as int].signalled(SIGCHLD, as_signed(me.id))),
        None => gone,
    };
    assert(me.quit(status).files.dom() =~= Set::<usize>::empty());
    if let Some(p) = me.parent {
        law_signal_queued_once(gone.tasks[p as int], SIGCHLD, as_signed(me.id));
    }
    if k.tasks.map.dom().contains(1) {
        lemma_adopted_fields(told.tasks, k.tasks.map[1], me.subtasks);
        let all = adopted(told.tasks, k.tasks.map[1], me.subtasks);
        assert(all[t as int].status == told.tasks[t as int].status);
        if let Some(p) = me.parent {
            assert(all[p as int].sig_queue == told.tasks[p as int].sig_queue);
            let q = told.tasks[p as int].sig_queue;
            let i = choose|i: int| 0 <= i < q.len() && #[trigger] q[i] == (SIGCHLD, as_signed(me.id));
            assert(all[p as int].sig_queue[i] == (SIGCHLD, as_signed(me.id)));
        }
        assert forall|j: int| 0 <= j < me.subtasks.len() implies k.exit_of(status).task(#[trigger] me.subtasks[j]).parent
            == Some(k.tasks.map[1]) by {
            assert(all[me.subtasks[j] as int].parent == Some(k.tasks.map[1]));
            assert(me.subtasks[j] < k.tasks.tasks.len());
        }
    }
}

/// Adoption gives the children their new parent and changes nothing else but lists of children.
proof fn lemma_adopted_fields(tasks: Seq<TaskView>, root: usize, ch: Seq<usize>)
    requires
        root < tasks.len(),
        forall|i: int| 0 <= i < ch.len() ==> (#[trigger] ch[i]) < tasks.len(),
    ensures
        adopted(tasks, root, ch).len() == tasks.len(),
        forall|i: int|
            0 <= i < tasks.len() ==> {
                let a = #[trigger] adopted(tasks, root, ch)[i];
                &&& a.status == tasks[i].status
                &&& a.files == tasks[i].files
                &&& a.exit_code == tasks[i].exit_code
                &&& a.sig_queue == tasks[i].sig_queue
            },
        forall|j: int| 0 <= j < ch.len() ==> adopted(tasks, root, ch)[(#[trigger] ch[j]) as int].parent == Some(root),
    decreases ch.len(),
{
    if ch.len() > 0 {
        let front = ch.drop_last();
        lemma_adopted_fields(tasks, root, front);
        let c = ch[ch.len() - 1];
        let before = adopted(tasks, root, front);
        let all = adopted(tasks, root, ch);
        assert forall|i: int| 0 <= i < tasks.len() implies {
            let a = #[trigger] all[i];
            &&& a.status == tasks[i].status
            &&& a.files == tasks[i].files
            &&& a.exit_code == tasks[i].exit_code
            &&& a.sig_queue == tasks[i].sig_queue
        } by {
            assert(before[i].status == tasks[i].status);
        }
        assert forall|j: int| 0 <= j < ch.len() implies all[(#[trigger] ch[j]) as int].parent == Some(root) by {
            if j < front.len() {
                assert(before[front[j] as int].parent == Some(root));
            }
        }
    }
}

/// Freeing the frames that were taken gives back the pool as it was, wherever their addresses fit
/// in a word.
pub proof fn law_free_undoes_alloc(slots: Seq<bool>, mem_off: usize, n: nat)
    requires
        slots.len() <= usize::MAX,
        forall|j: int|
            0 <= j < taken(slots, n).1.len() ==> (#[trigger] taken(slots, n).1[j]) * 4096 + mem_off <= usize::MAX,
    ensures
        ({
            let (s, ids) = taken(slots, n);
            freed(s, mem_off, Seq::new(ids.len(), |j: int| (ids[j] * 4096 + mem_off) as usize)) == slots
        }),
{
    let (s, ids) = taken(slots, n);
    let pages = Seq::new(ids.len(), |j: int| (ids[j] * 4096 + mem_off) as usize);
    law_take_the_lowest(slots, n);
    assert forall|j: int| 0 <= j < ids.len() implies (#[trigger] pages[j]) == ids[j] * 4096 + mem_off by {
        assert(taken(slots, n).1[j] * 4096 + mem_off <= usize::MAX);
    }
    lemma_freed(s, mem_off, ids, pages);
    let back = freed(s, mem_off, pages);
    assert forall|i: int| 0 <= i < slots.len() implies back[i] == slots[i] by {
        if ids.contains(i as usize) {
            let j = choose|j: int| 0 <= j < ids.len() && ids[j] == i as usize;
            assert(slots[ids[j] as int]);
        }
    }
    assert(back =~= slots);
}

proof fn lemma_freed(s: Seq<bool>, mem_off: usize, ids: Seq<usize>, pages: Seq<usize>)
    requires
        s.len() <= usize::MAX,
        pages.len() == ids.len(),
        forall|j: int| 0 <= j < ids.len() ==> (#[trigger] ids[j]) < s.len(),
        forall|j: int| 0 <= j < ids.len() ==> (#[trigger] pages[j]) == ids[j] * 4096 + mem_off,
    ensures
        freed(s, mem_off, pages).len() == s.len(),
        forall|i: int|
            0 <= i < s.len() ==> #[trigger] freed(s, mem_off, pages)[i] == (s[i] || ids.contains(i as usize)),
    decreases ids.len(),
{
    if ids.len() > 0 {
        let front = ids.drop_last();
        lemma_freed(s, mem_off, front, pages.drop_last());
        let last = ids.last();
        assert(pages.last() == ids[ids.len() - 1] * 4096 + mem_off);
        assert((pages.last() - mem_off) / 4096 == last);
        let back = freed(s, mem_off, pages);
        assert forall|i: int| 0 <= i < s.len() implies #[trigger] back[i] == (s[i] || ids.contains(i as usize)) by {
            if i == last {
                assert(ids[ids.len() - 1] == i as usize);
            }
            if front.contains(i as usize) {
                let j = choose|j: int| 0 <= j < front.len() && front[j] == i as usize;
                assert(ids[j] == i as usize);
            }
            if ids.contains(i as usize) && i != last {
                let j = choose|j: int| 0 <= j < ids.len() && ids[j] == i as usize;
                assert(front[j] == i as usize);
            }
        }
    }
}

} // verus!
