//! What holds of the single system calls.

use crate::bits::lemma_low_bits;
use crate::fs::cache::lemma_first_slot;
use crate::fs::filelike::FileView;
use crate::fs::laws::{is_in, law_cache_finds_what_was_filled, law_cache_forgets, slots_kept};
use crate::fs::pipe::{PipeDir, PipeNode};
use crate::fs::store::StoreView;
use crate::kernel::laws::law_pipe_ends;
use crate::kernel::memory_laws::free_frames;
use crate::kernel::state::KernelView;
use crate::kernel::syscall::{
    Call, SYS_CLOCK_GETTIME, SYS_CLOSE, SYS_DUP, SYS_DUP2, SYS_EPOLL_CREATE, SYS_EPOLL_CTL, SYS_EPOLL_WAIT, SYS_EXEC,
    SYS_EXIT, SYS_FCNTL, SYS_FORK, SYS_FSTAT, SYS_FUTEX, SYS_GETPGID, SYS_GETPID, SYS_GETPPID, SYS_IOCTL, SYS_OPEN,
    SYS_PIPE, SYS_READ, SYS_SETPGID, SYS_SETSID, SYS_SIGPROCMASK, SYS_STAT, SYS_WRITE, SYS_SignalAction,
};
use crate::memory::law_count_free;
use crate::proc::fdtable::{free_fd, lemma_free_fd_is_lowest, lemma_some_fd_is_free};
use crate::proc::laws::{ends_held, law_exit_closes_the_pipes, same_but_exec};
use crate::proc::task::{masked, TaskView};
use vstd::prelude::*;

verus! {

/// The user may use the `len` bytes from `addr` on: one of the ranges holds them all.
pub open spec fn may_use(k: KernelView, addr: usize, len: usize) -> bool {
    exists|i: int| 0 <= i < k.user.len() && (#[trigger] k.user[i]).0 <= addr && addr + len <= k.user[i].1
}

/// A call is answered with 0 if all is well and refused for a bad address otherwise.
pub open spec fn ok_or_fault(ok: bool) -> Result<usize, &'static str> {
    if ok {
        Ok(0)
    } else {
        Err("efault")
    }
}

proof fn lemma_use(k: KernelView)
    ensures
        forall|a: usize, n: usize| #[trigger] k.access(a, n) == may_use(k, a, n),
{
    assert forall|a: usize, n: usize| #[trigger] k.access(a, n) == may_use(k, a, n) by {}
}

/// Part of what may be used may be used.
pub proof fn law_part_may_be_used(k: KernelView, addr: usize, len: usize, a: usize, n: usize)
    requires
        k.access(addr, len),
        addr <= a,
        a + n <= addr + len,
    ensures
        k.access(a, n),
        may_use(k, addr, len),
{
    lemma_use(k);
    let i = choose|i: int| 0 <= i < k.user.len() && (#[trigger] k.user[i]).0 <= addr && addr + len <= k.user[i].1;
    assert(k.user[i].0 <= a && a + n <= k.user[i].1);
    assert(may_use(k, a, n));
}

/// Only process `t` changed, and of the rest of the kernel nothing but what the caller says.
pub open spec fn only_task(k: KernelView, after: KernelView, t: usize) -> bool {
    &&& after.tasks.tasks.len() == k.tasks.tasks.len()
    &&& forall|u: usize| u < k.tasks.tasks.len() && u != t ==> #[trigger] after.task(u) == k.task(u)
    &&& after.tasks.map == k.tasks.map
    &&& after.tasks.seq == k.tasks.seq
    &&& after.tasks.root == k.tasks.root
}

/// A process is told its own number and that of its parent. Without a process that runs the
/// first number stands for it, and without a parent there is zero.
pub proof fn law_processes_know_their_numbers(k: KernelView, mine: Call, parents: Call)
    requires
        mine.nr == SYS_GETPID,
        parents.nr == SYS_GETPPID,
    ensures
        k.syscall_of(mine).0 == k,
        k.syscall_of(parents).0 == k,
        k.cpus[0] matches Some(t) ==> k.syscall_of(mine).1 == Ok::<usize, &'static str>(k.task(t).id),
        k.cpus[0] matches Some(t) ==> (k.task(t).parent matches Some(p) ==> k.syscall_of(parents).1 == Ok::<
            usize,
            &'static str,
        >(k.task(p).id)),
        k.cpus[0] matches Some(t) ==> (k.task(t).parent is None ==> k.syscall_of(parents).1 == Ok::<
            usize,
            &'static str,
        >(0)),
        k.cpus[0] is None ==> k.syscall_of(mine).1 == Ok::<usize, &'static str>(1),
        k.cpus[0] is None ==> k.syscall_of(parents).1 == Ok::<usize, &'static str>(0),
{
}

/// A process may move itself or a child of its own to a group, and nobody else. Zero stands for
/// the caller, and for the number of whoever is moved. Afterwards the group can be asked for, and
/// nothing but the group has changed.
pub proof fn law_group_that_is_set_is_there(k: KernelView, set: Call, ask: Call, me: usize, who: usize, g: usize)
    requires
        k.wf(),
        set.nr == SYS_SETPGID,
        ask.nr == SYS_GETPGID,
        ask.a0 == who,
        who != 0,
        k.cpus[0] matches Some(t) && me == k.task(t).id,
        who == (if set.a0 == 0 {
            me
        } else {
            set.a0
        }),
        g == (if set.a1 == 0 {
            who
        } else {
            set.a1
        }),
        g <= i32::MAX,
    ensures
        ({
            let (after, r) = k.syscall_of(set);
            let known = k.tasks.map.dom().contains(who);
            let t = k.tasks.map[who];
            let mine = known && (k.task(t).parent matches Some(p) && k.task(p).id == me);
            &&& r == (if who == me || mine {
                Ok::<usize, &'static str>(0)
            } else {
                Err("esrch")
            })
            &&& r is Err || !known ==> after == k
            &&& r is Ok && known ==> {
                &&& only_task(k, after, t)
                &&& after.task(t) == (TaskView { pgid: g as i32, ..k.task(t) })
                &&& after == (KernelView { tasks: after.tasks, ..k })
                &&& after.syscall_of(ask).1 == Ok::<usize, &'static str>(g)
            }
        }),
{
}

/// Asking for the group of nobody who is registered is refused, and asking changes nothing.
pub proof fn law_group_of_strangers(k: KernelView, ask: Call)
    requires
        ask.nr == SYS_GETPGID,
    ensures
        ({
            let who = if ask.a0 != 0 {
                ask.a0
            } else {
                match k.cpus[0] {
                    Some(t) => k.task(t).id,
                    None => 0,
                }
            };
            let (after, r) = k.syscall_of(ask);
            &&& after == k
            &&& r is Err <==> who == 0 || !k.tasks.map.dom().contains(who)
            &&& r is Err ==> r == Err::<usize, _>("esrch")
            &&& r is Ok && k.task(k.tasks.map[who]).pgid >= 0 ==> r->Ok_0 == k.task(k.tasks.map[who]).pgid
        }),
{
}

/// A new session makes the caller the leader of a group with its own number, and only once.
pub proof fn law_session_is_new(k: KernelView, c: Call, t: usize)
    requires
        k.wf(),
        c.nr == SYS_SETSID,
        k.cpus[0] == Some(t),
        k.task(t).id <= i32::MAX,
    ensures
        ({
            let (after, r) = k.syscall_of(c);
            &&& r is Err <==> k.task(t).pgid == k.task(t).id
            &&& r is Err ==> r == Err::<usize, _>("eperm") && after == k
            &&& r is Ok ==> {
                &&& r->Ok_0 == k.task(t).id
                &&& only_task(k, after, t)
                &&& after.task(t) == (TaskView { pgid: k.task(t).id as i32, ..k.task(t) })
                &&& after.syscall_of(c) == (after, Err::<usize, &'static str>("eperm"))
            }
        }),
        ({
            let nobody = KernelView { cpus: k.cpus.update(0, None), ..k };
            nobody.syscall_of(c) == (nobody, Err::<usize, &'static str>("esrch"))
        }),
{
}

proof fn lemma_mask_bits(mask: u64, set: u64, s: u64)
    requires
        s < 64,
    ensures
        ((mask | set) & !0x8_0200u64) & (1u64 << s) != 0 <==> (mask & (1u64 << s) != 0 || set & (1u64 << s) != 0) && s != 9
            && s != 19,
        (mask & !set) & (1u64 << s) != 0 <==> mask & (1u64 << s) != 0 && set & (1u64 << s) == 0,
        (set & !0x8_0200u64) & (1u64 << s) != 0 <==> set & (1u64 << s) != 0 && s != 9 && s != 19,
{
    assert((((mask | set) & !0x8_0200u64) & (1u64 << s) != 0) == ((mask & (1u64 << s) != 0 || set & (1u64 << s) != 0)
        && s != 9 && s != 19) && ((mask & !set) & (1u64 << s) != 0) == (mask & (1u64 << s) != 0 && set & (1u64 << s) == 0)
        && ((set & !0x8_0200u64) & (1u64 << s) != 0) == (set & (1u64 << s) != 0 && s != 9 && s != 19)) by (bit_vector)
        requires
            s < 64,
    ;
}

/// Signals are added to those that a process blocks, taken away, or set anew, one by one: each is
/// blocked afterwards just if it was and is not taken away, or is added or set. The two that
/// cannot be blocked are never added.
pub proof fn law_signals_are_blocked(k: KernelView, c: Call, t: usize, s: i32)
    requires
        k.wf(),
        c.nr == SYS_SIGPROCMASK,
        k.cpus[0] == Some(t),
        c.a1 != 0,
        may_use(k, c.a1, 8),
        c.a2 == 0 || may_use(k, c.a2, 8),
        0 <= s < 64,
    ensures
        ({
            let (after, r) = k.syscall_of(c);
            let was = k.task(t).sig_mask & (1u64 << s as u64) != 0;
            let named = c.a1 as u64 & (1u64 << s as u64) != 0;
            let now = after.task(t).sig_mask & (1u64 << s as u64) != 0;
            &&& r is Ok <==> c.a0 <= 2
            &&& r is Err ==> after == k && r == Err::<usize, _>("einval")
            &&& c.a0 == 0 ==> now == ((was || named) && s != 9 && s != 19)
            &&& c.a0 == 1 ==> now == (was && !named)
            &&& c.a0 == 2 ==> now == (named && s != 9 && s != 19)
            &&& masked(after.task(t).sig_mask, s) == now
            &&& only_task(k, after, t)
            &&& after.task(t) == (TaskView { sig_mask: after.task(t).sig_mask, ..k.task(t) })
            &&& after == (KernelView { tasks: after.tasks, ..k })
        }),
{
    lemma_use(k);
    lemma_mask_bits(k.task(t).sig_mask, c.a1 as u64, s as u64);
}

/// A mask at an address that may not be used is refused, and without a mask nothing changes.
pub proof fn law_mask_needs_its_address(k: KernelView, c: Call)
    requires
        c.nr == SYS_SIGPROCMASK,
    ensures
        ({
            let bad = (c.a1 != 0 && !may_use(k, c.a1, 8)) || (c.a2 != 0 && !may_use(k, c.a2, 8));
            &&& bad ==> k.syscall_of(c) == (k, Err::<usize, &'static str>("efault"))
            &&& !bad && (c.a1 == 0 || k.cpus[0] is None) ==> k.syscall_of(c) == (k, Ok::<usize, &'static str>(0))
        }),
{
    lemma_use(k);
}

/// An action can be asked for with the two signals alone that cannot be blocked, and with
/// addresses that may be used.
pub proof fn law_signal_action(k: KernelView, c: Call)
    requires
        c.nr == SYS_SignalAction,
    ensures
        k.syscall_of(c).0 == k,
        k.syscall_of(c).1 == (if (c.a0 == 9 || c.a0 == 19) && c.a0 < k.platform.nsig {
            ok_or_fault((c.a1 == 0 || may_use(k, c.a1, 32)) && (c.a2 == 0 || may_use(k, c.a2, 32)))
        } else {
            Err("einval")
        }),
{
    lemma_use(k);
}

/// A fork gives the number that was next and uses it up. It is refused, with the number used up
/// all the same, while more than nine tenths of the frames that a machine has are not free, or
/// fewer are free than there are pages in what has to be copied.
pub proof fn law_fork_call(k: KernelView, c: Call)
    requires
        c.nr == SYS_FORK,
        k.tasks.map.dom().finite(),
        free_frames(k).len() <= 65536,
    ensures
        ({
            let (after, r) = k.syscall_of(c);
            let free = free_frames(k).len();
            let copied = (if free < 256 {
                free as int
            } else {
                256
            }) + 2 * k.tasks.map.dom().len();
            &&& r is Err <==> (65536 - free) * 100 >= 91 * 65536 || free < copied / 4096
            &&& r is Err ==> r == Err::<usize, _>("enomem")
            &&& r is Ok ==> r->Ok_0 == k.tasks.seq
            &&& k.tasks.seq < usize::MAX ==> after.tasks.seq == k.tasks.seq + 1
            &&& after.tasks.tasks == k.tasks.tasks
            &&& after.tasks.map == k.tasks.map
            &&& after.tasks.root == k.tasks.root
            &&& after == (KernelView { tasks: after.tasks, ..k })
        }),
{
    law_count_free(k.pool.slots);
    let free = free_frames(k).len() as int;
    assert((65536 - free) * 100 / 65536 > 90 <==> (65536 - free) * 100 >= 91 * 65536);
}

/// A program can be started if its path and what is given of its arguments can be read.
pub proof fn law_exec_call(k: KernelView, c: Call)
    requires
        c.nr == SYS_EXEC,
    ensures
        k.syscall_of(c) == (k, ok_or_fault(
            c.a0 != 0 && may_use(k, c.a0, 256) && (c.a1 == 0 || may_use(k, c.a1, 512)) && (c.a2 == 0 || may_use(
                k,
                c.a2,
                512,
            )),
        )),
{
    lemma_use(k);
}

/// An exit closes the ends of pipes that the process had open, each pipe losing as many as it
/// held, and gives zero. What is in the pipes and all files stay. Without a process that runs
/// nothing happens.
pub proof fn law_exit_call(k: KernelView, c: Call, i: int)
    requires
        k.wf(),
        c.nr == SYS_EXIT,
        0 <= i < k.store.pipes.len(),
    ensures
        ({
            let (after, r) = k.syscall_of(c);
            &&& r == Ok::<usize, &'static str>(0)
            &&& k.cpus[0] is None ==> after == k
            &&& k.cpus[0] matches Some(t) ==> {
                let n = ends_held(k.task(t).files, i).len();
                let p = k.store.pipes[i];
                let q = after.store.pipes[i];
                &&& n == 0 ==> q == p
                &&& n > 0 ==> q.event_closed()
                &&& p.ends - n >= i32::MIN ==> q.ends == p.ends - n
                &&& q.buf == p.buf
                &&& after.store == (StoreView { pipes: after.store.pipes, ..k.store })
            }
            &&& after == (KernelView { tasks: after.tasks, store: after.store, ..k })
            &&& after.tasks.map == k.tasks.map
            &&& after.tasks.seq == k.tasks.seq
            &&& after.tasks.root == k.tasks.root
        }),
{
    if let Some(t) = k.cpus[0] {
        assert(k.tasks.tasks[t as int].wf(k.store));
        law_exit_closes_the_pipes(k.task(t), k.store, i);
    }
}

/// A file that is opened gets the lowest free number and starts empty, with its cursor at the
/// start. The low bits of the flags say whether it is to read (0), to write (1) or both (2), and
/// others whether it is for appending, does not block, or closes on exec. Everything that was open
/// still is.
pub proof fn law_open_call(k: KernelView, c: Call, t: usize, other: usize)
    requires
        k.wf(),
        c.nr == SYS_OPEN,
        k.cpus[0] == Some(t),
        c.a0 != 0,
        may_use(k, c.a0, 256),
        !(c.a1 & 0o100 != 0 && c.a1 & 0o200 != 0 && is_in(k.cache, c.a0)),
        k.task(t).files.dom().len() <= usize::MAX,
        k.store.blobs.len() < usize::MAX,
        k.store.states.len() < usize::MAX,
    ensures
        ({
            let (after, r) = k.syscall_of(c);
            let files = k.task(t).files;
            let fd = r->Ok_0;
            &&& r is Ok
            &&& !files.dom().contains(fd)
            &&& forall|i: usize| i < fd ==> #[trigger] files.dom().contains(i)
            &&& after.task(t).files.dom() == files.dom().insert(fd)
            &&& files.dom().contains(other) ==> after.task(t).files[other] == files[other]
            &&& after.task(t).files[fd] matches FileView::File(h) && {
                let opt = h.cursor(after.store).opt;
                &&& h.data == k.store.blobs.len() && h.state == k.store.states.len()
                &&& h.wf(after.store)
                &&& h.blob(after.store).len() == 0
                &&& h.cursor(after.store).off == 0
                &&& opt.read <==> c.a1 & 3 == 0 || c.a1 & 3 == 2
                &&& opt.write <==> c.a1 & 3 == 1 || c.a1 & 3 == 2
                &&& opt.append <==> c.a1 & 0o2000 != 0
                &&& opt.non_blocking <==> c.a1 & 0o4000 != 0
                &&& h.cloexec <==> c.a1 & 0o2000000 != 0
                &&& !h.pipe
            }
            &&& only_task(k, after, t)
            &&& after.task(t) == (TaskView { files: after.task(t).files, ..k.task(t) })
            &&& forall|i: int| 0 <= i < k.store.blobs.len() ==> #[trigger] after.store.blobs[i] == k.store.blobs[i]
            &&& forall|i: int| 0 <= i < k.store.states.len() ==> #[trigger] after.store.states[i] == k.store.states[i]
            &&& after.store.pipes == k.store.pipes && after.store.sets == k.store.sets
            &&& after == (KernelView { tasks: after.tasks, store: after.store, ..k })
        }),
{
    lemma_use(k);
    law_cache_finds_what_was_filled(k.cache, c.a0, 0, 0);
    assert(k.task(t).wf(k.store));
    lemma_some_fd_is_free(k.task(t).files.dom());
    lemma_free_fd_is_lowest(k.task(t).files.dom(), 0);
    let fd = free_fd(k.task(t).files.dom(), 0);
    assert(k.syscall_of(c).0.task(t).files.dom() =~= k.task(t).files.dom().insert(fd));
}

/// A path at a bad address is refused, and so is creating what is there. Without a process that
/// runs only a number comes back.
pub proof fn law_open_refuses(k: KernelView, c: Call)
    requires
        k.cache.wf(),
        c.nr == SYS_OPEN,
    ensures
        ({
            let bad = c.a0 == 0 || !may_use(k, c.a0, 256);
            let there = c.a1 & 0o100 != 0 && c.a1 & 0o200 != 0 && is_in(k.cache, c.a0);
            &&& bad ==> k.syscall_of(c) == (k, Err::<usize, &'static str>("efault"))
            &&& !bad && there ==> k.syscall_of(c) == (k, Err::<usize, &'static str>("eexist"))
            &&& !bad && !there && k.cpus[0] is None ==> k.syscall_of(c) == (k, Ok::<usize, &'static str>(
                (c.a0 % 64 + 3) as usize,
            ))
        }),
{
    lemma_use(k);
    law_cache_finds_what_was_filled(k.cache, c.a0, 0, 0);
}

/// Closing a number that is not too great forgets the block of that number and no other, and
/// counts a disk access if it was there.
pub proof fn law_close_call(k: KernelView, c: Call, other: usize)
    requires
        k.wf(),
        c.nr == SYS_CLOSE,
    ensures
        ({
            let (after, r) = k.syscall_of(c);
            &&& r == (if c.a0 <= 1024 {
                Ok::<usize, &'static str>(0)
            } else {
                Err("ebadf")
            })
            &&& r is Err ==> after == k
            &&& r is Ok ==> {
                &&& !is_in(after.cache, c.a0)
                &&& other != c.a0 ==> after.cache.cached(other) == k.cache.cached(other)
                &&& disk_counted(k, after, is_in(k.cache, c.a0))
                &&& after == (KernelView { cache: after.cache, disks: after.disks, ..k })
            }
        }),
{
    law_cache_forgets(k.cache, c.a0, other);
    law_cache_finds_what_was_filled(k.cache, c.a0, 0, 0);
    law_cache_finds_what_was_filled(k.cache.without(c.a0), c.a0, 0, 0);
}

/// One access was counted on the disk, or nothing happened to the disks.
pub open spec fn disk_counted(k: KernelView, after: KernelView, counted: bool) -> bool {
    let i = k.disk.at as int;
    &&& after.disks.len() == k.disks.len()
    &&& !counted ==> after.disks == k.disks
    &&& counted && k.disks[i].ops < usize::MAX ==> after.disks[i].ops == k.disks[i].ops + 1
    &&& after.disks[i].errs == k.disks[i].errs
    &&& forall|j: int| 0 <= j < k.disks.len() && j != i ==> #[trigger] after.disks[j] == k.disks[j]
}

/// A write gives how many bytes were asked for, as long as they stay in one page, and otherwise
/// those from the start of the first page on. It marks the block with the file's number as
/// changed, and for the first three files counts a disk access.
pub proof fn law_write_call(k: KernelView, c: Call)
    requires
        k.wf(),
        c.nr == SYS_WRITE,
        c.a1 + c.a2 <= usize::MAX,
    ensures
        ({
            let (after, r) = k.syscall_of(c);
            let into = c.a1 % 4096;
            &&& r == (if c.a2 == 0 {
                Ok::<usize, &'static str>(0)
            } else if c.a1 == 0 || !may_use(k, c.a1, c.a2) {
                Err("efault")
            } else if into + c.a2 <= 4096 {
                Ok(c.a2)
            } else {
                Ok((c.a2 + into) as usize)
            })
            &&& r is Err || c.a2 == 0 ==> after == k
            &&& r is Ok && c.a2 > 0 ==> {
                &&& after.cache == k.cache.dirtied(c.a0)
                &&& slots_kept(k.cache, after.cache)
                &&& disk_counted(k, after, c.a0 <= 2)
                &&& after == (KernelView { cache: after.cache, disks: after.disks, ..k })
            }
        }),
{
    lemma_use(k);
    lemma_slots_kept(k, c.a0);
}

proof fn lemma_slots_kept(k: KernelView, b: usize)
    requires
        k.wf(),
    ensures
        slots_kept(k.cache, k.cache.dirtied(b)),
{
    lemma_first_slot(k.cache.chain(b), b);
    vstd::arithmetic::div_mod::lemma_mod_bound(b as int, k.cache.width as int);
}

/// A read of what is not cached gives what was asked for, up to sixteen pages. Of what is cached
/// it gives a page less if more than a page was asked for.
pub proof fn law_read_call(k: KernelView, c: Call)
    requires
        k.cache.wf(),
        c.nr == SYS_READ,
    ensures
        k.syscall_of(c).0 == k,
        k.syscall_of(c).1 == (if c.a2 == 0 {
            Ok::<usize, &'static str>(0)
        } else if c.a1 == 0 || !may_use(k, c.a1, c.a2) {
            Err("efault")
        } else if !is_in(k.cache, c.a0) {
            Ok(
                if c.a2 <= 65536 {
                    c.a2
                } else {
                    65536
                },
            )
        } else {
            Ok(
                if c.a2 <= 4096 {
                    c.a2
                } else {
                    (c.a2 - 4096) as usize
                },
            )
        }),
{
    lemma_use(k);
    law_cache_finds_what_was_filled(k.cache, c.a0, 0, 0);
}

/// What a file is can be asked if the answer can be written, and by path if that can be read.
pub proof fn law_stat_call(k: KernelView, c: Call)
    requires
        c.nr == SYS_STAT || c.nr == SYS_FSTAT,
    ensures
        k.syscall_of(c) == (k, ok_or_fault(
            c.a1 != 0 && may_use(k, c.a1, 144) && (c.nr == SYS_FSTAT || may_use(k, c.a0, 256)),
        )),
{
    lemma_use(k);
}

/// A pipe that a process gets is new, empty and open at both ends. The answer holds the two
/// numbers it got, both free before, the lower one to read from. A process with too many files,
/// or an address that may not be used, gets none.
pub proof fn law_pipe_call(k: KernelView, c: Call, t: usize, other: usize)
    requires
        k.wf(),
        c.nr == SYS_PIPE,
        k.cpus[0] == Some(t),
        k.pipe_ok(c.a0),
        k.store.pipes.len() < usize::MAX,
    ensures
        ({
            let (after, r) = k.syscall_of(c);
            let files = k.task(t).files;
            let full = files.dom().len() + 2 > 256;
            let bad = c.a0 == 0 || !may_use(k, c.a0, 8);
            &&& r is Err <==> bad || full
            &&& bad ==> r == Err::<usize, _>("efault")
            &&& !bad && full ==> r == Err::<usize, _>("emfile")
            &&& r is Err ==> after == k
            &&& r is Ok ==> exists|rd: usize, wr: usize|
                {
                    let n = k.store.pipes.len();
                    let now = after.task(t).files;
                    &&& r->Ok_0 == rd | (wr << 32)
                    &&& #[trigger] holds_pipe(after.task(t).files, rd, wr, k.store.pipes.len() as usize)
                    &&& rd < wr
                    &&& !files.dom().contains(rd) && !files.dom().contains(wr)
                    &&& other != rd && other != wr ==> now.dom().contains(other) == files.dom().contains(other)
                    &&& files.dom().contains(other) ==> now[other] == files[other]
                    &&& after.store.pipes.len() == n + 1
                    &&& after.store.pipes[n as int].buf.len() == 0
                    &&& after.store.pipes[n as int].ends == 2
                    &&& after.store.pipes[n as int].bus.event == 0
                    &&& after.store.pipes[n as int].bus.callbacks.len() == 0
                    &&& forall|i: int| 0 <= i < n ==> #[trigger] after.store.pipes[i] == k.store.pipes[i]
                    &&& only_task(k, after, t)
                    &&& after.task(t) == (TaskView { files: now, ..k.task(t) })
                }
        }),
{
    lemma_use(k);
    assert(k.task(t).wf(k.store));
    let data = k.store.pipes.len() as usize;
    let files = k.task(t).files;
    if files.dom().len() + 2 <= 256 {
        law_pipe_ends(k.task(t), data, other);
        let (rd, wr) = crate::kernel::service::pipe_fds(k.task(t), data);
        if k.syscall_of(c).1 is Ok {
            assert(holds_pipe(k.syscall_of(c).0.task(t).files, rd, wr, data));
        }
    }
}

/// The two ends of pipe `data` are open under `rd` and `wr`.
pub open spec fn holds_pipe(files: Map<usize, FileView>, rd: usize, wr: usize, data: usize) -> bool {
    &&& files.dom().contains(rd) && files.dom().contains(wr)
    &&& files[rd] == FileView::Pipe(PipeNode { data, dir: PipeDir::Read })
    &&& files[wr] == FileView::Pipe(PipeNode { data, dir: PipeDir::Write })
}

/// A duplicate would go to the lowest free number from the given one on. Nothing is changed.
pub proof fn law_dup_call(k: KernelView, c: Call)
    requires
        c.nr == SYS_DUP,
        k.dup_ok(c.a0),
    ensures
        ({
            let (after, r) = k.syscall_of(c);
            &&& after == k
            &&& r is Err <==> c.a0 >= 1024
            &&& r is Err ==> r == Err::<usize, _>("ebadf")
            &&& r is Ok && k.cpus[0] is None ==> r->Ok_0 == c.a0 + 1
            &&& r is Ok ==> (k.cpus[0] matches Some(t) ==> {
                let used = k.task(t).files.dom();
                &&& c.a0 <= r->Ok_0
                &&& !used.contains(r->Ok_0)
                &&& forall|i: usize| c.a0 <= i < r->Ok_0 ==> #[trigger] used.contains(i)
            })
        }),
{
    if let Some(t) = k.cpus[0] {
        if c.a0 < 1024 {
            lemma_free_fd_is_lowest(k.task(t).files.dom(), c.a0);
        }
    }
}

/// A duplicate onto a chosen number closes what was there and, if the first number is open, stands
/// there for the same thing. Whatever else is open stays so.
pub proof fn law_dup2_call(k: KernelView, c: Call, t: usize, other: usize)
    requires
        k.wf(),
        c.nr == SYS_DUP2,
        k.cpus[0] == Some(t),
    ensures
        ({
            let (after, r) = k.syscall_of(c);
            let files = k.task(t).files;
            let now = after.task(t).files;
            let far = c.a0 >= 1024 || c.a1 >= 1024;
            &&& r == (if far || (c.a0 != c.a1 && !files.dom().contains(c.a0)) {
                Err::<usize, &'static str>("ebadf")
            } else {
                Ok(c.a1)
            })
            &&& far || c.a0 == c.a1 ==> after == k
            &&& !far && c.a0 != c.a1 ==> {
                &&& now.dom().contains(c.a1) <==> files.dom().contains(c.a0)
                &&& files.dom().contains(c.a0) ==> same_but_exec(files[c.a0], now[c.a1], false)
                &&& other != c.a1 ==> now.dom().contains(other) == files.dom().contains(other)
                &&& other != c.a1 && files.dom().contains(other) ==> now[other] == files[other]
                &&& only_task(k, after, t)
                &&& after.task(t) == (TaskView { files: now, ..k.task(t) })
                &&& after == (KernelView { tasks: after.tasks, store: after.store, ..k })
            }
        }),
{
}

/// The answers of the calls that control a file, which look at the number, the request and the
/// address alone, at the clock for one of them and at the cache for another.
pub proof fn law_fcntl_call(k: KernelView, c: Call, base: int)
    requires
        k.cache.wf(),
        c.nr == SYS_FCNTL,
        c.a0 < 1024,
        base == (if c.a0 > c.a2 {
            c.a0
        } else {
            c.a2
        }),
        base + 3 <= usize::MAX,
    ensures
        ({
            let (after, r) = k.syscall_of(c);
            &&& after == k
            &&& c.a1 == 0 ==> r is Ok && base <= r->Ok_0 <= base + 3 && (r->Ok_0 - base) % 4 == k.clk.wall % 4
            &&& c.a1 == 1030 ==> r is Ok && r->Ok_0 == base + 1
            &&& c.a1 == 1 ==> r is Ok && r->Ok_0 == (if is_changed(k, c.a0) {
                1usize
            } else {
                0
            })
            &&& c.a1 == 2 ==> r == Ok::<usize, &'static str>(0)
            &&& c.a1 == 3 && c.a0 <= 2 ==> r == Ok::<usize, &'static str>(0o6000)
            &&& c.a1 == 3 && c.a0 > 2 ==> r == Ok::<usize, &'static str>(0o4000)
            &&& c.a1 == 4 ==> (r is Ok <==> c.a2 & !0o6000usize == 0)
            &&& c.a1 == 4 ==> r == Ok::<usize, &'static str>(0) || r == Err::<usize, &'static str>("einval")
            &&& c.a1 == 5 || c.a1 == 6 || c.a1 == 7 ==> r == ok_or_fault(may_use(k, c.a2, 32))
            &&& 7 < c.a1 && c.a1 != 1030 ==> r == Err::<usize, &'static str>("einval")
        }),
{
    lemma_use(k);
    let w = k.clk.wall;
    lemma_low_bits(w);
    assert(0o4000usize | 0o2000usize == 0o6000usize) by (bit_vector);
}

/// A slot for the block is there that counts as changed.
pub open spec fn is_changed(k: KernelView, b: usize) -> bool {
    exists|i: int|
        0 <= i < k.cache.chains[b as int % k.cache.width as int].len() && (#[trigger] k.cache.chains[b as int
            % k.cache.width as int][i]).id == b && k.cache.chains[b as int % k.cache.width as int][i].modified
}

/// The answers of the calls that control a terminal: each request that is known wants an address
/// with room for what it moves, but for two that want none.
pub proof fn law_ioctl_call(k: KernelView, c: Call)
    requires
        c.nr == SYS_IOCTL,
    ensures
        k.syscall_of(c).0 == k,
        k.syscall_of(c).1 == (if c.a1 == 0x5401 || c.a1 == 0x5402 {
            ok_or_fault(may_use(k, c.a2, crate::terminal::TERMIOS_SZ))
        } else if c.a1 == 0x540F || c.a1 == 0x5410 || c.a1 == 0x5421 {
            ok_or_fault(may_use(k, c.a2, 4))
        } else if c.a1 == 0x5413 {
            ok_or_fault(may_use(k, c.a2, crate::terminal::WINSIZE_SZ))
        } else if c.a1 == 0x5450 || c.a1 == 0x5451 {
            Ok(0)
        } else {
            Err("enotty")
        }),
{
    lemma_use(k);
}

/// The answers of the futex calls: a wait is let through, a wake counts no more than there are
/// processes and at least one if there is one, and a move counts what it was given up to its
/// limits.
pub proof fn law_futex_call(k: KernelView, c: Call, cmd: usize)
    requires
        c.nr == SYS_FUTEX,
        k.futex_ok(c.a0, c.a1, c.a2, c.a4, c.a5),
        cmd == c.a1 % 16,
        k.tasks.map.dom().len() <= usize::MAX,
    ensures
        ({
            let (after, r) = k.syscall_of(c);
            let n = k.tasks.map.dom().len();
            &&& after == k
            &&& !may_use(k, c.a0, 4) ==> r == Err::<usize, &'static str>("efault")
            &&& may_use(k, c.a0, 4) ==> {
                &&& cmd == 0 ==> r == ok_or_fault(c.a3 == 0 || may_use(k, c.a3, 16))
                &&& cmd == 1 ==> r is Ok && r->Ok_0 <= n && (r->Ok_0 == n || r->Ok_0 == c.a2 || r->Ok_0 == 1)
                &&& cmd == 1 && c.a2 > 0 ==> r->Ok_0 <= c.a2 && (r->Ok_0 == n || r->Ok_0 == c.a2)
                &&& cmd == 1 && c.a2 == 0 ==> r->Ok_0 <= 1 && (r->Ok_0 == 1 <==> n > 0)
                &&& cmd == 3 || cmd == 9 ==> (r is Err <==> !may_use(k, c.a4, 4))
                &&& (cmd == 3 || cmd == 9) && r is Err ==> r == Err::<usize, &'static str>("efault")
                &&& cmd == 3 && r is Ok ==> r->Ok_0 == (if c.a2 + c.a5 < 128 {
                    c.a2 + c.a5
                } else {
                    128
                })
                &&& cmd == 9 && r is Ok ==> r->Ok_0 == (if c.a2 < 32 {
                    c.a2 as int
                } else {
                    32
                }) + (if c.a5 < 32 {
                    c.a5 as int
                } else {
                    32
                })
                &&& cmd == 5 ==> r == ok_or_fault(c.a3 != 0 && may_use(k, c.a3, 16))
                &&& cmd != 0 && cmd != 1 && cmd != 3 && cmd != 5 && cmd != 9 ==> r == Err::<usize, &'static str>("enosys")
            }
        }),
{
    lemma_use(k);
    let op = c.a1;
    lemma_low_bits(op);
}

/// The answers of the calls on events and time.
pub proof fn law_event_calls(k: KernelView, c: Call)
    ensures
        c.nr == SYS_EPOLL_CREATE ==> k.syscall_of(c) == (k, if c.a0 == 0 {
            Err::<usize, &'static str>("einval")
        } else if c.a0 > usize::MAX / 4 {
            Err("enomem")
        } else {
            Ok((3 + c.a0 % 61) as usize)
        }),
        c.nr == SYS_EPOLL_CTL && c.a1 <= i32::MAX ==> k.syscall_of(c) == (k, if c.a3 != 0 && !may_use(k, c.a3, 12) {
            Err::<usize, &'static str>("efault")
        } else if c.a1 == 2 {
            Ok(0)
        } else if c.a1 == 1 || c.a1 == 3 {
            ok_or_fault(c.a3 != 0)
        } else {
            Err("einval")
        }),
        c.nr == SYS_EPOLL_WAIT ==> k.syscall_of(c) == (k, if c.a1 == 0 || c.a2 == 0 || c.a2 > usize::MAX / 4 {
            Err::<usize, &'static str>("einval")
        } else {
            ok_or_fault(may_use(k, c.a1, (c.a2 * 4) as usize))
        }),
        c.nr == SYS_CLOCK_GETTIME ==> k.syscall_of(c) == (k, if c.a1 == 0 || !may_use(k, c.a1, 16) {
            Err::<usize, &'static str>("efault")
        } else if c.a0 == 0 || c.a0 == 1 || c.a0 == 4 {
            Ok(0)
        } else {
            Err("einval")
        }),
{
    lemma_use(k);
}

/// A call with a number that is none of those known is refused.
pub proof fn law_unknown_call(k: KernelView, c: Call)
    requires
        c.nr > 233 || (33 < c.nr && c.nr < 39) || (39 < c.nr && c.nr < 57) || (121 < c.nr && c.nr < 202),
    ensures
        k.syscall_of(c) == (k, Err::<usize, &'static str>("enosys")),
{
}

} // verus!
