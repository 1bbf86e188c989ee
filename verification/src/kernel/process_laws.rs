//! What holds of programs that are started, of what is dropped, freed and counted.

use crate::fs::filelike::FileView;
use crate::fs::pipe::{PipeDir, PipeNode};
use crate::fs::store::StoreView;
use crate::kernel::service::{
    execed, freed, load_blocked, load_counts, load_prios, load_total, pipe_fds, reap_all, store_with_pipe, with_pipe,
};
use crate::kernel::signal_laws::{got_signal, lemma_all_got};
use crate::kernel::state::{running, KernelView};
use crate::proc::fdtable::{free_fd, lemma_free_fd_is_lowest, lemma_some_fd_is_free};
use crate::proc::group::{registered_in, GroupView};
use crate::proc::table::{places, TableView};
use crate::proc::task::TaskView;
use vstd::prelude::*;

verus! {

/// A process that starts a program is the same process: it has the new path, a fresh context that
/// starts at the entry point with the new stack, and keeps all files but those that are marked to
/// be closed.
pub proof fn law_program_starts(t: TaskView, path: Seq<char>, sp: u64, fd: usize, i: int)
    requires
        0 <= i < 15,
    ensures
        ({
            let u = execed(t, path, sp);
            &&& u.exec_path == path
            &&& u.files.dom().contains(fd) <==> t.files.dom().contains(fd) && !(t.files[fd] matches FileView::File(h)
                && h.cloexec)
            &&& u.files.dom().contains(fd) ==> u.files[fd] == t.files[fd]
            &&& u.thd_ctx matches Some(c) && {
                &&& c.uctx.r.len() == 16
                &&& c.uctx.ip == 0x40_0000
                &&& c.uctx.r[15] == sp
                &&& c.uctx.r[i] == 0
                &&& c.uctx.flags == 0
                &&& c.clear_tid == 0
                &&& c.smask == 0
            }
            &&& u == (TaskView { exec_path: u.exec_path, files: u.files, thd_ctx: u.thd_ctx, ..t })
        }),
{
}

/// Reaping several processes takes just their numbers off the table. No number is given out by it,
/// and the root stays.
pub proof fn law_reaped_are_off_the_table(tab: TableView, ids: Seq<usize>, x: usize)
    ensures
        reap_all(tab, ids).map.dom().contains(x) <==> tab.map.dom().contains(x) && !ids.contains(x),
        reap_all(tab, ids).map.dom().contains(x) ==> reap_all(tab, ids).map[x] == tab.map[x],
        reap_all(tab, ids).seq == tab.seq,
        reap_all(tab, ids).root == tab.root,
    decreases ids.len(),
{
    if ids.len() > 0 {
        let front = ids.drop_last();
        let last = ids[ids.len() - 1];
        law_reaped_are_off_the_table(tab, front, x);
        if front.contains(x) {
            let i = choose|i: int| 0 <= i < front.len() && front[i] == x;
            assert(ids[i] == x);
        }
        if ids.contains(x) && x != last {
            let i = choose|i: int| 0 <= i < ids.len() && ids[i] == x;
            assert(front[i] == x);
        }
    }
}

/// Freeing frames makes free just those that lie at the addresses, and leaves the others as they
/// were.
pub proof fn law_frames_are_freed(slots: Seq<bool>, mem_off: usize, pages: Seq<usize>, i: int)
    requires
        forall|j: int| 0 <= j < pages.len() ==> (#[trigger] pages[j]) >= mem_off,
        0 <= i < slots.len(),
    ensures
        freed(slots, mem_off, pages).len() == slots.len(),
        freed(slots, mem_off, pages)[i] <==> slots[i] || exists|j: int|
            0 <= j < pages.len() && mem_off + i * 4096 <= #[trigger] pages[j] < mem_off + i * 4096 + 4096,
    decreases pages.len(),
{
    if pages.len() > 0 {
        let front = pages.drop_last();
        let last = pages[pages.len() - 1];
        assert forall|j: int| 0 <= j < front.len() implies (#[trigger] front[j]) >= mem_off by {
            assert(pages[j] >= mem_off);
        }
        law_frames_are_freed(slots, mem_off, front, i);
        assert(last >= mem_off);
        let k = (last - mem_off) / 4096;
        assert(k == i <==> mem_off + i * 4096 <= last < mem_off + i * 4096 + 4096);
        if exists|j: int| 0 <= j < front.len() && mem_off + i * 4096 <= #[trigger] front[j] < mem_off + i * 4096 + 4096 {
            let j = choose|j: int|
                0 <= j < front.len() && mem_off + i * 4096 <= #[trigger] front[j] < mem_off + i * 4096 + 4096;
            assert(pages[j] == front[j]);
        }
        if exists|j: int| 0 <= j < pages.len() && mem_off + i * 4096 <= #[trigger] pages[j] < mem_off + i * 4096 + 4096 {
            let j = choose|j: int|
                0 <= j < pages.len() && mem_off + i * 4096 <= #[trigger] pages[j] < mem_off + i * 4096 + 4096;
            if j < front.len() {
                assert(front[j] == pages[j]);
            }
        }
    }
}

/// What the load of a processor is taken from: an idle one has none, and any other has what runs
/// there and its children.
pub proof fn law_load_of_a_processor(k: KernelView, i: int)
    requires
        0 <= i < load_counts(k).len(),
    ensures
        load_counts(k).len() == load_prios(k).len() == load_blocked(k).len(),
        k.cpus[i] is None ==> load_counts(k)[i] == 0 && load_prios(k)[i] == 0 && !load_blocked(k)[i],
        k.cpus[i] matches Some(t) ==> {
            &&& k.task(t).subtasks.len() < usize::MAX ==> load_counts(k)[i] == k.task(t).subtasks.len() + 1
            &&& load_prios(k)[i] == k.task(t).pgid
            &&& load_blocked(k)[i] <==> !(k.task(t).status is None)
        },
{
}

/// A change of one processor's load changes the total by as much, and a total of nothing is zero.
pub proof fn law_loads_add_up(counts: Seq<usize>, n: nat, i: int, v: usize)
    requires
        n <= counts.len(),
        0 <= i < counts.len(),
    ensures
        i < n ==> load_total(counts.update(i, v), n) - load_total(counts, n) == v - counts[i],
        i >= n ==> load_total(counts.update(i, v), n) == load_total(counts, n),
        (forall|j: int| 0 <= j < n ==> counts[j] == 0) ==> load_total(counts, n) == 0,
    decreases n,
{
    if n > 0 {
        law_loads_add_up(counts, (n - 1) as nat, i, v);
    }
}

/// The processes that run are those that some processor has, each as often as one has it.
pub proof fn law_running_processes(cpus: Seq<Option<usize>>, n: nat, t: usize)
    requires
        n <= cpus.len(),
    ensures
        running(cpus, n).contains(t) <==> exists|i: int| 0 <= i < n && #[trigger] cpus[i] == Some(t),
        (forall|i: int| 0 <= i < n ==> (#[trigger] cpus[i]) is Some) ==> running(cpus, n).len() == n,
        running(cpus, n).len() <= n,
    decreases n,
{
    if n > 0 {
        let m = (n - 1) as nat;
        law_running_processes(cpus, m, t);
        let f = running(cpus, m);
        let r = running(cpus, n);
        if f.contains(t) {
            let i = choose|i: int| 0 <= i < f.len() && f[i] == t;
            assert(r[i] == t);
        }
        if r.contains(t) {
            let i = choose|i: int| 0 <= i < r.len() && r[i] == t;
            if i < f.len() {
                assert(f[i] == t);
            } else {
                assert(cpus[m as int] == Some(t));
            }
        }
        if cpus[m as int] == Some(t) {
            assert(r[f.len() as int] == t);
        }
        assert(cpus[m as int] is Some ==> r.len() == f.len() + 1);
    }
}

/// A signal to a group reaches every member that is registered, as from the leader, and nobody
/// else.
pub proof fn law_group_is_signalled(g: GroupView, tab: TableView, signo: i32, sender: isize, m: usize, t: usize)
    requires
        forall|x: usize| #[trigger] tab.map.dom().contains(x) ==> tab.map[x] < tab.tasks.len(),
        t < tab.tasks.len(),
        sender == g.leader || sender == g.leader - usize::MAX - 1,
    ensures
        ({
            let after = g.signalled(tab, signo);
            &&& g.members.contains(m) && tab.map.dom().contains(m) ==> got_signal(
                tab.tasks[tab.map[m] as int],
                after.tasks[tab.map[m] as int],
                signo,
                sender,
            )
            &&& (forall|x: usize| #[trigger]
                g.members.contains(x) && tab.map.dom().contains(x) ==> tab.map[x] != t) ==> after.tasks[t as int]
                == tab.tasks[t as int]
            &&& after.tasks.len() == tab.tasks.len()
            &&& after == (TableView { tasks: after.tasks, ..tab })
        }),
{
    let keep = registered_in(tab.map);
    let f = g.members.filter(keep);
    let ts = places(f, tab.map);
    assert forall|i: int| 0 <= i < ts.len() implies (#[trigger] ts[i]) < tab.tasks.len() by {
        g.members.lemma_filter_pred(keep, i);
        assert(tab.map.dom().contains(f[i]));
    }
    lemma_all_got(tab.tasks, ts, signo, crate::word::as_signed(g.leader));
    crate::laws::law_words_and_numbers(g.leader, 0, 0);
    if g.members.contains(m) && tab.map.dom().contains(m) {
        let i = choose|i: int| 0 <= i < g.members.len() && g.members[i] == m;
        g.members.lemma_filter_contains(keep, i);
        let j = choose|j: int| 0 <= j < f.len() && f[j] == m;
        assert(ts[j] == tab.map[m]);
        assert(ts.contains(tab.map[m]));
    }
    if ts.contains(t) {
        let j = choose|j: int| 0 <= j < ts.len() && ts[j] == t;
        g.members.lemma_filter_pred(keep, j);
        assert(f.contains(f[j]));
        g.members.lemma_filter_contains_rev(keep, f[j]);
        assert(g.members.contains(f[j]) && tab.map.dom().contains(f[j]));
    }
}

/// Who joins a group is its newest member unless they were one, and who leaves is none any more.
/// All others stay.
pub proof fn law_members_come_and_go(g: GroupView, pid: usize, other: usize)
    requires
        other != pid,
    ensures
        g.joined(pid).members.contains(pid),
        g.members.contains(pid) ==> g.joined(pid) == g,
        !g.members.contains(pid) ==> g.joined(pid).members == g.members + seq![pid],
        !g.left(pid).members.contains(pid),
        g.left(pid).members.contains(other) <==> g.members.contains(other),
        g.left(pid) == (GroupView { members: g.left(pid).members, ..g }),
        g.joined(pid) == (GroupView { members: g.joined(pid).members, ..g }),
{
    if !g.members.contains(pid) {
        let s = g.joined(pid).members;
        assert(s[g.members.len() as int] == pid);
        assert(s =~= g.members + seq![pid]);
    }
    let keep = crate::proc::group::not_pid(pid);
    let f = g.members.filter(keep);
    if f.contains(pid) {
        let i = choose|i: int| 0 <= i < f.len() && f[i] == pid;
        g.members.lemma_filter_pred(keep, i);
    }
    if f.contains(other) {
        g.members.lemma_filter_contains_rev(keep, other);
    }
    if g.members.contains(other) {
        let i = choose|i: int| 0 <= i < g.members.len() && g.members[i] == other;
        g.members.lemma_filter_contains(keep, i);
    }
}

/// The kernel starts with one process more, the root, which has one thread, itself, and the stack.
pub proof fn law_kernel_starts(k: KernelView, stack_base: usize)
    requires
        k.tasks.tasks.len() < usize::MAX,
        k.tasks.seq < usize::MAX,
    ensures
        ({
            let after = k.started(stack_base);
            let n = k.tasks.tasks.len() as usize;
            let t = after.task(n);
            &&& after.tasks.tasks.len() == n + 1
            &&& after.tasks.root == Some(n)
            &&& after.tasks.seq == k.tasks.seq + 1
            &&& after.tasks.map.dom() == k.tasks.map.dom().insert(k.tasks.seq)
            &&& after.tasks.map[k.tasks.seq] == n
            &&& t.id == k.tasks.seq
            &&& t.tag == "init"@
            &&& t.threads == seq![k.tasks.seq]
            &&& t.kernel_stack matches Some(s) && s.0 == stack_base
            &&& t.status is None && t.parent is None && t.subtasks.len() == 0
            &&& after == (KernelView { tasks: after.tasks, ..k })
            &&& forall|i: int| 0 <= i < n ==> after.tasks.tasks[i] == #[trigger] k.tasks.tasks[i]
        }),
{
    assert(k.started(stack_base).tasks.map.dom() =~= k.tasks.map.dom().insert(k.tasks.seq));
}

/// A new pipe is empty, has two ends, and its ends stand at the two lowest numbers that are free,
/// the one to read from first. All other numbers stay as they were.
pub proof fn law_pipe_takes_two_numbers(t: TaskView, st: StoreView, data: usize, fd: usize)
    requires
        t.files.dom().finite(),
        t.files.dom().len() + 1 < usize::MAX,
    ensures
        ({
            let (r, w) = pipe_fds(t, data);
            let u = with_pipe(t, data);
            &&& r < w
            &&& !t.files.dom().contains(r) && !t.files.dom().contains(w)
            &&& fd < w && fd != r ==> t.files.dom().contains(fd)
            &&& fd != r && fd != w ==> u.files.dom().contains(fd) == t.files.dom().contains(fd)
            &&& t.files.dom().contains(fd) ==> u.files[fd] == t.files[fd]
            &&& u.files.dom().contains(r) && u.files.dom().contains(w)
            &&& u.files[r] matches FileView::Pipe(p) && p.data == data && p.dir is Read
            &&& u.files[w] matches FileView::Pipe(p) && p.data == data && p.dir is Write
            &&& u == (TaskView { files: u.files, ..t })
        }),
        store_with_pipe(st).pipes.len() == st.pipes.len() + 1,
        store_with_pipe(st).pipes[st.pipes.len() as int].buf.len() == 0,
        store_with_pipe(st).pipes[st.pipes.len() as int].ends == 2,
        forall|i: int| 0 <= i < st.pipes.len() ==> store_with_pipe(st).pipes[i] == #[trigger] st.pipes[i],
        store_with_pipe(st) == (StoreView { pipes: store_with_pipe(st).pipes, ..st }),
{
    let d = t.files.dom();
    let one = t.with_file(FileView::Pipe(PipeNode { data, dir: PipeDir::Read }));
    lemma_some_fd_is_free(d);
    lemma_free_fd_is_lowest(d, 0);
    let r = free_fd(d, 0);
    assert(one.files.dom() =~= d.insert(r));
    lemma_some_fd_is_free(d.insert(r));
    lemma_free_fd_is_lowest(d.insert(r), 0);
    let w = free_fd(d.insert(r), 0);
    assert(!d.insert(r).contains(w));
    if fd < r {
        assert(d.contains(fd));
    }
    if fd < w {
        assert(d.insert(r).contains(fd));
    }
    if w < r {
        assert(d.contains(w));
    }
}

} // verus!
