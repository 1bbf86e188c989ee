//! What holds of processes that are made, forked, ended and reaped.

use crate::bits::{lemma_low_bits, lemma_set_and_clear};
use crate::fs::filelike::FileView;
use crate::fs::file::FHandleView;
use crate::fs::store::StoreView;
use crate::ordered::{ascending, lemma_ascending_exists, lemma_filter_ascends};
use crate::proc::fdtable::{drop_all, free_fd, has_free_fd, lemma_drop_all, lemma_free_fd_is_lowest};
use crate::proc::table::{
    adopted, after_exit, in_group, is_active, is_zombie, points_at, remains, rooted, runs, tagged, user_spawned,
    TableView,
};
use crate::proc::task::{masked, Pid, TaskView};
use vstd::prelude::*;
use vstd::utf8::*;

verus! {

/// A process that nothing has happened to yet: nothing is open, queued, pending or awaited, and
/// nobody listens to it.
pub open spec fn is_fresh(t: TaskView) -> bool {
    &&& t.status is None
    &&& t.exit_code == 0
    &&& t.sig_queue.len() == 0
    &&& t.subtasks.len() == 0
    &&& t.futexes.dom() == Set::<usize>::empty()
    &&& t.buckets.len() == 0
    &&& t.ep_inst.dom() == Set::<usize>::empty()
    &&& t.fds.len() == 0
    &&& t.kernel_stack is None
    &&& t.event.event == 0
    &&& t.event.callbacks.len() == 0
    &&& t.event.notices.len() == 0
}

/// The context is that of a thread that is yet to start, but for the given registers.
pub open spec fn starts_with(t: TaskView, sp: u64, tls: u64, clear_tid: usize, smask: u64) -> bool {
    &&& t.thd_ctx matches Some(c)
    &&& c.clear_tid == clear_tid
    &&& c.smask == smask
    &&& c.uctx.ip == 0
    &&& c.uctx.flags == 0
    &&& c.uctx.r.len() == 16
    &&& forall|i: int| 0 <= i < 14 ==> #[trigger] c.uctx.r[i] == 0
    &&& c.uctx.r[14] == tls
    &&& c.uctx.r[15] == sp
}

/// `after` is `tab` with one process more, under the next number, that is found there. Nobody
/// else is changed but process `src`.
pub open spec fn one_more(tab: TableView, after: TableView, src: Option<usize>) -> bool {
    let n = tab.tasks.len() as usize;
    &&& after.tasks.len() == tab.tasks.len() + 1
    &&& after.tasks[n as int].id == tab.seq
    &&& after.map.dom() == tab.map.dom().insert(tab.seq)
    &&& after.map[tab.seq] == n
    &&& forall|id: usize| #[trigger] tab.map.dom().contains(id) && id != tab.seq ==> after.map[id] == tab.map[id]
    &&& tab.seq < usize::MAX ==> after.seq == tab.seq + 1
    &&& forall|t: usize| t < n && Some(t) != src ==> #[trigger] after.tasks[t as int] == tab.tasks[t as int]
}

/// A new process has its tag, the root directory and nothing else.
pub proof fn law_spawned_is_fresh(tab: TableView, tag: Seq<char>)
    requires
        tab.tasks.len() < usize::MAX,
    ensures
        ({
            let t = tab.spawned(tag).tasks[tab.tasks.len() as int];
            &&& one_more(tab, tab.spawned(tag), None)
            &&& tab.spawned(tag).root == tab.root
            &&& is_fresh(t)
            &&& starts_with(t, 0, 0, 0, 0)
            &&& t.tag == tag
            &&& t.files.dom() == Set::<usize>::empty()
            &&& t.parent is None
            &&& t.cwd == "/"@
            &&& t.exec_path.len() == 0
            &&& t.pgid == 0
            &&& t.threads.len() == 0
            &&& t.sig_mask == 0
            &&& t.vm_token == 0
        }),
        rooted(tab).root == Some(tab.tasks.len() as usize),
        one_more(tab, rooted(tab), None),
        rooted(tab).tasks[tab.tasks.len() as int].tag == "init"@,
{
    let t = tab.spawned(tag).tasks[tab.tasks.len() as int];
    assert(t.files.dom() =~= Set::<usize>::empty());
    assert(t.futexes.dom() =~= Set::<usize>::empty());
    assert(t.ep_inst.dom() =~= Set::<usize>::empty());
    assert(rooted(tab).map.dom() =~= tab.map.dom().insert(tab.seq));
    assert(tab.spawned(tag).map.dom() =~= tab.map.dom().insert(tab.seq));
}

/// What stands for the same open file, pipe or epoll set. A copy of a file is not closed on exec.
pub open spec fn same_open(a: FileView, b: FileView) -> bool {
    match (a, b) {
        (FileView::File(h), FileView::File(i)) => i == (FHandleView { cloexec: false, ..h }),
        (FileView::Pipe(p), FileView::Pipe(q)) => p == q,
        (FileView::Epoll(e), FileView::Epoll(f)) => e == f,
        _ => false,
    }
}

/// The child of a fork blocks a signal exactly if its parent does. It runs the same program under
/// the same tag, in the same group and, where that is named in plain letters, in the same
/// directory, and has the same files open. Otherwise it starts afresh, as a child of its parent.
pub proof fn law_fork_inherits(tab: TableView, src: usize, s: i32, fd: usize)
    requires
        src < tab.tasks.len(),
        tab.tasks.len() < usize::MAX,
    ensures
        ({
            let after = tab.forked(src);
            let p = tab.tasks[src as int];
            let c = after.tasks[tab.tasks.len() as int];
            &&& masked(c.sig_mask, s) == masked(p.sig_mask, s)
            &&& c.sig_mask == p.sig_mask
            &&& c.exec_path == p.exec_path
            &&& c.pgid == p.pgid
            &&& c.tag == p.tag
            &&& is_ascii_chars(p.cwd) ==> c.cwd == p.cwd
            &&& c.files.dom() == p.files.dom()
            &&& p.files.dom().contains(fd) ==> same_open(p.files[fd], c.files[fd])
            &&& c.parent == Some(src)
            &&& c.pid == Pid(tab.seq)
            &&& c.threads == seq![tab.seq]
            &&& is_fresh(c)
            &&& starts_with(c, 0, 0, 0, 0)
            &&& c.vm_token == 0
        }),
{
    let p = tab.tasks[src as int];
    let c = tab.child_of(src);
    if is_ascii_chars(p.cwd) {
        is_ascii_chars_encode_utf8(p.cwd);
        assert forall|i: int| 0 <= i < p.cwd.len() implies c.cwd[i] == p.cwd[i] by {
            let x = p.cwd[i];
            assert('\0' <= x <= '\u{7f}');
            assert(x as u8 == encode_utf8(p.cwd)[i]);
            assert((x as u8) as char == x);
        }
        assert(c.cwd =~= p.cwd);
    }
    assert(c.files.dom() =~= p.files.dom());
    assert(c.futexes.dom() =~= Set::<usize>::empty());
    assert(c.ep_inst.dom() =~= Set::<usize>::empty());
}

/// A fork adds its child to the table and, twice, to the children of the parent, and changes
/// nobody else.
pub proof fn law_fork_adds_the_child(tab: TableView, src: usize)
    requires
        src < tab.tasks.len(),
        tab.tasks.len() < usize::MAX,
    ensures
        ({
            let after = tab.forked(src);
            let n = tab.tasks.len() as usize;
            let p = after.tasks[src as int];
            &&& one_more(tab, after, Some(src))
            &&& after.root == tab.root
            &&& p == (TaskView { subtasks: p.subtasks, ..tab.tasks[src as int] })
            &&& p.subtasks == tab.tasks[src as int].subtasks + seq![n, n]
        }),
{
    let n = tab.tasks.len() as usize;
    let old_ch = tab.tasks[src as int].subtasks;
    assert(tab.forked(src).map.dom() =~= tab.map.dom().insert(tab.seq));
    assert(old_ch.push(n).push(n) =~= old_ch + seq![n, n]);
}

/// A thread starts at the given stack and thread area with a result of zero, blocks what its
/// process blocks, and shares its memory. It opens nothing. The process counts it among its
/// threads.
pub proof fn law_thread_starts(tab: TableView, src: usize, stack_top: u64, tls: u64, clear_tid: usize)
    requires
        src < tab.tasks.len(),
        tab.tasks.len() < usize::MAX,
    ensures
        ({
            let after = tab.threaded(src, stack_top, tls, clear_tid);
            let p = tab.tasks[src as int];
            let q = after.tasks[src as int];
            let t = after.tasks[tab.tasks.len() as int];
            &&& one_more(tab, after, Some(src))
            &&& after.root == tab.root
            &&& starts_with(t, stack_top, tls, clear_tid, p.sig_mask)
            &&& t.vm_token == p.vm_token
            &&& t.tag == p.tag
            &&& t.files.dom() == Set::<usize>::empty()
            &&& t.parent is None
            &&& is_fresh(t)
            &&& q == (TaskView { threads: q.threads, ..p })
            &&& q.threads == p.threads + seq![tab.seq]
        }),
{
    let t = tab.thread_of(src, stack_top, tls, clear_tid);
    let p = tab.tasks[src as int];
    assert(tab.threaded(src, stack_top, tls, clear_tid).map.dom() =~= tab.map.dom().insert(tab.seq));
    assert(t.files.dom() =~= Set::<usize>::empty());
    assert(t.futexes.dom() =~= Set::<usize>::empty());
    assert(t.ep_inst.dom() =~= Set::<usize>::empty());
    assert(p.threads.push(tab.seq) =~= p.threads + seq![tab.seq]);
}

/// A user process has the program's path as its tag and its program, an aligned stack pointer
/// below the top of its stack that leaves room for what is on it, and three files open on the
/// terminal: one to read from, and one to write to under two numbers.
pub proof fn law_user_task_starts(tab: TableView, st: StoreView, later: StoreView, path: Seq<char>, size: int)
    requires
        tab.tasks.len() < usize::MAX,
        st.blobs.len() + 2 <= usize::MAX,
        st.states.len() + 2 <= usize::MAX,
        0 <= size <= 0x8000_0000,
        later == crate::proc::table::with_tty(st),
    ensures
        ({
            let after = user_spawned(tab, st, path, size);
            let t = after.tasks[tab.tasks.len() as int];
            &&& one_more(tab, after, None)
            &&& is_fresh(t)
            &&& t.tag == path
            &&& t.exec_path == path
            &&& t.pid == Pid(tab.seq)
            &&& t.threads == seq![tab.seq]
            &&& t.parent is None
            &&& t.pgid == 0
            &&& t.cwd == "/"@
            &&& t.thd_ctx matches Some(c) && starts_with(t, c.uctx.r[15], 0, 0, 0) && c.uctx.r[15] % 16 == 0
                && 0x8000_0000 - size - 16 < c.uctx.r[15] <= 0x8000_0000 - size
            &&& t.files.dom() == set![0usize, 1usize, 2usize]
            &&& t.files[0] matches FileView::File(a) && t.files[1] matches FileView::File(b)
                && t.files[2] matches FileView::File(c) && {
                &&& a.wf(later) && b.wf(later)
                &&& a.cursor(later).opt.read && !a.cursor(later).opt.write
                &&& !b.cursor(later).opt.read && b.cursor(later).opt.write
                &&& a.cursor(later).off == 0 && b.cursor(later).off == 0
                &&& a.blob(later).len() == 0 && b.blob(later).len() == 0
                &&& a.data >= st.blobs.len() && b.data >= st.blobs.len()
                &&& a.data != b.data && a.state != b.state
                &&& b == c
                &&& a.path == "/dev/tty"@ && b.path == "/dev/tty"@
                &&& !a.cloexec && !b.cloexec && !a.pipe && !b.pipe
            }
            &&& later.pipes == st.pipes
            &&& later.sets == st.sets
            &&& forall|i: int| 0 <= i < st.blobs.len() ==> #[trigger] later.blobs[i] == st.blobs[i]
            &&& forall|i: int| 0 <= i < st.states.len() ==> #[trigger] later.states[i] == st.states[i]
        }),
{
    let after = user_spawned(tab, st, path, size);
    let t = after.tasks[tab.tasks.len() as int];
    assert(after.map.dom() =~= tab.map.dom().insert(tab.seq));
    assert(t.files.dom() =~= set![0usize, 1usize, 2usize]);
    assert(t.futexes.dom() =~= Set::<usize>::empty());
    assert(t.ep_inst.dom() =~= Set::<usize>::empty());
}

/// Registering enters the process under the number, which it has from now on, and changes nothing
/// else.
pub proof fn law_register_enters(tab: TableView, t: usize, pid: Pid, other: usize)
    requires
        t < tab.tasks.len(),
    ensures
        ({
            let after = tab.registered(t, pid);
            &&& after.map.dom().contains(pid.0)
            &&& after.map[pid.0] == t
            &&& after.tasks[t as int] == (TaskView { pid, ..tab.tasks[t as int] })
            &&& other != pid.0 ==> after.map.dom().contains(other) == tab.map.dom().contains(other)
            &&& other != pid.0 && tab.map.dom().contains(other) ==> after.map[other] == tab.map[other]
            &&& other < tab.tasks.len() && other != t ==> after.tasks[other as int] == tab.tasks[other as int]
            &&& after.tasks.len() == tab.tasks.len()
            &&& after.seq == tab.seq
            &&& after.root == tab.root
        }),
{
}

/// A process that ends has no file open and no thread left, its exit code, a status of the code's
/// low byte, and the word out that it quit. Its parent gets the word out that a child quit. That
/// is all that changes.
pub proof fn law_exit_tells_the_parent(tab: TableView, t: usize, code: usize, other: usize)
    requires
        t < tab.tasks.len(),
        tab.tasks[t as int].parent matches Some(p) ==> p < tab.tasks.len(),
        other < tab.tasks.len(),
    ensures
        ({
            let me = tab.tasks[t as int];
            let after = tab.exited(t, code);
            let it = after.tasks[t as int];
            let them = after.tasks[other as int];
            &&& it.files.dom() == Set::<usize>::empty()
            &&& it.threads.len() == 0
            &&& it.exit_code == code
            &&& it.status == Some((code % 256) as i32)
            &&& it.event.event & 0x400 != 0
            &&& it == (TaskView {
                files: it.files,
                threads: it.threads,
                exit_code: code,
                status: it.status,
                event: it.event,
                ..me
            })
            &&& me.parent matches Some(p) ==> after.tasks[p as int].event.event & 0x800 != 0
            &&& other != t && me.parent != Some(other) ==> them == tab.tasks[other as int]
            &&& other != t ==> them == (TaskView { event: them.event, ..tab.tasks[other as int] })
            &&& other != t && me.parent == Some(other) ==> them.event.event == tab.tasks[other as int].event.event | 0x800
            &&& me.parent != Some(t) ==> it.event.event == me.event.event | 0x400
            &&& after == (TableView { tasks: after.tasks, ..tab })
            &&& after.tasks.len() == tab.tasks.len()
        }),
{
    let me = tab.tasks[t as int];
    assert(me.quit(code).files.dom() =~= Set::<usize>::empty());
    lemma_low_bits(code);
    let e = me.event.event;
    let o = tab.tasks[other as int].event.event;
    let q = match me.parent {
        Some(p) => tab.tasks[p as int].event.event,
        None => 0,
    };
    lemma_set_and_clear(e, 0x400, 0x400);
    lemma_set_and_clear(o, 0x800, 0x800);
    lemma_set_and_clear(q, 0x800, 0x800);
    lemma_set_and_clear(e | 0x400, 0x800, 0x800);
    lemma_set_and_clear(e | 0x400, 0x800, 0x400);
}

/// The numbers under which a process has an end of pipe `i` open.
pub open spec fn ends_held(files: Map<usize, FileView>, i: int) -> Set<usize> {
    files.dom().filter(|fd: usize| files[fd] matches FileView::Pipe(p) && p.data == i)
}

/// When the files of a process are closed, each pipe has as many ends fewer as the process had of
/// it, and shows that it was closed if there was one. What is in it stays, and so does all that is
/// not a pipe.
pub proof fn law_exit_closes_the_pipes(t: TaskView, st: StoreView, i: int)
    requires
        t.wf(st),
        0 <= i < st.pipes.len(),
    ensures
        ({
            let after = after_exit(t, st);
            let n = ends_held(t.files, i).len();
            let p = st.pipes[i];
            let q = after.pipes[i];
            &&& after.pipes.len() == st.pipes.len()
            &&& after == (StoreView { pipes: after.pipes, ..st })
            &&& n == 0 ==> q == p
            &&& n > 0 ==> q.event_closed()
            &&& p.ends - n >= i32::MIN ==> q.ends == p.ends - n
            &&& q.buf == p.buf
        }),
{
    let keys = ascending(t.files.dom());
    lemma_ascending_exists(t.files.dom());
    assert forall|k: int| 0 <= k < keys.len() implies t.files.dom().contains(#[trigger] keys[k]) by {
        assert(keys.to_set().contains(keys[k]));
    }
    lemma_drops(keys, t.files, st, i);
    assert(keys.take(keys.len() as int) =~= keys);
    assert(held_in(keys, t.files, i) =~= ends_held(t.files, i)) by {
        assert forall|fd: usize| held_in(keys, t.files, i).contains(fd) <==> ends_held(t.files, i).contains(fd) by {
            assert(keys.to_set().contains(fd) == t.files.dom().contains(fd));
        }
    }
}

/// Of the given numbers, those under which an end of pipe `i` is open.
spec fn held_in(keys: Seq<usize>, files: Map<usize, FileView>, i: int) -> Set<usize> {
    keys.to_set().filter(|fd: usize| files[fd] matches FileView::Pipe(p) && p.data == i)
}

proof fn lemma_drops(keys: Seq<usize>, files: Map<usize, FileView>, st: StoreView, i: int)
    requires
        crate::proc::fdtable::files_wf(files, st),
        forall|k: int| 0 <= k < keys.len() ==> files.dom().contains(#[trigger] keys[k]),
        crate::ordered::strictly_ascending(keys),
        0 <= i < st.pipes.len(),
    ensures
        ({
            let after = drop_all(keys, files, st);
            let n = held_in(keys, files, i).len();
            let p = st.pipes[i];
            let q = after.pipes[i];
            &&& held_in(keys, files, i).finite()
            &&& after.pipes.len() == st.pipes.len()
            &&& after == (StoreView { pipes: after.pipes, ..st })
            &&& n == 0 ==> q == p
            &&& n > 0 ==> q.event_closed()
            &&& p.ends - n >= i32::MIN ==> q.ends == p.ends - n
            &&& q.buf == p.buf
        }),
    decreases keys.len(),
{
    lemma_drop_all(keys, files, st);
    if keys.len() == 0 {
        assert(held_in(keys, files, i) =~= Set::empty());
    } else {
        let front = keys.drop_last();
        let last = keys[keys.len() - 1];
        assert forall|k: int| 0 <= k < front.len() implies files.dom().contains(#[trigger] front[k]) by {
            assert(files.dom().contains(keys[k]));
        }
        assert forall|a: int, b: int| 0 <= a < b < front.len() implies front[a] < front[b] by {
            assert(keys[a] < keys[b]);
        }
        lemma_drops(front, files, st, i);
        lemma_drop_all(front, files, st);
        assert(files.dom().contains(last));
        let mid = drop_all(front, files, st);
        let hits = files[last] matches FileView::Pipe(p) && p.data == i;
        assert forall|x: usize| keys.to_set().contains(x) <==> front.to_set().contains(x) || x == last by {
            if keys.contains(x) && x != last {
                let k = choose|k: int| 0 <= k < keys.len() && keys[k] == x;
                assert(front[k] == x);
            }
            if front.contains(x) {
                let k = choose|k: int| 0 <= k < front.len() && front[k] == x;
                assert(keys[k] == x);
            }
        }
        assert(!front.to_set().contains(last)) by {
            if front.contains(last) {
                let k = choose|k: int| 0 <= k < front.len() && front[k] == last;
                assert(keys[k] < keys[keys.len() - 1]);
            }
        }
        if hits {
            assert(held_in(keys, files, i) =~= held_in(front, files, i).insert(last));
            let e = mid.pipes[i].bus.event;
            lemma_set_and_clear(e, 8, 8);
        } else {
            assert(held_in(keys, files, i) =~= held_in(front, files, i));
        }
    }
}

/// Adoption makes the root the parent of the children, puts them behind the root's own, and
/// changes nothing else.
proof fn lemma_adopts(tasks: Seq<TaskView>, root: usize, ch: Seq<usize>)
    requires
        root < tasks.len(),
        forall|i: int| 0 <= i < ch.len() ==> (#[trigger] ch[i]) < tasks.len(),
    ensures
        adopted(tasks, root, ch).len() == tasks.len(),
        forall|i: usize|
            i < tasks.len() ==> {
                let a = #[trigger] adopted(tasks, root, ch)[i as int];
                &&& a == (TaskView { parent: a.parent, subtasks: a.subtasks, ..tasks[i as int] })
                &&& a.parent == (if ch.contains(i) {
                    Some(root)
                } else {
                    tasks[i as int].parent
                })
                &&& a.subtasks == (if i == root {
                    tasks[i as int].subtasks + ch
                } else {
                    tasks[i as int].subtasks
                })
            },
    decreases ch.len(),
{
    if ch.len() == 0 {
        assert(tasks[root as int].subtasks + ch =~= tasks[root as int].subtasks);
    } else {
        let front = ch.drop_last();
        let last = ch[ch.len() - 1];
        lemma_adopts(tasks, root, front);
        let mid = adopted(tasks, root, front);
        let all = adopted(tasks, root, ch);
        assert forall|i: usize| i < tasks.len() implies {
            let a = #[trigger] all[i as int];
            &&& a == (TaskView { parent: a.parent, subtasks: a.subtasks, ..tasks[i as int] })
            &&& a.parent == (if ch.contains(i) {
                Some(root)
            } else {
                tasks[i as int].parent
            })
            &&& a.subtasks == (if i == root {
                tasks[i as int].subtasks + ch
            } else {
                tasks[i as int].subtasks
            })
        } by {
            let b = mid[i as int];
            assert(b == (TaskView { parent: b.parent, subtasks: b.subtasks, ..tasks[i as int] }));
            if ch.contains(i) && i != last {
                let k = choose|k: int| 0 <= k < ch.len() && ch[k] == i;
                assert(front[k] == i);
            }
            if front.contains(i) {
                let k = choose|k: int| 0 <= k < front.len() && front[k] == i;
                assert(ch[k] == i);
            }
            assert((tasks[root as int].subtasks + front).push(last) =~= tasks[root as int].subtasks + ch);
        }
    }
}

/// Whoever is reaped counts as ended, is off the table and has no children. They are the root's
/// from now on, behind those it had, and have the root as their parent. Where there is no root
/// they keep their parent. Nothing else changes.
pub proof fn law_reap_hands_over_the_children(tab: TableView, id: usize, i: usize)
    requires
        tab.linked(),
        tab.map.dom().contains(id),
        i < tab.tasks.len(),
    ensures
        ({
            let t = tab.map[id];
            let ch = tab.tasks[t as int].subtasks;
            let after = tab.reaped(id);
            let a = after.tasks[i as int];
            let b = tab.tasks[i as int];
            &&& after.tasks.len() == tab.tasks.len()
            &&& after.map == tab.map.remove(id)
            &&& after.seq == tab.seq
            &&& after.root == tab.root
            &&& a == (TaskView { parent: a.parent, subtasks: a.subtasks, status: a.status, ..b })
            &&& a.status == (if i == t {
                Some(0i32)
            } else {
                b.status
            })
            &&& a.parent == (if tab.root is Some && ch.contains(i) {
                tab.root
            } else {
                b.parent
            })
            &&& a.subtasks == (if tab.root == Some(i) && i != t {
                b.subtasks + ch
            } else if tab.root == Some(i) {
                ch
            } else if i == t {
                Seq::empty()
            } else {
                b.subtasks
            })
        }),
{
    let t = tab.map[id];
    let p = tab.tasks[t as int];
    let ch = p.subtasks;
    assert(tab.knows(p));
    let cleared = tab.tasks.update(t as int, TaskView { status: Some(0), subtasks: Seq::empty(), ..p });
    if let Some(r) = tab.root {
        lemma_adopts(cleared, r, ch);
        let a = adopted(cleared, r, ch)[i as int];
        assert(a == tab.reaped(id).tasks[i as int]);
        assert(Seq::<usize>::empty() + ch =~= ch);
    }
}

/// The processes with a tag, of a group, or with a thread are those that are registered and have
/// it.
pub proof fn law_listings(tab: TableView, tag: Seq<char>, pgid: i32, tid: usize, t: usize)
    requires
        tab.map.dom().finite(),
    ensures
        ({
            let here = exists|id: usize| #[trigger] tab.map.dom().contains(id) && tab.map[id] == t;
            let p = tab.tasks[t as int];
            &&& tab.listed().filter(tagged(tab.tasks, tag)).contains(t) <==> here && p.tag == tag
            &&& tab.listed().filter(in_group(tab.tasks, pgid)).contains(t) <==> here && p.pgid == pgid
            &&& tab.listed().filter(runs(tab.tasks, tid)).contains(t) <==> here && p.threads.contains(tid)
        }),
{
    lemma_listed(tab, tagged(tab.tasks, tag), t);
    lemma_listed(tab, in_group(tab.tasks, pgid), t);
    lemma_listed(tab, runs(tab.tasks, tid), t);
}

proof fn lemma_listed(tab: TableView, keep: spec_fn(usize) -> bool, t: usize)
    requires
        tab.map.dom().finite(),
    ensures
        tab.listed().filter(keep).contains(t) <==> (exists|id: usize| #[trigger]
            tab.map.dom().contains(id) && tab.map[id] == t) && keep(t),
{
    let all = tab.listed();
    let ids = ascending(tab.map.dom());
    lemma_ascending_exists(tab.map.dom());
    if all.filter(keep).contains(t) {
        all.lemma_filter_contains_rev(keep, t);
        let f = all.filter(keep);
        let k = choose|k: int| 0 <= k < f.len() && f[k] == t;
        all.lemma_filter_pred(keep, k);
        let i = choose|i: int| 0 <= i < all.len() && all[i] == t;
        assert(ids.to_set().contains(ids[i]));
        assert(tab.map.dom().contains(ids[i]));
    }
    if (exists|id: usize| #[trigger] tab.map.dom().contains(id) && tab.map[id] == t) && keep(t) {
        let id = choose|id: usize| #[trigger] tab.map.dom().contains(id) && tab.map[id] == t;
        assert(ids.to_set().contains(id));
        let i = choose|i: int| 0 <= i < ids.len() && ids[i] == id;
        assert(all[i] == t);
        all.lemma_filter_contains(keep, i);
    }
}

/// The numbers of those that are active and those that have ended: every registered number is
/// listed in just one of the two, in ascending order, and no other is.
pub proof fn law_active_or_ended(tab: TableView, id: usize)
    requires
        tab.map.dom().finite(),
    ensures
        ({
            let active = ascending(tab.map.dom()).filter(is_active(tab));
            let over = ascending(tab.map.dom()).filter(is_zombie(tab));
            &&& crate::ordered::strictly_ascending(active)
            &&& crate::ordered::strictly_ascending(over)
            &&& active.contains(id) <==> tab.map.dom().contains(id) && tab.tasks[tab.map[id] as int].status is None
            &&& over.contains(id) <==> tab.map.dom().contains(id) && tab.tasks[tab.map[id] as int].status is Some
        }),
{
    let ids = ascending(tab.map.dom());
    lemma_ascending_exists(tab.map.dom());
    lemma_filter_ascends(ids, is_active(tab));
    lemma_filter_ascends(ids, is_zombie(tab));
    assert(ids.to_set().contains(id) == tab.map.dom().contains(id));
    let active = ids.filter(is_active(tab));
    let over = ids.filter(is_zombie(tab));
    if active.contains(id) {
        let i = choose|i: int| 0 <= i < active.len() && active[i] == id;
        assert(ids.contains(active[i]) && is_active(tab)(active[i]));
    }
    if over.contains(id) {
        let i = choose|i: int| 0 <= i < over.len() && over[i] == id;
        assert(ids.contains(over[i]) && is_zombie(tab)(over[i]));
    }
    if tab.map.dom().contains(id) {
        assert(is_active(tab)(id) || is_zombie(tab)(id));
    }
}

/// A free number is not in use, not below where the search starts, and no number in between is
/// free.
pub proof fn law_free_number_is_lowest(used: Set<usize>, arg: usize)
    requires
        has_free_fd(used, arg),
    ensures
        !used.contains(free_fd(used, arg)),
        arg <= free_fd(used, arg),
        forall|i: usize| arg <= i < free_fd(used, arg) ==> #[trigger] used.contains(i),
{
    lemma_free_fd_is_lowest(used, arg);
}

/// Closing a number takes just its entry away. If that was an end of a pipe, the pipe has one end
/// fewer and shows that it was closed.
pub proof fn law_close_takes_one_away(t: TaskView, st: StoreView, fd: usize, other: usize)
    requires
        t.wf(st),
    ensures
        ({
            let (u, s, r) = t.close_of(st, fd);
            &&& r is Ok <==> t.files.dom().contains(fd)
            &&& !u.files.dom().contains(fd)
            &&& other != fd ==> u.files.dom().contains(other) == t.files.dom().contains(other)
            &&& other != fd && t.files.dom().contains(other) ==> u.files[other] == t.files[other]
            &&& u == (TaskView { files: u.files, ..t })
            &&& r is Err ==> s == st
            &&& r is Ok ==> one_end_fewer(st, s, t.files[fd])
        }),
{
    lemma_one_end_fewer(st, t, fd);
}

/// Dropping a copy of what is open: a pipe has one end fewer and shows that it was closed, and
/// nothing else changes.
pub open spec fn one_end_fewer(st: StoreView, after: StoreView, f: FileView) -> bool {
    match f {
        FileView::Pipe(p) => {
            let a = st.pipes[p.data as int];
            let b = after.pipes[p.data as int];
            &&& after.pipes.len() == st.pipes.len()
            &&& after == (StoreView { pipes: after.pipes, ..st })
            &&& forall|i: int| 0 <= i < st.pipes.len() && i != p.data ==> #[trigger] after.pipes[i] == st.pipes[i]
            &&& b.buf == a.buf
            &&& a.ends > i32::MIN ==> b.ends == a.ends - 1
            &&& b.event_closed()
        },
        _ => after == st,
    }
}

proof fn lemma_one_end_fewer(st: StoreView, t: TaskView, fd: usize)
    requires
        t.wf(st),
    ensures
        t.files.dom().contains(fd) ==> one_end_fewer(st, t.files[fd].dropped(st), t.files[fd]),
{
    if t.files.dom().contains(fd) {
        lemma_dropped(st, t.files[fd]);
    }
}

proof fn lemma_dropped(st: StoreView, f: FileView)
    requires
        f.wf(st),
    ensures
        one_end_fewer(st, f.dropped(st), f),
        f.dropped(st).pipes.len() == st.pipes.len(),
{
    if let FileView::Pipe(p) = f {
        let e = st.pipes[p.data as int].bus.event;
        lemma_set_and_clear(e, 8, 8);
    }
}

/// A duplicate stands for the same file, pipe or epoll set, under the lowest free number, and
/// everything that was open still is. On the way a copy is dropped, which closes an end of a pipe.
pub proof fn law_dup_adds_one(t: TaskView, st: StoreView, old_fd: usize, cloexec: bool, other: usize)
    requires
        t.wf(st),
        t.files.dom().len() <= usize::MAX,
    ensures
        ({
            let (u, s, r) = t.dup_of(st, old_fd, cloexec);
            &&& r is Ok <==> t.files.dom().contains(old_fd)
            &&& r is Err ==> u == t && s == st
            &&& r is Ok ==> {
                &&& !t.files.dom().contains(r->Ok_0)
                &&& forall|i: usize| i < r->Ok_0 ==> #[trigger] t.files.dom().contains(i)
                &&& u.files.dom() == t.files.dom().insert(r->Ok_0)
                &&& t.files.dom().contains(other) ==> u.files[other] == t.files[other]
                &&& same_but_exec(t.files[old_fd], u.files[r->Ok_0], cloexec)
                &&& one_end_fewer(st, s, t.files[old_fd])
            }
            &&& u == (TaskView { files: u.files, ..t })
        }),
{
    crate::proc::fdtable::lemma_some_fd_is_free(t.files.dom());
    lemma_free_fd_is_lowest(t.files.dom(), 0);
    lemma_one_end_fewer(st, t, old_fd);
    if t.files.dom().contains(old_fd) {
        assert(t.dup_of(st, old_fd, cloexec).0.files.dom() =~= t.files.dom().insert(free_fd(t.files.dom(), 0)));
    }
}

/// What stands for the same thing, but for whether a file is to be closed on exec.
pub open spec fn same_but_exec(a: FileView, b: FileView, cloexec: bool) -> bool {
    match (a, b) {
        (FileView::File(h), FileView::File(i)) => i == (FHandleView { cloexec, ..h }),
        (FileView::Pipe(p), FileView::Pipe(q)) => p == q,
        (FileView::Epoll(e), FileView::Epoll(f)) => e == f,
        _ => false,
    }
}

/// A duplicate onto a chosen number stands for the same thing there, in place of what was there,
/// which is dropped. Everything else that was open still is. Onto itself nothing happens.
pub proof fn law_dup2_replaces_one(t: TaskView, st: StoreView, old_fd: usize, new_fd: usize, other: usize)
    requires
        t.wf(st),
    ensures
        ({
            let (u, s, r) = t.dup2_of(st, old_fd, new_fd);
            &&& r is Ok <==> old_fd == new_fd || t.files.dom().contains(old_fd)
            &&& r is Ok ==> r->Ok_0 == new_fd
            &&& r is Err || old_fd == new_fd ==> u == t && s == st
            &&& r is Ok && old_fd != new_fd ==> {
                &&& u.files.dom() == t.files.dom().insert(new_fd)
                &&& same_but_exec(t.files[old_fd], u.files[new_fd], false)
                &&& other != new_fd && t.files.dom().contains(other) ==> u.files[other] == t.files[other]
                &&& exists|mid: StoreView| #[trigger]
                    one_end_fewer(mid, s, t.files[old_fd]) && if t.files.dom().contains(new_fd) {
                        one_end_fewer(st, mid, t.files[new_fd])
                    } else {
                        mid == st
                    }
            }
            &&& u == (TaskView { files: u.files, ..t })
        }),
{
    if old_fd != new_fd && t.files.dom().contains(old_fd) {
        let mid = t.drop_fd(st, new_fd);
        lemma_one_end_fewer(st, t, new_fd);
        assert(t.files[old_fd].wf(st));
        if t.files.dom().contains(new_fd) {
            lemma_dropped(st, t.files[new_fd]);
        }
        assert(t.files[old_fd].wf(mid));
        lemma_dropped(mid, t.files[old_fd]);
        assert(one_end_fewer(mid, t.dup2_of(st, old_fd, new_fd).1, t.files[old_fd]));
        if t.files.dom().contains(new_fd) {
            assert(one_end_fewer(st, mid, t.files[new_fd]));
        } else {
            assert(mid == st);
        }
        assert(t.dup2_of(st, old_fd, new_fd).0.files.dom() =~= t.files.dom().insert(new_fd));
    }
}

/// Saying whether a file is to be closed on exec changes that and nothing else about it.
pub proof fn law_cloexec_marks_one(t: TaskView, st: StoreView, fd: usize, val: bool, other: usize)
    requires
        t.wf(st),
    ensures
        ({
            let (u, s, r) = t.cloexec_of(st, fd, val);
            &&& r is Ok <==> t.files.dom().contains(fd)
            &&& r is Err ==> u == t && s == st
            &&& r is Ok ==> {
                &&& u.files.dom() == t.files.dom()
                &&& same_but_exec(t.files[fd], u.files[fd], val)
                &&& other != fd && t.files.dom().contains(other) ==> u.files[other] == t.files[other]
                &&& one_end_fewer(st, s, t.files[fd])
            }
            &&& u == (TaskView { files: u.files, ..t })
        }),
{
    lemma_one_end_fewer(st, t, fd);
    if t.files.dom().contains(fd) {
        assert(t.cloexec_of(st, fd, val).0.files.dom() =~= t.files.dom());
    }
}

/// A futex keeps its bucket, a new one gets an empty bucket of its own, and no other is touched.
pub proof fn law_futex_has_its_bucket(t: TaskView, st: StoreView, a: usize, b: usize)
    requires
        t.wf(st),
        t.buckets.len() < usize::MAX,
        a != b,
    ensures
        ({
            let u = t.with_futex(a);
            let v = u.with_futex(b);
            &&& u.futexes.dom() == t.futexes.dom().insert(a)
            &&& u.futexes[a] < u.buckets.len()
            &&& t.futexes.dom().contains(a) ==> u == t
            &&& t.futexes.dom().contains(b) ==> u.futexes[b] == t.futexes[b]
            &&& !t.futexes.dom().contains(a) ==> u.buckets[u.futexes[a] as int].waiters.len() == 0 && forall|x: usize| #[trigger]
                t.futexes.dom().contains(x) ==> u.futexes[a] != u.futexes[x]
            &&& forall|i: int| 0 <= i < t.buckets.len() ==> #[trigger] u.buckets[i] == t.buckets[i]
            &&& u == (TaskView { futexes: u.futexes, buckets: u.buckets, ..t })
        }),
{
    assert(t.with_futex(a).futexes.dom() =~= t.futexes.dom().insert(a));
}

/// A signal is to be handled if it is queued and its bit of the mask is clear.
pub proof fn law_unmasked_signals(t: TaskView, i: int)
    requires
        0 <= i < t.sig_queue.len(),
        0 <= t.sig_queue[i].0 < 64,
    ensures
        t.sig_mask & (1u64 << t.sig_queue[i].0 as u64) == 0 ==> t.has_unmasked(),
        (forall|j: int|
            0 <= j < t.sig_queue.len() ==> 0 <= (#[trigger] t.sig_queue[j]).0 < 64 && t.sig_mask & (1u64
                << t.sig_queue[j].0 as u64) != 0) ==> !t.has_unmasked(),
{
    if t.sig_mask & (1u64 << t.sig_queue[i].0 as u64) == 0 {
        assert(!masked(t.sig_mask, t.sig_queue[i].0));
    }
}

/// A process is lost if it has a file, a parent or a child left, but no number, no hand holds it,
/// it is not the root, and no process has it as a parent or a child. What remains of it has none
/// of these, and is otherwise what it was.
pub proof fn law_lost_processes(tab: TableView, held: Seq<usize>, t: usize)
    requires
        t < tab.tasks.len(),
    ensures
        ({
            let p = tab.tasks[t as int];
            let numbered = exists|id: usize| #[trigger] tab.map.dom().contains(id) && tab.map[id] == t;
            let has_parent_in = exists|i: int| 0 <= i < tab.tasks.len() && (#[trigger] tab.tasks[i]).subtasks.contains(t);
            let has_child_in = exists|i: int| 0 <= i < tab.tasks.len() && (#[trigger] tab.tasks[i]).parent == Some(t);
            let holds = p.files.dom().len() > 0 || p.parent is Some || p.subtasks.len() > 0;
            tab.lost(held, t) <==> holds && !numbered && !has_parent_in && !has_child_in && !held.contains(t) && tab.root
                != Some(t)
        }),
        ({
            let p = tab.tasks[t as int];
            let r = remains(p);
            &&& r.files.dom() == Set::<usize>::empty()
            &&& r.parent is None
            &&& r.subtasks.len() == 0
            &&& r == (TaskView { files: r.files, parent: r.parent, subtasks: r.subtasks, ..p })
        }),
{
    assert forall|i: int| 0 <= i < tab.tasks.len() implies (#[trigger] points_at(tab.tasks[i], t) <==> tab.tasks[i].parent
        == Some(t) || tab.tasks[i].subtasks.contains(t)) by {}
    if exists|i: int| 0 <= i < tab.tasks.len() && (#[trigger] tab.tasks[i]).subtasks.contains(t) {
        let i = choose|i: int| 0 <= i < tab.tasks.len() && (#[trigger] tab.tasks[i]).subtasks.contains(t);
        assert(points_at(tab.tasks[i], t));
    }
    if exists|i: int| 0 <= i < tab.tasks.len() && (#[trigger] tab.tasks[i]).parent == Some(t) {
        let i = choose|i: int| 0 <= i < tab.tasks.len() && (#[trigger] tab.tasks[i]).parent == Some(t);
        assert(points_at(tab.tasks[i], t));
    }
    assert(remains(tab.tasks[t as int]).files.dom() =~= Set::<usize>::empty());
}

} // verus!
