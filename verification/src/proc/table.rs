//! The table of all processes.

use crate::fs::filelike::{FileLike, FileView};
use crate::fs::file::{FHandle, FHandleView};
use crate::fs::store::{pipes_delivered, FdOpt, FdState, Store, StoreView};
use crate::limits::{USR_STK_OFF, USR_STK_SZ};
use crate::ordered::{ascending, lemma_ascending_exists, sorted_keys};
use crate::proc::fdtable::{close_all, copy_all, drop_all, duplicated, files_view, lemma_drop_all};
use crate::proc::init::{floor16, stack_size, ProcInit};
use crate::proc::task::{Pgid, Pid, Task, TaskView, ThdCtx, ThdView};
use crate::sequences::lemma_filter_push;
use crate::sync::event::{delivered, law_quiet_bus, EventBitflag};
use std::collections::BTreeMap;
use vstd::prelude::*;
use vstd::string::*;
use vstd::utf8::*;

verus! {

broadcast use {vstd::std_specs::btree::group_btree_axioms, vstd::laws_cmp::group_laws_cmp};

/// All processes there ever were, those that are registered by number, the next number, and the
/// process that takes over orphans.
pub struct TaskTable {
    pub tasks: Vec<Task>,
    pub map: BTreeMap<usize, usize>,
    pub seq: usize,
    pub root: Option<usize>,
}

/// What a table stands for.
#[verifier::ext_equal]
pub ghost struct TableView {
    pub tasks: Seq<TaskView>,
    pub map: Map<usize, usize>,
    pub seq: usize,
    pub root: Option<usize>,
}

/// What a row of processes stands for.
pub open spec fn tasks_view(v: Seq<Task>) -> Seq<TaskView> {
    v.map_values(|t: Task| t@)
}

impl View for TaskTable {
    type V = TableView;

    open spec fn view(&self) -> TableView {
        TableView { tasks: tasks_view(self.tasks@), map: self.map@, seq: self.seq, root: self.root }
    }
}

/// What lies around the table: who is told of an event, and the processes that are in somebody's
/// hands.
pub struct Outside<F> {
    pub run: F,
    pub held: Vec<usize>,
}

/// The bytes of a text, each as a character.
pub open spec fn bytewise(s: Seq<char>) -> Seq<char> {
    encode_utf8(s).map_values(|b: u8| b as char)
}

pub open spec fn tagged(tasks: Seq<TaskView>, tag: Seq<char>) -> spec_fn(usize) -> bool {
    |t: usize| tasks[t as int].tag == tag
}

pub open spec fn runs(tasks: Seq<TaskView>, tid: usize) -> spec_fn(usize) -> bool {
    |t: usize| tasks[t as int].threads.contains(tid)
}

pub open spec fn in_group(tasks: Seq<TaskView>, pgid: Pgid) -> spec_fn(usize) -> bool {
    |t: usize| tasks[t as int].pgid == pgid
}

/// The processes of `ts` were sent a signal, one after another.
pub open spec fn all_signalled(tasks: Seq<TaskView>, ts: Seq<usize>, signo: i32, sender: isize) -> Seq<TaskView>
    decreases ts.len(),
{
    if ts.len() == 0 {
        tasks
    } else {
        let front = all_signalled(tasks, ts.drop_last(), signo, sender);
        let t = ts.last() as int;
        front.update(t, front[t].signalled(signo, sender))
    }
}

/// The processes of `ch` were made children of `root`, one after another.
pub open spec fn adopted(tasks: Seq<TaskView>, root: usize, ch: Seq<usize>) -> Seq<TaskView>
    decreases ch.len(),
{
    if ch.len() == 0 {
        tasks
    } else {
        let front = adopted(tasks, root, ch.drop_last());
        let c = ch.last();
        let linked = front.update(c as int, TaskView { parent: Some(root), ..front[c as int] });
        linked.update(
            root as int,
            TaskView { subtasks: linked[root as int].subtasks.push(c), ..linked[root as int] },
        )
    }
}

/// A process got news of a child that quit.
pub open spec fn child_quit(t: TaskView) -> TaskView {
    TaskView { event: t.event.set(EventBitflag::CHILD_QUIT), ..t }
}

impl TableView {
    /// Process `t` refers to processes of the table.
    pub open spec fn knows(self, t: TaskView) -> bool {
        &&& t.parent matches Some(p) ==> p < self.tasks.len()
        &&& forall|i: int| 0 <= i < t.subtasks.len() ==> (#[trigger] t.subtasks[i]) < self.tasks.len()
    }

    /// Numbers, the root, parents and children refer to processes of the table.
    pub open spec fn linked(self) -> bool {
        &&& forall|id: usize| #[trigger] self.map.dom().contains(id) ==> self.map[id] < self.tasks.len()
        &&& self.root matches Some(r) ==> r < self.tasks.len()
        &&& forall|i: int| 0 <= i < self.tasks.len() ==> self.knows(#[trigger] self.tasks[i])
    }

    /// The table is linked, and its processes refer to places of the store.
    pub open spec fn wf(self, st: StoreView) -> bool {
        &&& self.linked()
        &&& forall|i: int| 0 <= i < self.tasks.len() ==> (#[trigger] self.tasks[i]).wf(st)
    }

    pub open spec fn new() -> TableView {
        TableView { tasks: Seq::empty(), map: Map::empty(), seq: 1, root: None }
    }

    pub open spec fn set_task(self, t: usize, v: TaskView) -> TableView {
        TableView { tasks: self.tasks.update(t as int, v), ..self }
    }

    /// One number was used up.
    pub open spec fn next_seq(self) -> TableView {
        TableView { seq: self.seq.wrapping_add(1), ..self }
    }

    /// A new process under the next number.
    pub open spec fn spawned(self, tag: Seq<char>) -> TableView {
        TableView {
            tasks: self.tasks.push(TaskView::make(self.seq, tag)),
            map: self.map.insert(self.seq, self.tasks.len() as usize),
            seq: self.seq.wrapping_add(1),
            root: self.root,
        }
    }

    /// The registered processes in the order of their numbers.
    pub open spec fn listed(self) -> Seq<usize> {
        places(ascending(self.map.dom()), self.map)
    }

    /// Process `t` is registered as `pid`.
    pub open spec fn registered(self, t: usize, pid: Pid) -> TableView {
        TableView {
            map: self.map.insert(pid.0, t),
            ..self.set_task(t, TaskView { pid, ..self.tasks[t as int] })
        }
    }

    /// The process under `id` is gone, and the root has its children.
    pub open spec fn reaped(self, id: usize) -> TableView {
        if self.map.dom().contains(id) {
            let t = self.map[id];
            let ch = self.tasks[t as int].subtasks;
            let cleared = self.tasks.update(
                t as int,
                TaskView { status: Some(0), subtasks: Seq::empty(), ..self.tasks[t as int] },
            );
            TableView {
                tasks: match self.root {
                    Some(r) => adopted(cleared, r, ch),
                    None => cleared,
                },
                map: self.map.remove(id),
                ..self
            }
        } else {
            self
        }
    }

    /// What a fork of process `src` starts as.
    pub open spec fn child_of(self, src: usize) -> TaskView {
        let p = self.tasks[src as int];
        TaskView {
            cwd: bytewise(p.cwd),
            exec_path: p.exec_path,
            files: duplicated(p.files),
            pgid: p.pgid,
            sig_mask: p.sig_mask,
            parent: Some(src),
            pid: Pid(self.seq),
            threads: seq![self.seq],
            ..TaskView::make(self.seq, p.tag)
        }
    }

    /// Process `src` was forked. The child is entered twice among its children.
    pub open spec fn forked(self, src: usize) -> TableView {
        let n = self.tasks.len() as usize;
        let p = self.tasks[src as int];
        TableView {
            tasks: self.tasks.update(src as int, TaskView { subtasks: p.subtasks.push(n).push(n), ..p }).push(
                self.child_of(src),
            ),
            map: self.map.insert(self.seq, n),
            seq: self.seq.wrapping_add(1),
            root: self.root,
        }
    }

    /// What a thread of process `src` starts as.
    pub open spec fn thread_of(self, src: usize, stack_top: u64, tls: u64, clear_tid: usize) -> TaskView {
        let p = self.tasks[src as int];
        TaskView {
            thd_ctx: Some(
                ThdView {
                    uctx: ThdView::initial().uctx.with_reg(0, 0).with_reg(15, stack_top).with_reg(14, tls),
                    clear_tid,
                    smask: p.sig_mask,
                },
            ),
            vm_token: p.vm_token,
            ..TaskView::make(self.seq, p.tag)
        }
    }

    pub open spec fn threaded(self, src: usize, stack_top: u64, tls: u64, clear_tid: usize) -> TableView {
        let p = self.tasks[src as int];
        TableView {
            tasks: self.tasks.update(src as int, TaskView { threads: p.threads.push(self.seq), ..p }).push(
                self.thread_of(src, stack_top, tls, clear_tid),
            ),
            map: self.map.insert(self.seq, self.tasks.len() as usize),
            seq: self.seq.wrapping_add(1),
            root: self.root,
        }
    }

    /// Process `t` has ended, and its parent knows.
    pub open spec fn exited(self, t: usize, code: usize) -> TableView {
        let gone = self.set_task(t, self.tasks[t as int].quit(code));
        match self.tasks[t as int].parent {
            Some(p) => gone.set_task(p, child_quit(gone.tasks[p as int])),
            None => gone,
        }
    }
}

/// The handles of a process that has the terminal as its three standard files.
pub open spec fn tty_files(st: StoreView) -> Map<usize, FileView> {
    let b = st.blobs.len();
    let s = st.states.len();
    let h0 = FHandleView { path: "/dev/tty"@, data: b as usize, state: s as usize, pipe: false, cloexec: false };
    let h1 = FHandleView { data: (b + 1) as usize, state: (s + 1) as usize, ..h0 };
    Map::empty().insert(0usize, FileView::File(h0)).insert(1usize, FileView::File(h1)).insert(
        2usize,
        FileView::File(h1.dup(false)),
    )
}

/// The store with what those handles refer to: one file to read from and one to write to.
pub open spec fn with_tty(st: StoreView) -> StoreView {
    let r = FdOpt { read: true, write: false, append: false, non_blocking: false };
    let w = FdOpt { read: false, write: true, append: false, non_blocking: false };
    StoreView {
        blobs: st.blobs.push(Seq::empty()).push(Seq::empty()),
        states: st.states.push(FdState { off: 0, opt: r }).push(FdState { off: 0, opt: w }),
        ..st
    }
}

/// The top of the stack of a user process.
pub const USR_STK_TOP: usize = 0x8000_0000;

/// What a program at `path` starts as, with its stack pointer at `sp`.
pub open spec fn user_task(id: usize, path: Seq<char>, sp: u64, st: StoreView) -> TaskView {
    TaskView {
        exec_path: path,
        thd_ctx: Some(
            ThdView { uctx: ThdView::initial().uctx.with_reg(15, sp), ..ThdView::initial() },
        ),
        files: tty_files(st),
        pid: Pid(id),
        threads: seq![id],
        ..TaskView::make(id, path)
    }
}

pub open spec fn is_active(tab: TableView) -> spec_fn(usize) -> bool {
    |id: usize| tab.tasks[tab.map[id] as int].status is None
}

pub open spec fn is_zombie(tab: TableView) -> spec_fn(usize) -> bool {
    |id: usize| tab.tasks[tab.map[id] as int].status is Some
}

/// The places that a map gives to some numbers.
pub open spec fn places(ids: Seq<usize>, map: Map<usize, usize>) -> Seq<usize> {
    ids.map_values(|id: usize| map[id])
}

/// The store after the files of `t` were closed.
pub open spec fn after_exit(t: TaskView, st: StoreView) -> StoreView {
    drop_all(ascending(t.files.dom()), t.files, st)
}

/// Process `p` has `t` as its parent or among its children.
pub open spec fn points_at(p: TaskView, t: usize) -> bool {
    p.parent == Some(t) || p.subtasks.contains(t)
}

/// Nothing is left in the process that could be dropped with it.
pub open spec fn spent(t: TaskView) -> bool {
    t.files.dom().len() == 0 && t.parent is None && t.subtasks.len() == 0
}

/// What a process is once it was dropped: its files are closed, and it refers to nobody.
pub open spec fn remains(t: TaskView) -> TaskView {
    TaskView { files: Map::empty(), parent: None, subtasks: Seq::empty(), ..t }
}

impl TableView {
    /// Somebody refers to process `t`: a number, the root, a hand, a child or a parent.
    pub open spec fn referred(self, held: Seq<usize>, t: usize) -> bool {
        ||| exists|id: usize| #[trigger] self.map.dom().contains(id) && self.map[id] == t
        ||| self.root == Some(t)
        ||| held.contains(t)
        ||| exists|i: int| 0 <= i < self.tasks.len() && points_at(#[trigger] self.tasks[i], t)
    }

    /// Nobody refers to process `t`, and it is yet to be dropped.
    pub open spec fn lost(self, held: Seq<usize>, t: usize) -> bool {
        t < self.tasks.len() && !spent(self.tasks[t as int]) && !self.referred(held, t)
    }

    /// Process `t` is the first that is lost.
    pub open spec fn first_lost(self, held: Seq<usize>, t: usize) -> bool {
        self.lost(held, t) && forall|u: usize| u < t ==> !self.lost(held, u)
    }
}

/// The table and the store after up to `n` lost processes were dropped, the first one first. A
/// process that is dropped closes its files and lets go of its parent and its children, who may
/// be lost in turn.
pub open spec fn swept(tab: TableView, st: StoreView, held: Seq<usize>, n: nat) -> (TableView, StoreView)
    decreases n,
{
    if n == 0 || !exists|t: usize| tab.first_lost(held, t) {
        (tab, st)
    } else {
        let t = choose|t: usize| tab.first_lost(held, t);
        let p = tab.tasks[t as int];
        swept(tab.set_task(t, remains(p)), after_exit(p, st), held, (n - 1) as nat)
    }
}

/// `tab2` and `st2` are `tab` and `st` once every process that nobody refers to was dropped, and
/// everybody was told of what happened.
pub open spec fn concluded<F: Fn(usize, u32) -> bool>(
    run: F,
    held: Seq<usize>,
    tab: TableView,
    st: StoreView,
    tab2: TableView,
    st2: StoreView,
) -> bool {
    let (t, s) = swept(tab, st, held, tab.tasks.len());
    tasks_delivered(run, t, tab2) && pipes_delivered(run, s, st2)
}

/// A process keeps its places in a store that only grew.
pub proof fn lemma_task_wf_grows(t: TaskView, st: StoreView, later: StoreView)
    requires
        t.wf(st),
        st.grows_to(later),
    ensures
        t.wf(later),
{
    assert forall|fd: usize| #[trigger] t.files.dom().contains(fd) implies t.files[fd].wf(later) by {
        assert(t.files[fd].wf(st));
    }
    assert forall|fd: usize| #[trigger] t.ep_inst.dom().contains(fd) implies t.ep_inst[fd].wf(later) by {
        assert(t.ep_inst[fd].wf(st));
    }
}

/// A table keeps its places in a store that only grew.
pub proof fn lemma_table_wf_grows(tab: TableView, st: StoreView, later: StoreView)
    requires
        tab.wf(st),
        st.grows_to(later),
    ensures
        tab.wf(later),
{
    assert forall|i: int| 0 <= i < tab.tasks.len() implies (#[trigger] tab.tasks[i]).wf(later) by {
        lemma_task_wf_grows(tab.tasks[i], st, later);
    }
}

impl TaskTable {
    pub fn new() -> (r: Self)
        ensures
            r@ == TableView::new(),
    {
        let r = TaskTable { tasks: Vec::new(), map: BTreeMap::new(), seq: 1, root: None };
        assert(r@ =~= TableView::new());
        r
    }

    /// A new process under the next number, in place of whatever was there.
    fn spawn_step(&mut self, tag: &str) -> (r: usize)
        ensures
            r == old(self)@.tasks.len(),
            final(self)@ == old(self)@.spawned(tag@),
    {
        let id: usize = self.seq;
        self.seq = self.seq.wrapping_add(1);
        let t: usize = self.tasks.len();
        self.tasks.push(Task::make(id, tag));
        self.map.insert(id, t);
        assert(self@ =~= old(self)@.spawned(tag@));
        t
    }

    /// A new process that takes over orphans.
    pub(crate) fn root_step(&mut self) -> (r: usize)
        ensures
            r == old(self)@.tasks.len(),
            final(self)@ == (TableView {
                root: Some(old(self)@.tasks.len() as usize),
                ..old(self)@.spawned("init"@)
            }),
    {
        let t: usize = self.spawn_step("init");
        self.root = Some(t);
        t
    }

    pub fn find(&self, id: usize) -> (r: Option<usize>)
        ensures
            r == (if self@.map.dom().contains(id) { Some(self@.map[id]) } else { None }),
    {
        match self.map.get(&id) {
            Some(t) => Some(*t),
            None => None,
        }
    }

    /// The registered processes in the order of their numbers.
    fn list(&self) -> (r: Vec<usize>)
        requires
            self@.linked(),
        ensures
            r@ == self@.listed(),
            r@.len() == self@.map.dom().len(),
            forall|i: int| 0 <= i < r@.len() ==> (#[trigger] r@[i]) < self@.tasks.len(),
    {
        let keys = sorted_keys(&self.map);
        let mut out: Vec<usize> = Vec::new();
        let mut i: usize = 0;
        while i < keys.len()
            invariant
                i <= keys@.len(),
                keys@.to_set() == self.map@.dom(),
                self@.linked(),
                out@.len() == i,
                forall|k: int| 0 <= k < i ==> #[trigger] out@[k] == self.map@[keys@[k]] && self.map@.dom().contains(
                    keys@[k],
                ),
            decreases keys@.len() - i,
        {
            assert(keys@.to_set().contains(keys@[i as int]));
            if let Some(t) = self.map.get(&keys[i]) {
                out.push(*t);
            }
            i += 1;
        }
        assert(out@ =~= self@.listed());
        out
    }

    /// The processes with that tag, in the order of their numbers.
    pub fn find_by_tag(&self, tag: &str) -> (r: Vec<usize>)
        requires
            self@.linked(),
        ensures
            r@ == self@.listed().filter(tagged(self@.tasks, tag@)),
    {
        let all = self.list();
        let wanted: String = tag.to_owned();
        let mut out: Vec<usize> = Vec::new();
        let mut i: usize = 0;
        proof {
            reveal(Seq::filter);
            assert(all@.take(0).filter(tagged(self@.tasks, tag@)) =~= Seq::empty());
        }
        while i < all.len()
            invariant
                i <= all@.len(),
                wanted@ == tag@,
                forall|k: int| 0 <= k < all@.len() ==> (#[trigger] all@[k]) < self.tasks@.len(),
                out@ == all@.take(i as int).filter(tagged(self@.tasks, tag@)),
            decreases all@.len() - i,
        {
            let t: usize = all[i];
            proof {
                assert(all@.take(i as int).push(t) =~= all@.take(i + 1));
                lemma_filter_push(all@.take(i as int), t, tagged(self@.tasks, tag@));
            }
            if self.tasks[t].tag() == wanted {
                out.push(t);
            }
            i += 1;
        }
        assert(all@.take(i as int) =~= all@);
        out
    }

    /// The first process that thread `tid` belongs to.
    pub fn process_of_tid(&self, tid: usize) -> (r: Option<usize>)
        requires
            self@.linked(),
        ensures
            ({
                let found = self@.listed().filter(runs(self@.tasks, tid));
                r == (if found.len() > 0 { Some(found[0]) } else { None })
            }),
    {
        let all = self.list();
        let mut i: usize = 0;
        proof {
            reveal(Seq::filter);
            assert(all@.take(0).filter(runs(self@.tasks, tid)) =~= Seq::empty());
        }
        while i < all.len()
            invariant
                i <= all@.len(),
                all@ == self@.listed(),
                forall|k: int| 0 <= k < all@.len() ==> (#[trigger] all@[k]) < self.tasks@.len(),
                all@.take(i as int).filter(runs(self@.tasks, tid)) == Seq::<usize>::empty(),
            decreases all@.len() - i,
        {
            let t: usize = all[i];
            proof {
                assert(all@.take(i as int).push(t) =~= all@.take(i + 1));
                lemma_filter_push(all@.take(i as int), t, runs(self@.tasks, tid));
            }
            if holds(&self.tasks[t].threads, tid) {
                proof {
                    lemma_filter_starts(all@, i + 1, runs(self@.tasks, tid));
                }
                return Some(t);
            }
            i += 1;
        }
        assert(all@.take(i as int) =~= all@);
        None
    }

    /// The processes of a group, in the order of their numbers.
    pub fn pgid_group(&self, pgid: Pgid) -> (r: Vec<usize>)
        requires
            self@.linked(),
        ensures
            r@ == self@.listed().filter(in_group(self@.tasks, pgid)),
            forall|k: int| 0 <= k < r@.len() ==> (#[trigger] r@[k]) < self@.tasks.len(),
    {
        let all = self.list();
        let mut out: Vec<usize> = Vec::new();
        let mut i: usize = 0;
        proof {
            reveal(Seq::filter);
            assert(all@.take(0).filter(in_group(self@.tasks, pgid)) =~= Seq::empty());
        }
        while i < all.len()
            invariant
                i <= all@.len(),
                forall|k: int| 0 <= k < all@.len() ==> (#[trigger] all@[k]) < self.tasks@.len(),
                forall|k: int| 0 <= k < out@.len() ==> (#[trigger] out@[k]) < self.tasks@.len(),
                out@ == all@.take(i as int).filter(in_group(self@.tasks, pgid)),
            decreases all@.len() - i,
        {
            let t: usize = all[i];
            proof {
                assert(all@.take(i as int).push(t) =~= all@.take(i + 1));
                lemma_filter_push(all@.take(i as int), t, in_group(self@.tasks, pgid));
            }
            if self.tasks[t].pgid == pgid {
                out.push(t);
            }
            i += 1;
        }
        assert(all@.take(i as int) =~= all@);
        out
    }

    /// Enters process `task` under `pid`, in place of whatever was there.
    fn register_step(&mut self, task: usize, pid: Pid)
        requires
            task < old(self)@.tasks.len(),
        ensures
            final(self)@ == old(self)@.registered(task, pid),
    {
        self.tasks[task].pid = pid;
        self.map.insert(pid.get(), task);
        assert(self@ =~= old(self)@.registered(task, pid));
    }

    /// Takes the process under `id` off the table. Its children go to the root.
    pub(crate) fn reap_step(&mut self, id: usize)
        requires
            old(self)@.linked(),
        ensures
            final(self)@ == old(self)@.reaped(id),
    {
        let ghost before = self@;
        let t: usize = match self.map.get(&id) {
            Some(t) => *t,
            None => {
                return ;
            },
        };
        assert(before.knows(before.tasks[t as int]));
        self.tasks[t].info.status = Some(0);
        let mut ch: Vec<usize> = Vec::new();
        std::mem::swap(&mut ch, &mut self.tasks[t].subtasks);
        let ghost cleared = self@.tasks;
        assert(cleared =~= before.tasks.update(
            t as int,
            TaskView { status: Some(0), subtasks: Seq::empty(), ..before.tasks[t as int] },
        ));
        if let Some(r) = self.root {
            let mut i: usize = 0;
            assert(ch@.take(0) =~= Seq::empty());
            while i < ch.len()
                invariant
                    i <= ch@.len(),
                    self.root == Some(r),
                    r < self.tasks@.len(),
                    self@.map == before.map,
                    self@.seq == before.seq,
                    self@.root == before.root,
                    forall|k: int| 0 <= k < ch@.len() ==> (#[trigger] ch@[k]) < self.tasks@.len(),
                    self@.tasks == adopted(cleared, r, ch@.take(i as int)),
                decreases ch@.len() - i,
            {
                let c: usize = ch[i];
                let ghost front = self@.tasks;
                self.tasks[c].link_parent(r);
                assert(self@.tasks =~= front.update(c as int, TaskView { parent: Some(r), ..front[c as int] }));
                let ghost linked = self@.tasks;
                self.tasks[r].link_child(c);
                assert(self@.tasks =~= linked.update(
                    r as int,
                    TaskView { subtasks: linked[r as int].subtasks.push(c), ..linked[r as int] },
                ));
                assert(ch@.take(i + 1).drop_last() =~= ch@.take(i as int));
                i += 1;
            }
            assert(ch@.take(i as int) =~= ch@);
        }
        self.map.remove(&id);
        assert(self@ =~= before.reaped(id));
    }

    pub fn count(&self) -> (r: usize)
        ensures
            r == self@.map.dom().len(),
    {
        self.map.len()
    }

    /// A copy of process `src` as its child. The two share files, cursors and pipes.
    pub(crate) fn fork_step(&mut self, src: usize) -> (r: usize)
        requires
            src < old(self)@.tasks.len(),
        ensures
            r == old(self)@.tasks.len(),
            final(self)@ == old(self)@.forked(src),
    {
        let nid: usize = self.seq;
        self.seq = self.seq.wrapping_add(1);
        let ns: String = self.tasks[src].tag();
        let mut tgt: Task = Task::make(nid, ns.as_str());
        let n: usize = self.tasks.len();
        tgt.cwd = bytes_as_chars(&self.tasks[src].cwd);
        tgt.exec_path = self.tasks[src].exec_path.clone();
        tgt.files = copy_all(&self.tasks[src].files);
        tgt.pgid = self.tasks[src].pgid;
        tgt.sig_mask = self.tasks[src].sig_mask;
        tgt.parent = Some(src);
        self.tasks[src].subtasks.push(n);
        tgt.pid = Pid(nid);
        self.map.insert(nid, n);
        tgt.threads.push(nid);
        self.tasks[src].subtasks.push(n);
        assert(tgt@ =~= old(self)@.child_of(src));
        self.tasks.push(tgt);
        assert(self@.tasks =~= old(self)@.forked(src).tasks);
        n
    }

    /// A thread of process `src`, under a number of its own.
    fn thread_step(&mut self, src: usize, stack_top: u64, tls: u64, clear_tid: usize) -> (r: usize)
        requires
            src < old(self)@.tasks.len(),
        ensures
            r == old(self)@.tasks.len(),
            final(self)@ == old(self)@.threaded(src, stack_top, tls, clear_tid),
    {
        let id: usize = self.seq;
        self.seq = self.seq.wrapping_add(1);
        let tag: String = self.tasks[src].tag();
        let mut t: Task = Task::make(id, tag.as_str());
        let n: usize = self.tasks.len();
        let mut ctx: ThdCtx = ThdCtx::default();
        ctx.uctx.set_ret(0);
        ctx.uctx.set_sp(stack_top);
        ctx.uctx.set_tls(tls);
        ctx.clear_tid = clear_tid;
        ctx.smask = self.tasks[src].sig_mask;
        t.thd_ctx = Some(ctx);
        t.vm_token = self.tasks[src].vm_token;
        assert(t@ =~= old(self)@.thread_of(src, stack_top, tls, clear_tid));
        self.map.insert(id, n);
        self.tasks[src].threads.push(id);
        self.tasks.push(t);
        assert(self@.tasks =~= old(self)@.threaded(src, stack_top, tls, clear_tid).tasks);
        n
    }

    /// Ends process `t`. Its events and its parent's are noted.
    pub(crate) fn note_exit(&mut self, st: &mut Store, t: usize, code: usize)
        requires
            t < old(self)@.tasks.len(),
            old(self)@.wf(old(st)@),
        ensures
            final(self)@ == old(self)@.exited(t, code),
            final(st)@ == after_exit(old(self)@.tasks[t as int], old(st)@),
    {
        let ghost before = self@;
        assert(before.tasks[t as int].wf(st@));
        assert(before.knows(before.tasks[t as int]));
        let parent = self.tasks[t].note_exit(st, code);
        assert(self@.tasks =~= before.tasks.update(t as int, before.tasks[t as int].quit(code)));
        if let Some(p) = parent {
            let ghost gone = self@;
            self.tasks[p].event.note(0, EventBitflag::CHILD_QUIT);
            assert(self@.tasks =~= gone.tasks.update(p as int, child_quit(gone.tasks[p as int])));
        }
    }
}

impl TaskTable {
    /// A new process that runs the program at `path`, with the terminal as its standard files.
    fn user_step(&mut self, st: &mut Store, path: &str, args: Vec<String>, envs: Vec<String>) -> (r: usize)
        requires
            stack_size(args@, envs@, 0) <= USR_STK_TOP,
        ensures
            r == old(self)@.tasks.len(),
            final(self)@ == ({
                let sp = floor16(USR_STK_TOP - stack_size(args@, envs@, 0)) as u64;
                let id = old(self)@.seq;
                TableView {
                    tasks: old(self)@.tasks.push(user_task(id, path@, sp, old(st)@)),
                    ..old(self)@.spawned(path@)
                }
            }),
            final(st)@ == with_tty(old(st)@),
    {
        let id: usize = self.seq;
        let t: usize = self.spawn_step(path);
        assert(self@.tasks.len() == self.tasks.len());
        let mut task: Task = Task::make(id, path);
        task.exec_path = path.to_owned();
        let mut ctx: ThdCtx = ThdCtx::default();
        let init = ProcInit { args, envs, auxv: BTreeMap::new() };
        let sp: usize = init.push_at(USR_STK_OFF + USR_STK_SZ);
        ctx.uctx.set_sp(sp as u64);
        task.thd_ctx = Some(ctx);
        let fd0 = FHandle::new(
            st,
            "/dev/tty",
            FdOpt { read: true, write: false, append: false, non_blocking: false },
            false,
            false,
        );
        let fd1 = FHandle::new(
            st,
            "/dev/tty",
            FdOpt { read: false, write: true, append: false, non_blocking: false },
            false,
            false,
        );
        let fd2 = fd1.dup(false);
        task.files.insert(0, FileLike::File(fd0));
        task.files.insert(1, FileLike::File(fd1));
        task.files.insert(2, FileLike::File(fd2));
        task.pid = Pid(id);
        task.threads.push(id);
        assert(task@.files =~= tty_files(old(st)@));
        assert(task@ =~= user_task(id, path@, sp as u64, old(st)@));
        let ghost mid = self@.tasks;
        self.tasks[t] = task;
        assert(self@.tasks =~= mid.update(t as int, task@));
        assert(self@.tasks =~= old(self)@.tasks.push(user_task(id, path@, sp as u64, old(st)@)));
        t
    }

    /// The numbers of the processes that have not ended, in ascending order.
    pub fn active_tasks(&self) -> (r: Vec<usize>)
        requires
            self@.linked(),
        ensures
            r@ == ascending(self@.map.dom()).filter(is_active(self@)),
    {
        self.by_status(false)
    }

    /// The numbers of the processes that have ended, in ascending order.
    pub fn zombie_tasks(&self) -> (r: Vec<usize>)
        requires
            self@.linked(),
        ensures
            r@ == ascending(self@.map.dom()).filter(is_zombie(self@)),
    {
        self.by_status(true)
    }

    fn by_status(&self, ended: bool) -> (r: Vec<usize>)
        requires
            self@.linked(),
        ensures
            r@ == ascending(self@.map.dom()).filter(
                if ended {
                    is_zombie(self@)
                } else {
                    is_active(self@)
                },
            ),
    {
        let keys = sorted_keys(&self.map);
        let ghost keep = if ended {
            is_zombie(self@)
        } else {
            is_active(self@)
        };
        let mut out: Vec<usize> = Vec::new();
        let mut i: usize = 0;
        proof {
            reveal(Seq::filter);
            assert(keys@.take(0).filter(keep) =~= Seq::empty());
        }
        while i < keys.len()
            invariant
                i <= keys@.len(),
                self@.linked(),
                keys@.to_set() == self.map@.dom(),
                keep == (if ended {
                    is_zombie(self@)
                } else {
                    is_active(self@)
                }),
                out@ == keys@.take(i as int).filter(keep),
            decreases keys@.len() - i,
        {
            let id: usize = keys[i];
            proof {
                assert(keys@.to_set().contains(id));
                assert(keys@.take(i as int).push(id) =~= keys@.take(i + 1));
                lemma_filter_push(keys@.take(i as int), id, keep);
            }
            if let Some(t) = self.map.get(&id) {
                if self.tasks[*t].done() == ended {
                    out.push(id);
                }
            }
            i += 1;
        }
        assert(keys@.take(i as int) =~= keys@);
        out
    }

    /// Sends a signal to each of the given processes. Their events are noted.
    pub(crate) fn signal_all(&mut self, ts: &Vec<usize>, signo: i32, sender: isize)
        requires
            forall|k: int| 0 <= k < ts@.len() ==> (#[trigger] ts@[k]) < old(self)@.tasks.len(),
        ensures
            final(self)@ == (TableView {
                tasks: all_signalled(old(self)@.tasks, ts@, signo, sender),
                ..old(self)@
            }),
    {
        let mut i: usize = 0;
        assert(ts@.take(0) =~= Seq::empty());
        while i < ts.len()
            invariant
                i <= ts@.len(),
                self@.tasks.len() == old(self)@.tasks.len(),
                forall|k: int| 0 <= k < ts@.len() ==> (#[trigger] ts@[k]) < old(self)@.tasks.len(),
                self@ == (TableView {
                    tasks: all_signalled(old(self)@.tasks, ts@.take(i as int), signo, sender),
                    ..old(self)@
                }),
            decreases ts@.len() - i,
        {
            let t: usize = ts[i];
            let ghost front = self@.tasks;
            self.tasks[t].note_sig(signo, sender);
            assert(self@.tasks =~= front.update(t as int, front[t as int].signalled(signo, sender)));
            assert(ts@.take(i + 1).drop_last() =~= ts@.take(i as int));
            i += 1;
        }
        assert(ts@.take(i as int) =~= ts@);
    }
}

/// What [`TaskTable::spawn_root`] does to the table.
pub open spec fn rooted(tab: TableView) -> TableView {
    TableView { root: Some(tab.tasks.len() as usize), ..tab.spawned("init"@) }
}

/// A new process that runs the program at `path` with that much on its stack.
pub open spec fn user_spawned(tab: TableView, st: StoreView, path: Seq<char>, size: int) -> TableView {
    let sp = floor16(USR_STK_TOP - size) as u64;
    TableView { tasks: tab.tasks.push(user_task(tab.seq, path, sp, st)), ..tab.spawned(path) }
}

/// Every process of a group was sent a signal.
pub open spec fn group_signalled(tab: TableView, pgid: Pgid, signo: i32) -> TableView {
    let group = tab.listed().filter(in_group(tab.tasks, pgid));
    TableView { tasks: all_signalled(tab.tasks, group, signo, (-1) as isize), ..tab }
}

impl TaskTable {
    /// A new process under the next number.
    pub fn spawn<F: Fn(usize, u32) -> bool>(&mut self, st: &mut Store, out: &Outside<F>, tag: &str) -> (r: usize)
        requires
            old(self)@.wf(old(st)@),
            forall|c: usize, e: u32| call_requires(out.run, (c, e)),
        ensures
            r == old(self)@.tasks.len(),
            concluded(out.run, out.held@, old(self)@.spawned(tag@), old(st)@, final(self)@, final(st)@),
            final(self)@.wf(final(st)@),
    {
        assert(self@.tasks.len() == self.tasks.len());
        let t: usize = self.spawn_step(tag);
        assert(self@.tasks.len() == self.tasks.len());
        proof {
            law_spawn_keeps_table(old(self)@, st@, tag@);
        }
        self.conclude(st, &out.run, &out.held);
        t
    }

    /// A new process that takes over orphans.
    pub fn spawn_root<F: Fn(usize, u32) -> bool>(&mut self, st: &mut Store, out: &Outside<F>) -> (r: usize)
        requires
            old(self)@.wf(old(st)@),
            forall|c: usize, e: u32| call_requires(out.run, (c, e)),
        ensures
            r == old(self)@.tasks.len(),
            concluded(out.run, out.held@, rooted(old(self)@), old(st)@, final(self)@, final(st)@),
            final(self)@.wf(final(st)@),
    {
        assert(self@.tasks.len() == self.tasks.len());
        let t: usize = self.root_step();
        assert(self@.tasks.len() == self.tasks.len());
        proof {
            law_spawn_keeps_table(old(self)@, st@, "init"@);
            lemma_other_root(old(self)@.spawned("init"@), st@, self@);
        }
        self.conclude(st, &out.run, &out.held);
        t
    }

    /// Enters process `task` under `pid`, in place of whatever was there.
    pub fn register<F: Fn(usize, u32) -> bool>(&mut self, st: &mut Store, out: &Outside<F>, task: usize, pid: Pid)
        requires
            old(self)@.wf(old(st)@),
            task < old(self)@.tasks.len(),
            forall|c: usize, e: u32| call_requires(out.run, (c, e)),
        ensures
            concluded(out.run, out.held@, old(self)@.registered(task, pid), old(st)@, final(self)@, final(st)@),
            final(self)@.wf(final(st)@),
    {
        self.register_step(task, pid);
        proof {
            law_register_keeps_table(old(self)@, st@, task, pid);
        }
        self.conclude(st, &out.run, &out.held);
    }

    /// Takes the process under `id` off the table. Its children go to the root, and if nobody
    /// refers to it any more its files are closed.
    pub fn reap<F: Fn(usize, u32) -> bool>(&mut self, st: &mut Store, out: &Outside<F>, id: usize)
        requires
            old(self)@.wf(old(st)@),
            forall|c: usize, e: u32| call_requires(out.run, (c, e)),
        ensures
            concluded(out.run, out.held@, old(self)@.reaped(id), old(st)@, final(self)@, final(st)@),
            final(self)@.wf(final(st)@),
    {
        self.reap_step(id);
        proof {
            law_reap_keeps_table(old(self)@, st@, id);
        }
        self.conclude(st, &out.run, &out.held);
    }

    /// A copy of process `src` as its child. The two share files, cursors and pipes.
    pub fn fork_task<F: Fn(usize, u32) -> bool>(&mut self, st: &mut Store, out: &Outside<F>, src: usize) -> (r: usize)
        requires
            old(self)@.wf(old(st)@),
            src < old(self)@.tasks.len(),
            forall|c: usize, e: u32| call_requires(out.run, (c, e)),
        ensures
            r == old(self)@.tasks.len(),
            concluded(out.run, out.held@, old(self)@.forked(src), old(st)@, final(self)@, final(st)@),
            final(self)@.wf(final(st)@),
    {
        assert(self@.tasks.len() == self.tasks.len());
        let t: usize = self.fork_step(src);
        assert(self@.tasks.len() == self.tasks.len());
        proof {
            law_fork_keeps_table(old(self)@, st@, src);
        }
        self.conclude(st, &out.run, &out.held);
        t
    }

    /// A thread of process `src`, under a number of its own.
    pub fn clone_thread<F: Fn(usize, u32) -> bool>(
        &mut self,
        st: &mut Store,
        out: &Outside<F>,
        src: usize,
        stack_top: u64,
        tls: u64,
        clear_tid: usize,
    ) -> (r: usize)
        requires
            old(self)@.wf(old(st)@),
            src < old(self)@.tasks.len(),
            forall|c: usize, e: u32| call_requires(out.run, (c, e)),
        ensures
            r == old(self)@.tasks.len(),
            concluded(
                out.run,
                out.held@,
                old(self)@.threaded(src, stack_top, tls, clear_tid),
                old(st)@,
                final(self)@,
                final(st)@,
            ),
            final(self)@.wf(final(st)@),
    {
        assert(self@.tasks.len() == self.tasks.len());
        let t: usize = self.thread_step(src, stack_top, tls, clear_tid);
        assert(self@.tasks.len() == self.tasks.len());
        proof {
            law_thread_keeps_table(old(self)@, st@, src, stack_top, tls, clear_tid);
        }
        self.conclude(st, &out.run, &out.held);
        t
    }

    /// Ends process `t` and tells its parent.
    pub fn exit_proc<F: Fn(usize, u32) -> bool>(&mut self, st: &mut Store, out: &Outside<F>, t: usize, code: usize)
        requires
            t < old(self)@.tasks.len(),
            old(self)@.wf(old(st)@),
            forall|c: usize, e: u32| call_requires(out.run, (c, e)),
        ensures
            concluded(
                out.run,
                out.held@,
                old(self)@.exited(t, code),
                after_exit(old(self)@.tasks[t as int], old(st)@),
                final(self)@,
                final(st)@,
            ),
            final(self)@.wf(final(st)@),
    {
        self.note_exit(st, t, code);
        proof {
            law_exit_keeps_table(old(self)@, old(st)@, t, code);
        }
        self.conclude(st, &out.run, &out.held);
    }

    /// A new process that runs the program at `path`, with the terminal as its standard files.
    pub fn new_user_task<F: Fn(usize, u32) -> bool>(
        &mut self,
        st: &mut Store,
        out: &Outside<F>,
        path: &str,
        args: Vec<String>,
        envs: Vec<String>,
    ) -> (r: usize)
        requires
            old(self)@.wf(old(st)@),
            stack_size(args@, envs@, 0) <= USR_STK_TOP,
            forall|c: usize, e: u32| call_requires(out.run, (c, e)),
        ensures
            r == old(self)@.tasks.len(),
            concluded(
                out.run,
                out.held@,
                user_spawned(old(self)@, old(st)@, path@, stack_size(args@, envs@, 0) as int),
                with_tty(old(st)@),
                final(self)@,
                final(st)@,
            ),
            final(self)@.wf(final(st)@),
    {
        let ghost size = stack_size(args@, envs@, 0) as int;
        assert(self@.tasks.len() == self.tasks.len());
        let t: usize = self.user_step(st, path, args, envs);
        assert(self@.tasks.len() == self.tasks.len());
        assert(st@.blobs.len() == st.blobs.len());
        assert(st@.states.len() == st.states.len());
        proof {
            law_user_task_keeps_table(old(self)@, old(st)@, path@, floor16(USR_STK_TOP - size) as u64);
        }
        self.conclude(st, &out.run, &out.held);
        t
    }

    /// Ends the process under `id` and takes it off the table. Tells whether there was one.
    pub fn terminate_and_collect<F: Fn(usize, u32) -> bool>(
        &mut self,
        st: &mut Store,
        out: &Outside<F>,
        id: usize,
        code: usize,
    ) -> (r: bool)
        requires
            old(self)@.wf(old(st)@),
            forall|c: usize, e: u32| call_requires(out.run, (c, e)),
        ensures
            r == old(self)@.map.dom().contains(id),
            r ==> concluded(
                out.run,
                out.held@,
                old(self)@.exited(old(self)@.map[id], code).reaped(id),
                after_exit(old(self)@.tasks[old(self)@.map[id] as int], old(st)@),
                final(self)@,
                final(st)@,
            ),
            !r ==> final(self)@ == old(self)@ && final(st)@ == old(st)@,
            final(self)@.wf(final(st)@),
    {
        match self.find(id) {
            Some(t) => {
                self.note_exit(st, t, code);
                proof {
                    law_exit_keeps_table(old(self)@, old(st)@, t, code);
                    law_reap_keeps_table(self@, st@, id);
                }
                self.reap_step(id);
                self.conclude(st, &out.run, &out.held);
                true
            },
            None => false,
        }
    }

    /// Sends a signal to every process of a group, and returns how many there are.
    pub fn send_signal_group<F: Fn(usize, u32) -> bool>(&mut self, pgid: Pgid, signo: i32, run: &F) -> (r: usize)
        requires
            old(self)@.linked(),
            forall|c: usize, e: u32| call_requires(*run, (c, e)),
        ensures
            r == old(self)@.listed().filter(in_group(old(self)@.tasks, pgid)).len(),
            tasks_delivered(*run, group_signalled(old(self)@, pgid, signo), final(self)@),
    {
        let group = self.pgid_group(pgid);
        self.signal_all(&group, signo, -1);
        self.deliver(run);
        group.len()
    }

    /// Drops the processes that nobody refers to any more.
    pub fn let_go<F: Fn(usize, u32) -> bool>(&mut self, st: &mut Store, out: &Outside<F>)
        requires
            old(self)@.wf(old(st)@),
            forall|c: usize, e: u32| call_requires(out.run, (c, e)),
        ensures
            concluded(out.run, out.held@, old(self)@, old(st)@, final(self)@, final(st)@),
            final(self)@.wf(final(st)@),
    {
        self.conclude(st, &out.run, &out.held);
    }

    /// Drops the processes that nobody refers to any more, and tells everybody of what happened.
    pub(crate) fn conclude<F: Fn(usize, u32) -> bool>(&mut self, st: &mut Store, run: &F, held: &Vec<usize>)
        requires
            old(self)@.wf(old(st)@),
            forall|c: usize, e: u32| call_requires(*run, (c, e)),
        ensures
            concluded(*run, held@, old(self)@, old(st)@, final(self)@, final(st)@),
            final(self)@.wf(final(st)@),
    {
        self.sweep(st, held);
        let ghost (t, s) = (self@, st@);
        st.deliver(run);
        self.deliver(run);
        proof {
            law_delivery_keeps_table(*run, t, self@, s, st@);
        }
    }

    /// Drops the processes that nobody refers to any more.
    fn sweep(&mut self, st: &mut Store, held: &Vec<usize>)
        requires
            old(self)@.wf(old(st)@),
        ensures
            (final(self)@, final(st)@) == swept(old(self)@, old(st)@, held@, old(self)@.tasks.len()),
            final(self)@.wf(final(st)@),
    {
        let n: usize = self.tasks.len();
        let mut left: usize = n;
        assert(self@.tasks.len() == n);
        while left > 0
            invariant_except_break
                self@.wf(st@),
                left <= n,
                n == old(self)@.tasks.len() == self@.tasks.len() == self.tasks@.len(),
                swept(self@, st@, held@, left as nat) == swept(old(self)@, old(st)@, held@, n as nat),
            ensures
                self@.wf(st@),
                (self@, st@) == swept(old(self)@, old(st)@, held@, n as nat),
            decreases left,
        {
            match self.find_lost(held) {
                Some(t) => {
                    let ghost (tab, before) = (self@, st@);
                    assert(tab.tasks[t as int].wf(before));
                    assert(files_view(self.tasks@[t as int].files@).dom() =~= self.tasks@[t as int].files@.dom());
                    close_all(&mut self.tasks[t].files, st);
                    self.tasks[t].parent = None;
                    self.tasks[t].subtasks = Vec::new();
                    proof {
                        assert(self.tasks@[t as int]@ =~= remains(tab.tasks[t as int]));
                        assert(self@ =~= tab.set_task(t, remains(tab.tasks[t as int])));
                        assert(st@ == after_exit(tab.tasks[t as int], before));
                        lemma_first_lost(tab, held@, t);
                        law_drop_keeps_table(tab, before, t);
                    }
                    left -= 1;
                },
                None => {
                    break ;
                },
            }
        }
    }

    /// The first process that is lost.
    fn find_lost(&self, held: &Vec<usize>) -> (r: Option<usize>)
        ensures
            match r {
                Some(t) => self@.first_lost(held@, t),
                None => forall|t: usize| !self@.first_lost(held@, t),
            },
    {
        let mut t: usize = 0;
        while t < self.tasks.len()
            invariant
                t <= self.tasks@.len(),
                forall|u: usize| u < t ==> !self@.lost(held@, u),
            decreases self.tasks@.len() - t,
        {
            let p: &Task = &self.tasks[t];
            assert(files_view(p.files@).dom() =~= p.files@.dom());
            assert(self@.tasks[t as int] == p@);
            let empty: bool = p.files.len() == 0 && p.parent.is_none() && p.subtasks.len() == 0;
            if !empty && !self.is_referred(held, t) {
                return Some(t);
            }
            t += 1;
        }
        None
    }

    /// Whether somebody refers to process `t`.
    fn is_referred(&self, held: &Vec<usize>, t: usize) -> (r: bool)
        ensures
            r == self@.referred(held@, t),
    {
        if let Some(root) = self.root {
            if root == t {
                return true;
            }
        }
        if holds(held, t) {
            return true;
        }
        let keys = sorted_keys(&self.map);
        let mut i: usize = 0;
        while i < keys.len()
            invariant
                i <= keys@.len(),
                keys@.to_set() == self.map@.dom(),
                forall|k: int| 0 <= k < i ==> self.map@[#[trigger] keys@[k]] != t,
            decreases keys@.len() - i,
        {
            assert(keys@.to_set().contains(keys@[i as int]));
            if let Some(p) = self.map.get(&keys[i]) {
                if *p == t {
                    assert(self@.map.dom().contains(keys@[i as int]));
                    return true;
                }
            }
            i += 1;
        }
        assert forall|id: usize| #[trigger] self@.map.dom().contains(id) implies self@.map[id] != t by {
            assert(keys@.to_set().contains(id));
            let k = choose|k: int| 0 <= k < keys@.len() && keys@[k] == id;
            assert(keys@[k] == id);
        }
        let mut j: usize = 0;
        while j < self.tasks.len()
            invariant
                j <= self.tasks@.len(),
                forall|k: int| 0 <= k < j ==> !points_at(#[trigger] self@.tasks[k], t),
            decreases self.tasks@.len() - j,
        {
            let p: &Task = &self.tasks[j];
            assert(self@.tasks[j as int] == p@);
            let up: bool = match p.parent {
                Some(q) => q == t,
                None => false,
            };
            if up || holds(&p.subtasks, t) {
                return true;
            }
            j += 1;
        }
        false
    }
}

fn holds(v: &Vec<usize>, t: usize) -> (r: bool)
    ensures
        r == v@.contains(t),
{
    let mut i: usize = 0;
    while i < v.len()
        invariant
            i <= v@.len(),
            forall|k: int| 0 <= k < i ==> v@[k] != t,
        decreases v@.len() - i,
    {
        if v[i] == t {
            assert(v@[i as int] == t);
            return true;
        }
        i += 1;
    }
    false
}

/// The first lost process is the one that is dropped first.
proof fn lemma_first_lost(tab: TableView, held: Seq<usize>, t: usize)
    requires
        tab.first_lost(held, t),
    ensures
        forall|u: usize| tab.first_lost(held, u) ==> u == t,
{
}

/// Dropping a process keeps the table sound.
pub proof fn law_drop_keeps_table(tab: TableView, st: StoreView, t: usize)
    requires
        tab.wf(st),
        t < tab.tasks.len(),
    ensures
        tab.set_task(t, remains(tab.tasks[t as int])).wf(after_exit(tab.tasks[t as int], st)),
        st.grows_to(after_exit(tab.tasks[t as int], st)),
{
    let after = tab.set_task(t, remains(tab.tasks[t as int]));
    law_exit_keeps_table(tab, st, t, 0);
    let later = after_exit(tab.tasks[t as int], st);
    assert forall|i: int| 0 <= i < after.tasks.len() implies after.knows(#[trigger] after.tasks[i])
        && after.tasks[i].wf(later) by {
        assert(tab.knows(tab.tasks[i]) && tab.tasks[i].wf(st));
        lemma_task_wf_grows(tab.tasks[i], st, later);
    }
}

/// Registering keeps the table sound.
pub proof fn law_register_keeps_table(tab: TableView, st: StoreView, t: usize, pid: Pid)
    requires
        tab.wf(st),
        t < tab.tasks.len(),
    ensures
        tab.registered(t, pid).wf(st),
{
    let after = tab.registered(t, pid);
    assert forall|i: int| 0 <= i < after.tasks.len() implies after.knows(#[trigger] after.tasks[i])
        && after.tasks[i].wf(st) by {
        assert(tab.knows(tab.tasks[i]) && tab.tasks[i].wf(st));
    }
}

/// A table stays sound when one of its processes becomes its root.
proof fn lemma_other_root(tab: TableView, st: StoreView, after: TableView)
    requires
        tab.wf(st),
        after == (TableView { root: after.root, ..tab }),
        after.root matches Some(r) ==> r < tab.tasks.len(),
    ensures
        after.wf(st),
{
    assert forall|i: int| 0 <= i < after.tasks.len() implies after.knows(#[trigger] after.tasks[i]) by {
        assert(tab.knows(tab.tasks[i]));
    }
}

/// Dropping processes and telling of events leaves the numbers and the places.
pub proof fn lemma_concluded_len<F: Fn(usize, u32) -> bool>(
    run: F,
    held: Seq<usize>,
    tab: TableView,
    st: StoreView,
    tab2: TableView,
    st2: StoreView,
)
    requires
        concluded(run, held, tab, st, tab2, st2),
    ensures
        tab2.tasks.len() == tab.tasks.len(),
        tab2 == (TableView { tasks: tab2.tasks, ..tab }),
{
    lemma_swept_len(tab, st, held, tab.tasks.len());
}

proof fn lemma_swept_len(tab: TableView, st: StoreView, held: Seq<usize>, n: nat)
    ensures
        swept(tab, st, held, n).0.tasks.len() == tab.tasks.len(),
        swept(tab, st, held, n).0 == (TableView { tasks: swept(tab, st, held, n).0.tasks, ..tab }),
    decreases n,
{
    if n > 0 && exists|t: usize| tab.first_lost(held, t) {
        let t = choose|t: usize| tab.first_lost(held, t);
        let p = tab.tasks[t as int];
        lemma_swept_len(tab.set_task(t, remains(p)), after_exit(p, st), held, (n - 1) as nat);
    }
}

/// Whatever somebody refers to stays as it is when the rest is dropped, and so do the numbers.
pub proof fn law_drop_spares_the_referred(tab: TableView, st: StoreView, held: Seq<usize>, n: nat, t: usize)
    requires
        t < tab.tasks.len(),
        tab.root == Some(t) || held.contains(t) || exists|id: usize| #[trigger]
            tab.map.dom().contains(id) && tab.map[id] == t,
    ensures
        ({
            let after = swept(tab, st, held, n).0;
            &&& after.tasks.len() == tab.tasks.len()
            &&& after.tasks[t as int] == tab.tasks[t as int]
            &&& after == (TableView { tasks: after.tasks, ..tab })
        }),
    decreases n,
{
    if n > 0 && exists|u: usize| tab.first_lost(held, u) {
        let u = choose|u: usize| tab.first_lost(held, u);
        let p = tab.tasks[u as int];
        let mid = tab.set_task(u, remains(p));
        assert(u != t);
        law_drop_spares_the_referred(mid, after_exit(p, st), held, (n - 1) as nat, t);
    }
}

/// Where nobody is lost, nothing is dropped.
pub proof fn law_nobody_lost(tab: TableView, st: StoreView, held: Seq<usize>, n: nat)
    requires
        forall|t: usize| !tab.lost(held, t),
    ensures
        swept(tab, st, held, n) == (tab, st),
{
}

/// How many of the first `n` processes hold something.
spec fn unspent(tasks: Seq<TaskView>, n: nat) -> nat
    decreases n,
{
    if n == 0 {
        0
    } else {
        unspent(tasks, (n - 1) as nat) + if spent(tasks[n - 1]) {
            0nat
        } else {
            1nat
        }
    }
}

proof fn lemma_unspent(tasks: Seq<TaskView>, n: nat, t: int)
    requires
        n <= tasks.len(),
        0 <= t < tasks.len(),
        !spent(tasks[t]),
    ensures
        unspent(tasks.update(t, remains(tasks[t])), n) == unspent(tasks, n) - (if t < n {
            1int
        } else {
            0int
        }),
        unspent(tasks, n) <= n,
        t < n ==> unspent(tasks, n) > 0,
    decreases n,
{
    assert(remains(tasks[t]).files.dom() =~= Set::<usize>::empty());
    if n > 0 {
        lemma_unspent(tasks, (n - 1) as nat, t);
    }
}

proof fn lemma_first_lost_exists(tab: TableView, held: Seq<usize>, t: usize) -> (first: usize)
    requires
        tab.lost(held, t),
    ensures
        tab.first_lost(held, first),
    decreases t,
{
    if tab.first_lost(held, t) {
        t
    } else {
        let u = choose|u: usize| u < t && tab.lost(held, u);
        lemma_first_lost_exists(tab, held, u)
    }
}

proof fn lemma_swept_lost(tab: TableView, st: StoreView, held: Seq<usize>, n: nat, t: usize)
    requires
        unspent(tab.tasks, tab.tasks.len()) <= n,
    ensures
        !swept(tab, st, held, n).0.lost(held, t),
    decreases n,
{
    if exists|u: usize| tab.first_lost(held, u) {
        let u = choose|u: usize| tab.first_lost(held, u);
        let p = tab.tasks[u as int];
        lemma_unspent(tab.tasks, tab.tasks.len(), u as int);
        lemma_swept_lost(tab.set_task(u, remains(p)), after_exit(p, st), held, (n - 1) as nat, t);
    } else if tab.lost(held, t) {
        let first = lemma_first_lost_exists(tab, held, t);
        assert(tab.first_lost(held, first));
    }
}

/// When all is done, nobody is left who holds something and whom nobody refers to: whoever was
/// let go has its files closed.
pub proof fn law_the_lost_are_dropped(tab: TableView, st: StoreView, held: Seq<usize>, t: usize)
    ensures
        !swept(tab, st, held, tab.tasks.len()).0.lost(held, t),
{
    let n = tab.tasks.len();
    if exists|i: int| 0 <= i < n && !spent(#[trigger] tab.tasks[i]) {
        let i = choose|i: int| 0 <= i < n && !spent(#[trigger] tab.tasks[i]);
        lemma_unspent(tab.tasks, n, i);
        lemma_swept_lost(tab, st, held, n, t);
    } else {
        assert forall|u: usize| !tab.lost(held, u) by {}
        law_nobody_lost(tab, st, held, n);
    }
}

impl TableView {
    /// Every registered number lies below the next one.
    pub open spec fn numbered(self) -> bool {
        forall|id: usize| #[trigger] self.map.dom().contains(id) ==> id < self.seq
    }
}

/// A new table has its numbers in order.
pub proof fn law_numbers_start_in_order()
    ensures
        TableView::new().numbered(),
{
}

/// While its numbers are in order, the number that a new process gets was not in use, and the
/// numbers stay in order, whichever way the process is made.
pub proof fn law_new_numbers_are_unused(
    tab: TableView,
    st: StoreView,
    tag: Seq<char>,
    size: int,
    src: usize,
    stack_top: u64,
    tls: u64,
    clear_tid: usize,
)
    requires
        tab.numbered(),
        tab.seq < usize::MAX,
    ensures
        !tab.map.dom().contains(tab.seq),
        tab.spawned(tag).numbered(),
        rooted(tab).numbered(),
        tab.forked(src).numbered(),
        tab.threaded(src, stack_top, tls, clear_tid).numbered(),
        user_spawned(tab, st, tag, size).numbered(),
        tab.next_seq().numbered(),
{
}

/// The end of a process, reaping, signals, dropping and telling keep the numbers in order.
pub proof fn law_numbers_stay_in_order<F: Fn(usize, u32) -> bool>(
    run: F,
    held: Seq<usize>,
    tab: TableView,
    st: StoreView,
    tab2: TableView,
    st2: StoreView,
    t: usize,
    code: usize,
    ts: Seq<usize>,
    signo: i32,
    sender: isize,
)
    requires
        tab.numbered(),
    ensures
        tab.exited(t, code).numbered(),
        tab.reaped(t).numbered(),
        (TableView { tasks: all_signalled(tab.tasks, ts, signo, sender), ..tab }).numbered(),
        tasks_delivered(run, tab, tab2) ==> tab2.numbered(),
        concluded(run, held, tab, st, tab2, st2) ==> tab2.numbered(),
{
    if concluded(run, held, tab, st, tab2, st2) {
        lemma_concluded_len(run, held, tab, st, tab2, st2);
    }
}

/// Where nobody waits for events of processes, there is nobody to tell.
pub proof fn law_quiet_processes<F: Fn(usize, u32) -> bool>(run: F, before: TableView, after: TableView)
    requires
        tasks_delivered(run, before, after),
        forall|i: int| 0 <= i < before.tasks.len() ==> (#[trigger] before.tasks[i]).event.quiet(),
    ensures
        after == before,
{
    assert forall|i: int| 0 <= i < before.tasks.len() implies after.tasks[i] == before.tasks[i] by {
        let t = after.tasks[i];
        assert(before.tasks[i].event.quiet());
        law_quiet_bus(run, before.tasks[i].event, t.event);
    }
    assert(after.tasks =~= before.tasks);
}

/// The end of a process changes no links.
pub proof fn lemma_exited_linked(tab: TableView, t: usize, code: usize)
    requires
        tab.linked(),
        t < tab.tasks.len(),
    ensures
        tab.exited(t, code).linked(),
        tab.exited(t, code).tasks.len() == tab.tasks.len(),
{
    let after = tab.exited(t, code);
    assert(tab.knows(tab.tasks[t as int]));
    assert forall|i: int| 0 <= i < after.tasks.len() implies after.knows(#[trigger] after.tasks[i]) by {
        assert(tab.knows(tab.tasks[i]));
    }
}

/// The end of a process keeps the table sound.
pub proof fn law_exit_keeps_table(tab: TableView, st: StoreView, t: usize, code: usize)
    requires
        tab.wf(st),
        t < tab.tasks.len(),
    ensures
        tab.exited(t, code).wf(after_exit(tab.tasks[t as int], st)),
        st.grows_to(after_exit(tab.tasks[t as int], st)),
{
    let after = tab.exited(t, code);
    let files = tab.tasks[t as int].files;
    let keys = ascending(files.dom());
    lemma_exited_linked(tab, t, code);
    assert(tab.tasks[t as int].wf(st));
    lemma_ascending_exists(files.dom());
    assert forall|i: int| 0 <= i < keys.len() implies files.dom().contains(#[trigger] keys[i]) by {
        assert(keys.to_set().contains(keys[i]));
    }
    lemma_drop_all(keys, files, st);
    let later = after_exit(tab.tasks[t as int], st);
    assert forall|i: int| 0 <= i < after.tasks.len() implies (#[trigger] after.tasks[i]).wf(later) by {
        assert(tab.tasks[i].wf(st));
        lemma_task_wf_grows(tab.tasks[i], st, later);
    }
}

/// A new process keeps the table sound.
pub proof fn law_spawn_keeps_table(tab: TableView, st: StoreView, tag: Seq<char>)
    requires
        tab.wf(st),
        tab.tasks.len() < usize::MAX,
    ensures
        tab.spawned(tag).wf(st),
{
    let after = tab.spawned(tag);
    lemma_tasks_pushed(tab, after, st);
}

proof fn lemma_tasks_pushed(tab: TableView, after: TableView, st: StoreView)
    requires
        tab.wf(st),
        tab.tasks.len() < usize::MAX,
        after.tasks.len() == tab.tasks.len() + 1,
        forall|i: int| 0 <= i < tab.tasks.len() ==> #[trigger] after.tasks[i] == tab.tasks[i],
        after.tasks.last().wf(st),
        after.knows(after.tasks.last()),
        after.root == tab.root,
        after.map == tab.map.insert(tab.seq, tab.tasks.len() as usize),
    ensures
        after.wf(st),
{
    assert forall|i: int| 0 <= i < after.tasks.len() implies after.knows(#[trigger] after.tasks[i])
        && after.tasks[i].wf(st) by {
        if i < tab.tasks.len() {
            assert(tab.knows(tab.tasks[i]));
            assert(tab.tasks[i].wf(st));
        }
    }
}

/// A fork keeps the table sound.
pub proof fn law_fork_keeps_table(tab: TableView, st: StoreView, src: usize)
    requires
        tab.wf(st),
        src < tab.tasks.len(),
        tab.tasks.len() < usize::MAX,
    ensures
        tab.forked(src).wf(st),
{
    let after = tab.forked(src);
    let child = tab.child_of(src);
    let p = tab.tasks[src as int];
    assert(p.wf(st));
    assert(tab.knows(p));
    assert(child.files.dom() =~= p.files.dom());
    assert forall|fd: usize| #[trigger] child.files.dom().contains(fd) implies child.files[fd].wf(st) by {
        assert(p.files.dom().contains(fd));
    }
    assert forall|i: int| 0 <= i < after.tasks.len() implies after.knows(#[trigger] after.tasks[i])
        && after.tasks[i].wf(st) by {
        if i < tab.tasks.len() {
            assert(tab.knows(tab.tasks[i]));
            assert(tab.tasks[i].wf(st));
        }
    }
}

/// A new thread keeps the table sound.
pub proof fn law_thread_keeps_table(tab: TableView, st: StoreView, src: usize, stack_top: u64, tls: u64, clear_tid: usize)
    requires
        tab.wf(st),
        src < tab.tasks.len(),
        tab.tasks.len() < usize::MAX,
    ensures
        tab.threaded(src, stack_top, tls, clear_tid).wf(st),
{
    let after = tab.threaded(src, stack_top, tls, clear_tid);
    assert forall|i: int| 0 <= i < after.tasks.len() implies after.knows(#[trigger] after.tasks[i])
        && after.tasks[i].wf(st) by {
        if i < tab.tasks.len() {
            assert(tab.knows(tab.tasks[i]));
            assert(tab.tasks[i].wf(st));
        }
    }
}

/// Adoption changes links only, and those to processes of the table.
proof fn lemma_adopted(tab: TableView, st: StoreView, tasks: Seq<TaskView>, root: usize, ch: Seq<usize>)
    requires
        tasks.len() == tab.tasks.len(),
        root < tasks.len(),
        forall|i: int| 0 <= i < ch.len() ==> (#[trigger] ch[i]) < tasks.len(),
        forall|i: int| 0 <= i < tasks.len() ==> tab.knows(#[trigger] tasks[i]) && tasks[i].wf(st),
    ensures
        adopted(tasks, root, ch).len() == tasks.len(),
        forall|i: int|
            0 <= i < tasks.len() ==> tab.knows(#[trigger] adopted(tasks, root, ch)[i]) && adopted(tasks, root, ch)[i].wf(
                st,
            ),
    decreases ch.len(),
{
    if ch.len() > 0 {
        lemma_adopted(tab, st, tasks, root, ch.drop_last());
        let front = adopted(tasks, root, ch.drop_last());
        let c = ch[ch.len() - 1];
        let linked = front.update(c as int, TaskView { parent: Some(root), ..front[c as int] });
        assert(tab.knows(front[c as int]) && front[c as int].wf(st));
        assert(tab.knows(linked[root as int]) && linked[root as int].wf(st)) by {
            assert(tab.knows(front[root as int]) && front[root as int].wf(st));
        }
        let all = adopted(tasks, root, ch);
        assert forall|i: int| 0 <= i < tasks.len() implies tab.knows(#[trigger] all[i]) && all[i].wf(st) by {
            assert(tab.knows(front[i]) && front[i].wf(st));
        }
    }
}

/// Adoption keeps the table sound.
pub proof fn law_adoption_keeps_table(tab: TableView, st: StoreView, root: usize, ch: Seq<usize>)
    requires
        tab.wf(st),
        root < tab.tasks.len(),
        forall|i: int| 0 <= i < ch.len() ==> (#[trigger] ch[i]) < tab.tasks.len(),
    ensures
        (TableView { tasks: adopted(tab.tasks, root, ch), ..tab }).wf(st),
        adopted(tab.tasks, root, ch).len() == tab.tasks.len(),
{
    assert forall|i: int| 0 <= i < tab.tasks.len() implies tab.knows(#[trigger] tab.tasks[i]) && tab.tasks[i].wf(
        st,
    ) by {}
    lemma_adopted(tab, st, tab.tasks, root, ch);
    let after = TableView { tasks: adopted(tab.tasks, root, ch), ..tab };
    assert forall|i: int| 0 <= i < after.tasks.len() implies after.knows(#[trigger] after.tasks[i])
        && after.tasks[i].wf(st) by {
        assert(tab.knows(adopted(tab.tasks, root, ch)[i]));
    }
}

/// Reaping keeps the table sound.
pub proof fn law_reap_keeps_table(tab: TableView, st: StoreView, id: usize)
    requires
        tab.wf(st),
    ensures
        tab.reaped(id).wf(st),
        tab.reaped(id).tasks.len() == tab.tasks.len(),
{
    if tab.map.dom().contains(id) {
        let t = tab.map[id] as int;
        let p = tab.tasks[t];
        let cleared = tab.tasks.update(t, TaskView { status: Some(0), subtasks: Seq::empty(), ..p });
        assert(tab.knows(p) && p.wf(st));
        assert forall|i: int| 0 <= i < cleared.len() implies tab.knows(#[trigger] cleared[i]) && cleared[i].wf(st) by {
            assert(tab.knows(tab.tasks[i]) && tab.tasks[i].wf(st));
        }
        if let Some(r) = tab.root {
            lemma_adopted(tab, st, cleared, r, p.subtasks);
        }
        let after = tab.reaped(id);
        assert forall|i: int| 0 <= i < after.tasks.len() implies after.knows(#[trigger] after.tasks[i])
            && after.tasks[i].wf(st) by {
            assert(tab.knows(after.tasks[i]) && after.tasks[i].wf(st));
        }
    }
}

/// Signals keep the table sound.
pub proof fn law_signals_keep_table(tab: TableView, st: StoreView, ts: Seq<usize>, signo: i32, sender: isize)
    requires
        tab.wf(st),
        forall|k: int| 0 <= k < ts.len() ==> (#[trigger] ts[k]) < tab.tasks.len(),
    ensures
        (TableView { tasks: all_signalled(tab.tasks, ts, signo, sender), ..tab }).wf(st),
        all_signalled(tab.tasks, ts, signo, sender).len() == tab.tasks.len(),
    decreases ts.len(),
{
    if ts.len() > 0 {
        law_signals_keep_table(tab, st, ts.drop_last(), signo, sender);
        let front = TableView { tasks: all_signalled(tab.tasks, ts.drop_last(), signo, sender), ..tab };
        let after = TableView { tasks: all_signalled(tab.tasks, ts, signo, sender), ..tab };
        let t = ts[ts.len() - 1];
        assert forall|i: int| 0 <= i < after.tasks.len() implies after.knows(#[trigger] after.tasks[i])
            && after.tasks[i].wf(st) by {
            assert(front.knows(front.tasks[i]) && front.tasks[i].wf(st));
        }
    } else {
        assert(all_signalled(tab.tasks, ts, signo, sender) =~= tab.tasks);
    }
}

/// A user process keeps the table sound.
pub proof fn law_user_task_keeps_table(tab: TableView, st: StoreView, path: Seq<char>, sp: u64)
    requires
        tab.wf(st),
        tab.tasks.len() < usize::MAX,
        st.blobs.len() + 2 <= usize::MAX,
        st.states.len() + 2 <= usize::MAX,
    ensures
        (TableView { tasks: tab.tasks.push(user_task(tab.seq, path, sp, st)), ..tab.spawned(path) }).wf(with_tty(st)),
{
    let later = with_tty(st);
    let u = user_task(tab.seq, path, sp, st);
    let after = TableView { tasks: tab.tasks.push(u), ..tab.spawned(path) };
    lemma_table_wf_grows(tab, st, later);
    assert forall|fd: usize| #[trigger] u.files.dom().contains(fd) implies u.files[fd].wf(later) by {
        assert(fd == 0 || fd == 1 || fd == 2);
    }
    lemma_tasks_pushed(tab, after, later);
}

/// A new process is found under the number that was next, and everybody else where they were.
pub proof fn law_spawned_is_found(tab: TableView, tag: Seq<char>, other: usize)
    requires
        tab.tasks.len() < usize::MAX,
        other != tab.seq,
    ensures
        ({
            let after = tab.spawned(tag);
            &&& after.map.dom().contains(tab.seq)
            &&& after.tasks[after.map[tab.seq] as int] == TaskView::make(tab.seq, tag)
            &&& after.seq != tab.seq
            &&& after.map.dom().contains(other) == tab.map.dom().contains(other)
            &&& tab.map.dom().contains(other) ==> after.map[other] == tab.map[other]
        }),
{
}

/// Whoever is reaped is not found any more, and everybody else still is.
pub proof fn law_reap_removes_one(tab: TableView, id: usize, other: usize)
    requires
        other != id,
    ensures
        !tab.reaped(id).map.dom().contains(id),
        tab.reaped(id).map.dom().contains(other) == tab.map.dom().contains(other),
        tab.map.dom().contains(other) ==> tab.reaped(id).map[other] == tab.map[other],
{
}

/// A fork shares the files of its parent: every open number of the one is one of the other, and
/// a file reads alike through both.
pub proof fn law_fork_shares_files(tab: TableView, st: StoreView, src: usize, fd: usize, buf: Seq<u8>)
    requires
        src < tab.tasks.len(),
        tab.tasks.len() < usize::MAX,
    ensures
        ({
            let p = tab.forked(src).tasks[src as int];
            let c = tab.forked(src).tasks[tab.tasks.len() as int];
            &&& c.parent == Some(src)
            &&& p.files.dom().contains(fd) == c.files.dom().contains(fd)
            &&& p.files.dom().contains(fd) ==> p.files[fd].read_of(st, buf) == c.files[fd].read_of(st, buf)
            &&& tab.forked(src).map[tab.seq] == tab.tasks.len()
        }),
{
}

/// `after` is `before` once those who wait for events of processes have heard of all that were
/// noted.
pub open spec fn tasks_delivered<F: Fn(usize, u32) -> bool>(run: F, before: TableView, after: TableView) -> bool {
    &&& after == (TableView { tasks: after.tasks, ..before })
    &&& after.tasks.len() == before.tasks.len()
    &&& forall|i: int|
        0 <= i < before.tasks.len() ==> {
            let t = #[trigger] after.tasks[i];
            t == (TaskView { event: t.event, ..before.tasks[i] }) && delivered(run, before.tasks[i].event, t.event)
        }
}

impl TaskTable {
    /// Tells those who wait for events of processes of what happened to them.
    pub(crate) fn deliver<F: Fn(usize, u32) -> bool>(&mut self, run: &F)
        requires
            forall|c: usize, e: u32| call_requires(*run, (c, e)),
        ensures
            tasks_delivered(*run, old(self)@, final(self)@),
    {
        let mut i: usize = 0;
        while i < self.tasks.len()
            invariant
                forall|c: usize, e: u32| call_requires(*run, (c, e)),
                i <= self.tasks@.len() == old(self).tasks@.len(),
                self.map == old(self).map,
                self.seq == old(self).seq,
                self.root == old(self).root,
                forall|k: int|
                    0 <= k < i ==> {
                        let t = (#[trigger] self.tasks@[k])@;
                        let u = old(self).tasks@[k]@;
                        t == (TaskView { event: t.event, ..u }) && delivered(*run, u.event, t.event)
                    },
                forall|k: int| i <= k < self.tasks@.len() ==> self.tasks@[k] == old(self).tasks@[k],
            decreases self.tasks@.len() - i,
        {
            self.tasks[i].event.deliver(run);
            i += 1;
        }
        assert forall|k: int| 0 <= k < self@.tasks.len() implies {
            let t = #[trigger] self@.tasks[k];
            t == (TaskView { event: t.event, ..old(self)@.tasks[k] }) && delivered(
                *run,
                old(self)@.tasks[k].event,
                t.event,
            )
        } by {
            assert(self@.tasks[k] == self.tasks@[k]@);
        }
    }
}

/// Delivering events keeps the table sound.
pub proof fn law_delivery_keeps_table<F: Fn(usize, u32) -> bool>(
    run: F,
    before: TableView,
    after: TableView,
    st: StoreView,
    later: StoreView,
)
    requires
        before.wf(st),
        st.grows_to(later),
        tasks_delivered(run, before, after),
    ensures
        after.wf(later),
{
    assert forall|i: int| 0 <= i < after.tasks.len() implies after.knows(#[trigger] after.tasks[i])
        && after.tasks[i].wf(later) by {
        assert(before.knows(before.tasks[i]) && before.tasks[i].wf(st));
        lemma_task_wf_grows(before.tasks[i], st, later);
    }
}

fn bytes_as_chars(s: &String) -> (r: String)
    ensures
        r@ == bytewise(s@),
{
    let b = s.as_str().as_bytes();
    let mut out: String = String::new();
    let mut i: usize = 0;
    assert(out@ =~= b@.take(0).map_values(|b: u8| b as char));
    while i < b.len()
        invariant
            i <= b@.len(),
            out@.len() == i,
            forall|k: int| 0 <= k < i ==> out@[k] == b@[k] as char,
        decreases b@.len() - i,
    {
        out.push(b[i] as char);
        i += 1;
    }
    assert(out@ =~= bytewise(s@));
    out
}

/// What a filter finds in the first part of a row comes first.
proof fn lemma_filter_starts(s: Seq<usize>, k: int, keep: spec_fn(usize) -> bool)
    requires
        0 < k <= s.len(),
        keep(s[k - 1]),
        s.take(k - 1).filter(keep) == Seq::<usize>::empty(),
    ensures
        s.filter(keep).len() > 0,
        s.filter(keep)[0] == s[k - 1],
    decreases s.len() - k,
{
    if k == s.len() {
        assert(s =~= s.take(k - 1).push(s[k - 1]));
        lemma_filter_push(s.take(k - 1), s[k - 1], keep);
    } else {
        let t = s.drop_last();
        assert(t.take(k - 1) =~= s.take(k - 1));
        lemma_filter_starts(t, k, keep);
        assert(s =~= t.push(s.last()));
        lemma_filter_push(t, s.last(), keep);
    }
}

} // verus!
