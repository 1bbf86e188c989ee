//! Services of the kernel that are not system calls.

use crate::cpu::context::ContextView;
use crate::fs::cache::{count_if, count_slots, is_dirty};
use crate::fs::filelike::{FileLike, FileView};
use crate::fs::mount::{resolved, MNT_DEPTH};
use crate::fs::pipe::{PipeDir, PipeNode};
use crate::fs::store::{PipeView, StoreView};
use crate::kernel::state::{kernel_concluded, lemma_set_task_wf, Kernel, KernelView};
use crate::limits::{USR_STK_OFF, USR_STK_SZ};
use crate::memory::{defragment_frame_pool, law_take_the_lowest, taken, PoolView, PAGE_SZ};
use crate::ordered::{ascending, sorted_keys, strictly_ascending};
use crate::proc::fdtable::{files_view, free_fd};
use crate::proc::init::{floor16, stack_size, ProcInit};
use crate::proc::table::{
    is_zombie, law_fork_keeps_table, law_reap_keeps_table, lemma_task_wf_grows, Outside, TableView, USR_STK_TOP,
};
use crate::proc::task::{Pgid, TaskView, ThdCtx, ThdView};
use crate::schedule::{best_cpu, compute_load_balance, scores_fit, MAX_CPU};
use crate::sync::event::EventBusView;
use crate::word::{low32, to_i32};
use std::collections::BTreeMap;
use vstd::prelude::*;

verus! {

broadcast use {vstd::std_specs::btree::group_btree_axioms, vstd::laws_cmp::group_laws_cmp};

/// Where a program starts.
pub const ENTRY_POINT: u64 = 0x0040_0000;

/// How many tasks each processor has: the children of what runs there, and itself.
pub open spec fn load_counts(k: KernelView) -> Seq<usize> {
    Seq::new(
        MAX_CPU as nat,
        |i: int|
            match k.cpus[i] {
                Some(t) => (k.task(t).subtasks.len() + 1) as usize,
                None => 0,
            },
    )
}

pub open spec fn load_prios(k: KernelView) -> Seq<i32> {
    Seq::new(
        MAX_CPU as nat,
        |i: int|
            match k.cpus[i] {
                Some(t) => k.task(t).pgid,
                None => 0,
            },
    )
}

pub open spec fn load_blocked(k: KernelView) -> Seq<bool> {
    Seq::new(
        MAX_CPU as nat,
        |i: int|
            match k.cpus[i] {
                Some(t) => k.task(t).status is Some,
                None => false,
            },
    )
}

/// How many tasks the first `n` processors have.
pub open spec fn load_total(counts: Seq<usize>, n: nat) -> int
    decreases n,
{
    if n == 0 {
        0
    } else {
        load_total(counts, (n - 1) as nat) + counts[n - 1]
    }
}

/// The processes with the given numbers were reaped, one after another.
pub open spec fn reap_all(tab: TableView, ids: Seq<usize>) -> TableView
    decreases ids.len(),
{
    if ids.len() == 0 {
        tab
    } else {
        reap_all(tab, ids.drop_last()).reaped(ids.last())
    }
}

/// The frames at the given addresses were freed. Addresses past the last frame do nothing.
pub open spec fn freed(slots: Seq<bool>, mem_off: usize, pages: Seq<usize>) -> Seq<bool>
    decreases pages.len(),
{
    if pages.len() == 0 {
        slots
    } else {
        let s = freed(slots, mem_off, pages.drop_last());
        let i = (pages.last() - mem_off) / 4096;
        if i < s.len() {
            s.update(i, true)
        } else {
            s
        }
    }
}

/// The entry is a file to be closed on exec.
pub open spec fn closes_on_exec(f: FileView) -> bool {
    f matches FileView::File(h) && h.cloexec
}

/// The entries that stay open on exec.
pub open spec fn kept_on_exec(files: Map<usize, FileView>) -> Map<usize, FileView> {
    files.restrict(Set::new(|fd: usize| files.dom().contains(fd) && !closes_on_exec(files[fd])))
}

/// A process that has just been given the program at `path`, with its stack pointer at `sp`.
pub open spec fn execed(t: TaskView, path: Seq<char>, sp: u64) -> TaskView {
    TaskView {
        exec_path: path,
        files: kept_on_exec(t.files),
        thd_ctx: Some(
            ThdView {
                uctx: ContextView { ip: ENTRY_POINT, ..ThdView::initial().uctx.with_reg(15, sp) },
                ..ThdView::initial()
            },
        ),
        ..t
    }
}

/// The child is one of those that `target` asks for: any, those of the parent's group, the one
/// with that number, or those of the group with the negated number.
pub open spec fn asked_for(parent: TaskView, child: TaskView, target: isize) -> bool {
    if target == -1 {
        true
    } else if target == 0 {
        child.pgid == parent.pgid
    } else if target > 0 {
        child.id == target
    } else {
        child.pgid == low32((-target) as usize)
    }
}

/// The first of `ch` that is asked for and has ended.
pub open spec fn first_ended(tab: TableView, parent: TaskView, ch: Seq<usize>, target: isize) -> Option<usize>
    decreases ch.len(),
{
    if ch.len() == 0 {
        None
    } else {
        let c = tab.tasks[ch[0] as int];
        if asked_for(parent, c, target) && c.status is Some {
            Some(ch[0])
        } else {
            first_ended(tab, parent, ch.skip(1), target)
        }
    }
}

/// The process with a pipe between two new entries.
pub open spec fn with_pipe(t: TaskView, data: usize) -> TaskView {
    t.with_file(FileView::Pipe(PipeNode { data, dir: PipeDir::Read })).with_file(
        FileView::Pipe(PipeNode { data, dir: PipeDir::Write }),
    )
}

/// The store with a new pipe.
pub open spec fn store_with_pipe(st: StoreView) -> StoreView {
    StoreView { pipes: st.pipes.push(PipeView { buf: Seq::empty(), bus: EventBusView::new(), ends: 2 }), ..st }
}

impl KernelView {
    /// A group has a number that can be negated.
    pub open spec fn wait_ok(self, parent_id: usize, target: isize) -> bool {
        self.tasks.map.dom().contains(parent_id) && self.task(self.tasks.map[parent_id]).subtasks.len() > 0 ==> target
            > isize::MIN
    }

    /// Waiting for a child: the kernel after it, and the child's number and exit code.
    pub open spec fn wait_of(self, parent_id: usize, target: isize, options: usize) -> (
        KernelView,
        Result<(usize, usize), &'static str>,
    ) {
        if !self.tasks.map.dom().contains(parent_id) {
            (self, Err("esrch"))
        } else {
            let p = self.task(self.tasks.map[parent_id]);
            if p.subtasks.len() == 0 {
                (self, Err("echild"))
            } else {
                match first_ended(self.tasks, p, p.subtasks, target) {
                    Some(c) => (
                        KernelView { tasks: self.tasks.reaped(self.task(c).id), ..self },
                        Ok((self.task(c).id, self.task(c).exit_code)),
                    ),
                    None => if options & 1 != 0 {
                        (self, Ok((0, 0)))
                    } else {
                        (self, Err("echild"))
                    },
                }
            }
        }
    }
}

impl Kernel {
    /// The processor to give the next task to.
    pub fn balance_load(&self) -> (r: usize)
        requires
            self@.wf(),
            scores_fit(load_counts(self@), load_prios(self@), load_blocked(self@)),
            load_total(load_counts(self@), MAX_CPU as nat) <= i64::MAX,
            forall|i: int|
                0 <= i < MAX_CPU ==> ((#[trigger] self@.cpus[i]) matches Some(t) ==> self@.task(t).subtasks.len()
                    < usize::MAX),
        ensures
            r == best_cpu(load_counts(self@), load_prios(self@), load_blocked(self@), MAX_CPU as nat),
    {
        let mut counts: Vec<usize> = Vec::new();
        let mut prios: Vec<i32> = Vec::new();
        let mut blocked: Vec<bool> = Vec::new();
        let mut i: usize = 0;
        while i < MAX_CPU
            invariant
                i <= MAX_CPU,
                self@.wf(),
                forall|i: int|
                    0 <= i < MAX_CPU ==> ((#[trigger] self@.cpus[i]) matches Some(t) ==> self@.task(t).subtasks.len()
                        < usize::MAX),
                counts@ == load_counts(self@).take(i as int),
                prios@ == load_prios(self@).take(i as int),
                blocked@ == load_blocked(self@).take(i as int),
            decreases MAX_CPU - i,
        {
            assert(self@.cpus[i as int] == self.cpus[i as int]);
            match self.cpus[i] {
                Some(t) => {
                    let task = &self.tasks.tasks[t];
                    assert(self@.task(t) == task@);
                    counts.push(task.n_children() + 1);
                    prios.push(task.pgid);
                    blocked.push(task.done());
                },
                None => {
                    counts.push(0);
                    prios.push(0);
                    blocked.push(false);
                },
            }
            i += 1;
            assert(counts@ =~= load_counts(self@).take(i as int));
            assert(prios@ =~= load_prios(self@).take(i as int));
            assert(blocked@ =~= load_blocked(self@).take(i as int));
        }
        assert(counts@ =~= load_counts(self@));
        assert(prios@ =~= load_prios(self@));
        assert(blocked@ =~= load_blocked(self@));
        compute_load_balance(counts.as_slice(), prios.as_slice(), blocked.as_slice())
    }

    /// Reaps every process that has ended, and returns how many they were.
    pub fn reclaim_zombies<F: Fn(usize, u32) -> bool>(&mut self, out: &Outside<F>) -> (r: usize)
        requires
            old(self)@.wf(),
            forall|c: usize, e: u32| call_requires(out.run, (c, e)),
        ensures
            ({
                let zombies = ascending(old(self)@.tasks.map.dom()).filter(is_zombie(old(self)@.tasks));
                &&& r == zombies.len()
                &&& kernel_concluded(
                    out.run,
                    out.held@,
                    KernelView { tasks: reap_all(old(self)@.tasks, zombies), ..old(self)@ },
                    final(self)@,
                )
            }),
            final(self)@.wf(),
    {
        let zombies = self.tasks.zombie_tasks();
        let mut i: usize = 0;
        assert(zombies@.take(0) =~= Seq::empty());
        while i < zombies.len()
            invariant
                i <= zombies@.len(),
                self@.wf(),
                self@.tasks.tasks.len() == old(self)@.tasks.tasks.len(),
                self@ == (KernelView { tasks: reap_all(old(self)@.tasks, zombies@.take(i as int)), ..old(self)@ }),
            decreases zombies@.len() - i,
        {
            proof {
                law_reap_keeps_table(self@.tasks, self@.store, zombies@[i as int]);
                assert(zombies@.take(i + 1).drop_last() =~= zombies@.take(i as int));
            }
            self.tasks.reap_step(zombies[i]);
            i += 1;
        }
        assert(zombies@.take(i as int) =~= zombies@);
        self.conclude(out);
        zombies.len()
    }

    /// What a path leads to.
    pub fn lookup_path(&self, path: &str) -> (r: Result<String, &'static str>)
        ensures
            path@.len() == 0 ==> r == Err::<String, _>("enoent"),
            path@.len() > 0 ==> match resolved(self@.mnt, path@, MNT_DEPTH as nat) {
                Some(s) => r is Ok && r->Ok_0@ == s,
                None => r == Err::<String, _>("mount depth exceeded"),
            },
    {
        if path.is_empty() {
            return Err("enoent");
        }
        self.mnt.resolve(path)
    }

    /// Takes up to `count` frames, the lowest free ones, and returns their addresses in ascending
    /// order.
    pub fn alloc_pages(&mut self, count: usize) -> (r: Vec<usize>)
        requires
            forall|j: int|
                0 <= j < taken(old(self)@.pool.slots, count as nat).1.len() ==> (#[trigger] taken(
                    old(self)@.pool.slots,
                    count as nat,
                ).1[j]) * 4096 + old(self)@.platform.mem_off <= usize::MAX,
        ensures
            final(self)@ == (KernelView { pool: old(self)@.pool.after_take(count as nat), ..old(self)@ }),
            ({
                let ids = taken(old(self)@.pool.slots, count as nat).1;
                r@ == Seq::new(ids.len(), |j: int| (ids[j] * 4096 + old(self)@.platform.mem_off) as usize)
            }),
            r@.len() == (if count < old(self)@.pool.free() { count as nat } else { old(self)@.pool.free() }),
            strictly_ascending(r@),
    {
        let total: usize = self.pool.slots.len();
        let free_before: usize = self.pool.free_count();
        if free_before < count {
            defragment_frame_pool(&mut self.pool.slots);
        }
        let ids = self.pool.take(count);
        let mut pages: Vec<usize> = Vec::new();
        let mut j: usize = 0;
        while j < ids.len()
            invariant
                j <= ids@.len(),
                ids@ == taken(old(self)@.pool.slots, count as nat).1,
                self.platform == old(self).platform,
                forall|j: int|
                    0 <= j < taken(old(self)@.pool.slots, count as nat).1.len() ==> (#[trigger] taken(
                        old(self)@.pool.slots,
                        count as nat,
                    ).1[j]) * 4096 + old(self)@.platform.mem_off <= usize::MAX,
                pages@.len() == j,
                forall|i: int|
                    0 <= i < j ==> pages@[i] == (ids@[i] * 4096 + old(self)@.platform.mem_off) as usize,
            decreases ids@.len() - j,
        {
            assert(taken(old(self)@.pool.slots, count as nat).1[j as int] == ids@[j as int]);
            pages.push(ids[j] * PAGE_SZ + self.platform.mem_off);
            j += 1;
        }
        assert(pages@ =~= Seq::new(
            ids@.len(),
            |j: int| (ids@[j] * 4096 + old(self)@.platform.mem_off) as usize,
        ));
        proof {
            law_take_the_lowest(old(self)@.pool.slots, count as nat);
            assert forall|a: int, b: int| 0 <= a < b < pages@.len() implies pages@[a] < pages@[b] by {
                assert(ids@[a] < ids@[b]);
                assert(taken(old(self)@.pool.slots, count as nat).1[a] * 4096 + old(self)@.platform.mem_off
                    <= usize::MAX);
                assert(taken(old(self)@.pool.slots, count as nat).1[b] * 4096 + old(self)@.platform.mem_off
                    <= usize::MAX);
            }
        }
        pages
    }

    /// Frees the frames at the given addresses.
    pub fn free_pages(&mut self, pages: &[usize])
        requires
            forall|j: int| 0 <= j < pages@.len() ==> (#[trigger] pages@[j]) >= old(self)@.platform.mem_off,
        ensures
            final(self)@ == (KernelView {
                pool: PoolView {
                    slots: freed(old(self)@.pool.slots, old(self)@.platform.mem_off, pages@),
                    ..old(self)@.pool
                },
                ..old(self)@
            }),
    {
        let mut j: usize = 0;
        assert(pages@.take(0) =~= Seq::empty());
        while j < pages.len()
            invariant
                j <= pages@.len(),
                forall|j: int| 0 <= j < pages@.len() ==> (#[trigger] pages@[j]) >= old(self)@.platform.mem_off,
                self@ == (KernelView {
                    pool: PoolView {
                        slots: freed(old(self)@.pool.slots, old(self)@.platform.mem_off, pages@.take(j as int)),
                        ..old(self)@.pool
                    },
                    ..old(self)@
                }),
            decreases pages@.len() - j,
        {
            assert(pages@.take(j + 1).drop_last() =~= pages@.take(j as int));
            let idx: usize = (pages[j] - self.platform.mem_off) / PAGE_SZ;
            if idx < self.pool.slots.len() {
                self.pool.slots[idx] = true;
            }
            j += 1;
        }
        assert(pages@.take(j as int) =~= pages@);
    }

    /// How many of the frames are in use, in percent.
    pub fn memory_pressure(&self) -> (r: usize)
        requires
            self@.pool.cap > 0 ==> self@.pool.free() <= self@.pool.cap && (self@.pool.cap - self@.pool.free()) * 100
                <= usize::MAX,
        ensures
            r == (if self@.pool.cap == 0 {
                100
            } else {
                (self@.pool.cap - self@.pool.free()) * 100 / self@.pool.cap as int
            }),
    {
        let total: usize = self.pool.cap;
        let free: usize = self.pool.free_count();
        if total == 0 {
            return 100;
        }
        let used: usize = total - free;
        (used * 100) / total
    }

    /// How many blocks are cached, and how many of them are changed.
    pub fn cache_stats(&self) -> (r: (usize, usize))
        requires
            count_slots(self@.cache.chains) <= usize::MAX,
            count_if(self@.cache.chains, is_dirty()) <= usize::MAX,
        ensures
            r == (count_slots(self@.cache.chains) as usize, count_if(self@.cache.chains, is_dirty()) as usize),
    {
        (self.cache.total_entries(), self.cache.dirty_count())
    }

    /// Forks the process with that number, and returns the number of the child.
    pub fn do_fork<F: Fn(usize, u32) -> bool>(&mut self, out: &Outside<F>, parent_id: usize) -> (r: Result<
        usize,
        &'static str,
    >)
        requires
            old(self)@.wf(),
            forall|c: usize, e: u32| call_requires(out.run, (c, e)),
        ensures
            final(self)@.wf(),
            !old(self)@.tasks.map.dom().contains(parent_id) ==> r == Err::<usize, _>("esrch") && final(self)@ == old(
                self,
            )@,
            old(self)@.tasks.map.dom().contains(parent_id) ==> {
                let p = old(self)@.tasks.map[parent_id];
                let forked = old(self)@.tasks.forked(p);
                let c = old(self)@.tasks.tasks.len() as usize;
                &&& r == Ok::<usize, &'static str>(old(self)@.tasks.seq)
                &&& kernel_concluded(
                    out.run,
                    out.held@,
                    (KernelView { tasks: forked, ..old(self)@ }).set_task(
                        c,
                        TaskView { vm_token: old(self)@.task(p).vm_token, ..old(self)@.tasks.child_of(p) },
                    ),
                    final(self)@,
                )
            },
    {
        let ghost k = self@;
        match self.tasks.find(parent_id) {
            Some(p) => {
                let c: usize = self.tasks.fork_step(p);
                let ghost forked = self.tasks@;
                assert(forked.tasks.len() == self.tasks.tasks@.len());
                assert(forked.tasks[c as int] == self.tasks.tasks@[c as int]@);
                assert(forked.tasks[p as int] == self.tasks.tasks@[p as int]@);
                let total: usize = self.tasks.tasks.len();
                let token: usize = self.tasks.tasks[p].vm_token;
                self.tasks.tasks[c].vm_token = token;
                assert(self@.tasks.tasks =~= forked.tasks.update(
                    c as int,
                    TaskView { vm_token: token, ..k.tasks.child_of(p) },
                ));
                proof {
                    law_fork_keeps_table(k.tasks, k.store, p);
                    let mid = KernelView { tasks: forked, ..k };
                    assert(mid.wf());
                    assert(forked.knows(forked.tasks[c as int]) && forked.tasks[c as int].wf(k.store));
                    lemma_set_task_wf(mid, k.store, c, self@.task(c));
                }
                let id: usize = self.tasks.tasks[c].id();
                self.conclude(out);
                Ok(id)
            },
            None => Err("esrch"),
        }
    }

    /// Gives the process with that number the program at `path`.
    pub fn do_exec(&mut self, task_id: usize, path: &str, args: Vec<String>, envs: Vec<String>) -> (r: Result<
        (),
        &'static str,
    >)
        requires
            old(self)@.wf(),
            old(self)@.tasks.map.dom().contains(task_id) ==> stack_size(args@, envs@, 0) <= USR_STK_TOP,
        ensures
            final(self)@.wf(),
            !old(self)@.tasks.map.dom().contains(task_id) ==> r == Err::<(), _>("esrch") && final(self)@ == old(self)@,
            old(self)@.tasks.map.dom().contains(task_id) ==> {
                let t = old(self)@.tasks.map[task_id];
                let sp = floor16(USR_STK_TOP - stack_size(args@, envs@, 0)) as u64;
                &&& r == Ok::<(), &'static str>(())
                &&& final(self)@ == old(self)@.set_task(t, execed(old(self)@.task(t), path@, sp))
            },
    {
        let ghost k = self@;
        match self.tasks.find(task_id) {
            Some(t) => {
                self.tasks.tasks[t].exec_path = path.to_owned();
                let ghost before = self.tasks.tasks@[t as int]@;
                assert(before == (TaskView { exec_path: path@, ..k.task(t) }));
                close_on_exec(&mut self.tasks.tasks[t].files);
                let init = ProcInit { args, envs, auxv: BTreeMap::new() };
                let sp: usize = init.push_at(USR_STK_OFF + USR_STK_SZ);
                let mut ctx: ThdCtx = ThdCtx::default();
                ctx.uctx.set_sp(sp as u64);
                ctx.uctx.set_ip(ENTRY_POINT);
                self.tasks.tasks[t].thd_ctx = Some(ctx);
                assert(self.tasks.tasks@[t as int]@ =~= execed(k.task(t), path@, sp as u64));
                assert(self@.tasks.tasks =~= k.tasks.tasks.update(t as int, execed(k.task(t), path@, sp as u64)));
                proof {
                    assert(k.tasks.knows(k.task(t)) && k.task(t).wf(k.store));
                    let v = execed(k.task(t), path@, sp as u64);
                    assert(v.files.dom().subset_of(k.task(t).files.dom()));
                    assert forall|fd: usize| #[trigger] v.files.dom().contains(fd) implies v.files[fd].wf(k.store) by {
                        assert(k.task(t).files.dom().contains(fd));
                    }
                    lemma_set_task_wf(k, k.store, t, v);
                }
                Ok(())
            },
            None => Err("esrch"),
        }
    }

    /// Gives the process with that number a new pipe, and returns the numbers of its two ends.
    pub fn do_pipe(&mut self, task_id: usize) -> (r: Result<(usize, usize), &'static str>)
        requires
            old(self)@.wf(),
        ensures
            final(self)@.wf(),
            !old(self)@.tasks.map.dom().contains(task_id) ==> r == Err::<(usize, usize), _>("esrch") && final(self)@
                == old(self)@,
            old(self)@.tasks.map.dom().contains(task_id) ==> {
                let t = old(self)@.tasks.map[task_id];
                let data = old(self)@.store.pipes.len() as usize;
                &&& final(self)@ == (KernelView { store: store_with_pipe(old(self)@.store), ..old(self)@ }).set_task(
                    t,
                    with_pipe(old(self)@.task(t), data),
                )
                &&& r == Ok::<_, &'static str>(pipe_fds(old(self)@.task(t), data))
            },
    {
        match self.tasks.find(task_id) {
            Some(t) => Ok(self.pipe_for(t)),
            None => Err("esrch"),
        }
    }

    /// Gives process `t` a new pipe, and returns the numbers of its two ends.
    pub fn pipe_for(&mut self, t: usize) -> (r: (usize, usize))
        requires
            t < old(self)@.tasks.tasks.len(),
            old(self)@.wf(),
        ensures
            final(self)@.wf(),
            ({
                let data = old(self)@.store.pipes.len() as usize;
                &&& final(self)@ == (KernelView { store: store_with_pipe(old(self)@.store), ..old(self)@ }).set_task(
                    t,
                    with_pipe(old(self)@.task(t), data),
                )
                &&& r == pipe_fds(old(self)@.task(t), data)
            }),
    {
        let ghost k = self@;
        let (rd, wr) = PipeNode::pair(&mut self.store);
        let rd_fd: usize = self.tasks.tasks[t].add_file(FileLike::Pipe(rd));
        let wr_fd: usize = self.tasks.tasks[t].add_file(FileLike::Pipe(wr));
        assert(self@.tasks.tasks =~= k.tasks.tasks.update(
            t as int,
            with_pipe(k.task(t), k.store.pipes.len() as usize),
        ));
        proof {
            let later = store_with_pipe(k.store);
            let v = with_pipe(k.task(t), k.store.pipes.len() as usize);
            assert(k.tasks.knows(k.task(t)) && k.task(t).wf(k.store));
            lemma_task_wf_grows(k.task(t), k.store, later);
            assert forall|fd: usize| #[trigger] v.files.dom().contains(fd) implies v.files[fd].wf(later) by {
                if fd != rd_fd && fd != wr_fd {
                    assert(k.task(t).files.dom().contains(fd));
                }
            }
            lemma_set_task_wf(k, later, t, v);
        }
        (rd_fd, wr_fd)
    }

    /// Waits for a child that has ended, reaps it, and returns its number and exit code. Without
    /// one it returns zeros if it is not to wait.
    pub fn do_wait<F: Fn(usize, u32) -> bool>(
        &mut self,
        out: &Outside<F>,
        parent_id: usize,
        target_pid: isize,
        options: usize,
    ) -> (r: Result<(usize, usize), &'static str>)
        requires
            old(self)@.wf(),
            old(self)@.wait_ok(parent_id, target_pid),
            forall|c: usize, e: u32| call_requires(out.run, (c, e)),
        ensures
            r == old(self)@.wait_of(parent_id, target_pid, options).1,
            r is Ok ==> kernel_concluded(
                out.run,
                out.held@,
                old(self)@.wait_of(parent_id, target_pid, options).0,
                final(self)@,
            ),
            r is Err ==> final(self)@ == old(self)@,
            final(self)@.wf(),
    {
        let ghost k = self@;
        let p: usize = match self.tasks.find(parent_id) {
            Some(p) => p,
            None => {
                return Err("esrch");
            },
        };
        assert(k.task(p) == self.tasks.tasks@[p as int]@);
        assert(k.tasks.knows(k.task(p)));
        if self.tasks.tasks[p].n_children() == 0 {
            return Err("echild");
        }
        let wnohang: bool = (options & 1) != 0;
        match self.ended_child(p, target_pid) {
            Some(c) => {
                let id: usize = self.tasks.tasks[c].id();
                let code: usize = self.tasks.tasks[c].exit_code;
                assert(k.task(c) == self.tasks.tasks@[c as int]@);
                proof {
                    law_reap_keeps_table(k.tasks, k.store, id);
                }
                self.tasks.reap_step(id);
                self.conclude(out);
                Ok((id, code))
            },
            None => {
                if wnohang {
                    self.conclude(out);
                    Ok((0, 0))
                } else {
                    Err("echild")
                }
            },
        }
    }

    fn ended_child(&self, p: usize, target: isize) -> (r: Option<usize>)
        requires
            self@.wf(),
            p < self@.tasks.tasks.len(),
            target > isize::MIN,
        ensures
            r == first_ended(self@.tasks, self@.task(p), self@.task(p).subtasks, target),
            r matches Some(c) ==> c < self@.tasks.tasks.len(),
    {
        let ghost k = self@;
        let ghost ch = k.task(p).subtasks;
        let parent = &self.tasks.tasks[p];
        assert(k.task(p) == parent@);
        assert(k.tasks.knows(k.task(p)));
        let mut i: usize = 0;
        assert(ch.skip(0) =~= ch);
        while i < parent.subtasks.len()
            invariant
                i <= ch.len(),
                k == self@,
                target > isize::MIN,
                parent@ == k.task(p),
                ch == parent.subtasks@,
                k.tasks.knows(k.task(p)),
                ch == k.task(p).subtasks,
                first_ended(k.tasks, k.task(p), ch, target) == first_ended(
                    k.tasks,
                    k.task(p),
                    ch.skip(i as int),
                    target,
                ),
            decreases ch.len() - i,
        {
            let c: usize = parent.subtasks[i];
            assert(k.task(p).subtasks[i as int] < k.tasks.tasks.len());
            let child = &self.tasks.tasks[c];
            assert(k.task(c) == child@);
            assert(ch.skip(i as int)[0] == c);
            let wanted: bool = if target == -1 {
                true
            } else if target == 0 {
                child.pgid == parent.pgid
            } else if target > 0 {
                child.id() == target as usize
            } else {
                let group: Pgid = to_i32((-target) as usize);
                child.pgid == group
            };
            if wanted && child.done() {
                return Some(c);
            }
            assert(ch.skip(i as int).skip(1) =~= ch.skip(i + 1));
            i += 1;
        }
        None
    }
}

/// The numbers that the two ends of a new pipe get.
pub open spec fn pipe_fds(t: TaskView, data: usize) -> (usize, usize) {
    let rd = free_fd(t.files.dom(), 0);
    let one = t.with_file(FileView::Pipe(PipeNode { data, dir: PipeDir::Read }));
    (rd, free_fd(one.files.dom(), 0))
}

/// Takes out the files to be closed on exec.
fn close_on_exec(files: &mut BTreeMap<usize, FileLike>)
    ensures
        files_view(final(files)@) == kept_on_exec(files_view(old(files)@)),
{
    let ghost m = files@;
    let keys = sorted_keys(files);
    let mut i: usize = 0;
    while i < keys.len()
        invariant
            i <= keys@.len(),
            m == old(files)@,
            keys@.to_set() == m.dom(),
            forall|a: int, b: int| 0 <= a < b < keys@.len() ==> keys@[a] < keys@[b],
            forall|fd: usize|
                #![trigger files@.dom().contains(fd)]
                files@.dom().contains(fd) <==> m.dom().contains(fd) && !(keys@.take(i as int).contains(fd)
                    && closes_on_exec(m[fd]@)),
            forall|fd: usize| #[trigger] files@.dom().contains(fd) ==> files@[fd] == m[fd],
        decreases keys@.len() - i,
    {
        let fd: usize = keys[i];
        assert(keys@.to_set().contains(fd));
        assert(!keys@.take(i as int).contains(fd));
        assert(files@.dom().contains(fd));
        let close: bool = match files.get(&fd) {
            Some(FileLike::File(h)) => h.cloexec,
            _ => false,
        };
        if close {
            files.remove(&fd);
        }
        proof {
            let more = keys@.take(i + 1);
            assert(more =~= keys@.take(i as int).push(fd));
            assert forall|x: usize|
                #![trigger files@.dom().contains(x)]
                files@.dom().contains(x) <==> m.dom().contains(x) && !(more.contains(x) && closes_on_exec(m[x]@)) by {
                if keys@.take(i as int).contains(x) {
                    let k = choose|k: int| 0 <= k < i && keys@.take(i as int)[k] == x;
                    assert(more[k] == x);
                }
                if more.contains(x) && x != fd {
                    let k = choose|k: int| 0 <= k < more.len() && more[k] == x;
                    assert(keys@.take(i as int)[k] == x);
                }
                assert(more[i as int] == fd);
            }
        }
        i += 1;
    }
    proof {
        assert(keys@.take(i as int) =~= keys@);
        assert forall|fd: usize| m.dom().contains(fd) implies keys@.contains(fd) by {
            assert(keys@.to_set().contains(fd));
        }
        assert(files_view(files@) =~= kept_on_exec(files_view(m)));
    }
}

} // verus!
