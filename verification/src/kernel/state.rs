//! The state of the kernel and what happens to it outside system calls.

use crate::bits::ser;
use crate::fs::cache::{BlockCache, CacheView, N_CHAINS};
use crate::fs::disk::{blank, Disk, DiskView, Disks};
use crate::fs::mount::{MountTable, MountView};
use crate::fs::store::{Store, StoreView};
use crate::memory::{FramePool, Platform, PoolView, UserMemory};
use crate::proc::stack::KernelStack;
use crate::proc::table::{
    concluded, law_spawn_keeps_table, lemma_table_wf_grows, lemma_concluded_len, Outside, TableView, TaskTable,
};
use crate::proc::task::{TaskView, ThdView};
use crate::schedule::MAX_CPU;
use crate::sync::lock::KernelLock;
use crate::time::{dtk, Clock};
use std::collections::VecDeque;
use vstd::prelude::*;

verus! {

/// The most bytes of terminal input that wait to be read.
pub const TTY_CAP: usize = 4096;

/// All that the kernel keeps. Each processor has the place of the process that runs on it.
pub struct Kernel {
    pub tasks: TaskTable,
    pub store: Store,
    pub cache: BlockCache,
    pub pool: FramePool,
    pub cpus: [Option<usize>; MAX_CPU],
    pub mnt: MountTable,
    pub tty_buf: VecDeque<u8>,
    pub disks: Disks,
    pub disk: Disk,
    pub gkl: KernelLock,
    pub clk: Clock,
    pub platform: Platform,
    pub user: UserMemory,
}

/// What the kernel stands for.
#[verifier::ext_equal]
pub ghost struct KernelView {
    pub tasks: TableView,
    pub store: StoreView,
    pub cache: CacheView,
    pub pool: PoolView,
    pub cpus: Seq<Option<usize>>,
    pub mnt: Seq<MountView>,
    pub tty_buf: Seq<u8>,
    pub disks: Seq<DiskView>,
    pub disk: Disk,
    pub gkl: KernelLock,
    pub clk: Clock,
    pub platform: Platform,
    pub user: Seq<(usize, usize)>,
}

impl View for Kernel {
    type V = KernelView;

    open spec fn view(&self) -> KernelView {
        KernelView {
            tasks: self.tasks@,
            store: self.store@,
            cache: self.cache@,
            pool: self.pool@,
            cpus: self.cpus@,
            mnt: self.mnt@,
            tty_buf: self.tty_buf@,
            disks: self.disks@,
            disk: self.disk,
            gkl: self.gkl,
            clk: self.clk,
            platform: self.platform,
            user: self.user.ranges@,
        }
    }
}

impl KernelView {
    /// Processes refer to each other and to the store, processors to processes, there is a disk,
    /// and the cache has all its chains.
    pub open spec fn wf(self) -> bool {
        &&& self.tasks.wf(self.store)
        &&& self.cache.wf()
        &&& self.disk.wf(self.disks)
        &&& self.cpus.len() == MAX_CPU
        &&& forall|i: int| 0 <= i < MAX_CPU ==> ((#[trigger] self.cpus[i]) matches Some(t) ==> t < self.tasks.tasks.len())
    }

    /// The process that runs on the first processor.
    pub open spec fn current(self) -> Option<usize> {
        self.cpus[0]
    }

    pub open spec fn task(self, t: usize) -> TaskView {
        self.tasks.tasks[t as int]
    }

    pub open spec fn set_task(self, t: usize, v: TaskView) -> KernelView {
        KernelView { tasks: self.tasks.set_task(t, v), ..self }
    }

    /// The root process was made, with one thread and the kernel stack at `stack_base`.
    pub open spec fn started(self, stack_base: usize) -> KernelView {
        let t = self.tasks.tasks.len() as usize;
        let spawned = TableView { root: Some(t), ..self.tasks.spawned("init"@) };
        KernelView {
            tasks: spawned.set_task(
                t,
                TaskView {
                    threads: seq![self.tasks.seq],
                    kernel_stack: Some(KernelStack(stack_base)),
                    ..TaskView::make(self.tasks.seq, "init"@)
                },
            ),
            ..self
        }
    }

    /// One more disk access was counted.
    pub open spec fn disk_used(self) -> KernelView {
        KernelView { disks: self.disks.update(self.disk.at as int, self.disk.of(self.disks).used()), ..self }
    }
}

/// The processes that run on the first `n` processors.
pub open spec fn running(cpus: Seq<Option<usize>>, n: nat) -> Seq<usize>
    decreases n,
{
    if n == 0 {
        Seq::empty()
    } else {
        let front = running(cpus, (n - 1) as nat);
        match cpus[n - 1] {
            Some(t) => front.push(t),
            None => front,
        }
    }
}

/// `after` is `mid` once every process that nobody refers to was dropped, and everybody was told
/// of what happened. A processor refers to what runs on it.
pub open spec fn kernel_concluded<F: Fn(usize, u32) -> bool>(
    run: F,
    held: Seq<usize>,
    mid: KernelView,
    after: KernelView,
) -> bool {
    &&& after == (KernelView { tasks: after.tasks, store: after.store, ..mid })
    &&& concluded(run, held + running(mid.cpus, mid.cpus.len()), mid.tasks, mid.store, after.tasks, after.store)
}

/// The kernel stays sound when a process changes, and the store only grows.
pub proof fn lemma_set_task_wf(k: KernelView, later: StoreView, t: usize, v: TaskView)
    requires
        k.wf(),
        t < k.tasks.tasks.len(),
        k.store.grows_to(later),
        v.wf(later),
        k.tasks.knows(v),
    ensures
        (KernelView { store: later, ..k }).set_task(t, v).wf(),
{
    let after = (KernelView { store: later, ..k }).set_task(t, v);
    lemma_table_wf_grows(k.tasks, k.store, later);
    assert forall|i: int| 0 <= i < after.tasks.tasks.len() implies after.tasks.knows(#[trigger] after.tasks.tasks[i])
        && after.tasks.tasks[i].wf(later) by {
        assert(k.tasks.knows(k.tasks.tasks[i]));
        assert(k.tasks.tasks[i].wf(later));
    }
}

impl Kernel {
    /// A kernel with `nf` free frames and no processes.
    pub fn new(nf: usize, platform: Platform, user: UserMemory) -> (r: Self)
        ensures
            r@ == (KernelView {
                tasks: TableView::new(),
                store: StoreView {
                    blobs: Seq::empty(),
                    states: Seq::empty(),
                    pipes: Seq::empty(),
                    sets: Seq::empty(),
                },
                cache: CacheView {
                    chains: Seq::new(N_CHAINS as nat, |i: int| Seq::empty()),
                    width: N_CHAINS,
                },
                pool: PoolView { slots: Seq::new(nf as nat, |i: int| true), cap: nf },
                cpus: Seq::new(MAX_CPU as nat, |i: int| None),
                mnt: Seq::empty(),
                tty_buf: Seq::empty(),
                disks: seq![blank(0, "I don't know"@)],
                disk: Disk { at: 0 },
                gkl: KernelLock::free(),
                clk: Clock { wall: 0, all: 0 },
                platform,
                user: user.ranges@,
            }),
            r@.wf(),
    {
        let mut disks: Disks = Disks::new();
        let disk: Disk = Disk::new(&mut disks, "I don't know");
        let r = Kernel {
            tasks: TaskTable::new(),
            store: Store::new(),
            cache: BlockCache::new(N_CHAINS),
            pool: FramePool::new(nf),
            cpus: [None, None, None, None, None, None, None, None],
            mnt: MountTable::new(),
            tty_buf: VecDeque::new(),
            disks,
            disk,
            gkl: KernelLock::new(),
            clk: Clock::new(),
            platform,
            user,
        };
        assert(r@.cpus =~= Seq::new(MAX_CPU as nat, |i: int| None));
        assert(r@.disks =~= seq![blank(0, "I don't know"@)]);
        r
    }

    /// A tick under the kernel lock: every cached block counts as written back.
    pub fn tick(&mut self, id: usize, thread: usize)
        requires
            old(self)@.gkl.can_enter(thread),
        ensures
            final(self)@ == (KernelView {
                cache: old(self)@.cache.all_clean(),
                gkl: old(self)@.gkl.entered(id, thread).left(),
                ..old(self)@
            }),
            old(self)@.wf() ==> final(self)@.wf(),
    {
        self.gkl.enter(id, thread);
        self.cache.clean_all();
        self.gkl.leave();
    }

    /// The process that runs on a processor.
    pub fn cur_task(&self, cpu: usize) -> (r: Option<usize>)
        ensures
            r == (if cpu < MAX_CPU { self@.cpus[cpu as int] } else { None }),
    {
        if cpu >= MAX_CPU {
            return None;
        }
        self.cpus[cpu]
    }

    /// Sets what runs on a processor, and lets go of what ran there.
    pub fn set_cur<F: Fn(usize, u32) -> bool>(&mut self, out: &Outside<F>, cpu: usize, t: Option<usize>)
        requires
            old(self)@.wf(),
            t matches Some(i) ==> i < old(self)@.tasks.tasks.len(),
            forall|c: usize, e: u32| call_requires(out.run, (c, e)),
        ensures
            cpu < MAX_CPU ==> kernel_concluded(
                out.run,
                out.held@,
                KernelView { cpus: old(self)@.cpus.update(cpu as int, t), ..old(self)@ },
                final(self)@,
            ),
            cpu >= MAX_CPU ==> final(self)@ == old(self)@,
            final(self)@.wf(),
    {
        if cpu < MAX_CPU {
            self.cpus[cpu] = t;
            self.conclude(out);
        }
    }

    /// Drops the processes that nobody refers to any more, and tells everybody of what happened.
    pub(crate) fn conclude<F: Fn(usize, u32) -> bool>(&mut self, out: &Outside<F>)
        requires
            old(self)@.wf(),
            forall|c: usize, e: u32| call_requires(out.run, (c, e)),
        ensures
            kernel_concluded(out.run, out.held@, old(self)@, final(self)@),
            final(self)@.wf(),
    {
        let ghost k = self@;
        let mut held: Vec<usize> = Vec::new();
        let mut i: usize = 0;
        while i < out.held.len()
            invariant
                i <= out.held@.len(),
                held@ == out.held@.take(i as int),
            decreases out.held@.len() - i,
        {
            held.push(out.held[i]);
            i += 1;
            assert(held@ =~= out.held@.take(i as int));
        }
        assert(held@ =~= out.held@ + running(k.cpus, 0));
        let mut c: usize = 0;
        while c < MAX_CPU
            invariant
                c <= MAX_CPU,
                self@ == k,
                held@ == out.held@ + running(k.cpus, c as nat),
            decreases MAX_CPU - c,
        {
            assert(k.cpus[c as int] == self.cpus[c as int]);
            if let Some(t) = self.cpus[c] {
                held.push(t);
            }
            c += 1;
            assert(held@ =~= out.held@ + running(k.cpus, c as nat));
        }
        self.tasks.conclude(&mut self.store, &out.run, &held);
        proof {
            lemma_concluded_len(out.run, held@, k.tasks, k.store, self@.tasks, self@.store);
        }
    }

    /// A page fault is dealt with if a process runs on the first processor.
    pub fn handle_pgfault(&self, _addr: usize) -> (r: bool)
        ensures
            r == self@.current() is Some,
    {
        self.cur_task(0).is_some()
    }

    pub fn handle_pgfault_ext(&self, addr: usize, _access: u8) -> (r: bool)
        ensures
            r == self@.current() is Some,
    {
        self.handle_pgfault(addr)
    }

    /// Makes the root process, with one thread and the kernel stack at `stack_base`.
    pub fn proc_init<F: Fn(usize, u32) -> bool>(&mut self, out: &Outside<F>, stack_base: usize)
        requires
            old(self)@.wf(),
            forall|c: usize, e: u32| call_requires(out.run, (c, e)),
        ensures
            kernel_concluded(out.run, out.held@, old(self)@.started(stack_base), final(self)@),
            final(self)@.wf(),
    {
        let ghost k = self@;
        let root: usize = self.tasks.root_step();
        let ghost spawned = self.tasks@;
        assert(spawned.tasks.len() == self.tasks.tasks@.len());
        assert(spawned.tasks[root as int] == self.tasks.tasks@[root as int]@);
        let rid: usize = self.tasks.tasks[root].id();
        let total: usize = self.tasks.tasks.len();
        self.tasks.tasks[root].threads.push(rid);
        self.tasks.tasks[root].kernel_stack = Some(KernelStack::new(stack_base));
        assert(self.tasks.tasks@[root as int]@.threads =~= seq![rid]);
        assert(self@.tasks.tasks =~= spawned.tasks.update(
            root as int,
            TaskView {
                threads: seq![rid],
                kernel_stack: Some(KernelStack(stack_base)),
                ..TaskView::make(rid, "init"@)
            },
        ));
        proof {
            let mid = KernelView { tasks: spawned, ..k };
            law_spawn_keeps_table(k.tasks, k.store, "init"@);
            let plain = k.tasks.spawned("init"@);
            assert forall|i: int| 0 <= i < spawned.tasks.len() implies spawned.knows(#[trigger] spawned.tasks[i])
                && spawned.tasks[i].wf(k.store) by {
                assert(plain.knows(plain.tasks[i]) && plain.tasks[i].wf(k.store));
            }
            assert(mid.wf());
            lemma_set_task_wf(mid, k.store, root, self@.tasks.tasks[root as int]);
        }
        self.conclude(out);
    }

    /// Takes in a byte from the terminal. Bytes that find no room are lost.
    pub fn tty_push(&mut self, c: u8)
        ensures
            final(self)@ == (if old(self)@.tty_buf.len() < TTY_CAP {
                KernelView {
                    tty_buf: old(self)@.tty_buf.push(
                        if c == 13 {
                            10u8
                        } else {
                            c
                        },
                    ),
                    ..old(self)@
                }
            } else {
                old(self)@
            }),
    {
        let byte: u8 = ser(c);
        if self.tty_buf.len() < TTY_CAP {
            self.tty_buf.push_back(byte);
        }
    }

    pub fn tty_pop(&mut self) -> (r: Option<u8>)
        ensures
            old(self)@.tty_buf.len() == 0 ==> r is None && final(self)@ == old(self)@,
            old(self)@.tty_buf.len() > 0 ==> r == Some(old(self)@.tty_buf[0]) && final(self)@ == (KernelView {
                tty_buf: old(self)@.tty_buf.skip(1),
                ..old(self)@
            }),
    {
        let r = self.tty_buf.pop_front();
        proof {
            if old(self)@.tty_buf.len() > 0 {
                assert(self@.tty_buf =~= old(self)@.tty_buf.skip(1));
            }
        }
        r
    }

    /// One round of a process's thread: it takes its context and puts it back. Tells whether the
    /// process has ended.
    pub fn run_once(&mut self, t: usize) -> (r: bool)
        requires
            t < old(self)@.tasks.tasks.len(),
        ensures
            r == old(self)@.task(t).status is Some,
            final(self)@ == ({
                let ctx = match old(self)@.task(t).thd_ctx {
                    Some(c) => c,
                    None => ThdView::initial(),
                };
                old(self)@.set_task(t, TaskView { thd_ctx: Some(ctx), ..old(self)@.task(t) })
            }),
            old(self)@.wf() ==> final(self)@.wf(),
    {
        let ghost k = self@;
        let c = self.tasks.tasks[t].begin_run();
        self.tasks.tasks[t].end_run(c);
        assert(self@.tasks.tasks =~= k.tasks.tasks.update(t as int, TaskView { thd_ctx: Some(c@), ..k.task(t) }));
        proof {
            if k.wf() {
                assert(k.tasks.knows(k.task(t)) && k.task(t).wf(k.store));
                lemma_set_task_wf(k, k.store, t, self@.task(t));
            }
        }
        self.tasks.tasks[t].done()
    }

    /// A timer tick on a processor.
    pub fn schedule_tick(&mut self, cpu: usize)
        ensures
            final(self)@ == (KernelView { clk: old(self)@.clk.ticked(cpu), ..old(self)@ }),
    {
        dtk(&mut self.clk, cpu);
    }
}

} // verus!
