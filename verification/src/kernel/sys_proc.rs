//! System calls on processes and signals.

use crate::kernel::state::{lemma_set_task_wf, Kernel, KernelView};
use crate::kernel::sys_file::{answer, granted};
use crate::memory::{N_FRAMES, PAGE_SZ};
use crate::ordered::ascending;
use crate::proc::table::{
    adopted, after_exit, all_signalled, in_group, is_active, is_zombie, law_adoption_keeps_table,
    lemma_exited_linked, law_exit_keeps_table, law_signals_keep_table, places, TableView,
};
use crate::proc::task::{Pgid, TaskView};
use crate::sequences::lemma_filter_push;
use crate::word::{as_signed, as_word, low32, to_i32, to_signed, to_word};
use vstd::prelude::*;

verus! {

broadcast use {vstd::std_specs::btree::group_btree_axioms, vstd::laws_cmp::group_laws_cmp};

pub const SIGKILL: usize = 9;

pub const SIGCHLD: i32 = 17;

pub const SIGSTOP: usize = 19;

/// The signals that cannot be masked, a bit for each.
pub const UNMASKABLE: u64 = 0x8_0200;

/// The process at place `t` is registered under its own number, and what is registered there has
/// ended.
pub open spec fn ended(tab: TableView) -> spec_fn(usize) -> bool {
    |t: usize|
        {
            let id = tab.tasks[t as int].id;
            tab.map.dom().contains(id) && tab.tasks[tab.map[id] as int].status is Some
        }
}

/// Not one of the first two numbers.
pub open spec fn ordinary() -> spec_fn(usize) -> bool {
    |id: usize| id > 1
}

/// What a wait returns that found nothing.
pub open spec fn nothing_found(options: usize) -> Result<usize, &'static str> {
    if options & 1 != 0 {
        Ok(0)
    } else {
        Err("echild")
    }
}

impl KernelView {
    /// The processes of a group, in the order of their numbers.
    pub open spec fn group(self, pgid: Pgid) -> Seq<usize> {
        self.tasks.listed().filter(in_group(self.tasks.tasks, pgid))
    }

    /// What a fork has to copy: up to 256 frames, and two for every process.
    pub open spec fn fork_cost(self) -> int {
        let free = self.pool.free();
        (if free < 256 {
            free as int
        } else {
            256
        }) + self.tasks.map.dom().len() * 2
    }

    /// No more than [`N_FRAMES`] frames are free.
    pub open spec fn fork_ok(self) -> bool {
        self.pool.free() <= N_FRAMES && self.fork_cost() <= usize::MAX
    }

    /// A number is used up for the child. The call fails if more than nine tenths of
    /// [`N_FRAMES`] are not free, or too few for what has to be copied.
    pub open spec fn fork_of(self) -> (KernelView, Result<usize, &'static str>) {
        let free = self.pool.free();
        let after = KernelView { tasks: self.tasks.next_seq(), ..self };
        if (N_FRAMES - free) * 100 / N_FRAMES as int > 90 || free < self.fork_cost() / 4096 {
            (after, Err("enomem"))
        } else {
            (after, Ok(self.tasks.seq))
        }
    }

    pub open spec fn exec_of(self, path_addr: usize, argv_addr: usize, envp_addr: usize) -> Result<usize, &'static str> {
        granted(
            path_addr != 0 && self.access(path_addr, 256) && (argv_addr != 0 ==> self.access(argv_addr, 512)) && (
            envp_addr != 0 ==> self.access(envp_addr, 512)),
        )
    }

    /// The running process ends: its parent gets a signal, and process number 1 its children.
    pub open spec fn exit_of(self, status: usize) -> KernelView {
        match self.current() {
            None => self,
            Some(t) => {
                let me = self.task(t);
                let gone = self.tasks.exited(t, status);
                let told = match me.parent {
                    Some(p) => gone.set_task(p, gone.tasks[p as int].signalled(SIGCHLD, as_signed(me.id))),
                    None => gone,
                };
                KernelView {
                    store: after_exit(me, self.store),
                    tasks: if told.map.dom().contains(1) {
                        TableView { tasks: adopted(told.tasks, told.map[1], me.subtasks), ..told }
                    } else {
                        told
                    },
                    ..self
                }
            },
        }
    }

    /// A group has a number that can be negated.
    pub open spec fn wait4_ok(self, pid: isize, status_addr: usize, rusage_addr: usize) -> bool {
        (status_addr == 0 || self.access(status_addr, 4)) && (rusage_addr == 0 || self.access(rusage_addr, 144))
            ==> pid > isize::MIN
    }

    /// Waiting for a process: which one has ended. It is not reaped.
    pub open spec fn wait4_of(self, pid: isize, status_addr: usize, options: usize, rusage_addr: usize) -> Result<
        usize,
        &'static str,
    > {
        if status_addr != 0 && !self.access(status_addr, 4) {
            Err("efault")
        } else if rusage_addr != 0 && !self.access(rusage_addr, 144) {
            Err("efault")
        } else if pid == -1 {
            let zombies = ascending(self.tasks.map.dom()).filter(is_zombie(self.tasks));
            if zombies.len() == 0 {
                nothing_found(options)
            } else {
                Ok(zombies[0])
            }
        } else if pid == 0 {
            match self.current() {
                None => Err("echild"),
                Some(t) => {
                    let found = self.group(self.task(t).pgid).filter(ended(self.tasks));
                    if found.len() == 0 {
                        nothing_found(options)
                    } else {
                        Ok(self.task(found.last()).id)
                    }
                },
            }
        } else if pid > 0 {
            let id = pid as usize;
            if !self.tasks.map.dom().contains(id) {
                Err("echild")
            } else if self.task(self.tasks.map[id]).status is Some {
                Ok(id)
            } else {
                nothing_found(options)
            }
        } else {
            let all = self.group(low32((-pid) as usize));
            let found = all.filter(ended(self.tasks));
            if all.len() == 0 {
                Err("echild")
            } else if found.len() == 0 {
                nothing_found(options)
            } else {
                Ok(self.task(found[0]).id)
            }
        }
    }

    /// The processes were sent the signal.
    pub open spec fn signalled(self, ts: Seq<usize>, sig: usize) -> KernelView {
        KernelView {
            tasks: TableView {
                tasks: all_signalled(self.tasks.tasks, ts, sig as i32, (-1) as isize),
                ..self.tasks
            },
            ..self
        }
    }

    /// A signal has a number that a process can be sent, and a group one that can be negated.
    pub open spec fn kill_ok(self, pid: isize, sig: usize) -> bool {
        self.platform.nsig <= i32::MAX && (sig <= self.platform.nsig ==> pid > isize::MIN)
    }

    /// A signal to the group of the running process, to all processes but the first two, to one
    /// process, or to a group.
    pub open spec fn kill_of(self, pid: isize, sig: usize) -> (KernelView, Result<usize, &'static str>) {
        if sig > self.platform.nsig {
            (self, Err("einval"))
        } else if (sig == SIGKILL || sig == SIGSTOP) && -1 <= pid <= 1 {
            (self, Err("eperm"))
        } else if pid == 0 {
            match self.current() {
                None => (self, Ok(0)),
                Some(t) => {
                    let ts = self.group(self.task(t).pgid);
                    (self.signalled(ts, sig), Ok(ts.len() as usize))
                },
            }
        } else if pid == -1 {
            let ids = ascending(self.tasks.map.dom()).filter(is_active(self.tasks)).filter(ordinary());
            (
                self.signalled(places(ids, self.tasks.map), sig),
                if ids.len() == 0 {
                    Err("esrch")
                } else {
                    Ok(ids.len() as usize)
                },
            )
        } else if pid > 0 {
            let id = pid as usize;
            if !self.tasks.map.dom().contains(id) {
                (self, Err("esrch"))
            } else {
                let t = self.tasks.map[id];
                if self.task(t).status is Some && sig != 0 {
                    (self, Err("esrch"))
                } else {
                    (self.set_task(t, self.task(t).signalled(sig as i32, (-1) as isize)), Ok(0))
                }
            }
        } else {
            let ts = self.group(low32((-pid) as usize));
            (
                self.signalled(ts, sig),
                if ts.len() == 0 {
                    Err("esrch")
                } else {
                    Ok(ts.len() as usize)
                },
            )
        }
    }

    pub open spec fn getpid_of(self) -> Result<usize, &'static str> {
        match self.current() {
            Some(t) => Ok(self.task(t).id),
            None => Ok(1),
        }
    }

    pub open spec fn getppid_of(self) -> Result<usize, &'static str> {
        match self.current() {
            Some(t) => match self.task(t).parent {
                Some(p) => Ok(self.task(p).id),
                None => Ok(0),
            },
            None => Ok(0),
        }
    }

    /// Process number `child` is registered and its parent has number `parent`.
    pub open spec fn is_child(self, child: usize, parent: usize) -> bool {
        self.tasks.map.dom().contains(child) && (match self.task(self.tasks.map[child]).parent {
            Some(p) => self.task(p).id == parent,
            None => false,
        })
    }

    /// A process moves itself or a child of its own to a group.
    pub open spec fn setpgid_of(self, pid: usize, pgid: usize) -> (KernelView, Result<usize, &'static str>) {
        let caller = self.getpid_of()->Ok_0;
        let target = if pid == 0 {
            caller
        } else {
            pid
        };
        let new_pgid = if pgid == 0 {
            target
        } else {
            pgid
        };
        if target != caller && !self.is_child(target, caller) {
            (self, Err("esrch"))
        } else if self.tasks.map.dom().contains(target) {
            let t = self.tasks.map[target];
            (self.set_task(t, TaskView { pgid: low32(new_pgid), ..self.task(t) }), Ok(0))
        } else {
            (self, Ok(0))
        }
    }

    pub open spec fn getpgid_of(self, pid: usize) -> Result<usize, &'static str> {
        let target = if pid == 0 {
            match self.current() {
                Some(t) => self.task(t).id,
                None => 0,
            }
        } else {
            pid
        };
        if target == 0 || !self.tasks.map.dom().contains(target) {
            Err("esrch")
        } else {
            Ok(as_word(self.task(self.tasks.map[target]).pgid))
        }
    }

    /// The running process leads a new group, unless it leads one.
    pub open spec fn setsid_of(self) -> (KernelView, Result<usize, &'static str>) {
        match self.current() {
            None => (self, Err("esrch")),
            Some(t) => {
                let id = self.task(t).id;
                if as_word(self.task(t).pgid) == id {
                    (self, Err("eperm"))
                } else {
                    (self.set_task(t, TaskView { pgid: low32(id), ..self.task(t) }), Ok(id))
                }
            },
        }
    }

    pub open spec fn sigaction_of(self, signo: usize, act_addr: usize, oldact_addr: usize) -> Result<
        usize,
        &'static str,
    > {
        if signo == 0 || signo >= self.platform.nsig || (signo != SIGKILL && signo != SIGSTOP) {
            Err("einval")
        } else {
            granted(
                (act_addr != 0 ==> self.access(act_addr, 32)) && (oldact_addr != 0 ==> self.access(oldact_addr, 32)),
            )
        }
    }

    /// The running process changes which signals it masks: it adds some, takes some away, or
    /// sets them anew. The set is the given address itself.
    pub open spec fn sigmask_of(self, how: usize, set_addr: usize, oldset_addr: usize) -> (
        KernelView,
        Result<usize, &'static str>,
    ) {
        if set_addr != 0 && !self.access(set_addr, 8) {
            (self, Err("efault"))
        } else if oldset_addr != 0 && !self.access(oldset_addr, 8) {
            (self, Err("efault"))
        } else {
            match self.current() {
                None => (self, Ok(0)),
                Some(t) => {
                    let mask = self.task(t).sig_mask;
                    let set = set_addr as u64;
                    if set_addr == 0 {
                        (self, Ok(0))
                    } else if how > 2 {
                        (self, Err("einval"))
                    } else {
                        let new_mask = if how == 0 {
                            (mask | set) & !UNMASKABLE
                        } else if how == 1 {
                            mask & !set
                        } else {
                            set & !UNMASKABLE
                        };
                        (self.set_task(t, TaskView { sig_mask: new_mask, ..self.task(t) }), Ok(0))
                    }
                },
            }
        }
    }

    /// The two counts of a requeue can be added.
    pub open spec fn futex_ok(self, uaddr: usize, op: usize, val: usize, uaddr2: usize, val3: usize) -> bool {
        self.access(uaddr, 4) && op & 0xF == 3 && self.access(uaddr2, 4) ==> val + val3 <= usize::MAX
    }

    pub open spec fn futex_of(self, uaddr: usize, op: usize, val: usize, timeout: usize, uaddr2: usize, val3: usize) -> Result<
        usize,
        &'static str,
    > {
        let cmd = op & 0xF;
        let limit = |n: int, m: int| if n < m { n } else { m };
        if !self.access(uaddr, 4) {
            Err("efault")
        } else if cmd == 0 {
            granted(timeout != 0 ==> self.access(timeout, 16))
        } else if cmd == 1 {
            let n = if val == 0 {
                1
            } else {
                val as int
            };
            Ok(limit(n, self.tasks.map.dom().len() as int) as usize)
        } else if cmd == 3 {
            if !self.access(uaddr2, 4) {
                Err("efault")
            } else {
                Ok(limit(val + val3, 128) as usize)
            }
        } else if cmd == 5 {
            granted(timeout != 0 && self.access(timeout, 16))
        } else if cmd == 9 {
            if !self.access(uaddr2, 4) {
                Err("efault")
            } else {
                Ok((limit(val as int, 32) + limit(val3 as int, 32)) as usize)
            }
        } else {
            Err("enosys")
        }
    }
}

proof fn lemma_same_tasks(k: KernelView, after: KernelView)
    requires
        k.wf(),
        after == (KernelView { tasks: TableView { seq: after.tasks.seq, ..k.tasks }, ..k }),
    ensures
        after.wf(),
{
    assert forall|i: int| 0 <= i < after.tasks.tasks.len() implies after.tasks.knows(#[trigger] after.tasks.tasks[i])
        && after.tasks.tasks[i].wf(after.store) by {
        assert(k.tasks.knows(k.tasks.tasks[i]) && k.tasks.tasks[i].wf(k.store));
    }
}

proof fn lemma_group_in_range(k: KernelView, pgid: Pgid)
    requires
        k.wf(),
        k.tasks.map.dom().finite(),
    ensures
        forall|j: int| 0 <= j < k.group(pgid).len() ==> (#[trigger] k.group(pgid)[j]) < k.tasks.tasks.len(),
{
    let all = k.tasks.listed();
    let dom = k.tasks.map.dom();
    crate::ordered::lemma_ascending_exists(dom);
    let g = k.group(pgid);
    assert forall|j: int| 0 <= j < g.len() implies (#[trigger] g[j]) < k.tasks.tasks.len() by {
        all.lemma_filter_contains_rev(in_group(k.tasks.tasks, pgid), g[j]);
        let i = choose|i: int| 0 <= i < all.len() && all[i] == g[j];
        let id = ascending(dom)[i];
        assert(ascending(dom).to_set().contains(id));
        assert(all[i] == k.tasks.map[id]);
    }
}

fn none_found(options: usize) -> (r: Result<usize, &'static str>)
    ensures
        r == nothing_found(options),
{
    if (options & 1) != 0 {
        Ok(0)
    } else {
        Err("echild")
    }
}

impl Kernel {
    pub(crate) fn sys_fork(&mut self) -> (r: Result<usize, &'static str>)
        requires
            old(self)@.wf(),
            old(self)@.fork_ok(),
        ensures
            (final(self)@, r) == old(self)@.fork_of(),
            final(self)@.wf(),
    {
        let free: usize = self.pool.free_count();
        let active: usize = self.tasks.count();
        let cost: usize = (if free < 256 {
            free
        } else {
            256
        }) + active * 2;
        let new_pid: usize = self.tasks.seq;
        self.tasks.seq = self.tasks.seq.wrapping_add(1);
        proof {
            lemma_same_tasks(old(self)@, self@);
        }
        let used: usize = N_FRAMES - free;
        let ratio: usize = (used * 100) / N_FRAMES;
        if ratio > 90 {
            return Err("enomem");
        }
        if free < cost / PAGE_SZ {
            return Err("enomem");
        }
        Ok(new_pid)
    }

    pub(crate) fn sys_exec(&self, path_addr: usize, argv_addr: usize, envp_addr: usize) -> (r: Result<usize, &'static str>)
        ensures
            r == self@.exec_of(path_addr, argv_addr, envp_addr),
    {
        answer(
            path_addr != 0 && self.user.check_access(path_addr, 256) && (argv_addr == 0 || self.user.check_access(
                argv_addr,
                512,
            )) && (envp_addr == 0 || self.user.check_access(envp_addr, 512)),
        )
    }

    pub(crate) fn sys_exit(&mut self, status: usize) -> (r: Result<usize, &'static str>)
        requires
            old(self)@.wf(),
        ensures
            final(self)@ == old(self)@.exit_of(status),
            final(self)@.wf(),
            r == Ok::<usize, &'static str>(0),
    {
        let ghost k = self@;
        if let Some(t) = self.cur_task(0) {
            let ghost me = k.task(t);
            assert(me == self.tasks.tasks@[t as int]@);
            assert(k.tasks.knows(me));
            let id: usize = self.tasks.tasks[t].id();
            let parent = self.tasks.tasks[t].parent;
            self.tasks.note_exit(&mut self.store, t, status);
            proof {
                lemma_exited_linked(k.tasks, t, status);
                law_exit_keeps_table(k.tasks, k.store, t, status);
            }
            let ghost gone = self.tasks@;
            assert(gone.tasks.len() == self.tasks.tasks@.len());
            if let Some(p) = parent {
                assert(gone.tasks[p as int] == self.tasks.tasks@[p as int]@);
                self.tasks.tasks[p].note_sig(SIGCHLD, to_signed(id));
                assert(self.tasks@.tasks =~= gone.tasks.update(
                    p as int,
                    gone.tasks[p as int].signalled(SIGCHLD, as_signed(id)),
                ));
                proof {
                    let mid = KernelView { tasks: gone, ..self@ };
                    assert(mid.wf());
                    assert(gone.knows(gone.tasks[p as int]) && gone.tasks[p as int].wf(mid.store));
                    lemma_set_task_wf(mid, mid.store, p, self@.task(p));
                }
            }
            let ghost told = self.tasks@;
            assert(told.tasks.len() == self.tasks.tasks@.len());
            if let Some(init) = self.tasks.find(1) {
                let ch = self.tasks.tasks[t].subtasks.clone();
                assert(told.tasks[t as int] == self.tasks.tasks@[t as int]@);
                assert(ch@ =~= self.tasks.tasks@[t as int].subtasks@);
                assert(ch@ == me.subtasks);
                proof {
                    law_adoption_keeps_table(told, self@.store, init, ch@);
                }
                self.adopt(init, &ch);
            }
        }
        Ok(0)
    }

    /// Makes the given processes children of process `root`.
    fn adopt(&mut self, root: usize, ch: &Vec<usize>)
        requires
            root < old(self)@.tasks.tasks.len(),
            forall|i: int| 0 <= i < ch@.len() ==> (#[trigger] ch@[i]) < old(self)@.tasks.tasks.len(),
        ensures
            final(self)@ == (KernelView {
                tasks: TableView { tasks: adopted(old(self)@.tasks.tasks, root, ch@), ..old(self)@.tasks },
                ..old(self)@
            }),
    {
        let ghost k = self@;
        let mut i: usize = 0;
        assert(ch@.take(0) =~= Seq::empty());
        while i < ch.len()
            invariant
                i <= ch@.len(),
                k == old(self)@,
                self@.tasks.tasks.len() == k.tasks.tasks.len(),
                root < k.tasks.tasks.len(),
                forall|i: int| 0 <= i < ch@.len() ==> (#[trigger] ch@[i]) < k.tasks.tasks.len(),
                self@ == (KernelView {
                    tasks: TableView { tasks: adopted(k.tasks.tasks, root, ch@.take(i as int)), ..k.tasks },
                    ..k
                }),
            decreases ch@.len() - i,
        {
            let c: usize = ch[i];
            let ghost front = self@.tasks.tasks;
            assert(front.len() == self.tasks.tasks@.len());
            self.tasks.tasks[c].link_parent(root);
            assert(self@.tasks.tasks =~= front.update(c as int, TaskView { parent: Some(root), ..front[c as int] }));
            let ghost linked = self@.tasks.tasks;
            self.tasks.tasks[root].link_child(c);
            assert(self@.tasks.tasks =~= linked.update(
                root as int,
                TaskView { subtasks: linked[root as int].subtasks.push(c), ..linked[root as int] },
            ));
            assert(ch@.take(i + 1).drop_last() =~= ch@.take(i as int));
            i += 1;
        }
        assert(ch@.take(i as int) =~= ch@);
    }

    /// Those of the given processes that have ended, by the numbers they are registered under.
    fn ended_among(&self, ts: &Vec<usize>) -> (r: Vec<usize>)
        requires
            self@.wf(),
            forall|i: int| 0 <= i < ts@.len() ==> (#[trigger] ts@[i]) < self@.tasks.tasks.len(),
        ensures
            r@ == ts@.filter(ended(self@.tasks)),
            forall|i: int| 0 <= i < r@.len() ==> (#[trigger] r@[i]) < self@.tasks.tasks.len(),
    {
        let ghost tab = self@.tasks;
        let mut out: Vec<usize> = Vec::new();
        let mut i: usize = 0;
        proof {
            reveal(Seq::filter);
            assert(ts@.take(0).filter(ended(tab)) =~= Seq::empty());
        }
        while i < ts.len()
            invariant
                i <= ts@.len(),
                tab == self@.tasks,
                self@.wf(),
                forall|i: int| 0 <= i < ts@.len() ==> (#[trigger] ts@[i]) < self@.tasks.tasks.len(),
                out@ == ts@.take(i as int).filter(ended(tab)),
                forall|i: int| 0 <= i < out@.len() ==> (#[trigger] out@[i]) < self@.tasks.tasks.len(),
            decreases ts@.len() - i,
        {
            let t: usize = ts[i];
            proof {
                assert(ts@.take(i as int).push(t) =~= ts@.take(i + 1));
                lemma_filter_push(ts@.take(i as int), t, ended(tab));
                assert(tab.tasks[t as int] == self.tasks.tasks@[t as int]@);
            }
            let id: usize = self.tasks.tasks[t].id();
            if let Some(c) = self.tasks.find(id) {
                assert(tab.tasks[c as int] == self.tasks.tasks@[c as int]@);
                if self.tasks.tasks[c].done() {
                    out.push(t);
                }
            }
            i += 1;
        }
        assert(ts@.take(i as int) =~= ts@);
        out
    }

    pub(crate) fn sys_wait4(&self, a0: usize, status_addr: usize, options: usize, rusage_addr: usize) -> (r: Result<
        usize,
        &'static str,
    >)
        requires
            self@.wf(),
            self@.wait4_ok(as_signed(a0), status_addr, rusage_addr),
        ensures
            r == self@.wait4_of(as_signed(a0), status_addr, options, rusage_addr),
    {
        let pid: isize = to_signed(a0);
        if status_addr != 0 && !self.user.check_access(status_addr, 4) {
            return Err("efault");
        }
        if rusage_addr != 0 && !self.user.check_access(rusage_addr, 144) {
            return Err("efault");
        }
        if pid == -1 {
            let zombies = self.tasks.zombie_tasks();
            if zombies.len() == 0 {
                return none_found(options);
            }
            Ok(zombies[0])
        } else if pid == 0 {
            match self.cur_task(0) {
                Some(t) => {
                    assert(self@.task(t) == self.tasks.tasks@[t as int]@);
                    let group = self.tasks.pgid_group(self.tasks.tasks[t].pgid);
                    let found = self.ended_among(&group);
                    if found.len() == 0 {
                        return none_found(options);
                    }
                    let last: usize = found[found.len() - 1];
                    assert(self@.task(last) == self.tasks.tasks@[last as int]@);
                    Ok(self.tasks.tasks[last].id())
                },
                None => Err("echild"),
            }
        } else if pid > 0 {
            let target: usize = pid as usize;
            match self.tasks.find(target) {
                Some(t) => {
                    assert(self@.task(t) == self.tasks.tasks@[t as int]@);
                    if self.tasks.tasks[t].done() {
                        Ok(target)
                    } else {
                        none_found(options)
                    }
                },
                None => Err("echild"),
            }
        } else {
            let group = self.tasks.pgid_group(to_i32((-pid) as usize));
            if group.len() == 0 {
                return Err("echild");
            }
            let found = self.ended_among(&group);
            if found.len() == 0 {
                return none_found(options);
            }
            let first: usize = found[0];
            assert(self@.task(first) == self.tasks.tasks@[first as int]@);
            Ok(self.tasks.tasks[first].id())
        }
    }

    pub(crate) fn sys_kill(&mut self, a0: usize, sig: usize) -> (r: Result<usize, &'static str>)
        requires
            old(self)@.wf(),
            old(self)@.kill_ok(as_signed(a0), sig),
        ensures
            (final(self)@, r) == old(self)@.kill_of(as_signed(a0), sig),
            final(self)@.wf(),
    {
        let pid: isize = to_signed(a0);
        let ghost k = self@;
        if sig > self.platform.nsig {
            return Err("einval");
        }
        if (sig == SIGKILL || sig == SIGSTOP) && -1 <= pid && pid <= 1 {
            return Err("eperm");
        }
        if pid == 0 {
            match self.cur_task(0) {
                Some(t) => {
                    assert(k.task(t) == self.tasks.tasks@[t as int]@);
                    let pgid: Pgid = self.tasks.tasks[t].pgid;
                    proof {
                        assert(self.tasks.map@.dom().finite());
                        lemma_group_in_range(k, pgid);
                        law_signals_keep_table(k.tasks, k.store, k.group(pgid), sig as i32, (-1) as isize);
                    }
                    let group = self.tasks.pgid_group(pgid);
                    self.tasks.signal_all(&group, sig as i32, -1);
                    Ok(group.len())
                },
                None => Ok(0),
            }
        } else if pid == -1 {
            let ids = self.ordinary_active();
            let ghost want = ids@;
            let mut ts: Vec<usize> = Vec::new();
            let mut i: usize = 0;
            while i < ids.len()
                invariant
                    i <= ids@.len(),
                    self@ == k,
                    k.wf(),
                    forall|j: int| 0 <= j < ids@.len() ==> k.tasks.map.dom().contains(#[trigger] ids@[j]),
                    ts@ == places(ids@.take(i as int), k.tasks.map),
                    forall|j: int| 0 <= j < ts@.len() ==> (#[trigger] ts@[j]) < k.tasks.tasks.len(),
                decreases ids@.len() - i,
            {
                assert(k.tasks.map.dom().contains(ids@[i as int]));
                if let Some(t) = self.tasks.find(ids[i]) {
                    ts.push(t);
                }
                i += 1;
                assert(ts@ =~= places(ids@.take(i as int), k.tasks.map));
            }
            assert(ids@.take(i as int) =~= ids@);
            proof {
                law_signals_keep_table(k.tasks, k.store, ts@, sig as i32, (-1) as isize);
            }
            self.tasks.signal_all(&ts, sig as i32, -1);
            if ids.len() == 0 {
                Err("esrch")
            } else {
                Ok(ids.len())
            }
        } else if pid > 0 {
            match self.tasks.find(pid as usize) {
                Some(t) => {
                    assert(k.task(t) == self.tasks.tasks@[t as int]@);
                    if self.tasks.tasks[t].done() && sig != 0 {
                        return Err("esrch");
                    }
                    self.tasks.tasks[t].note_sig(sig as i32, -1);
                    assert(self@.tasks.tasks =~= k.tasks.tasks.update(
                        t as int,
                        k.task(t).signalled(sig as i32, (-1) as isize),
                    ));
                    proof {
                        assert(k.tasks.knows(k.task(t)) && k.task(t).wf(k.store));
                        lemma_set_task_wf(k, k.store, t, self@.task(t));
                    }
                    Ok(0)
                },
                None => Err("esrch"),
            }
        } else {
            let pgid: Pgid = to_i32((-pid) as usize);
            proof {
                assert(self.tasks.map@.dom().finite());
                lemma_group_in_range(k, pgid);
                law_signals_keep_table(k.tasks, k.store, k.group(pgid), sig as i32, (-1) as isize);
            }
            let group = self.tasks.pgid_group(pgid);
            self.tasks.signal_all(&group, sig as i32, -1);
            if group.len() == 0 {
                Err("esrch")
            } else {
                Ok(group.len())
            }
        }
    }

    /// The numbers above 1 of the processes that have not ended.
    fn ordinary_active(&self) -> (r: Vec<usize>)
        requires
            self@.wf(),
        ensures
            r@ == ascending(self@.tasks.map.dom()).filter(is_active(self@.tasks)).filter(ordinary()),
            forall|j: int| 0 <= j < r@.len() ==> self@.tasks.map.dom().contains(#[trigger] r@[j]),
    {
        let all = self.tasks.active_tasks();
        let mut out: Vec<usize> = Vec::new();
        let mut i: usize = 0;
        proof {
            reveal(Seq::filter);
            assert(all@.take(0).filter(ordinary()) =~= Seq::empty());
            let dom = self@.tasks.map.dom();
            let n: nat = dom.len();
            crate::ordered::lemma_ascending_exists(dom);
            assert forall|j: int| 0 <= j < all@.len() implies dom.contains(#[trigger] all@[j]) by {
                ascending(dom).lemma_filter_contains_rev(is_active(self@.tasks), all@[j]);
                assert(ascending(dom).to_set().contains(all@[j]));
            }
        }
        while i < all.len()
            invariant
                i <= all@.len(),
                forall|j: int| 0 <= j < all@.len() ==> self@.tasks.map.dom().contains(#[trigger] all@[j]),
                out@ == all@.take(i as int).filter(ordinary()),
                forall|j: int| 0 <= j < out@.len() ==> self@.tasks.map.dom().contains(#[trigger] out@[j]),
            decreases all@.len() - i,
        {
            let id: usize = all[i];
            proof {
                assert(all@.take(i as int).push(id) =~= all@.take(i + 1));
                lemma_filter_push(all@.take(i as int), id, ordinary());
            }
            if id > 1 {
                out.push(id);
            }
            i += 1;
        }
        assert(all@.take(i as int) =~= all@);
        out
    }

    pub(crate) fn sys_getpid(&self) -> (r: Result<usize, &'static str>)
        requires
            self@.wf(),
        ensures
            r == self@.getpid_of(),
    {
        match self.cur_task(0) {
            Some(t) => {
                assert(self@.task(t) == self.tasks.tasks@[t as int]@);
                Ok(self.tasks.tasks[t].id())
            },
            None => Ok(1),
        }
    }

    pub(crate) fn sys_getppid(&self) -> (r: Result<usize, &'static str>)
        requires
            self@.wf(),
        ensures
            r == self@.getppid_of(),
    {
        match self.cur_task(0) {
            Some(t) => {
                assert(self@.task(t) == self.tasks.tasks@[t as int]@);
                assert(self@.tasks.knows(self@.task(t)));
                match self.tasks.tasks[t].parent {
                    Some(p) => {
                        assert(self@.task(p) == self.tasks.tasks@[p as int]@);
                        Ok(self.tasks.tasks[p].id())
                    },
                    None => Ok(0),
                }
            },
            None => Ok(0),
        }
    }

    fn child_of_caller(&self, child: usize, parent: usize) -> (r: bool)
        requires
            self@.wf(),
        ensures
            r == self@.is_child(child, parent),
    {
        match self.tasks.find(child) {
            Some(t) => {
                assert(self@.task(t) == self.tasks.tasks@[t as int]@);
                assert(self@.tasks.knows(self@.task(t)));
                match self.tasks.tasks[t].parent {
                    Some(p) => {
                        assert(self@.task(p) == self.tasks.tasks@[p as int]@);
                        self.tasks.tasks[p].id() == parent
                    },
                    None => false,
                }
            },
            None => false,
        }
    }

    pub(crate) fn sys_setpgid(&mut self, pid: usize, pgid: usize) -> (r: Result<usize, &'static str>)
        requires
            old(self)@.wf(),
        ensures
            (final(self)@, r) == old(self)@.setpgid_of(pid, pgid),
            final(self)@.wf(),
    {
        let ghost k = self@;
        let caller: usize = match self.cur_task(0) {
            Some(t) => {
                assert(k.task(t) == self.tasks.tasks@[t as int]@);
                self.tasks.tasks[t].id()
            },
            None => 1,
        };
        let target: usize = if pid == 0 {
            caller
        } else {
            pid
        };
        let new_pgid: usize = if pgid == 0 {
            target
        } else {
            pgid
        };
        if target != caller && !self.child_of_caller(target, caller) {
            return Err("esrch");
        }
        if let Some(t) = self.tasks.find(target) {
            self.tasks.tasks[t].pgid = to_i32(new_pgid);
            assert(self@.tasks.tasks =~= k.tasks.tasks.update(
                t as int,
                TaskView { pgid: low32(new_pgid), ..k.task(t) },
            ));
            proof {
                assert(k.tasks.knows(k.task(t)) && k.task(t).wf(k.store));
                lemma_set_task_wf(k, k.store, t, self@.task(t));
            }
        }
        Ok(0)
    }

    pub(crate) fn sys_getpgid(&self, pid: usize) -> (r: Result<usize, &'static str>)
        requires
            self@.wf(),
        ensures
            r == self@.getpgid_of(pid),
    {
        let target: usize = if pid == 0 {
            match self.cur_task(0) {
                Some(t) => {
                    assert(self@.task(t) == self.tasks.tasks@[t as int]@);
                    self.tasks.tasks[t].id()
                },
                None => 0,
            }
        } else {
            pid
        };
        if target == 0 {
            return Err("esrch");
        }
        match self.tasks.find(target) {
            Some(t) => {
                assert(self@.task(t) == self.tasks.tasks@[t as int]@);
                Ok(to_word(self.tasks.tasks[t].pgid))
            },
            None => Err("esrch"),
        }
    }

    pub(crate) fn sys_setsid(&mut self) -> (r: Result<usize, &'static str>)
        requires
            old(self)@.wf(),
        ensures
            (final(self)@, r) == old(self)@.setsid_of(),
            final(self)@.wf(),
    {
        let ghost k = self@;
        match self.cur_task(0) {
            Some(t) => {
                assert(k.task(t) == self.tasks.tasks@[t as int]@);
                let id: usize = self.tasks.tasks[t].id();
                if to_word(self.tasks.tasks[t].pgid) == id {
                    return Err("eperm");
                }
                self.tasks.tasks[t].pgid = to_i32(id);
                assert(self@.tasks.tasks =~= k.tasks.tasks.update(t as int, TaskView { pgid: low32(id), ..k.task(t) }));
                proof {
                    assert(k.tasks.knows(k.task(t)) && k.task(t).wf(k.store));
                    lemma_set_task_wf(k, k.store, t, self@.task(t));
                }
                Ok(id)
            },
            None => Err("esrch"),
        }
    }

    pub(crate) fn sys_sigaction(&self, signo: usize, act_addr: usize, oldact_addr: usize) -> (r: Result<usize, &'static str>)
        ensures
            r == self@.sigaction_of(signo, act_addr, oldact_addr),
    {
        if signo == 0 || signo >= self.platform.nsig {
            return Err("einval");
        }
        if signo != SIGKILL && signo != SIGSTOP {
            return Err("einval");
        }
        answer(
            (act_addr == 0 || self.user.check_access(act_addr, 32)) && (oldact_addr == 0 || self.user.check_access(
                oldact_addr,
                32,
            )),
        )
    }

    pub(crate) fn sys_sigprocmask(&mut self, how: usize, set_addr: usize, oldset_addr: usize) -> (r: Result<
        usize,
        &'static str,
    >)
        requires
            old(self)@.wf(),
        ensures
            (final(self)@, r) == old(self)@.sigmask_of(how, set_addr, oldset_addr),
            final(self)@.wf(),
    {
        if set_addr != 0 && !self.user.check_access(set_addr, 8) {
            return Err("efault");
        }
        if oldset_addr != 0 && !self.user.check_access(oldset_addr, 8) {
            return Err("efault");
        }
        let ghost k = self@;
        if let Some(t) = self.cur_task(0) {
            assert(k.task(t) == self.tasks.tasks@[t as int]@);
            if set_addr != 0 {
                let set: u64 = set_addr as u64;
                let mask: u64 = self.tasks.tasks[t].sig_mask;
                let new_mask: u64 = match how {
                    0 => (mask | set) & !UNMASKABLE,
                    1 => mask & !set,
                    2 => set & !UNMASKABLE,
                    _ => {
                        return Err("einval");
                    },
                };
                self.tasks.tasks[t].sig_mask = new_mask;
                assert(self@.tasks.tasks =~= k.tasks.tasks.update(
                    t as int,
                    TaskView { sig_mask: new_mask, ..k.task(t) },
                ));
                proof {
                    assert(k.tasks.knows(k.task(t)) && k.task(t).wf(k.store));
                    lemma_set_task_wf(k, k.store, t, self@.task(t));
                }
            }
        }
        Ok(0)
    }

    pub(crate) fn sys_futex(&self, uaddr: usize, op: usize, val: usize, timeout: usize, uaddr2: usize, val3: usize) -> (r:
        Result<usize, &'static str>)
        requires
            self@.futex_ok(uaddr, op, val, uaddr2, val3),
        ensures
            r == self@.futex_of(uaddr, op, val, timeout, uaddr2, val3),
    {
        if !self.user.check_access(uaddr, 4) {
            return Err("efault");
        }
        match op & 0xF {
            0 => answer(timeout == 0 || self.user.check_access(timeout, 16)),
            1 => {
                let wake: usize = if val == 0 {
                    1
                } else {
                    val
                };
                let n: usize = self.tasks.count();
                Ok(
                    if wake < n {
                        wake
                    } else {
                        n
                    },
                )
            },
            3 => {
                if !self.user.check_access(uaddr2, 4) {
                    return Err("efault");
                }
                let n: usize = val + val3;
                Ok(
                    if n < 128 {
                        n
                    } else {
                        128
                    },
                )
            },
            5 => answer(timeout != 0 && self.user.check_access(timeout, 16)),
            9 => {
                if !self.user.check_access(uaddr2, 4) {
                    return Err("efault");
                }
                let moves: usize = if val3 < 32 {
                    val3
                } else {
                    32
                };
                let wakes: usize = if val < 32 {
                    val
                } else {
                    32
                };
                Ok(wakes + moves)
            },
            _ => Err("enosys"),
        }
    }
}

} // verus!
