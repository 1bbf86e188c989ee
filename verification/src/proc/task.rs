//! One process.

use crate::cpu::context::{Context, ContextView};
use crate::fs::epoll::{EpollInstance, EpollView};
use crate::fs::filelike::{FileLike, FileView};
use crate::fs::store::{pipes_delivered, Store, StoreView};
use crate::ordered::ascending;
use crate::proc::fdtable::{
    close_all, drop_all, files_view, files_wf, find_free, free_fd, has_free_fd, lemma_free_fd_is_lowest,
    lemma_some_fd_is_free,
};
use crate::proc::stack::KernelStack;
use crate::sync::event::{delivered, EventBitflag, EventBus, EventBusView};
use crate::sync::futex::{FutexBucket, FutexView};
use crate::text::{decimal, push_decimal};
use std::collections::{BTreeMap, VecDeque};
use vstd::prelude::*;

verus! {

broadcast use {vstd::std_specs::btree::group_btree_axioms, vstd::laws_cmp::group_laws_cmp};

pub type Tid = usize;

pub type Pgid = i32;

#[derive(Clone, Copy, Debug, PartialEq, Eq, PartialOrd, Ord, Structural)]
pub struct Pid(pub usize);

impl Pid {
    pub const INIT: usize = 1;

    pub fn new() -> (r: Self)
        ensures
            r == Pid(0),
    {
        Pid(0)
    }

    pub fn get(&self) -> (r: usize)
        ensures
            r == self.0,
    {
        self.0
    }

    pub fn is_init(&self) -> (r: bool)
        ensures
            r == (self.0 == Pid::INIT),
    {
        self.0 == Self::INIT
    }

    /// The number in decimal.
    pub fn to_string(&self) -> (r: String)
        ensures
            r@ == decimal(self.0 as nat),
    {
        let mut s: String = String::new();
        push_decimal(&mut s, self.0 as u64);
        assert(s@ =~= decimal(self.0 as nat));
        s
    }
}

/// What a thread resumes from.
#[derive(Clone, Copy)]
pub struct ThdCtx {
    pub uctx: Context,
    pub clear_tid: usize,
    pub smask: u64,
}

/// What a thread context stands for.
#[verifier::ext_equal]
pub ghost struct ThdView {
    pub uctx: ContextView,
    pub clear_tid: usize,
    pub smask: u64,
}

impl View for ThdCtx {
    type V = ThdView;

    open spec fn view(&self) -> ThdView {
        ThdView { uctx: self.uctx@, clear_tid: self.clear_tid, smask: self.smask }
    }
}

impl ThdView {
    pub open spec fn initial() -> ThdView {
        ThdView { uctx: ContextView::new(), clear_tid: 0, smask: 0 }
    }
}

impl Default for ThdCtx {
    fn default() -> (r: Self)
        ensures
            r@ == ThdView::initial(),
    {
        ThdCtx { uctx: Context::new(), clear_tid: 0, smask: 0 }
    }
}

/// What an optional thread context stands for.
pub open spec fn thd_view(c: Option<ThdCtx>) -> Option<ThdView> {
    match c {
        Some(c) => Some(c@),
        None => None,
    }
}

#[derive(Clone, Debug)]
pub struct TaskInfo {
    pub id: usize,
    pub tag: String,
    pub status: Option<i32>,
    pub fds: Vec<String>,
}

/// A process. Other processes are named by their places in the table they stand in.
pub struct Task {
    pub info: TaskInfo,
    pub parent: Option<usize>,
    pub subtasks: Vec<usize>,
    pub files: BTreeMap<usize, FileLike>,
    pub cwd: String,
    pub exec_path: String,
    pub futexes: BTreeMap<usize, usize>,
    pub buckets: Vec<FutexBucket>,
    pub pid: Pid,
    pub pgid: Pgid,
    pub threads: Vec<Tid>,
    pub event: EventBus,
    pub exit_code: usize,
    pub sig_queue: VecDeque<(i32, isize)>,
    pub sig_mask: u64,
    pub ep_inst: BTreeMap<usize, EpollInstance>,
    pub kernel_stack: Option<KernelStack>,
    pub thd_ctx: Option<ThdCtx>,
    pub vm_token: usize,
}

/// What a process stands for.
#[verifier::ext_equal]
pub ghost struct TaskView {
    pub id: usize,
    pub tag: Seq<char>,
    pub status: Option<i32>,
    pub fds: Seq<Seq<char>>,
    pub parent: Option<usize>,
    pub subtasks: Seq<usize>,
    pub files: Map<usize, FileView>,
    pub cwd: Seq<char>,
    pub exec_path: Seq<char>,
    pub futexes: Map<usize, usize>,
    pub buckets: Seq<FutexView>,
    pub pid: Pid,
    pub pgid: Pgid,
    pub threads: Seq<Tid>,
    pub event: EventBusView,
    pub exit_code: usize,
    pub sig_queue: Seq<(i32, isize)>,
    pub sig_mask: u64,
    pub ep_inst: Map<usize, EpollView>,
    pub kernel_stack: Option<KernelStack>,
    pub thd_ctx: Option<ThdView>,
    pub vm_token: usize,
}

/// What a table of epoll sets stands for.
pub open spec fn ep_view(m: Map<usize, EpollInstance>) -> Map<usize, EpollView> {
    m.map_values(|e: EpollInstance| e@)
}

/// What a row of strings stands for.
pub open spec fn strings_view(v: Seq<String>) -> Seq<Seq<char>> {
    v.map_values(|s: String| s@)
}

/// What a row of futex buckets stands for.
pub open spec fn buckets_view(v: Seq<FutexBucket>) -> Seq<FutexView> {
    v.map_values(|b: FutexBucket| b@)
}

impl View for Task {
    type V = TaskView;

    open spec fn view(&self) -> TaskView {
        TaskView {
            id: self.info.id,
            tag: self.info.tag@,
            status: self.info.status,
            fds: strings_view(self.info.fds@),
            parent: self.parent,
            subtasks: self.subtasks@,
            files: files_view(self.files@),
            cwd: self.cwd@,
            exec_path: self.exec_path@,
            futexes: self.futexes@,
            buckets: buckets_view(self.buckets@),
            pid: self.pid,
            pgid: self.pgid,
            threads: self.threads@,
            event: self.event@,
            exit_code: self.exit_code,
            sig_queue: self.sig_queue@,
            sig_mask: self.sig_mask,
            ep_inst: ep_view(self.ep_inst@),
            kernel_stack: self.kernel_stack,
            thd_ctx: thd_view(self.thd_ctx),
            vm_token: self.vm_token,
        }
    }
}

/// The signal is one of those that `mask` can hold, and it holds it.
pub open spec fn masked(mask: u64, signo: i32) -> bool {
    0 <= signo < 64 && mask & (1u64 << signo as u64) != 0
}

impl TaskView {
    /// A process that has nothing yet.
    pub open spec fn make(id: usize, tag: Seq<char>) -> TaskView {
        TaskView {
            id,
            tag,
            status: None,
            fds: Seq::empty(),
            parent: None,
            subtasks: Seq::empty(),
            files: Map::empty(),
            cwd: "/"@,
            exec_path: Seq::empty(),
            futexes: Map::empty(),
            buckets: Seq::empty(),
            pid: Pid(0),
            pgid: 0,
            threads: Seq::empty(),
            event: EventBusView::new(),
            exit_code: 0,
            sig_queue: Seq::empty(),
            sig_mask: 0,
            ep_inst: Map::empty(),
            kernel_stack: None,
            thd_ctx: Some(ThdView::initial()),
            vm_token: 0,
        }
    }

    /// Open files and epoll sets refer to places of the store, and every futex has its bucket.
    pub open spec fn wf(self, st: StoreView) -> bool {
        &&& files_wf(self.files, st)
        &&& forall|fd: usize| #[trigger] self.ep_inst.dom().contains(fd) ==> self.ep_inst[fd].wf(st)
        &&& forall|a: usize| #[trigger] self.futexes.dom().contains(a) ==> self.futexes[a] < self.buckets.len()
        &&& forall|i: int| 0 <= i < self.buckets.len() ==> (#[trigger] self.buckets[i]).wf()
    }

    /// The futex at `uaddr` has a bucket.
    pub open spec fn with_futex(self, uaddr: usize) -> TaskView {
        if self.futexes.dom().contains(uaddr) {
            self
        } else {
            TaskView {
                futexes: self.futexes.insert(uaddr, self.buckets.len() as usize),
                buckets: self.buckets.push(FutexView::new()),
                ..self
            }
        }
    }

    /// The process has ended. Its parent is yet to hear of it.
    pub open spec fn quit(self, code: usize) -> TaskView {
        TaskView {
            files: Map::empty(),
            event: self.event.set(EventBitflag::PROC_QUIT),
            exit_code: code,
            threads: Seq::empty(),
            status: Some((code & 0xFF) as i32),
            ..self
        }
    }

    /// The same signal from the same sender is queued.
    pub open spec fn has_queued(self, signo: i32, sender: isize) -> bool {
        exists|i: int| 0 <= i < self.sig_queue.len() && #[trigger] self.sig_queue[i] == (signo, sender)
    }

    /// The signal was sent. One that is queued already is not queued twice.
    pub open spec fn signalled(self, signo: i32, sender: isize) -> TaskView {
        if self.has_queued(signo, sender) {
            self
        } else {
            TaskView {
                sig_queue: self.sig_queue.push((signo, sender)),
                event: self.event.set(EventBitflag::RECV_SIG),
                ..self
            }
        }
    }

    /// A signal is queued that is not masked.
    pub open spec fn has_unmasked(self) -> bool {
        exists|i: int| 0 <= i < self.sig_queue.len() && !masked(self.sig_mask, (#[trigger] self.sig_queue[i]).0)
    }

    /// A mask has 64 bits: the first signal that is not masked has a number below that.
    pub open spec fn signals_fit(self) -> bool {
        forall|i: int|
            0 <= i < self.sig_queue.len() && (forall|j: int|
                0 <= j < i ==> masked(self.sig_mask, (#[trigger] self.sig_queue[j]).0)) ==> 0 <= (
            #[trigger] self.sig_queue[i]).0 < 64
    }

    /// The file was put under the lowest free number.
    pub open spec fn with_file(self, f: FileView) -> TaskView {
        TaskView { files: self.files.insert(free_fd(self.files.dom(), 0), f), ..self }
    }

    /// The store after what is open under `fd` was dropped.
    pub open spec fn drop_fd(self, st: StoreView, fd: usize) -> StoreView {
        if self.files.dom().contains(fd) {
            self.files[fd].dropped(st)
        } else {
            st
        }
    }

    /// Closing `fd`: the process and the store after it, and the result.
    pub open spec fn close_of(self, st: StoreView, fd: usize) -> (TaskView, StoreView, Result<(), &'static str>) {
        if self.files.dom().contains(fd) {
            (TaskView { files: self.files.remove(fd), ..self }, self.files[fd].dropped(st), Ok(()))
        } else {
            (self, st, Err("no such file"))
        }
    }

    /// Duplicating `old_fd` onto the lowest free number. A copy is made and dropped on the way.
    pub open spec fn dup_of(self, st: StoreView, old_fd: usize, cloexec: bool) -> (
        TaskView,
        StoreView,
        Result<usize, &'static str>,
    ) {
        if self.files.dom().contains(old_fd) {
            let f = self.files[old_fd];
            (self.with_file(f.dup(cloexec)), f.dropped(st), Ok(free_fd(self.files.dom(), 0)))
        } else {
            (self, st, Err("no such file"))
        }
    }

    /// Duplicating `old_fd` onto `new_fd`, which is closed first. A copy is made and dropped on
    /// the way.
    pub open spec fn dup2_of(self, st: StoreView, old_fd: usize, new_fd: usize) -> (
        TaskView,
        StoreView,
        Result<usize, &'static str>,
    ) {
        if old_fd == new_fd {
            (self, st, Ok(new_fd))
        } else if self.files.dom().contains(old_fd) {
            let f = self.files[old_fd];
            let mid = self.drop_fd(st, new_fd);
            (TaskView { files: self.files.insert(new_fd, f.dup(false)), ..self }, f.dropped(mid), Ok(new_fd))
        } else {
            (self, st, Err("no such file"))
        }
    }

    /// Setting whether `fd` is to be closed on exec. The entry is replaced by a copy.
    pub open spec fn cloexec_of(self, st: StoreView, fd: usize, val: bool) -> (
        TaskView,
        StoreView,
        Result<(), &'static str>,
    ) {
        if self.files.dom().contains(fd) {
            let f = self.files[fd];
            (TaskView { files: self.files.insert(fd, f.dup(val)), ..self }, f.dropped(st), Ok(()))
        } else {
            (self, st, Err("no such file"))
        }
    }
}

/// `after` is `noted` once those who wait for the process's events were told of them.
pub open spec fn task_told<F: Fn(usize, u32) -> bool>(run: F, noted: TaskView, after: TaskView) -> bool {
    &&& after == (TaskView { event: after.event, ..noted })
    &&& delivered(run, noted.event, after.event)
}

impl Task {
    pub fn make(id: usize, tag: &str) -> (r: Self)
        ensures
            r@ == TaskView::make(id, tag@),
    {
        let r = Task {
            info: TaskInfo { id, tag: tag.to_owned(), status: None, fds: Vec::new() },
            parent: None,
            subtasks: Vec::new(),
            files: BTreeMap::new(),
            cwd: "/".to_owned(),
            exec_path: String::new(),
            futexes: BTreeMap::new(),
            buckets: Vec::new(),
            pid: Pid::new(),
            pgid: 0,
            threads: Vec::new(),
            event: EventBus::make(),
            exit_code: 0,
            sig_queue: VecDeque::new(),
            sig_mask: 0,
            ep_inst: BTreeMap::new(),
            kernel_stack: None,
            thd_ctx: Some(ThdCtx::default()),
            vm_token: 0,
        };
        assert(r@ =~= TaskView::make(id, tag@));
        r
    }

    pub fn id(&self) -> (r: usize)
        ensures
            r == self@.id,
    {
        self.info.id
    }

    pub fn tag(&self) -> (r: String)
        ensures
            r@ == self@.tag,
    {
        self.info.tag.clone()
    }

    pub fn link_parent(&mut self, p: usize)
        ensures
            final(self)@ == (TaskView { parent: Some(p), ..old(self)@ }),
    {
        self.parent = Some(p);
    }

    pub fn link_child(&mut self, c: usize)
        ensures
            final(self)@ == (TaskView { subtasks: old(self)@.subtasks.push(c), ..old(self)@ }),
    {
        self.subtasks.push(c);
    }

    pub fn done(&self) -> (r: bool)
        ensures
            r == self@.status is Some,
    {
        self.info.status.is_some()
    }

    pub fn n_children(&self) -> (r: usize)
        ensures
            r == self@.subtasks.len(),
    {
        self.subtasks.len()
    }

    /// The place of the bucket for the futex at `uaddr`, which is made if there is none.
    pub fn get_futex(&mut self, uaddr: usize) -> (r: usize)
        ensures
            final(self)@ == old(self)@.with_futex(uaddr),
            final(self)@.futexes.dom().contains(uaddr),
            r == final(self)@.futexes[uaddr],
    {
        match self.futexes.get(&uaddr) {
            Some(i) => *i,
            None => {
                let i: usize = self.buckets.len();
                self.futexes.insert(uaddr, i);
                self.buckets.push(FutexBucket::new());
                assert(self@ =~= old(self)@.with_futex(uaddr));
                i
            },
        }
    }

    /// Ends the process: closes its files and says that it quit, with its exit code. Returns the
    /// parent, which is to hear that a child quit.
    pub fn exit_proc<F: Fn(usize, u32) -> bool>(&mut self, st: &mut Store, code: usize, run: &F) -> (r: Option<usize>)
        requires
            old(self)@.wf(old(st)@),
            forall|c: usize, e: u32| call_requires(*run, (c, e)),
        ensures
            task_told(*run, old(self)@.quit(code), final(self)@),
            pipes_delivered(
                *run,
                drop_all(ascending(old(self)@.files.dom()), old(self)@.files, old(st)@),
                final(st)@,
            ),
            r == old(self)@.parent,
    {
        let parent = self.note_exit(st, code);
        st.deliver(run);
        self.event.deliver(run);
        parent
    }

    /// Ends the process. Its events are noted.
    pub(crate) fn note_exit(&mut self, st: &mut Store, code: usize) -> (r: Option<usize>)
        requires
            old(self)@.wf(old(st)@),
        ensures
            final(self)@ == old(self)@.quit(code),
            final(st)@ == drop_all(ascending(old(self)@.files.dom()), old(self)@.files, old(st)@),
            r == old(self)@.parent,
    {
        assert(files_view(self.files@).dom() =~= self.files@.dom());
        close_all(&mut self.files, st);
        self.event.note(0, EventBitflag::PROC_QUIT);
        assert((code & 0xFF) | ((code >> 8) << 8) == code && code & 0xFF <= 0xFF) by (bit_vector);
        self.exit_code = (code & 0xFF) | ((code >> 8) << 8);
        self.threads.clear();
        self.info.status = Some((code & 0xFF) as i32);
        assert(self@ =~= old(self)@.quit(code));
        self.parent
    }

    pub fn exited(&self) -> (r: bool)
        ensures
            r == (self@.threads.len() == 0 || self@.status is Some),
    {
        self.threads.len() == 0 || self.info.status.is_some()
    }

    /// Takes the context to run with, or a fresh one if it is out.
    pub fn begin_run(&mut self) -> (r: ThdCtx)
        ensures
            r@ == (match old(self)@.thd_ctx {
                Some(c) => c,
                None => ThdView::initial(),
            }),
            final(self)@ == (TaskView { thd_ctx: None, ..old(self)@ }),
    {
        let c = self.thd_ctx;
        self.thd_ctx = None;
        match c {
            Some(c) => c,
            None => ThdCtx::default(),
        }
    }

    pub fn end_run(&mut self, cx: ThdCtx)
        ensures
            final(self)@ == (TaskView { thd_ctx: Some(cx@), ..old(self)@ }),
    {
        self.thd_ctx = Some(cx);
    }

    pub fn get_ep_mut(&self, fd: usize) -> (r: Result<EpollInstance, &'static str>)
        ensures
            self@.ep_inst.dom().contains(fd) ==> r is Ok && r->Ok_0@ == self@.ep_inst[fd],
            !self@.ep_inst.dom().contains(fd) ==> r == Err::<EpollInstance, _>("no such epoll"),
    {
        match self.ep_inst.get(&fd) {
            Some(e) => Ok(e.clone()),
            None => Err("no such epoll"),
        }
    }

    pub fn get_ep_ref(&self, fd: usize) -> (r: Result<EpollInstance, &'static str>)
        ensures
            self@.ep_inst.dom().contains(fd) ==> r is Ok && r->Ok_0@ == self@.ep_inst[fd],
            !self@.ep_inst.dom().contains(fd) ==> r == Err::<EpollInstance, _>("no such epoll"),
    {
        self.get_ep_mut(fd)
    }

    pub fn set_ep(&mut self, fd: usize, inst: EpollInstance)
        ensures
            final(self)@ == (TaskView { ep_inst: old(self)@.ep_inst.insert(fd, inst@), ..old(self)@ }),
    {
        self.ep_inst.insert(fd, inst);
        assert(self@.ep_inst =~= old(self)@.ep_inst.insert(fd, inst@));
    }

    /// Queues a signal that is not queued yet and tells those who wait for one.
    pub fn send_sig<F: Fn(usize, u32) -> bool>(&mut self, signo: i32, sender_tid: isize, run: &F)
        requires
            forall|c: usize, e: u32| call_requires(*run, (c, e)),
        ensures
            task_told(*run, old(self)@.signalled(signo, sender_tid), final(self)@),
    {
        self.note_sig(signo, sender_tid);
        self.event.deliver(run);
    }

    /// Queues a signal. That it came is noted.
    pub(crate) fn note_sig(&mut self, signo: i32, sender_tid: isize)
        ensures
            final(self)@ == old(self)@.signalled(signo, sender_tid),
    {
        let mut i: usize = 0;
        while i < self.sig_queue.len()
            invariant
                i <= self.sig_queue@.len(),
                self@ == old(self)@,
                forall|j: int| 0 <= j < i ==> #[trigger] self.sig_queue@[j] != (signo, sender_tid),
            decreases self.sig_queue@.len() - i,
        {
            if self.sig_queue[i].0 == signo && self.sig_queue[i].1 == sender_tid {
                assert(old(self)@.sig_queue[i as int] == (signo, sender_tid));
                return ;
            }
            i += 1;
        }
        self.sig_queue.push_back((signo, sender_tid));
        self.event.note(0, EventBitflag::RECV_SIG);
        assert(!old(self)@.has_queued(signo, sender_tid));
    }

    /// Whether a signal is queued that is not masked.
    pub fn has_sig(&self) -> (r: bool)
        requires
            self@.signals_fit(),
        ensures
            r == self@.has_unmasked(),
    {
        let mut i: usize = 0;
        while i < self.sig_queue.len()
            invariant
                i <= self.sig_queue@.len(),
                self@.signals_fit(),
                forall|j: int| 0 <= j < i ==> masked(self.sig_mask, (#[trigger] self.sig_queue@[j]).0),
            decreases self.sig_queue@.len() - i,
        {
            let s: i32 = self.sig_queue[i].0;
            assert(0 <= self@.sig_queue[i as int].0 < 64);
            if (self.sig_mask & (1u64 << s as u64)) == 0 {
                assert(!masked(self@.sig_mask, self@.sig_queue[i as int].0));
                return true;
            }
            i += 1;
        }
        false
    }

    /// The lowest number from `arg` on under which no file is open.
    pub fn get_free_fd_from(&self, arg: usize) -> (r: usize)
        requires
            has_free_fd(self@.files.dom(), arg),
        ensures
            r == free_fd(self@.files.dom(), arg),
    {
        assert(files_view(self.files@).dom() =~= self.files@.dom());
        find_free(&self.files, arg)
    }

    /// The lowest number under which no file is open.
    pub fn get_free_fd(&self) -> (r: usize)
        ensures
            r == free_fd(self@.files.dom(), 0),
    {
        let n: usize = self.files.len();
        proof {
            assert(files_view(self.files@).dom() =~= self.files@.dom());
            lemma_some_fd_is_free(self@.files.dom());
        }
        self.get_free_fd_from(0)
    }

    pub fn add_file(&mut self, fl: FileLike) -> (r: usize)
        ensures
            r == free_fd(old(self)@.files.dom(), 0),
            final(self)@ == old(self)@.with_file(fl@),
    {
        let fd: usize = self.get_free_fd();
        self.files.insert(fd, fl);
        assert(self@.files =~= old(self)@.files.insert(fd, fl@));
        fd
    }

    /// A copy of the entry. Whoever is done with it drops it.
    pub fn get_file(&self, fd: usize) -> (r: Option<FileLike>)
        ensures
            r is Some == self@.files.dom().contains(fd),
            r is Some ==> r->Some_0@ == self@.files[fd],
    {
        match self.files.get(&fd) {
            Some(f) => Some(f.clone()),
            None => None,
        }
    }

    /// Closes a file. Those who wait for the events of a pipe hear of it.
    pub fn close_fd<F: Fn(usize, u32) -> bool>(&mut self, st: &mut Store, fd: usize, run: &F) -> (r: Result<
        (),
        &'static str,
    >)
        requires
            old(self)@.wf(old(st)@),
            forall|c: usize, e: u32| call_requires(*run, (c, e)),
        ensures
            final(self)@ == old(self)@.close_of(old(st)@, fd).0,
            pipes_delivered(*run, old(self)@.close_of(old(st)@, fd).1, final(st)@),
            r == old(self)@.close_of(old(st)@, fd).2,
    {
        let r = self.note_close(st, fd);
        st.deliver(run);
        r
    }

    pub(crate) fn note_close(&mut self, st: &mut Store, fd: usize) -> (r: Result<(), &'static str>)
        requires
            old(self)@.wf(old(st)@),
        ensures
            (final(self)@, final(st)@, r) == old(self)@.close_of(old(st)@, fd),
    {
        match self.files.remove(&fd) {
            Some(f) => {
                assert(old(self)@.files.dom().contains(fd));
                f.note_release(st);
                assert(self@.files =~= old(self)@.files.remove(fd));
                Ok(())
            },
            None => {
                assert(self@.files =~= old(self)@.files);
                Err("no such file")
            },
        }
    }

    /// Duplicates a file onto the lowest free number.
    pub fn dup_fd<F: Fn(usize, u32) -> bool>(&mut self, st: &mut Store, old_fd: usize, cloexec: bool, run: &F) -> (r: Result<
        usize,
        &'static str,
    >)
        requires
            old(self)@.wf(old(st)@),
            forall|c: usize, e: u32| call_requires(*run, (c, e)),
        ensures
            final(self)@ == old(self)@.dup_of(old(st)@, old_fd, cloexec).0,
            pipes_delivered(*run, old(self)@.dup_of(old(st)@, old_fd, cloexec).1, final(st)@),
            r == old(self)@.dup_of(old(st)@, old_fd, cloexec).2,
    {
        let r = self.note_dup(st, old_fd, cloexec);
        st.deliver(run);
        r
    }

    pub(crate) fn note_dup(&mut self, st: &mut Store, old_fd: usize, cloexec: bool) -> (r: Result<usize, &'static str>)
        requires
            old(self)@.wf(old(st)@),
        ensures
            (final(self)@, final(st)@, r) == old(self)@.dup_of(old(st)@, old_fd, cloexec),
    {
        match self.get_file(old_fd) {
            Some(f) => {
                let fd: usize = self.add_file(f.dup(cloexec));
                f.note_release(st);
                Ok(fd)
            },
            None => Err("no such file"),
        }
    }

    /// Duplicating a number onto itself does nothing, whether or not it is open.
    pub fn dup2_fd<F: Fn(usize, u32) -> bool>(&mut self, st: &mut Store, old_fd: usize, new_fd: usize, run: &F) -> (r: Result<
        usize,
        &'static str,
    >)
        requires
            old(self)@.wf(old(st)@),
            forall|c: usize, e: u32| call_requires(*run, (c, e)),
        ensures
            final(self)@ == old(self)@.dup2_of(old(st)@, old_fd, new_fd).0,
            pipes_delivered(*run, old(self)@.dup2_of(old(st)@, old_fd, new_fd).1, final(st)@),
            r == old(self)@.dup2_of(old(st)@, old_fd, new_fd).2,
    {
        let r = self.note_dup2(st, old_fd, new_fd);
        st.deliver(run);
        r
    }

    pub(crate) fn note_dup2(&mut self, st: &mut Store, old_fd: usize, new_fd: usize) -> (r: Result<usize, &'static str>)
        requires
            old(self)@.wf(old(st)@),
        ensures
            (final(self)@, final(st)@, r) == old(self)@.dup2_of(old(st)@, old_fd, new_fd),
    {
        if old_fd == new_fd {
            return Ok(new_fd);
        }
        match self.get_file(old_fd) {
            Some(f) => {
                let ghost before = self@.files;
                assert(before.dom().contains(old_fd));
                match self.files.remove(&new_fd) {
                    Some(g) => {
                        assert(before.dom().contains(new_fd));
                        g.note_release(st);
                    },
                    None => {},
                }
                self.files.insert(new_fd, f.dup(false));
                assert(self@.files =~= before.insert(new_fd, f@.dup(false)));
                f.note_release(st);
                Ok(new_fd)
            },
            None => Err("no such file"),
        }
    }

    pub fn fd_count(&self) -> (r: usize)
        ensures
            r == self@.files.dom().len(),
    {
        assert(files_view(self.files@).dom() =~= self.files@.dom());
        self.files.len()
    }

    /// Says whether a file is to be closed on exec.
    pub fn set_cloexec<F: Fn(usize, u32) -> bool>(&mut self, st: &mut Store, fd: usize, val: bool, run: &F) -> (r: Result<
        (),
        &'static str,
    >)
        requires
            old(self)@.wf(old(st)@),
            forall|c: usize, e: u32| call_requires(*run, (c, e)),
        ensures
            final(self)@ == old(self)@.cloexec_of(old(st)@, fd, val).0,
            pipes_delivered(*run, old(self)@.cloexec_of(old(st)@, fd, val).1, final(st)@),
            r == old(self)@.cloexec_of(old(st)@, fd, val).2,
    {
        let r = self.note_cloexec(st, fd, val);
        st.deliver(run);
        r
    }

    pub(crate) fn note_cloexec(&mut self, st: &mut Store, fd: usize, val: bool) -> (r: Result<(), &'static str>)
        requires
            old(self)@.wf(old(st)@),
        ensures
            (final(self)@, final(st)@, r) == old(self)@.cloexec_of(old(st)@, fd, val),
    {
        match self.files.remove(&fd) {
            Some(f) => {
                assert(old(self)@.files.dom().contains(fd));
                let d = f.dup(val);
                f.note_release(st);
                self.files.insert(fd, d);
                assert(self@.files =~= old(self)@.files.insert(fd, f@.dup(val)));
                Ok(())
            },
            None => {
                assert(self@.files =~= old(self)@.files);
                Err("no such file")
            },
        }
    }
}

/// A file goes under a number that was free, below which none is, and closing it puts the table
/// back as it was.
pub proof fn law_close_undoes_add(t: TaskView, st: StoreView, f: FileView)
    requires
        t.files.dom().finite(),
        t.files.dom().len() <= usize::MAX,
    ensures
        ({
            let fd = free_fd(t.files.dom(), 0);
            &&& !t.files.dom().contains(fd)
            &&& forall|i: usize| i < fd ==> #[trigger] t.files.dom().contains(i)
            &&& t.with_file(f).files[fd] == f
            &&& t.with_file(f).close_of(st, fd).0 == t
            &&& t.with_file(f).close_of(st, fd).2 == Ok::<(), &'static str>(())
        }),
{
    lemma_some_fd_is_free(t.files.dom());
    lemma_free_fd_is_lowest(t.files.dom(), 0);
    let fd = free_fd(t.files.dom(), 0);
    assert(t.with_file(f).files.remove(fd) =~= t.files);
}

/// A closed number cannot be closed again.
pub proof fn law_close_once(t: TaskView, st: StoreView, fd: usize)
    ensures
        t.close_of(st, fd).0.close_of(t.close_of(st, fd).1, fd).2 == Err::<(), _>("no such file"),
{
}

/// A duplicate of a file reads the same bytes from the same cursor as the file itself.
pub proof fn law_dup_reads_alike(t: TaskView, st: StoreView, old_fd: usize, cloexec: bool, buf: Seq<u8>)
    requires
        t.files.dom().finite(),
        t.files.dom().len() <= usize::MAX,
        t.files.dom().contains(old_fd),
        t.files[old_fd] is File,
    ensures
        ({
            let (u, s, r) = t.dup_of(st, old_fd, cloexec);
            &&& r is Ok
            &&& s == st
            &&& u.files[old_fd] == t.files[old_fd]
            &&& u.files[r->Ok_0].read_of(s, buf) == u.files[old_fd].read_of(s, buf)
        }),
{
    lemma_some_fd_is_free(t.files.dom());
    lemma_free_fd_is_lowest(t.files.dom(), 0);
}

/// A process that has ended stays so: nothing is open and it counts as exited.
pub proof fn law_quit_is_final(t: TaskView, code: usize)
    ensures
        t.quit(code).status is Some,
        t.quit(code).files.dom() == Set::<usize>::empty(),
        t.quit(code).exit_code == code,
{
    assert(t.quit(code).files.dom() =~= Set::<usize>::empty());
}

/// Sending a signal twice queues it once.
pub proof fn law_signal_queued_once(t: TaskView, signo: i32, sender: isize)
    ensures
        t.signalled(signo, sender).has_queued(signo, sender),
        t.signalled(signo, sender).signalled(signo, sender) == t.signalled(signo, sender),
{
    let u = t.signalled(signo, sender);
    if !t.has_queued(signo, sender) {
        assert(u.sig_queue[t.sig_queue.len() as int] == (signo, sender));
    }
}

} // verus!
