//! System calls on files.

use crate::fs::cache::{has_block, SlotView};
use crate::fs::file::{FHandle, FHandleView};
use crate::fs::filelike::{FileLike, FileView};
use crate::fs::store::{FdOpt, FdState, StoreView, O_APPEND, O_CLOEXEC, O_NONBLOCK};
use crate::kernel::service::{pipe_fds, store_with_pipe, with_pipe};
use crate::kernel::state::{lemma_set_task_wf, Kernel, KernelView};
use crate::memory::{accessible, page_floor, page_offset, page_start, PAGE_SZ};
use crate::proc::fdtable::{files_view, free_fd, has_free_fd};
use crate::proc::table::lemma_task_wf_grows;
use crate::proc::task::TaskView;
use crate::terminal::{
    FIOCLEX, FIONBIO, FIONCLEX, TCGETS, TCSETS, TERMIOS_SZ, TIOCGPGRP, TIOCGWINSZ, TIOCSPGRP, WINSIZE_SZ,
};
use vstd::prelude::*;

verus! {

broadcast use {vstd::std_specs::btree::group_btree_axioms, vstd::laws_cmp::group_laws_cmp};

pub const N_PROC: usize = 256;

/// File numbers from here on are refused.
pub const FD_LIMIT: usize = 1024;

/// The most bytes that one read gives of what is not cached.
pub const MAX_READ: usize = 0x1_0000;

pub const F_DUPFD: usize = 0;

pub const F_GETFD: usize = 1;

pub const F_SETFD: usize = 2;

pub const F_GETFL: usize = 3;

pub const F_SETFL: usize = 4;

pub const F_GETLK: usize = 5;

pub const F_SETLK: usize = 6;

pub const F_SETLKW: usize = 7;

pub const FD_CLOEXEC: usize = 1;

pub const F_DUPFD_CLOEXEC: usize = 1030;

/// The answer to a call that only has an address to check.
pub open spec fn granted(ok: bool) -> Result<usize, &'static str> {
    if ok {
        Ok(0)
    } else {
        Err("efault")
    }
}

/// The slots of a chain hold a changed one for block `k`.
pub open spec fn has_dirty(s: Seq<SlotView>, k: usize) -> bool {
    exists|i: int| 0 <= i < s.len() && (#[trigger] s[i]).id == k && s[i].modified
}

/// How a file is opened with the given flags.
pub open spec fn open_opt(flags: usize) -> FdOpt {
    FdOpt {
        read: flags & 3 == 0 || flags & 3 == 2,
        write: flags & 3 == 1 || flags & 3 == 2,
        append: flags & O_APPEND != 0,
        non_blocking: flags & O_NONBLOCK != 0,
    }
}

/// The answer to a call that only has an address to check.
pub fn answer(ok: bool) -> (r: Result<usize, &'static str>)
    ensures
        r == granted(ok),
{
    if ok {
        Ok(0)
    } else {
        Err("efault")
    }
}

impl KernelView {
    pub open spec fn access(self, addr: usize, len: usize) -> bool {
        accessible(self.user, addr, len)
    }

    /// A block with the number of the file is cached.
    pub open spec fn is_cached(self, fd: usize) -> bool {
        has_block(self.cache.chain(fd), fd)
    }

    /// The pages that a read from cache spans can be counted.
    pub open spec fn read_ok(self, fd: usize, addr: usize, count: usize) -> bool {
        addr != 0 && count > 0 && self.access(addr, count) && self.is_cached(fd) ==> page_floor(addr + count)
            - page_floor(addr as int) + 4096 <= usize::MAX
    }

    pub open spec fn read_of(self, fd: usize, addr: usize, count: usize) -> Result<usize, &'static str> {
        if count == 0 {
            Ok(0)
        } else if addr == 0 || !self.access(addr, count) {
            Err("efault")
        } else if self.is_cached(fd) {
            Ok(
                if count > PAGE_SZ {
                    (count - PAGE_SZ) as usize
                } else {
                    count
                },
            )
        } else {
            Ok(
                if count > MAX_READ {
                    MAX_READ
                } else {
                    count
                },
            )
        }
    }

    /// A write. What crosses into another page counts with the offset into the first one.
    pub open spec fn write_of(self, fd: usize, addr: usize, count: usize) -> (KernelView, Result<usize, &'static str>) {
        if count == 0 {
            (self, Ok(0))
        } else if addr == 0 || !self.access(addr, count) {
            (self, Err("efault"))
        } else {
            let off = addr as int % 4096;
            let marked = KernelView { cache: self.cache.dirtied(fd), ..self };
            (
                if fd <= 2 {
                    marked.disk_used()
                } else {
                    marked
                },
                Ok(
                    if count <= 4096 - off {
                        count
                    } else {
                        (count + off) as usize
                    },
                ),
            )
        }
    }

    /// The running process opens a new file.
    pub open spec fn open_of(self, path_addr: usize, flags: usize) -> (KernelView, Result<usize, &'static str>) {
        if path_addr == 0 || !self.access(path_addr, 256) {
            (self, Err("efault"))
        } else if flags & 0o100 != 0 && flags & 0o200 != 0 && self.is_cached(path_addr) {
            (self, Err("eexist"))
        } else {
            match self.current() {
                None => (self, Ok((3 + path_addr % 64) as usize)),
                Some(t) => {
                    let h = FHandleView {
                        path: "anon"@,
                        data: self.store.blobs.len() as usize,
                        state: self.store.states.len() as usize,
                        pipe: false,
                        cloexec: flags & O_CLOEXEC != 0,
                    };
                    (
                        KernelView {
                            store: StoreView {
                                blobs: self.store.blobs.push(Seq::empty()),
                                states: self.store.states.push(FdState { off: 0, opt: open_opt(flags) }),
                                ..self.store
                            },
                            ..self
                        }.set_task(t, self.task(t).with_file(FileView::File(h))),
                        Ok(free_fd(self.task(t).files.dom(), 0)),
                    )
                },
            }
        }
    }

    /// A close drops what is cached under the number.
    pub open spec fn close_of(self, fd: usize) -> (KernelView, Result<usize, &'static str>) {
        if fd > FD_LIMIT {
            (self, Err("ebadf"))
        } else {
            let gone = KernelView { cache: self.cache.without(fd), ..self };
            (
                if self.is_cached(fd) {
                    gone.disk_used()
                } else {
                    gone
                },
                Ok(0),
            )
        }
    }

    pub open spec fn stat_of(self, by_path: bool, a0: usize, buf: usize) -> Result<usize, &'static str> {
        granted(buf != 0 && self.access(buf, 144) && (by_path ==> self.access(a0, 256)))
    }

    pub open spec fn ioctl_of(self, cmd: usize, arg: usize) -> Result<usize, &'static str> {
        if cmd == TCGETS || cmd == TCSETS {
            granted(self.access(arg, TERMIOS_SZ))
        } else if cmd == TIOCGPGRP || cmd == TIOCSPGRP || cmd == FIONBIO {
            granted(self.access(arg, 4))
        } else if cmd == TIOCGWINSZ {
            granted(self.access(arg, WINSIZE_SZ))
        } else if cmd == FIONCLEX || cmd == FIOCLEX {
            Ok(0)
        } else {
            Err("enotty")
        }
    }

    /// A word has a high half to put a number in.
    pub open spec fn pipe_ok(self, fds_addr: usize) -> bool {
        fds_addr != 0 && self.access(fds_addr, 8) ==> (self.current() matches Some(t) ==> (
        self.task(t).files.dom().len() + 2 <= N_PROC ==> usize::BITS > 32))
    }

    /// The running process gets a pipe. The result holds the number to read from in its low half
    /// and the number to write to in its high half.
    pub open spec fn pipe_of(self, fds_addr: usize) -> (KernelView, Result<usize, &'static str>) {
        if fds_addr == 0 || !self.access(fds_addr, 8) {
            (self, Err("efault"))
        } else {
            match self.current() {
                None => (self, Err("esrch")),
                Some(t) => if self.task(t).files.dom().len() + 2 > N_PROC {
                    (self, Err("emfile"))
                } else {
                    let data = self.store.pipes.len() as usize;
                    let (rd, wr) = pipe_fds(self.task(t), data);
                    (
                        KernelView { store: store_with_pipe(self.store), ..self }.set_task(
                            t,
                            with_pipe(self.task(t), data),
                        ),
                        Ok(rd | (wr << 32)),
                    )
                },
            }
        }
    }

    /// The lowest free number from `old_fd` on. Nothing is opened under it.
    pub open spec fn dup_of(self, old_fd: usize) -> Result<usize, &'static str> {
        if old_fd >= FD_LIMIT {
            Err("ebadf")
        } else {
            match self.current() {
                None => Ok((old_fd + 1) as usize),
                Some(t) => Ok(free_fd(self.task(t).files.dom(), old_fd)),
            }
        }
    }

    pub open spec fn dup_ok(self, old_fd: usize) -> bool {
        old_fd < FD_LIMIT ==> (self.current() matches Some(t) ==> has_free_fd(self.task(t).files.dom(), old_fd))
    }

    /// The running process duplicates `old_fd` onto `new_fd`, which is closed in any case.
    pub open spec fn dup2_of(self, old_fd: usize, new_fd: usize) -> (KernelView, Result<usize, &'static str>) {
        if old_fd >= FD_LIMIT || new_fd >= FD_LIMIT {
            (self, Err("ebadf"))
        } else if old_fd == new_fd {
            (self, Ok(new_fd))
        } else {
            match self.current() {
                None => (self, Ok(new_fd)),
                Some(t) => {
                    let files = self.task(t).files;
                    let rest = files.remove(new_fd);
                    let (left, mid, r) = if rest.dom().contains(old_fd) {
                        (
                            rest.insert(new_fd, rest[old_fd].dup(false)),
                            rest[old_fd].dropped(self.store),
                            Ok(new_fd),
                        )
                    } else {
                        (rest, self.store, Err("ebadf"))
                    };
                    (
                        KernelView {
                            store: if files.dom().contains(new_fd) {
                                files[new_fd].dropped(mid)
                            } else {
                                mid
                            },
                            ..self
                        }.set_task(t, TaskView { files: left, ..self.task(t) }),
                        r,
                    )
                },
            }
        }
    }

    /// A number of a duplicate can be counted.
    pub open spec fn fcntl_ok(self, fd: usize, cmd: usize, arg: usize) -> bool {
        let base = if fd > arg {
            fd
        } else {
            arg
        };
        fd < FD_LIMIT ==> {
            &&& cmd == F_DUPFD ==> base + (self.clk.wall & 3) <= usize::MAX
            &&& cmd == F_DUPFD_CLOEXEC ==> base < usize::MAX
        }
    }

    pub open spec fn fcntl_of(self, fd: usize, cmd: usize, arg: usize) -> Result<usize, &'static str> {
        let base = if fd > arg {
            fd
        } else {
            arg
        };
        if fd >= FD_LIMIT {
            Err("ebadf")
        } else if cmd == F_DUPFD {
            Ok((base + (self.clk.wall & 3)) as usize)
        } else if cmd == F_DUPFD_CLOEXEC {
            Ok((base + 1) as usize)
        } else if cmd == F_GETFD {
            Ok(
                if has_dirty(self.cache.chain(fd), fd) {
                    FD_CLOEXEC
                } else {
                    0
                },
            )
        } else if cmd == F_SETFD {
            Ok(0)
        } else if cmd == F_GETFL {
            Ok(
                if fd <= 2 {
                    O_NONBLOCK | O_APPEND
                } else {
                    O_NONBLOCK
                },
            )
        } else if cmd == F_SETFL {
            if arg & !(O_NONBLOCK | O_APPEND) != 0 {
                Err("einval")
            } else {
                Ok(0)
            }
        } else if cmd == F_GETLK || cmd == F_SETLK || cmd == F_SETLKW {
            granted(self.access(arg, 32))
        } else {
            Err("einval")
        }
    }
}

impl Kernel {
    /// Whether a block with that number is cached.
    pub fn cached(&self, k: usize) -> (r: bool)
        requires
            self@.cache.wf(),
        ensures
            r == self@.is_cached(k),
    {
        let h: usize = self.cache.idx(k);
        assert(self@.cache.chain(k) == self.cache.chains@[h as int]@);
        self.cache.chains[h].contains(k)
    }

    pub(crate) fn sys_read(&self, fd: usize, buf_addr: usize, count: usize) -> (r: Result<usize, &'static str>)
        requires
            self@.wf(),
            self@.read_ok(fd, buf_addr, count),
        ensures
            r == self@.read_of(fd, buf_addr, count),
    {
        if buf_addr == 0 && count > 0 {
            return Err("efault");
        }
        if count == 0 {
            return Ok(0);
        }
        if !self.user.check_access(buf_addr, count) {
            return Err("efault");
        }
        let first: usize = page_start(buf_addr);
        let last: usize = page_start(buf_addr + count);
        let page_span: usize = (last - first) / PAGE_SZ;
        if self.cached(fd) {
            let available: usize = (page_span + 1) * PAGE_SZ;
            let transfer: usize = if count < available {
                count
            } else {
                available
            };
            let readahead: usize = if transfer > PAGE_SZ {
                PAGE_SZ
            } else {
                0
            };
            return Ok(transfer - readahead);
        }
        let max_single_read: usize = PAGE_SZ * 16;
        if count > max_single_read {
            Ok(max_single_read)
        } else {
            Ok(count)
        }
    }

    pub(crate) fn sys_write(&mut self, fd: usize, buf_addr: usize, count: usize) -> (r: Result<usize, &'static str>)
        requires
            old(self)@.wf(),
        ensures
            (final(self)@, r) == old(self)@.write_of(fd, buf_addr, count),
            final(self)@.wf(),
    {
        if buf_addr == 0 && count > 0 {
            return Err("efault");
        }
        if count == 0 {
            return Ok(0);
        }
        if !self.user.check_access(buf_addr, count) {
            return Err("efault");
        }
        let page_off: usize = page_offset(buf_addr);
        let remaining_in_page: usize = PAGE_SZ - page_off;
        let actual_len: usize = if count <= remaining_in_page {
            count
        } else {
            let full_pages: usize = (count - remaining_in_page) / PAGE_SZ;
            let tail: usize = (count - remaining_in_page) % PAGE_SZ;
            remaining_in_page + full_pages * PAGE_SZ + tail + page_off
        };
        self.cache.mark_dirty(fd);
        if fd <= 2 {
            self.disk.count(&mut self.disks);
        }
        Ok(actual_len)
    }

    pub(crate) fn sys_open(&mut self, path_addr: usize, flags: usize) -> (r: Result<usize, &'static str>)
        requires
            old(self)@.wf(),
        ensures
            (final(self)@, r) == old(self)@.open_of(path_addr, flags),
            final(self)@.wf(),
    {
        if path_addr == 0 {
            return Err("efault");
        }
        if !self.user.check_access(path_addr, 256) {
            return Err("efault");
        }
        let acc_mode: usize = flags & 3;
        let create: bool = (flags & 0o100) != 0;
        let excl: bool = (flags & 0o200) != 0;
        if create && excl && self.cached(path_addr) {
            return Err("eexist");
        }
        let ghost k = self@;
        match self.cur_task(0) {
            Some(t) => {
                let opt = FdOpt {
                    read: acc_mode == 0 || acc_mode == 2,
                    write: acc_mode == 1 || acc_mode == 2,
                    append: (flags & O_APPEND) != 0,
                    non_blocking: (flags & O_NONBLOCK) != 0,
                };
                let fh = FHandle::new(&mut self.store, "anon", opt, false, (flags & O_CLOEXEC) != 0);
                let ghost h = fh@;
                let fd: usize = self.tasks.tasks[t].add_file(FileLike::File(fh));
                assert(self@.tasks.tasks =~= k.tasks.tasks.update(t as int, k.task(t).with_file(FileView::File(h))));
                proof {
                    let v = k.task(t).with_file(FileView::File(h));
                    let later = self@.store;
                    assert(k.tasks.knows(k.task(t)) && k.task(t).wf(k.store));
                    lemma_task_wf_grows(k.task(t), k.store, later);
                    assert forall|x: usize| #[trigger] v.files.dom().contains(x) implies v.files[x].wf(later) by {
                        if x != fd {
                            assert(k.task(t).files.dom().contains(x));
                        }
                    }
                    lemma_set_task_wf(k, later, t, v);
                }
                Ok(fd)
            },
            None => Ok(3 + (path_addr % 64)),
        }
    }

    pub(crate) fn sys_close(&mut self, fd: usize) -> (r: Result<usize, &'static str>)
        requires
            old(self)@.wf(),
        ensures
            (final(self)@, r) == old(self)@.close_of(fd),
            final(self)@.wf(),
    {
        if fd > FD_LIMIT {
            return Err("ebadf");
        }
        let was_cached: bool = self.cached(fd);
        self.cache.invalidate(fd);
        if was_cached {
            self.disk.count(&mut self.disks);
        }
        Ok(0)
    }

    pub(crate) fn sys_stat(&self, by_path: bool, a0: usize, stat_buf: usize) -> (r: Result<usize, &'static str>)
        ensures
            r == self@.stat_of(by_path, a0, stat_buf),
    {
        if stat_buf == 0 {
            return Err("efault");
        }
        if !self.user.check_access(stat_buf, 144) {
            return Err("efault");
        }
        if by_path && !self.user.check_access(a0, 256) {
            return Err("efault");
        }
        Ok(0)
    }

    pub(crate) fn sys_ioctl(&self, cmd: usize, arg: usize) -> (r: Result<usize, &'static str>)
        ensures
            r == self@.ioctl_of(cmd, arg),
    {
        match cmd {
            TCGETS | TCSETS => answer(self.user.check_access(arg, TERMIOS_SZ)),
            TIOCGPGRP | TIOCSPGRP | FIONBIO => answer(self.user.check_access(arg, 4)),
            TIOCGWINSZ => answer(self.user.check_access(arg, WINSIZE_SZ)),
            FIONCLEX | FIOCLEX => Ok(0),
            _ => Err("enotty"),
        }
    }

    pub(crate) fn sys_pipe(&mut self, fds_addr: usize, _flags: usize) -> (r: Result<usize, &'static str>)
        requires
            old(self)@.wf(),
            old(self)@.pipe_ok(fds_addr),
        ensures
            (final(self)@, r) == old(self)@.pipe_of(fds_addr),
            final(self)@.wf(),
    {
        if fds_addr == 0 {
            return Err("efault");
        }
        if !self.user.check_access(fds_addr, 8) {
            return Err("efault");
        }
        match self.cur_task(0) {
            Some(t) => {
                assert(self@.task(t) == self.tasks.tasks@[t as int]@);
                let fd_count: usize = self.tasks.tasks[t].fd_count();
                if fd_count > N_PROC - 2 {
                    return Err("emfile");
                }
                let (rd, wr) = self.pipe_for(t);
                Ok(rd | (wr << 32usize))
            },
            None => Err("esrch"),
        }
    }

    pub(crate) fn sys_dup(&self, old_fd: usize) -> (r: Result<usize, &'static str>)
        requires
            self@.wf(),
            self@.dup_ok(old_fd),
        ensures
            r == self@.dup_of(old_fd),
    {
        if old_fd >= FD_LIMIT {
            return Err("ebadf");
        }
        match self.cur_task(0) {
            Some(t) => {
                assert(self@.task(t) == self.tasks.tasks@[t as int]@);
                Ok(self.tasks.tasks[t].get_free_fd_from(old_fd))
            },
            None => Ok(old_fd + 1),
        }
    }

    pub(crate) fn sys_dup2(&mut self, old_fd: usize, new_fd: usize) -> (r: Result<usize, &'static str>)
        requires
            old(self)@.wf(),
        ensures
            (final(self)@, r) == old(self)@.dup2_of(old_fd, new_fd),
            final(self)@.wf(),
    {
        if old_fd >= FD_LIMIT || new_fd >= FD_LIMIT {
            return Err("ebadf");
        }
        if old_fd == new_fd {
            return Ok(new_fd);
        }
        let ghost k = self@;
        match self.cur_task(0) {
            Some(t) => {
                let ghost files = k.task(t).files;
                assert(k.task(t) == self.tasks.tasks@[t as int]@);
                assert(k.task(t).wf(k.store));
                let prev = self.tasks.tasks[t].files.remove(&new_fd);
                let ghost rest = files_view(self.tasks.tasks@[t as int].files@);
                assert(rest =~= files.remove(new_fd));
                let mut found: bool = false;
                match self.tasks.tasks[t].get_file(old_fd) {
                    Some(f) => {
                        assert(files.dom().contains(old_fd));
                        self.tasks.tasks[t].files.insert(new_fd, f.dup(false));
                        assert(files_view(self.tasks.tasks@[t as int].files@) =~= rest.insert(new_fd, f@.dup(false)));
                        f.note_release(&mut self.store);
                        found = true;
                    },
                    None => {},
                }
                if let Some(g) = prev {
                    assert(files.dom().contains(new_fd));
                    g.note_release(&mut self.store);
                }
                assert(self@ =~= k.dup2_of(old_fd, new_fd).0) by {
                    assert(self@.tasks.tasks =~= k.dup2_of(old_fd, new_fd).0.tasks.tasks);
                }
                proof {
                    let v = self@.task(t);
                    assert(k.tasks.knows(k.task(t)));
                    lemma_task_wf_grows(k.task(t), k.store, self@.store);
                    assert forall|x: usize| #[trigger] v.files.dom().contains(x) implies v.files[x].wf(self@.store) by {
                        if x != new_fd {
                            assert(files.dom().contains(x));
                        } else {
                            assert(files.dom().contains(old_fd));
                        }
                    }
                    lemma_set_task_wf(k, self@.store, t, v);
                }
                if found {
                    Ok(new_fd)
                } else {
                    Err("ebadf")
                }
            },
            None => Ok(new_fd),
        }
    }

    pub(crate) fn sys_fcntl(&self, fd: usize, cmd: usize, arg: usize) -> (r: Result<usize, &'static str>)
        requires
            self@.wf(),
            self@.fcntl_ok(fd, cmd, arg),
        ensures
            r == self@.fcntl_of(fd, cmd, arg),
    {
        if fd >= FD_LIMIT {
            return Err("ebadf");
        }
        let base: usize = if fd > arg {
            fd
        } else {
            arg
        };
        match cmd {
            F_DUPFD => Ok(base + (self.clk.wall & 3)),
            F_DUPFD_CLOEXEC => Ok(base + 1),
            F_GETFD => Ok(
                if self.cached_dirty(fd) {
                    FD_CLOEXEC
                } else {
                    0
                },
            ),
            F_SETFD => Ok(0),
            F_GETFL => Ok(
                if fd <= 2 {
                    O_NONBLOCK | O_APPEND
                } else {
                    O_NONBLOCK
                },
            ),
            F_SETFL => if arg & !(O_NONBLOCK | O_APPEND) != 0 {
                Err("einval")
            } else {
                Ok(0)
            },
            F_GETLK | F_SETLK | F_SETLKW => answer(self.user.check_access(arg, 32)),
            _ => Err("einval"),
        }
    }

    fn cached_dirty(&self, k: usize) -> (r: bool)
        requires
            self@.cache.wf(),
        ensures
            r == has_dirty(self@.cache.chain(k), k),
    {
        let h: usize = self.cache.idx(k);
        let ch = &self.cache.chains[h];
        assert(self@.cache.chain(k) == ch@);
        let mut i: usize = 0;
        while i < ch.items.len()
            invariant
                i <= ch.items@.len(),
                ch@.len() == ch.items@.len(),
                ch@ == self@.cache.chain(k),
                forall|j: int| 0 <= j < i ==> !((#[trigger] ch@[j]).id == k && ch@[j].modified),
            decreases ch.items@.len() - i,
        {
            assert(ch@[i as int] == ch.items@[i as int]@);
            if ch.items[i].id == k && ch.items[i].modified {
                assert(ch@[i as int].id == k && ch@[i as int].modified);
                return true;
            }
            i += 1;
        }
        false
    }
}

} // verus!
