//! Whether a system call can be served.

use crate::kernel::state::Kernel;
use crate::kernel::sys_event::EVENT_SZ;
use crate::kernel::sys_file::{FD_LIMIT, F_DUPFD, F_DUPFD_CLOEXEC, N_PROC};
use crate::kernel::sys_mem::MMAP_BASE;
use crate::kernel::syscall::{
    Call, SYS_BRK, SYS_DUP, SYS_EPOLL_WAIT, SYS_FCNTL, SYS_FORK, SYS_FUTEX, SYS_KILL, SYS_MMAP,
    SYS_MUNMAP, SYS_PIPE, SYS_READ, SYS_WAIT4,
};
use crate::memory::{page_end, page_start, N_FRAMES, PAGE_SZ};
use crate::proc::fdtable::has_free_fd;
use crate::time::TIMER_TICK_HZ;
use crate::word::{to_i32, to_signed};
use vstd::prelude::*;

verus! {

broadcast use {vstd::std_specs::btree::group_btree_axioms, vstd::laws_cmp::group_laws_cmp};

impl Kernel {
    /// Whether no sum or difference in the call runs over the size of a word, so that
    /// [`Kernel::dispatch_syscall`] can carry it out.
    pub fn can_serve(&self, c: &Call) -> (r: bool)
        requires
            self@.wf(),
        ensures
            r == self@.syscall_ok(*c),
    {
        match c.nr {
            SYS_READ => self.read_fits(c.a0, c.a1, c.a2),
            SYS_MMAP => self.mmap_fits(c.a0, c.a1, c.a3, c.a4),
            SYS_MUNMAP => self.munmap_fits(c.a0, c.a1),
            SYS_BRK => !(0 < c.a0 && c.a0 < self.platform.kern_base) || c.a0 <= usize::MAX - 4096,
            SYS_PIPE => self.pipe_fits(c.a0),
            SYS_DUP => self.dup_fits(c.a0),
            SYS_FORK => self.fork_fits(),
            SYS_WAIT4 => !((c.a1 == 0 || self.user.check_access(c.a1, 4)) && (c.a3 == 0 || self.user.check_access(
                c.a3,
                144,
            ))) || to_signed(c.a0) > isize::MIN,
            SYS_KILL => self.platform.nsig <= i32::MAX as usize && (c.a1 > self.platform.nsig || to_signed(c.a0)
                > isize::MIN),
            SYS_FCNTL => self.fcntl_fits(c.a0, c.a1, c.a2),
            SYS_EPOLL_WAIT => self.epoll_wait_fits(c.a1, c.a2, c.a3),
            SYS_FUTEX => !(self.user.check_access(c.a0, 4) && c.a1 & 0xF == 3 && self.user.check_access(c.a4, 4))
                || c.a2 <= usize::MAX - c.a5,
            _ => true,
        }
    }

    fn read_fits(&self, fd: usize, addr: usize, count: usize) -> (r: bool)
        requires
            self@.wf(),
        ensures
            r == self@.read_ok(fd, addr, count),
    {
        if addr == 0 || count == 0 || !self.user.check_access(addr, count) || !self.cached(fd) {
            return true;
        }
        let span: usize = page_start(addr + count) - page_start(addr);
        span <= usize::MAX - 4096
    }

    fn mmap_fits(&self, addr: usize, len: usize, flags: usize, fd: usize) -> (r: bool)
        ensures
            r == self@.mmap_ok(addr, len, flags, fd),
    {
        if len == 0 {
            return true;
        }
        if len > usize::MAX - 4096 {
            return false;
        }
        if addr != 0 && flags & 0x10 != 0 {
            return true;
        }
        let pages: usize = page_end(len);
        if self.platform.kern_base <= MMAP_BASE || self.platform.kern_base - MMAP_BASE <= pages {
            return false;
        }
        let wall: usize = self.clk.wall;
        wall <= usize::MAX / 4096 && fd <= usize::MAX / 4096 && wall * 4096 <= usize::MAX - fd * 4096
    }

    fn munmap_fits(&self, addr: usize, len: usize) -> (r: bool)
        ensures
            r == self@.munmap_ok(addr, len),
    {
        if addr % PAGE_SZ != 0 {
            return true;
        }
        if len > usize::MAX - 4096 {
            return false;
        }
        len == 0 || addr <= usize::MAX - (page_end(len) - 4096)
    }

    fn pipe_fits(&self, fds_addr: usize) -> (r: bool)
        requires
            self@.wf(),
        ensures
            r == self@.pipe_ok(fds_addr),
    {
        if fds_addr == 0 || !self.user.check_access(fds_addr, 8) {
            return true;
        }
        match self.cur_task(0) {
            Some(t) => {
                assert(self@.task(t) == self.tasks.tasks@[t as int]@);
                self.tasks.tasks[t].fd_count() > N_PROC - 2 || usize::BITS > 32
            },
            None => true,
        }
    }

    fn dup_fits(&self, old_fd: usize) -> (r: bool)
        requires
            self@.wf(),
        ensures
            r == self@.dup_ok(old_fd),
    {
        if old_fd >= FD_LIMIT {
            return true;
        }
        match self.cur_task(0) {
            Some(t) => {
                let files = &self.tasks.tasks[t].files;
                let ghost used = self@.task(t).files.dom();
                assert(self@.task(t) == self.tasks.tasks@[t as int]@);
                assert(used =~= files@.dom());
                let mut fd: usize = old_fd;
                while files.contains_key(&fd)
                    invariant
                        used == files@.dom(),
                        used == self@.task(t).files.dom(),
                        self@.current() == Some(t),
                        old_fd <= fd,
                        old_fd < FD_LIMIT,
                        forall|i: usize| old_fd <= i < fd ==> #[trigger] used.contains(i),
                    decreases usize::MAX - fd,
                {
                    if fd == usize::MAX {
                        assert(!has_free_fd(used, old_fd));
                        return false;
                    }
                    fd += 1;
                }
                assert(old_fd <= fd && !used.contains(fd));
                true
            },
            None => true,
        }
    }

    fn fork_fits(&self) -> (r: bool)
        ensures
            r == self@.fork_ok(),
    {
        let free: usize = self.pool.free_count();
        let n: usize = self.tasks.count();
        let part: usize = if free < 256 {
            free
        } else {
            256
        };
        free <= N_FRAMES && n <= usize::MAX / 2 && part <= usize::MAX - n * 2
    }

    fn fcntl_fits(&self, fd: usize, cmd: usize, arg: usize) -> (r: bool)
        ensures
            r == self@.fcntl_ok(fd, cmd, arg),
    {
        let base: usize = if fd > arg {
            fd
        } else {
            arg
        };
        if fd >= FD_LIMIT {
            true
        } else if cmd == F_DUPFD {
            base <= usize::MAX - (self.clk.wall & 3)
        } else if cmd == F_DUPFD_CLOEXEC {
            base < usize::MAX
        } else {
            true
        }
    }

    fn epoll_wait_fits(&self, events_addr: usize, max_events: usize, a3: usize) -> (r: bool)
        ensures
            r == self@.epoll_wait_ok(events_addr, max_events, crate::word::low32(a3)),
    {
        if events_addr == 0 || max_events == 0 || max_events > usize::MAX / EVENT_SZ {
            return true;
        }
        let timeout: i32 = to_i32(a3);
        if timeout <= 0 || !self.user.check_access(events_addr, max_events * EVENT_SZ) {
            return true;
        }
        let t: usize = timeout as usize;
        t <= usize::MAX / TIMER_TICK_HZ && self.clk.wall <= usize::MAX - t * TIMER_TICK_HZ / 1000
    }
}

} // verus!
