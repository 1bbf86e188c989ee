//! The numbers of the system calls and their dispatch.

use crate::kernel::state::{kernel_concluded, Kernel, KernelView};
use crate::proc::table::Outside;
use crate::word::{as_signed, low32};
use vstd::prelude::*;

verus! {

pub const SYS_READ: usize = 0;

pub const SYS_WRITE: usize = 1;

pub const SYS_OPEN: usize = 2;

pub const SYS_CLOSE: usize = 3;

pub const SYS_STAT: usize = 4;

pub const SYS_FSTAT: usize = 5;

pub const SYS_MMAP: usize = 9;

pub const SYS_MUNMAP: usize = 11;

pub const SYS_BRK: usize = 12;

#[allow(non_upper_case_globals)]
pub const SYS_SignalAction: usize = 13;

pub const SYS_SIGPROCMASK: usize = 14;

pub const SYS_IOCTL: usize = 16;

pub const SYS_PIPE: usize = 22;

pub const SYS_DUP: usize = 32;

pub const SYS_DUP2: usize = 33;

pub const SYS_GETPID: usize = 39;

pub const SYS_FORK: usize = 57;

pub const SYS_EXEC: usize = 59;

pub const SYS_EXIT: usize = 60;

pub const SYS_WAIT4: usize = 61;

pub const SYS_KILL: usize = 62;

pub const SYS_FCNTL: usize = 72;

pub const SYS_SETPGID: usize = 109;

pub const SYS_GETPPID: usize = 110;

pub const SYS_SETSID: usize = 112;

pub const SYS_GETPGID: usize = 121;

pub const SYS_FUTEX: usize = 202;

pub const SYS_EPOLL_CREATE: usize = 213;

pub const SYS_CLOCK_GETTIME: usize = 228;

pub const SYS_EPOLL_WAIT: usize = 232;

pub const SYS_EPOLL_CTL: usize = 233;

/// A call and its arguments.
#[derive(Clone, Copy, Debug, PartialEq, Eq, Structural)]
pub struct Call {
    pub nr: usize,
    pub a0: usize,
    pub a1: usize,
    pub a2: usize,
    pub a3: usize,
    pub a4: usize,
    pub a5: usize,
}

impl KernelView {
    /// No sum or difference in the call runs over the size of a word.
    pub open spec fn syscall_ok(self, c: Call) -> bool {
        &&& c.nr == SYS_READ ==> self.read_ok(c.a0, c.a1, c.a2)
        &&& c.nr == SYS_MMAP ==> self.mmap_ok(c.a0, c.a1, c.a3, c.a4)
        &&& c.nr == SYS_MUNMAP ==> self.munmap_ok(c.a0, c.a1)
        &&& c.nr == SYS_BRK ==> self.brk_ok(c.a0)
        &&& c.nr == SYS_PIPE ==> self.pipe_ok(c.a0)
        &&& c.nr == SYS_DUP ==> self.dup_ok(c.a0)
        &&& c.nr == SYS_FORK ==> self.fork_ok()
        &&& c.nr == SYS_WAIT4 ==> self.wait4_ok(as_signed(c.a0), c.a1, c.a3)
        &&& c.nr == SYS_KILL ==> self.kill_ok(as_signed(c.a0), c.a1)
        &&& c.nr == SYS_FCNTL ==> self.fcntl_ok(c.a0, c.a1, c.a2)
        &&& c.nr == SYS_EPOLL_WAIT ==> self.epoll_wait_ok(c.a1, c.a2, low32(c.a3))
        &&& c.nr == SYS_FUTEX ==> self.futex_ok(c.a0, c.a1, c.a2, c.a4, c.a5)
    }

    /// A call: the kernel after it and its result.
    pub open spec fn syscall_of(self, c: Call) -> (KernelView, Result<usize, &'static str>) {
        if c.nr == SYS_READ {
            (self, self.read_of(c.a0, c.a1, c.a2))
        } else if c.nr == SYS_WRITE {
            self.write_of(c.a0, c.a1, c.a2)
        } else if c.nr == SYS_OPEN {
            self.open_of(c.a0, c.a1)
        } else if c.nr == SYS_CLOSE {
            self.close_of(c.a0)
        } else if c.nr == SYS_STAT || c.nr == SYS_FSTAT {
            (self, self.stat_of(c.nr == SYS_STAT, c.a0, c.a1))
        } else if c.nr == SYS_MMAP {
            (self, self.mmap_of(c.a0, c.a1, c.a3, c.a4, c.a5))
        } else if c.nr == SYS_MUNMAP {
            (self, self.munmap_of(c.a0))
        } else if c.nr == SYS_BRK {
            self.brk_of(c.a0)
        } else if c.nr == SYS_SignalAction {
            (self, self.sigaction_of(c.a0, c.a1, c.a2))
        } else if c.nr == SYS_SIGPROCMASK {
            self.sigmask_of(c.a0, c.a1, c.a2)
        } else if c.nr == SYS_IOCTL {
            (self, self.ioctl_of(c.a1, c.a2))
        } else if c.nr == SYS_PIPE {
            self.pipe_of(c.a0)
        } else if c.nr == SYS_DUP {
            (self, self.dup_of(c.a0))
        } else if c.nr == SYS_DUP2 {
            self.dup2_of(c.a0, c.a1)
        } else if c.nr == SYS_GETPID {
            (self, self.getpid_of())
        } else if c.nr == SYS_FORK {
            self.fork_of()
        } else if c.nr == SYS_EXEC {
            (self, self.exec_of(c.a0, c.a1, c.a2))
        } else if c.nr == SYS_EXIT {
            (self.exit_of(c.a0), Ok(0))
        } else if c.nr == SYS_WAIT4 {
            (self, self.wait4_of(as_signed(c.a0), c.a1, c.a2, c.a3))
        } else if c.nr == SYS_KILL {
            self.kill_of(as_signed(c.a0), c.a1)
        } else if c.nr == SYS_FCNTL {
            (self, self.fcntl_of(c.a0, c.a1, c.a2))
        } else if c.nr == SYS_SETPGID {
            self.setpgid_of(c.a0, c.a1)
        } else if c.nr == SYS_GETPPID {
            (self, self.getppid_of())
        } else if c.nr == SYS_SETSID {
            self.setsid_of()
        } else if c.nr == SYS_GETPGID {
            (self, self.getpgid_of(c.a0))
        } else if c.nr == SYS_FUTEX {
            (self, self.futex_of(c.a0, c.a1, c.a2, c.a3, c.a4, c.a5))
        } else if c.nr == SYS_EPOLL_CREATE {
            (self, self.epoll_create_of(c.a0))
        } else if c.nr == SYS_CLOCK_GETTIME {
            (self, self.clock_gettime_of(c.a0, c.a1))
        } else if c.nr == SYS_EPOLL_WAIT {
            (self, self.epoll_wait_of(c.a1, c.a2))
        } else if c.nr == SYS_EPOLL_CTL {
            (self, self.epoll_ctl_of(low32(c.a1), c.a3))
        } else {
            (self, Err("enosys"))
        }
    }
}

impl Kernel {
    /// Carries out the system call with number `nr`. An unknown one is refused. Whoever waits for
    /// the events that it brings about hears of them, and the processes that nobody refers to any
    /// more are dropped.
    pub fn dispatch_syscall<F: Fn(usize, u32) -> bool>(
        &mut self,
        out: &Outside<F>,
        nr: usize,
        a0: usize,
        a1: usize,
        a2: usize,
        a3: usize,
        a4: usize,
        a5: usize,
    ) -> (r: Result<usize, &'static str>)
        requires
            old(self)@.wf(),
            old(self)@.syscall_ok(Call { nr, a0, a1, a2, a3, a4, a5 }),
            forall|c: usize, e: u32| call_requires(out.run, (c, e)),
        ensures
            r == old(self)@.syscall_of(Call { nr, a0, a1, a2, a3, a4, a5 }).1,
            kernel_concluded(
                out.run,
                out.held@,
                old(self)@.syscall_of(Call { nr, a0, a1, a2, a3, a4, a5 }).0,
                final(self)@,
            ),
            final(self)@.wf(),
    {
        let r = self.serve(nr, a0, a1, a2, a3, a4, a5);
        self.conclude(out);
        r
    }

    /// Carries out the system call with number `nr`. Its events are noted.
    fn serve(
        &mut self,
        nr: usize,
        a0: usize,
        a1: usize,
        a2: usize,
        a3: usize,
        a4: usize,
        a5: usize,
    ) -> (r: Result<usize, &'static str>)
        requires
            old(self)@.wf(),
            old(self)@.syscall_ok(Call { nr, a0, a1, a2, a3, a4, a5 }),
        ensures
            (final(self)@, r) == old(self)@.syscall_of(Call { nr, a0, a1, a2, a3, a4, a5 }),
            final(self)@.wf(),
    {
        match nr {
            SYS_READ => self.sys_read(a0, a1, a2),
            SYS_WRITE => self.sys_write(a0, a1, a2),
            SYS_OPEN => self.sys_open(a0, a1),
            SYS_CLOSE => self.sys_close(a0),
            SYS_STAT | SYS_FSTAT => self.sys_stat(nr == SYS_STAT, a0, a1),
            SYS_MMAP => self.sys_mmap(a0, a1, a3, a4, a5),
            SYS_MUNMAP => self.sys_munmap(a0, a1),
            SYS_BRK => self.sys_brk(a0),
            SYS_IOCTL => self.sys_ioctl(a1, a2),
            SYS_PIPE => self.sys_pipe(a0, a1),
            SYS_DUP => self.sys_dup(a0),
            SYS_DUP2 => self.sys_dup2(a0, a1),
            SYS_FORK => self.sys_fork(),
            SYS_EXEC => self.sys_exec(a0, a1, a2),
            SYS_EXIT => self.sys_exit(a0),
            SYS_WAIT4 => self.sys_wait4(a0, a1, a2, a3),
            SYS_KILL => self.sys_kill(a0, a1),
            SYS_FCNTL => self.sys_fcntl(a0, a1, a2),
            SYS_GETPID => self.sys_getpid(),
            SYS_GETPPID => self.sys_getppid(),
            SYS_SETPGID => self.sys_setpgid(a0, a1),
            SYS_GETPGID => self.sys_getpgid(a0),
            SYS_SETSID => self.sys_setsid(),
            SYS_EPOLL_CREATE => self.sys_epoll_create(a0),
            SYS_EPOLL_CTL => self.sys_epoll_ctl(a1, a3),
            SYS_EPOLL_WAIT => self.sys_epoll_wait(a1, a2, a3),
            SYS_CLOCK_GETTIME => self.sys_clock_gettime(a0, a1),
            SYS_SignalAction => self.sys_sigaction(a0, a1, a2),
            SYS_SIGPROCMASK => self.sys_sigprocmask(a0, a1, a2),
            SYS_FUTEX => self.sys_futex(a0, a1, a2, a3, a4, a5),
            _ => Err("enosys"),
        }
    }
}

} // verus!
