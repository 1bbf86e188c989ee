//! System calls on events and time.

use crate::kernel::state::{Kernel, KernelView};
use crate::kernel::sys_file::granted;
use crate::time::TIMER_TICK_HZ;
use crate::word::{low32, to_i32};
use vstd::prelude::*;

verus! {

/// The bytes that an event takes in user memory.
pub const EVENT_SZ: usize = 4;

impl KernelView {
    pub open spec fn epoll_create_of(self, size: usize) -> Result<usize, &'static str> {
        if size == 0 {
            Err("einval")
        } else if size * EVENT_SZ > usize::MAX {
            Err("enomem")
        } else {
            Ok((3 + size % 61) as usize)
        }
    }

    pub open spec fn epoll_ctl_of(self, op: i32, ev_addr: usize) -> Result<usize, &'static str> {
        if ev_addr != 0 && !self.access(ev_addr, 12) {
            Err("efault")
        } else if op == 1 || op == 3 {
            granted(ev_addr != 0)
        } else if op == 2 {
            Ok(0)
        } else {
            Err("einval")
        }
    }

    /// The end of the wait has a time.
    pub open spec fn epoll_wait_ok(self, events_addr: usize, max_events: usize, timeout: i32) -> bool {
        events_addr != 0 && max_events != 0 && max_events * EVENT_SZ <= usize::MAX && timeout > 0 && self.access(
            events_addr,
            (max_events * EVENT_SZ) as usize,
        ) ==> {
            &&& timeout * TIMER_TICK_HZ <= usize::MAX
            &&& self.clk.wall + timeout * TIMER_TICK_HZ / 1000 <= usize::MAX
        }
    }

    /// No events ever come. A buffer whose size runs over is refused.
    pub open spec fn epoll_wait_of(self, events_addr: usize, max_events: usize) -> Result<usize, &'static str> {
        if events_addr == 0 || max_events == 0 || max_events * EVENT_SZ > usize::MAX {
            Err("einval")
        } else {
            granted(self.access(events_addr, (max_events * EVENT_SZ) as usize))
        }
    }

    pub open spec fn clock_gettime_of(self, clk_id: usize, tp_addr: usize) -> Result<usize, &'static str> {
        if tp_addr == 0 || !self.access(tp_addr, 16) {
            Err("efault")
        } else if clk_id == 0 || clk_id == 1 || clk_id == 4 {
            Ok(0)
        } else {
            Err("einval")
        }
    }
}

impl Kernel {
    pub(crate) fn sys_epoll_create(&self, size: usize) -> (r: Result<usize, &'static str>)
        ensures
            r == self@.epoll_create_of(size),
    {
        if size == 0 {
            return Err("einval");
        }
        if size > usize::MAX / EVENT_SZ {
            return Err("enomem");
        }
        Ok(3 + (size % 61))
    }

    pub(crate) fn sys_epoll_ctl(&self, op: usize, ev_addr: usize) -> (r: Result<usize, &'static str>)
        ensures
            r == self@.epoll_ctl_of(low32(op), ev_addr),
    {
        if ev_addr != 0 && !self.user.check_access(ev_addr, 12) {
            return Err("efault");
        }
        match to_i32(op) {
            1 | 3 => {
                if ev_addr == 0 {
                    return Err("efault");
                }
                Ok(0)
            },
            2 => Ok(0),
            _ => Err("einval"),
        }
    }

    pub(crate) fn sys_epoll_wait(&self, events_addr: usize, max_events: usize, timeout: usize) -> (r: Result<
        usize,
        &'static str,
    >)
        requires
            self@.epoll_wait_ok(events_addr, max_events, low32(timeout)),
        ensures
            r == self@.epoll_wait_of(events_addr, max_events),
    {
        if events_addr == 0 || max_events == 0 || max_events > usize::MAX / EVENT_SZ {
            return Err("einval");
        }
        let total_buf: usize = max_events * EVENT_SZ;
        if !self.user.check_access(events_addr, total_buf) {
            return Err("efault");
        }
        Ok(0)
    }

    pub(crate) fn sys_clock_gettime(&self, clk_id: usize, tp_addr: usize) -> (r: Result<usize, &'static str>)
        ensures
            r == self@.clock_gettime_of(clk_id, tp_addr),
    {
        if tp_addr == 0 {
            return Err("efault");
        }
        if !self.user.check_access(tp_addr, 16) {
            return Err("efault");
        }
        match clk_id {
            0 | 1 | 4 => Ok(0),
            _ => Err("einval"),
        }
    }
}

} // verus!
