//! System calls on memory.

use crate::kernel::state::{lemma_set_task_wf, Kernel, KernelView};
use crate::memory::{page_ceil, page_end, page_floor, page_start, PAGE_SZ};
use crate::proc::task::TaskView;
use vstd::prelude::*;

verus! {

/// The lowest address that a mapping is put at.
pub const MMAP_BASE: usize = 0x7000_0000;

/// Where the data of a process ends before it asks.
pub const BRK_START: usize = 0x0040_0000;

impl KernelView {
    /// Where a mapping goes that is not fixed: its place depends on the time and the file.
    pub open spec fn mmap_slot(self, len: usize, fd: usize) -> int {
        let room = self.platform.kern_base - MMAP_BASE - page_ceil(len as int);
        page_floor(MMAP_BASE + (self.clk.wall * 4096 + fd * 4096) % room)
    }

    /// The length can be rounded up, and a mapping that is not fixed has room below the kernel.
    pub open spec fn mmap_ok(self, addr: usize, len: usize, flags: usize, fd: usize) -> bool {
        len > 0 ==> {
            &&& len + 4096 <= usize::MAX
            &&& addr == 0 || flags & 0x10 == 0 ==> {
                &&& self.platform.kern_base - MMAP_BASE - page_ceil(len as int) > 0
                &&& self.clk.wall * 4096 + fd * 4096 <= usize::MAX
            }
        }
    }

    pub open spec fn mmap_of(self, addr: usize, len: usize, flags: usize, fd: usize, offset: usize) -> Result<
        usize,
        &'static str,
    > {
        if len == 0 {
            Err("einval")
        } else if self.pool.free() < page_ceil(len as int) / 4096 {
            Err("enomem")
        } else if flags & 0x20 == 0 && page_floor(offset as int) > page_ceil(len as int) {
            Err("einval")
        } else if addr != 0 && flags & 0x10 != 0 {
            Ok(addr)
        } else {
            Ok(self.mmap_slot(len, fd) as usize)
        }
    }

    /// The last page of what is unmapped has an address.
    pub open spec fn munmap_ok(self, addr: usize, len: usize) -> bool {
        addr % PAGE_SZ == 0 ==> {
            &&& len + 4096 <= usize::MAX
            &&& len > 0 ==> addr + page_ceil(len as int) - 4096 <= usize::MAX
        }
    }

    pub open spec fn munmap_of(self, addr: usize) -> Result<usize, &'static str> {
        if addr % PAGE_SZ != 0 {
            Err("einval")
        } else {
            Ok(0)
        }
    }

    pub open spec fn brk_ok(self, new_brk: usize) -> bool {
        0 < new_brk < self.platform.kern_base ==> new_brk + 4096 <= usize::MAX
    }

    /// The running process moves the end of its data. It takes a frame for every page more.
    pub open spec fn brk_of(self, new_brk: usize) -> (KernelView, Result<usize, &'static str>) {
        let aligned = page_ceil(new_brk as int) as usize;
        if new_brk == 0 {
            (self, Ok(BRK_START))
        } else if new_brk >= self.platform.kern_base {
            (self, Err("enomem"))
        } else {
            match self.current() {
                None => (self, Ok(aligned)),
                Some(t) => {
                    let old_brk = self.task(t).vm_token;
                    let moved = self.set_task(t, TaskView { vm_token: aligned, ..self.task(t) });
                    if aligned <= old_brk {
                        (moved, Ok(aligned))
                    } else {
                        let pages = (aligned - old_brk) / 4096;
                        if self.pool.free() < pages {
                            (self, Err("enomem"))
                        } else {
                            (KernelView { pool: self.pool.after_take(pages as nat), ..moved }, Ok(aligned))
                        }
                    }
                },
            }
        }
    }
}

impl Kernel {
    pub(crate) fn sys_mmap(&self, addr: usize, len: usize, flags: usize, fd: usize, offset: usize) -> (r: Result<
        usize,
        &'static str,
    >)
        requires
            self@.mmap_ok(addr, len, flags, fd),
        ensures
            r == self@.mmap_of(addr, len, flags, fd, offset),
    {
        if len == 0 {
            return Err("einval");
        }
        let aligned_len: usize = page_end(len);
        let aligned_off: usize = page_start(offset);
        let anon: bool = (flags & 0x20) != 0;
        let fixed: bool = (flags & 0x10) != 0;
        let result_addr: usize = if addr != 0 && fixed {
            addr
        } else {
            let room: usize = self.platform.kern_base - MMAP_BASE - aligned_len;
            let slot: usize = (self.clk.wall * 4096 + fd * PAGE_SZ) % room;
            page_start(MMAP_BASE + slot)
        };
        let pages_needed: usize = aligned_len / PAGE_SZ;
        if self.pool.free_count() < pages_needed {
            return Err("enomem");
        }
        if !anon && aligned_off > aligned_len {
            return Err("einval");
        }
        Ok(result_addr)
    }

    pub(crate) fn sys_munmap(&self, addr: usize, _len: usize) -> (r: Result<usize, &'static str>)
        requires
            self@.munmap_ok(addr, _len),
        ensures
            r == self@.munmap_of(addr),
    {
        if addr % PAGE_SZ != 0 {
            return Err("einval");
        }
        Ok(0)
    }

    pub(crate) fn sys_brk(&mut self, new_brk: usize) -> (r: Result<usize, &'static str>)
        requires
            old(self)@.wf(),
            old(self)@.brk_ok(new_brk),
        ensures
            (final(self)@, r) == old(self)@.brk_of(new_brk),
            final(self)@.wf(),
    {
        if new_brk == 0 {
            return Ok(BRK_START);
        }
        if new_brk >= self.platform.kern_base {
            return Err("enomem");
        }
        let aligned: usize = page_end(new_brk);
        let ghost k = self@;
        if let Some(t) = self.cur_task(0) {
            assert(k.task(t) == self.tasks.tasks@[t as int]@);
            let old_brk: usize = self.tasks.tasks[t].vm_token;
            if aligned > old_brk {
                let pages_needed: usize = (aligned - old_brk) / PAGE_SZ;
                if self.pool.free_count() < pages_needed {
                    return Err("enomem");
                }
                self.pool.take(pages_needed);
            }
            self.tasks.tasks[t].vm_token = aligned;
            assert(self@.tasks.tasks =~= k.tasks.tasks.update(t as int, TaskView { vm_token: aligned, ..k.task(t) }));
            proof {
                assert(k.tasks.knows(k.task(t)) && k.task(t).wf(k.store));
                lemma_set_task_wf(k, k.store, t, self@.task(t));
            }
        }
        Ok(aligned)
    }
}

} // verus!
