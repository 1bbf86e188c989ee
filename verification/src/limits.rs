//! Resource limits.

use vstd::prelude::*;

verus! {

pub const USR_STK_OFF: usize = 0x7FFF_0000;

pub const USR_STK_SZ: usize = 0x10000;

#[derive(Clone, Copy, Debug, PartialEq, Eq, Structural)]
pub struct ResourceLimits {
    pub max_fds: usize,
    pub max_threads: usize,
    pub max_stack_size: usize,
    pub max_data_size: usize,
    pub max_file_size: usize,
    pub max_mappings: usize,
    pub cpu_time_limit: usize,
}

impl ResourceLimits {
    /// The limits that a process starts with. The heap bounds its data.
    pub fn default_limits(kheap_sz: usize) -> (r: Self)
        ensures
            r == (ResourceLimits {
                max_fds: 1024,
                max_threads: 256,
                max_stack_size: 0x40000,
                max_data_size: kheap_sz,
                max_file_size: usize::MAX,
                max_mappings: 65536,
                cpu_time_limit: 0,
            }),
    {
        ResourceLimits {
            max_fds: 1024,
            max_threads: 256,
            max_stack_size: USR_STK_SZ * 4,
            max_data_size: kheap_sz,
            max_file_size: usize::MAX,
            max_mappings: 65536,
            cpu_time_limit: 0,
        }
    }

    pub fn check_fd(&self, current: usize) -> (r: bool)
        ensures
            r == (current < self.max_fds),
    {
        current < self.max_fds
    }

    pub fn check_threads(&self, current: usize) -> (r: bool)
        ensures
            r == (current < self.max_threads),
    {
        current < self.max_threads
    }

    pub fn check_stack(&self, requested: usize) -> (r: bool)
        ensures
            r == (requested <= self.max_stack_size),
    {
        requested <= self.max_stack_size
    }

    pub fn check_data(&self, requested: usize) -> (r: bool)
        ensures
            r == (requested <= self.max_data_size),
    {
        requested <= self.max_data_size
    }

    pub fn check_filesize(&self, requested: usize) -> (r: bool)
        ensures
            r == (requested <= self.max_file_size),
    {
        requested <= self.max_file_size
    }

    pub fn check_mappings(&self, current: usize) -> (r: bool)
        ensures
            r == (current < self.max_mappings),
    {
        current < self.max_mappings
    }

    /// A child has the limits of its parent.
    pub fn inherit(&self) -> (r: Self)
        ensures
            r == *self,
    {
        *self
    }

    /// The limit with number `resource`, if there is one.
    pub open spec fn limit(self, resource: usize) -> Option<usize> {
        if resource == 0 {
            Some(self.cpu_time_limit)
        } else if resource == 1 {
            Some(self.max_file_size)
        } else if resource == 2 {
            Some(self.max_data_size)
        } else if resource == 3 {
            Some(self.max_stack_size)
        } else if resource == 7 {
            Some(self.max_fds)
        } else {
            None
        }
    }

    /// The limits with that of `resource` changed.
    pub open spec fn changed(self, resource: usize, value: usize) -> ResourceLimits {
        if resource == 0 {
            ResourceLimits { cpu_time_limit: value, ..self }
        } else if resource == 1 {
            ResourceLimits { max_file_size: value, ..self }
        } else if resource == 2 {
            ResourceLimits { max_data_size: value, ..self }
        } else if resource == 3 {
            ResourceLimits { max_stack_size: value, ..self }
        } else if resource == 7 {
            ResourceLimits { max_fds: value, ..self }
        } else {
            self
        }
    }

    pub fn set_limit(&mut self, resource: usize, value: usize) -> (r: Result<(), &'static str>)
        ensures
            *final(self) == old(self).changed(resource, value),
            r == (if old(self).limit(resource) is Some { Ok::<(), &'static str>(()) } else { Err("einval") }),
    {
        match resource {
            0 => {
                self.cpu_time_limit = value;
                Ok(())
            },
            1 => {
                self.max_file_size = value;
                Ok(())
            },
            2 => {
                self.max_data_size = value;
                Ok(())
            },
            3 => {
                self.max_stack_size = value;
                Ok(())
            },
            7 => {
                self.max_fds = value;
                Ok(())
            },
            _ => Err("einval"),
        }
    }

    pub fn get_limit(&self, resource: usize) -> (r: Result<usize, &'static str>)
        ensures
            r == (match self.limit(resource) {
                Some(v) => Ok::<usize, &'static str>(v),
                None => Err("einval"),
            }),
    {
        match resource {
            0 => Ok(self.cpu_time_limit),
            1 => Ok(self.max_file_size),
            2 => Ok(self.max_data_size),
            3 => Ok(self.max_stack_size),
            7 => Ok(self.max_fds),
            _ => Err("einval"),
        }
    }

    pub fn exceeds_any(&self, fds: usize, threads: usize, stack: usize) -> (r: bool)
        ensures
            r == (fds > self.max_fds || threads > self.max_threads || stack > self.max_stack_size),
    {
        fds > self.max_fds || threads > self.max_threads || stack > self.max_stack_size
    }
}

/// A limit that was set reads back, and no other limit moves.
pub proof fn law_limit_reads_back(l: ResourceLimits, resource: usize, value: usize, other: usize)
    requires
        l.limit(resource) is Some,
        other != resource,
    ensures
        l.changed(resource, value).limit(resource) == Some(value),
        l.changed(resource, value).limit(other) == l.limit(other),
{
}

} // verus!
