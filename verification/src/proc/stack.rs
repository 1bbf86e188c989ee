//! Kernel stacks.

use vstd::prelude::*;

verus! {

#[allow(non_upper_case_globals)]
pub const KernelStack_SZ: usize = 0x4000;

/// A stack of [`KernelStack_SZ`] bytes that starts at an address.
#[derive(Clone, Copy, Debug, PartialEq, Eq, Structural)]
pub struct KernelStack(pub usize);

impl KernelStack {
    pub fn new(base: usize) -> (r: Self)
        ensures
            r.0 == base,
    {
        KernelStack(base)
    }

    /// The address just above the stack.
    pub fn top(&self) -> (r: usize)
        requires
            self.0 + KernelStack_SZ <= usize::MAX,
        ensures
            r == self.0 + KernelStack_SZ,
    {
        self.0 + KernelStack_SZ
    }
}

} // verus!
