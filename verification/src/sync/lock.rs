//! The spin lock and the reentrant kernel lock.

use vstd::prelude::*;

verus! {

/// A lock that is either held or free.
pub struct Spin {
    pub v: bool,
}

impl Spin {
    pub fn new() -> (r: Self)
        ensures
            !r.v,
    {
        Self { v: false }
    }

    /// Takes a free lock. A held one is to be waited for first.
    pub fn acquire(&mut self)
        requires
            !old(self).v,
        ensures
            final(self).v,
    {
        self.v = true;
    }

    /// Takes the lock if it is free.
    pub fn try_acquire(&mut self) -> (ok: bool)
        ensures
            ok == !old(self).v,
            final(self).v,
    {
        let free = !self.v;
        self.v = true;
        free
    }

    pub fn release(&mut self)
        ensures
            !final(self).v,
    {
        self.v = false;
    }

    pub fn is_held(&self) -> (r: bool)
        ensures
            r == self.v,
    {
        self.v
    }
}

/// A lock that its holder may enter again, and leaves as often as it entered.
///
/// `holder` is the thread that is inside, `holder_id` the number it gave when it last entered.
pub struct KernelLock {
    pub flag: bool,
    pub holder: usize,
    pub depth: usize,
    pub holder_id: usize,
}

impl KernelLock {
    /// A lock that nobody holds.
    pub open spec fn free() -> KernelLock {
        KernelLock { flag: false, holder: 0, depth: 0, holder_id: 0 }
    }

    /// The lock is taken exactly if somebody has entered it and not left.
    pub open spec fn wf(&self) -> bool {
        if self.flag {
            self.depth > 0
        } else {
            *self == KernelLock::free()
        }
    }

    /// `thread` does not have to wait.
    pub open spec fn can_enter(&self, thread: usize) -> bool {
        !self.flag || self.holder == thread
    }

    /// The lock after `thread` entered it as `id`.
    pub open spec fn entered(&self, id: usize, thread: usize) -> KernelLock {
        KernelLock {
            flag: true,
            holder: thread,
            holder_id: id,
            depth: if self.flag { self.depth.wrapping_add(1) } else { 1 },
        }
    }

    /// The lock after its holder left once.
    pub open spec fn left(&self) -> KernelLock {
        if self.depth == 0 {
            *self
        } else if self.depth == 1 {
            KernelLock::free()
        } else {
            KernelLock { depth: (self.depth - 1) as usize, ..*self }
        }
    }

    pub fn new() -> (r: Self)
        ensures
            r == KernelLock::free(),
            r.wf(),
    {
        Self { flag: false, holder: 0, depth: 0, holder_id: 0 }
    }

    /// Enters a lock that is free or that `thread` holds already. Any other is to be waited for.
    pub fn enter(&mut self, id: usize, thread: usize)
        requires
            old(self).can_enter(thread),
        ensures
            *final(self) == old(self).entered(id, thread),
    {
        if self.holder == thread && self.flag {
            self.depth = self.depth.wrapping_add(1);
            self.holder_id = id;
            return;
        }
        self.flag = true;
        self.holder = thread;
        self.holder_id = id;
        self.depth = 1;
    }

    /// Leaves the lock once; the last time it becomes free. A lock that is not held stays so.
    pub fn leave(&mut self)
        ensures
            *final(self) == old(self).left(),
    {
        let d: usize = self.level();
        if d == 0 {
            return;
        }
        self.depth = d - 1;
        if d == 1 {
            self.flag = false;
            self.holder = 0;
            self.holder_id = 0;
        }
    }

    pub fn held(&self) -> (r: bool)
        ensures
            r == self.flag,
    {
        self.flag
    }

    /// The number that the holder gave when it last entered; zero if there is none.
    pub fn owner(&self) -> (r: usize)
        ensures
            r == self.holder_id,
    {
        self.holder_id
    }

    /// How often the holder is inside.
    pub fn level(&self) -> (r: usize)
        ensures
            r == self.depth,
    {
        self.depth
    }

    /// Enters unless another thread is inside.
    pub fn try_enter(&mut self, id: usize, thread: usize) -> (ok: bool)
        ensures
            ok == old(self).can_enter(thread),
            *final(self) == (if ok { old(self).entered(id, thread) } else { *old(self) }),
    {
        if self.flag && self.holder != thread {
            return false;
        }
        self.enter(id, thread);
        true
    }
}

/// Entering and leaving keep the lock sound, as long as the depth does not run over.
pub proof fn law_lock_sound(l: KernelLock, id: usize, thread: usize)
    requires
        l.wf(),
    ensures
        l.depth < usize::MAX && l.can_enter(thread) ==> l.entered(id, thread).wf(),
        l.left().wf(),
{
}

/// Leaving undoes entering, but for the number that the holder gave.
pub proof fn law_leave_undoes_enter(l: KernelLock, id: usize, thread: usize)
    requires
        l.wf(),
        l.can_enter(thread),
        l.depth < usize::MAX,
    ensures
        !l.flag ==> l.entered(id, thread).left() == l,
        l.flag ==> l.entered(id, thread).left() == (KernelLock { holder_id: id, ..l }),
{
}

/// While one thread is inside, no other can enter, however often the holder enters and leaves,
/// until it has left as often as it entered.
pub proof fn law_mutual_exclusion(l: KernelLock, id: usize, thread: usize, other: usize)
    requires
        l.wf(),
        l.flag,
        l.holder == thread,
        other != thread,
    ensures
        !l.can_enter(other),
        l.depth < usize::MAX ==> !l.entered(id, thread).can_enter(other),
        l.depth > 1 ==> l.left().flag && !l.left().can_enter(other),
        l.depth == 1 ==> l.left().can_enter(other),
{
}

} // verus!
