//! Counting semaphores.

use crate::bits::lemma_set_and_clear;
use crate::sync::event::{delivered, EventBitflag, EventBus, EventBusView};
use vstd::prelude::*;

verus! {

/// A counter that can be taken from while it is positive, until it is removed.
pub struct Semaphore {
    pub id: usize,
    pub cnt: isize,
    pub pid: usize,
    pub rm: bool,
    pub bus: EventBus,
}

/// What a semaphore stands for.
#[verifier::ext_equal]
pub ghost struct SemaphoreView {
    pub id: usize,
    pub cnt: isize,
    pub pid: usize,
    pub rm: bool,
    pub bus: EventBusView,
}

impl View for Semaphore {
    type V = SemaphoreView;

    open spec fn view(&self) -> SemaphoreView {
        SemaphoreView { id: self.id, cnt: self.cnt, pid: self.pid, rm: self.rm, bus: self.bus@ }
    }
}

impl SemaphoreView {
    pub open spec fn new(c: isize, id: usize) -> SemaphoreView {
        SemaphoreView { id, cnt: c, pid: 0, rm: false, bus: EventBusView::new() }
    }

    /// The counter becomes `v`, and the semaphore shows as available if that is positive.
    pub open spec fn raised_to(self, v: isize) -> SemaphoreView {
        SemaphoreView {
            cnt: v,
            bus: if v >= 1 {
                self.bus.set(EventBitflag::SEMAPHORE_AVAILABLE)
            } else {
                self.bus
            },
            ..self
        }
    }

    /// One was taken.
    pub open spec fn taken(self) -> SemaphoreView {
        SemaphoreView {
            cnt: (self.cnt - 1) as isize,
            bus: if self.cnt - 1 < 1 {
                self.bus.clear(EventBitflag::SEMAPHORE_AVAILABLE)
            } else {
                self.bus
            },
            ..self
        }
    }
}

/// `after` is `noted` once those who wait for the semaphore's events were told of them.
pub open spec fn sem_told<F: Fn(usize, u32) -> bool>(run: F, noted: SemaphoreView, after: SemaphoreView) -> bool {
    &&& after == (SemaphoreView { bus: after.bus, ..noted })
    &&& delivered(run, noted.bus, after.bus)
}

/// The right of whoever holds it to one unit of the semaphore with number `of`. Giving it up
/// releases the unit.
pub struct SemaphoreGuard {
    pub held: bool,
    pub of: usize,
}

impl SemaphoreGuard {
    /// Gives the unit back to the semaphore it was taken from.
    pub fn close<F: Fn(usize, u32) -> bool>(self, s: &mut Semaphore, run: &F)
        requires
            self.of == old(s)@.id,
            old(s)@.cnt < isize::MAX,
            forall|c: usize, e: u32| call_requires(*run, (c, e)),
        ensures
            sem_told(*run, old(s)@.raised_to((old(s)@.cnt + 1) as isize), final(s)@),
    {
        s.release(run);
    }
}

impl Semaphore {
    pub fn new(c: isize) -> (r: Self)
        ensures
            r@ == SemaphoreView::new(c, 0),
    {
        Semaphore::numbered(c, 0)
    }

    /// A semaphore with a number, by which its guards know it.
    pub fn numbered(c: isize, id: usize) -> (r: Self)
        ensures
            r@ == SemaphoreView::new(c, id),
    {
        Semaphore { id, cnt: c, rm: false, pid: 0, bus: EventBus::make() }
    }

    /// Removes the semaphore: nothing can be taken from it any more.
    pub fn remove<F: Fn(usize, u32) -> bool>(&mut self, run: &F)
        requires
            forall|c: usize, e: u32| call_requires(*run, (c, e)),
        ensures
            sem_told(
                *run,
                SemaphoreView {
                    rm: true,
                    bus: old(self)@.bus.set(EventBitflag::SEMAPHORE_REMOVED),
                    ..old(self)@
                },
                final(self)@,
            ),
    {
        self.rm = true;
        self.bus.set(EventBitflag::SEMAPHORE_REMOVED, run);
    }

    pub fn release<F: Fn(usize, u32) -> bool>(&mut self, run: &F)
        requires
            old(self)@.cnt < isize::MAX,
            forall|c: usize, e: u32| call_requires(*run, (c, e)),
        ensures
            sem_told(*run, old(self)@.raised_to((old(self)@.cnt + 1) as isize), final(self)@),
    {
        let v: isize = self.cnt + 1;
        self.set_val(v, run);
    }

    /// Takes one if the counter is positive.
    pub fn try_acquire<F: Fn(usize, u32) -> bool>(&mut self, run: &F) -> (r: Result<bool, &'static str>)
        requires
            forall|c: usize, e: u32| call_requires(*run, (c, e)),
        ensures
            old(self)@.rm ==> r == Err::<bool, _>("removed") && final(self)@ == old(self)@,
            !old(self)@.rm && old(self)@.cnt >= 1 ==> r == Ok::<bool, &'static str>(true) && sem_told(
                *run,
                old(self)@.taken(),
                final(self)@,
            ),
            !old(self)@.rm && old(self)@.cnt < 1 ==> r == Ok::<bool, &'static str>(false) && final(self)@ == old(
                self,
            )@,
    {
        if self.rm {
            return Err("removed");
        }
        if self.cnt >= 1 {
            self.cnt -= 1;
            if self.cnt < 1 {
                self.bus.note(EventBitflag::SEMAPHORE_AVAILABLE, 0);
            }
            self.bus.deliver(run);
            Ok(true)
        } else {
            Ok(false)
        }
    }

    /// Takes one that is there to be taken. Whoever finds none tries again later.
    pub fn acquire_spin<F: Fn(usize, u32) -> bool>(&mut self, run: &F) -> (r: Result<(), &'static str>)
        requires
            old(self)@.rm || old(self)@.cnt >= 1,
            forall|c: usize, e: u32| call_requires(*run, (c, e)),
        ensures
            old(self)@.rm ==> r == Err::<(), _>("removed") && final(self)@ == old(self)@,
            !old(self)@.rm ==> r == Ok::<(), &'static str>(()) && sem_told(*run, old(self)@.taken(), final(self)@),
    {
        match self.try_acquire(run) {
            Ok(_) => Ok(()),
            Err(e) => Err(e),
        }
    }

    /// Takes one, to be given back through the guard.
    pub fn access<F: Fn(usize, u32) -> bool>(&mut self, run: &F) -> (r: Result<SemaphoreGuard, &'static str>)
        requires
            old(self)@.rm || old(self)@.cnt >= 1,
            forall|c: usize, e: u32| call_requires(*run, (c, e)),
        ensures
            old(self)@.rm ==> r == Err::<SemaphoreGuard, _>("removed") && final(self)@ == old(self)@,
            !old(self)@.rm ==> r == Ok::<_, &'static str>(SemaphoreGuard { held: true, of: old(self)@.id }) && sem_told(
                *run,
                old(self)@.taken(),
                final(self)@,
            ),
    {
        match self.acquire_spin(run) {
            Ok(()) => Ok(SemaphoreGuard { held: true, of: self.id }),
            Err(e) => Err(e),
        }
    }

    pub fn get_val(&self) -> (r: isize)
        ensures
            r == self@.cnt,
    {
        self.cnt
    }

    pub fn get_ncnt(&self) -> (r: usize)
        ensures
            r == self@.bus.callbacks.len(),
    {
        self.bus.callback_len()
    }

    pub fn get_pid(&self) -> (r: usize)
        ensures
            r == self@.pid,
    {
        self.pid
    }

    pub fn set_pid(&mut self, p: usize)
        ensures
            final(self)@ == (SemaphoreView { pid: p, ..old(self)@ }),
    {
        self.pid = p;
    }

    pub fn set_val<F: Fn(usize, u32) -> bool>(&mut self, v: isize, run: &F)
        requires
            forall|c: usize, e: u32| call_requires(*run, (c, e)),
        ensures
            sem_told(*run, old(self)@.raised_to(v), final(self)@),
    {
        self.cnt = v;
        if self.cnt >= 1 {
            self.bus.note(0, EventBitflag::SEMAPHORE_AVAILABLE);
        }
        self.bus.deliver(run);
    }
}

/// Giving back what was taken restores the counter.
pub proof fn law_release_undoes_acquire(s: SemaphoreView)
    requires
        s.cnt >= 1,
    ensures
        s.taken().raised_to((s.taken().cnt + 1) as isize).cnt == s.cnt,
{
}

/// While the available bit tells whether the counter is positive, taking and giving back keep
/// it so.
pub proof fn law_available_bit(s: SemaphoreView)
    requires
        s.cnt < isize::MAX,
        s.cnt >= 1 ==> s.bus.event & EventBitflag::SEMAPHORE_AVAILABLE != 0,
        s.cnt < 1 ==> s.bus.event & EventBitflag::SEMAPHORE_AVAILABLE == 0,
    ensures
        ({
            let up = s.raised_to((s.cnt + 1) as isize);
            (up.cnt >= 1) == (up.bus.event & EventBitflag::SEMAPHORE_AVAILABLE != 0)
        }),
        s.cnt >= 1 ==> (s.taken().cnt >= 1) == (s.taken().bus.event & EventBitflag::SEMAPHORE_AVAILABLE != 0),
{
    let e = s.bus.event;
    lemma_set_and_clear(e, 0x20_0000, 0x20_0000);
}

} // verus!
