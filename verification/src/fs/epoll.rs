//! Epoll sets.

use crate::fs::store::{Store, StoreView};
use std::collections::BTreeMap;
use vstd::prelude::*;

verus! {

/// The events that a descriptor is watched for.
#[derive(Clone, Copy, Debug, PartialEq, Eq, Structural)]
pub struct EpollEvent {
    pub events: u32,
}

impl EpollEvent {
    pub const IN: u32 = 0x001;

    pub const OUT: u32 = 0x004;

    pub const ERR: u32 = 0x008;

    pub const HUP: u32 = 0x010;

    pub const PRI: u32 = 0x002;

    pub const RDNORM: u32 = 0x040;

    pub const RDBAND: u32 = 0x080;

    pub const WRNORM: u32 = 0x100;

    pub const WRBAND: u32 = 0x200;

    pub const MSG: u32 = 0x400;

    pub const RDHUP: u32 = 0x2000;

    pub const EXCL: u32 = 0x1000_0000;

    pub const WAKEUP: u32 = 0x2000_0000;

    pub const ONESHOT: u32 = 0x4000_0000;

    pub const ET: u32 = 0x8000_0000;

    pub fn has(&self, event: u32) -> (r: bool)
        ensures
            r == (self.events & event != 0),
    {
        (self.events & event) != 0
    }
}

/// Names for the operations on an epoll set.
pub struct EpollCtlOp;

impl EpollCtlOp {
    pub const ADD: i32 = 1;

    pub const DEL: i32 = 2;

    pub const MOD: i32 = 3;
}

/// An epoll set. Its copies share the sets at `ready` and `new_ctl`; what is watched is its own.
pub struct EpollInstance {
    pub events: BTreeMap<usize, EpollEvent>,
    pub ready: usize,
    pub new_ctl: usize,
}

/// What an epoll set stands for.
#[verifier::ext_equal]
pub ghost struct EpollView {
    pub events: Map<usize, EpollEvent>,
    pub ready: usize,
    pub new_ctl: usize,
}

impl View for EpollInstance {
    type V = EpollView;

    open spec fn view(&self) -> EpollView {
        EpollView { events: self.events@, ready: self.ready, new_ctl: self.new_ctl }
    }
}

impl Clone for EpollInstance {
    fn clone(&self) -> (r: Self)
        ensures
            r@ == self@,
    {
        broadcast use vstd::std_specs::btree::group_btree_axioms;

        EpollInstance { events: self.events.clone(), ready: self.ready, new_ctl: self.new_ctl }
    }
}

impl EpollView {
    pub open spec fn wf(self, st: StoreView) -> bool {
        self.ready < st.sets.len() && self.new_ctl < st.sets.len()
    }

    /// The descriptor was put among those with a changed entry.
    pub open spec fn noted(self, st: StoreView, fd: usize) -> StoreView {
        StoreView {
            sets: st.sets.update(self.new_ctl as int, st.sets[self.new_ctl as int].insert(fd)),
            ..st
        }
    }

    /// A change of one entry: the set after it, the store after it, and its result.
    pub open spec fn control_of(self, st: StoreView, op: i32, fd: usize, event: EpollEvent) -> (
        EpollView,
        StoreView,
        Result<(), &'static str>,
    ) {
        if op == EpollCtlOp::ADD || (op == EpollCtlOp::MOD && self.events.dom().contains(fd)) {
            (EpollView { events: self.events.insert(fd, event), ..self }, self.noted(st, fd), Ok(()))
        } else if op == EpollCtlOp::DEL && self.events.dom().contains(fd) {
            (EpollView { events: self.events.remove(fd), ..self }, st, Ok(()))
        } else if op == EpollCtlOp::DEL || op == EpollCtlOp::MOD {
            (self, st, Err("No such file descriptor"))
        } else {
            (self, st, Err("Undefined operation"))
        }
    }
}

impl EpollInstance {
    pub fn new(st: &mut Store) -> (r: Self)
        ensures
            r@ == (EpollView {
                events: Map::empty(),
                ready: old(st)@.sets.len() as usize,
                new_ctl: (old(st)@.sets.len() + 1) as usize,
            }),
            r@.wf(final(st)@),
            final(st)@ == (StoreView {
                sets: old(st)@.sets.push(Set::empty()).push(Set::empty()),
                ..old(st)@
            }),
    {
        let ready: usize = st.add_set();
        let new_ctl: usize = st.add_set();
        EpollInstance { events: BTreeMap::new(), ready, new_ctl }
    }

    /// Adds, removes or changes what is watched of `fd`.
    pub fn control(&mut self, st: &mut Store, op: i32, fd: usize, event: &EpollEvent) -> (r: Result<(), &'static str>)
        requires
            old(self)@.wf(old(st)@),
        ensures
            (final(self)@, final(st)@, r) == old(self)@.control_of(old(st)@, op, fd, *event),
    {
        broadcast use vstd::std_specs::btree::group_btree_axioms;
        broadcast use vstd::laws_cmp::group_laws_cmp;

        if op == EpollCtlOp::ADD || (op == EpollCtlOp::MOD && self.events.contains_key(&fd)) {
            self.events.insert(fd, *event);
            st.set_insert(self.new_ctl, fd);
            Ok(())
        } else if op == EpollCtlOp::DEL {
            if self.events.remove(&fd).is_some() {
                Ok(())
            } else {
                assert(self@.events =~= old(self)@.events);
                Err("No such file descriptor")
            }
        } else if op == EpollCtlOp::MOD {
            Err("No such file descriptor")
        } else {
            Err("Undefined operation")
        }
    }
}

/// Removing what was just added gives back a set without the descriptor, and removing it once
/// more is refused.
pub proof fn law_epoll_add_then_del(e: EpollView, st: StoreView, fd: usize, event: EpollEvent)
    requires
        e.wf(st),
    ensures
        ({
            let (a, s1, r1) = e.control_of(st, EpollCtlOp::ADD, fd, event);
            let (b, s2, r2) = a.control_of(s1, EpollCtlOp::DEL, fd, event);
            let (c, s3, r3) = b.control_of(s2, EpollCtlOp::DEL, fd, event);
            &&& r1 == Ok::<(), &'static str>(())
            &&& r2 == Ok::<(), &'static str>(())
            &&& b.events == e.events.remove(fd)
            &&& s2.sets[e.new_ctl as int].contains(fd)
            &&& r3 == Err::<(), _>("No such file descriptor")
        }),
{
    let (a, s1, r1) = e.control_of(st, EpollCtlOp::ADD, fd, event);
    let (b, s2, r2) = a.control_of(s1, EpollCtlOp::DEL, fd, event);
    assert(b.events =~= e.events.remove(fd));
}

} // verus!
