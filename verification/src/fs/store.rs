//! Where the contents that open files share are kept.
//!
//! Several handles may stand for one file, one cursor or one pipe. The store owns those, and a
//! handle holds their places in it. Nothing is ever removed from the store, so a place stays
//! good.

use crate::sync::event::{delivered, law_quiet_bus, EventBus, EventBusView};
use std::collections::{BTreeSet, VecDeque};
use vstd::prelude::*;

verus! {

pub const O_NONBLOCK: usize = 0o4000;

pub const O_APPEND: usize = 0o2000;

pub const O_CLOEXEC: usize = 0o2000000;

pub const AT_NOFOLLOW: usize = 0x100;

/// How many links a path may lead through.
pub const FOLLOW_LIM: usize = 3;

/// How a file was opened.
#[derive(Debug, Clone, Copy)]
pub struct FdOpt {
    pub read: bool,
    pub write: bool,
    pub append: bool,
    pub non_blocking: bool,
}

impl Default for FdOpt {
    fn default() -> (r: Self)
        ensures
            r == (FdOpt { read: true, write: false, append: false, non_blocking: false }),
    {
        FdOpt { read: true, write: false, append: false, non_blocking: false }
    }
}

/// The cursor and the options that the duplicates of a handle share.
#[derive(Clone, Copy)]
pub struct FdState {
    pub off: u64,
    pub opt: FdOpt,
}

impl FdState {
    /// A cursor at the start.
    pub fn create(opt: FdOpt) -> (r: FdState)
        ensures
            r == (FdState { off: 0, opt }),
    {
        FdState { off: 0, opt }
    }
}

/// A pipe: the bytes in it, its events, and how many of its ends are open.
pub struct PipeBuf {
    pub buf: VecDeque<u8>,
    pub bus: EventBus,
    pub ends: i32,
}

/// What a pipe stands for.
#[verifier::ext_equal]
pub ghost struct PipeView {
    pub buf: Seq<u8>,
    pub bus: EventBusView,
    pub ends: i32,
}

impl View for PipeBuf {
    type V = PipeView;

    open spec fn view(&self) -> PipeView {
        PipeView { buf: self.buf@, bus: self.bus@, ends: self.ends }
    }
}

impl PipeView {
    /// The pipe shows that an end of it was closed.
    pub open spec fn event_closed(self) -> bool {
        self.bus.event & 8 != 0
    }
}

/// The contents, cursors, pipes and number sets that handles refer to.
pub struct Store {
    pub blobs: Vec<Vec<u8>>,
    pub states: Vec<FdState>,
    pub pipes: Vec<PipeBuf>,
    pub sets: Vec<BTreeSet<usize>>,
}

/// What a store stands for.
#[verifier::ext_equal]
pub ghost struct StoreView {
    pub blobs: Seq<Seq<u8>>,
    pub states: Seq<FdState>,
    pub pipes: Seq<PipeView>,
    pub sets: Seq<Set<usize>>,
}

impl View for Store {
    type V = StoreView;

    open spec fn view(&self) -> StoreView {
        StoreView {
            blobs: self.blobs@.map_values(|b: Vec<u8>| b@),
            states: self.states@,
            pipes: self.pipes@.map_values(|p: PipeBuf| p@),
            sets: self.sets@.map_values(|s: BTreeSet<usize>| s@),
        }
    }
}

impl StoreView {
    /// Every place of `self` is a place of `later`.
    pub open spec fn grows_to(self, later: StoreView) -> bool {
        &&& self.blobs.len() <= later.blobs.len()
        &&& self.states.len() <= later.states.len()
        &&& self.pipes.len() <= later.pipes.len()
        &&& self.sets.len() <= later.sets.len()
    }

    pub open spec fn set_blob(self, i: int, d: Seq<u8>) -> StoreView {
        StoreView { blobs: self.blobs.update(i, d), ..self }
    }

    pub open spec fn set_state(self, i: int, d: FdState) -> StoreView {
        StoreView { states: self.states.update(i, d), ..self }
    }

    pub open spec fn set_pipe(self, i: int, p: PipeView) -> StoreView {
        StoreView { pipes: self.pipes.update(i, p), ..self }
    }
}

/// `after` is `before` once those who wait for events of pipes have heard of all that were noted.
pub open spec fn pipes_delivered<F: Fn(usize, u32) -> bool>(run: F, before: StoreView, after: StoreView) -> bool {
    &&& after == (StoreView { pipes: after.pipes, ..before })
    &&& after.pipes.len() == before.pipes.len()
    &&& forall|i: int|
        0 <= i < before.pipes.len() ==> {
            let p = #[trigger] after.pipes[i];
            p == (PipeView { bus: p.bus, ..before.pipes[i] }) && delivered(run, before.pipes[i].bus, p.bus)
        }
}

/// Where nobody waits for events of pipes, there is nobody to tell.
pub proof fn law_quiet_pipes<F: Fn(usize, u32) -> bool>(run: F, before: StoreView, after: StoreView)
    requires
        pipes_delivered(run, before, after),
        forall|i: int| 0 <= i < before.pipes.len() ==> (#[trigger] before.pipes[i]).bus.quiet(),
    ensures
        after == before,
{
    assert forall|i: int| 0 <= i < before.pipes.len() implies after.pipes[i] == before.pipes[i] by {
        let p = after.pipes[i];
        assert(before.pipes[i].bus.quiet());
        law_quiet_bus(run, before.pipes[i].bus, p.bus);
    }
    assert(after.pipes =~= before.pipes);
}

fn put(s: &mut BTreeSet<usize>, x: usize)
    ensures
        final(s)@ == old(s)@.insert(x),
{
    broadcast use vstd::std_specs::btree::group_btree_axioms;
    broadcast use vstd::laws_cmp::group_laws_cmp;

    s.insert(x);
}

impl Store {
    pub fn new() -> (r: Self)
        ensures
            r@ == (StoreView {
                blobs: Seq::empty(),
                states: Seq::empty(),
                pipes: Seq::empty(),
                sets: Seq::empty(),
            }),
    {
        let r = Store { blobs: Vec::new(), states: Vec::new(), pipes: Vec::new(), sets: Vec::new() };
        assert(r@.blobs =~= Seq::empty());
        assert(r@.pipes =~= Seq::empty());
        assert(r@.sets =~= Seq::empty());
        r
    }

    pub fn add_blob(&mut self, d: Vec<u8>) -> (i: usize)
        ensures
            i == old(self)@.blobs.len(),
            final(self)@ == (StoreView { blobs: old(self)@.blobs.push(d@), ..old(self)@ }),
    {
        let i: usize = self.blobs.len();
        self.blobs.push(d);
        assert(self@.blobs =~= old(self)@.blobs.push(d@));
        i
    }

    pub fn add_state(&mut self, s: FdState) -> (i: usize)
        ensures
            i == old(self)@.states.len(),
            final(self)@ == (StoreView { states: old(self)@.states.push(s), ..old(self)@ }),
    {
        let i: usize = self.states.len();
        self.states.push(s);
        i
    }

    pub fn add_pipe(&mut self, p: PipeBuf) -> (i: usize)
        ensures
            i == old(self)@.pipes.len(),
            final(self)@ == (StoreView { pipes: old(self)@.pipes.push(p@), ..old(self)@ }),
    {
        let i: usize = self.pipes.len();
        self.pipes.push(p);
        assert(self@.pipes =~= old(self)@.pipes.push(p@));
        i
    }

    /// Adds an empty set of numbers.
    pub fn add_set(&mut self) -> (i: usize)
        ensures
            i == old(self)@.sets.len(),
            final(self)@ == (StoreView { sets: old(self)@.sets.push(Set::empty()), ..old(self)@ }),
    {
        let i: usize = self.sets.len();
        self.sets.push(BTreeSet::new());
        assert(self@.sets =~= old(self)@.sets.push(Set::empty()));
        i
    }

    /// Puts a number into one of the sets.
    pub fn set_insert(&mut self, i: usize, x: usize)
        requires
            i < old(self)@.sets.len(),
        ensures
            final(self)@ == (StoreView {
                sets: old(self)@.sets.update(i as int, old(self)@.sets[i as int].insert(x)),
                ..old(self)@
            }),
    {
        put(&mut self.sets[i], x);
        assert(self@.sets =~= old(self)@.sets.update(i as int, old(self)@.sets[i as int].insert(x)));
    }

    pub fn replace_blob(&mut self, i: usize, d: Vec<u8>)
        requires
            i < old(self)@.blobs.len(),
        ensures
            final(self)@ == old(self)@.set_blob(i as int, d@),
    {
        self.blobs[i] = d;
        assert(self@.blobs =~= old(self)@.blobs.update(i as int, d@));
    }
}

impl Store {
    /// Tells those who wait for events of pipes of what happened to them.
    pub(crate) fn deliver<F: Fn(usize, u32) -> bool>(&mut self, run: &F)
        requires
            forall|c: usize, e: u32| call_requires(*run, (c, e)),
        ensures
            pipes_delivered(*run, old(self)@, final(self)@),
    {
        let mut i: usize = 0;
        while i < self.pipes.len()
            invariant
                forall|c: usize, e: u32| call_requires(*run, (c, e)),
                i <= self.pipes@.len() == old(self).pipes@.len(),
                self.blobs == old(self).blobs,
                self.states == old(self).states,
                self.sets == old(self).sets,
                forall|k: int|
                    0 <= k < i ==> {
                        let p = (#[trigger] self.pipes@[k])@;
                        let q = old(self).pipes@[k]@;
                        p == (PipeView { bus: p.bus, ..q }) && delivered(*run, q.bus, p.bus)
                    },
                forall|k: int| i <= k < self.pipes@.len() ==> self.pipes@[k] == old(self).pipes@[k],
            decreases self.pipes@.len() - i,
        {
            self.pipes[i].bus.deliver(run);
            i += 1;
        }
        assert forall|k: int| 0 <= k < self@.pipes.len() implies {
            let p = #[trigger] self@.pipes[k];
            p == (PipeView { bus: p.bus, ..old(self)@.pipes[k] }) && delivered(*run, old(self)@.pipes[k].bus, p.bus)
        } by {
            assert(self@.pipes[k] == self.pipes@[k]@);
        }
    }
}

} // verus!
