//! Requests to a disk, served in the order of an elevator.

use std::collections::VecDeque;
use vstd::prelude::*;

verus! {

pub const IOQUEUE_DEPTH: usize = 128;

#[derive(Clone, Copy, Debug, PartialEq, Eq, Structural)]
pub struct IoRequest {
    pub block: usize,
    pub write: bool,
    pub priority: u8,
    pub submitted_tick: usize,
}

/// Waiting requests, where the head stands and which way it moves.
pub struct IoQueue {
    pub pending: VecDeque<IoRequest>,
    pub head_pos: usize,
    pub direction_up: bool,
    pub dispatched: usize,
    pub merged: usize,
}

/// What a queue stands for.
#[verifier::ext_equal]
pub ghost struct IoView {
    pub pending: Seq<IoRequest>,
    pub head_pos: usize,
    pub direction_up: bool,
    pub dispatched: usize,
    pub merged: usize,
}

impl View for IoQueue {
    type V = IoView;

    open spec fn view(&self) -> IoView {
        IoView {
            pending: self.pending@,
            head_pos: self.head_pos,
            direction_up: self.direction_up,
            dispatched: self.dispatched,
            merged: self.merged,
        }
    }
}

/// How far a block is from the head. What lies behind the head comes after what lies before it.
pub open spec fn distance(block: usize, head: usize, up: bool) -> int {
    if up {
        if block >= head {
            block - head
        } else {
            usize::MAX / 2 + block
        }
    } else {
        if block <= head {
            head - block
        } else {
            usize::MAX - block
        }
    }
}

/// The place of the first among the nearest of the first `n` requests.
pub open spec fn nearest(q: Seq<IoRequest>, head: usize, up: bool, n: nat) -> int
    decreases n,
{
    if n <= 1 {
        0
    } else {
        let best = nearest(q, head, up, (n - 1) as nat);
        if distance(q[n - 1].block, head, up) < distance(q[best].block, head, up) {
            n - 1
        } else {
            best
        }
    }
}

/// The second request starts where the first one ends and goes the same way.
pub open spec fn joins(a: IoRequest, b: IoRequest) -> bool {
    a.block + 1 == b.block && a.write == b.write
}

/// The requests with every one dropped that joins the one kept before it.
pub open spec fn merged(q: Seq<IoRequest>) -> Seq<IoRequest>
    decreases q.len(),
{
    if q.len() < 2 {
        q
    } else if joins(q[0], q[1]) {
        merged(q.remove(1))
    } else {
        seq![q[0]] + merged(q.skip(1))
    }
}

/// No request that is compared with the next one is for the last block there is.
pub open spec fn can_merge(q: Seq<IoRequest>) -> bool
    decreases q.len(),
{
    q.len() < 2 || (q[0].block < usize::MAX && if joins(q[0], q[1]) {
        can_merge(q.remove(1))
    } else {
        can_merge(q.skip(1))
    })
}

/// The number of requests, as a signed number of 32 bits, is over the limit.
pub open spec fn overfull(n: int) -> bool {
    IOQUEUE_DEPTH < n % 0x1_0000_0000 < 0x8000_0000
}

pub open spec fn requests(rs: Seq<(usize, bool, u8)>, tick: usize) -> Seq<IoRequest> {
    rs.map_values(
        |r: (usize, bool, u8)| IoRequest { block: r.0, write: r.1, priority: r.2, submitted_tick: tick },
    )
}

impl IoView {
    /// Adjacent requests were merged.
    pub open spec fn after_merge(self) -> IoView {
        let m = merged(self.pending);
        IoView {
            pending: m,
            merged: self.merged.wrapping_add((self.pending.len() - m.len()) as usize),
            ..self
        }
    }

    /// The request that is served next.
    pub open spec fn next(self) -> int {
        nearest(self.pending, self.head_pos, self.direction_up, self.pending.len())
    }

    /// The distance to a block behind an upward moving head can be counted.
    pub open spec fn can_dispatch(self) -> bool {
        forall|i: int|
            0 <= i < self.pending.len() && self.direction_up && (#[trigger] self.pending[i]).block < self.head_pos
                ==> usize::MAX / 2 + self.pending[i].block <= usize::MAX
    }

    /// The next request was served. The head turns round when nothing is left before it.
    pub open spec fn after_dispatch(self) -> IoView {
        let r = self.pending[self.next()];
        let rest = self.pending.remove(self.next());
        let turn_down = self.direction_up && r.block >= self.head_pos && all_below(rest, r.block);
        let turn_up = !self.direction_up && r.block <= self.head_pos && all_above(rest, r.block);
        IoView {
            pending: rest,
            head_pos: r.block,
            direction_up: (self.direction_up && !turn_down) || turn_up,
            dispatched: self.dispatched.wrapping_add(1),
            merged: self.merged,
        }
    }
}

pub open spec fn all_below(q: Seq<IoRequest>, block: usize) -> bool {
    forall|i: int| 0 <= i < q.len() ==> (#[trigger] q[i]).block < block
}

pub open spec fn all_above(q: Seq<IoRequest>, block: usize) -> bool {
    forall|i: int| 0 <= i < q.len() ==> (#[trigger] q[i]).block > block
}

impl IoQueue {
    pub fn new() -> (r: Self)
        ensures
            r@ == (IoView { pending: Seq::empty(), head_pos: 0, direction_up: true, dispatched: 0, merged: 0 }),
    {
        IoQueue { pending: VecDeque::new(), head_pos: 0, direction_up: true, dispatched: 0, merged: 0 }
    }

    pub fn submit(&mut self, block: usize, write: bool, priority: u8, tick: usize)
        ensures
            final(self)@ == (IoView {
                pending: old(self)@.pending.push(IoRequest { block, write, priority, submitted_tick: tick }),
                ..old(self)@
            }),
    {
        self.pending.push_back(IoRequest { block, write, priority, submitted_tick: tick });
    }

    /// Adds all the requests. No more may wait then than a queue holds without merging.
    pub fn submit_batch(&mut self, reqs: &[(usize, bool, u8)], tick: usize) -> (r: usize)
        requires
            !overfull((old(self)@.pending.len() + reqs@.len()) as int),
        ensures
            r == reqs@.len(),
            final(self)@ == (IoView { pending: old(self)@.pending + requests(reqs@, tick), ..old(self)@ }),
    {
        let mut i: usize = 0;
        assert(self@.pending =~= old(self)@.pending + requests(reqs@.take(0), tick));
        while i < reqs.len()
            invariant
                i <= reqs@.len(),
                self@ == (IoView {
                    pending: old(self)@.pending + requests(reqs@.take(i as int), tick),
                    ..old(self)@
                }),
            decreases reqs@.len() - i,
        {
            let (block, write, priority) = reqs[i];
            self.submit(block, write, priority, tick);
            i += 1;
            assert(self@.pending =~= old(self)@.pending + requests(reqs@.take(i as int), tick));
        }
        assert(reqs@.take(i as int) =~= reqs@);
        reqs.len()
    }

    /// Takes out the request nearest to the head in the way it moves, and moves the head there.
    pub fn dispatch(&mut self) -> (r: Option<(usize, bool)>)
        requires
            old(self)@.can_dispatch(),
        ensures
            old(self)@.pending.len() == 0 ==> r is None && final(self)@ == old(self)@,
            old(self)@.pending.len() > 0 ==> {
                let req = old(self)@.pending[old(self)@.next()];
                r == Some((req.block, req.write)) && final(self)@ == old(self)@.after_dispatch()
            },
    {
        if self.pending.len() == 0 {
            return None;
        }
        let head: usize = self.head_pos;
        let up: bool = self.direction_up;
        let ghost q = self.pending@;
        let mut best: usize = 0;
        let mut best_dist: usize = Self::dist(self.pending[0].block, head, up);
        let mut i: usize = 1;
        while i < self.pending.len()
            invariant
                1 <= i <= q.len(),
                q == self.pending@,
                self@ == old(self)@,
                self@.can_dispatch(),
                head == self.head_pos,
                up == self.direction_up,
                best == nearest(q, head, up, i as nat),
                best < i,
                best_dist == distance(q[best as int].block, head, up),
            decreases q.len() - i,
        {
            assert(self@.pending[i as int] == q[i as int]);
            let d: usize = Self::dist(self.pending[i].block, head, up);
            if d < best_dist {
                best_dist = d;
                best = i;
            }
            i += 1;
        }
        let req: IoRequest = self.pending[best];
        self.pending.remove(best);
        self.head_pos = req.block;
        if up && req.block >= head {
            if self.none_from(req.block) {
                self.direction_up = false;
            }
        } else if !up && req.block <= head {
            if self.none_up_to(req.block) {
                self.direction_up = true;
            }
        }
        self.dispatched = self.dispatched.wrapping_add(1);
        Some((req.block, req.write))
    }

    fn dist(block: usize, head: usize, up: bool) -> (d: usize)
        requires
            up && block < head ==> usize::MAX / 2 + block <= usize::MAX,
        ensures
            d == distance(block, head, up),
    {
        if up {
            if block >= head {
                block - head
            } else {
                usize::MAX / 2 + block
            }
        } else {
            if block <= head {
                head - block
            } else {
                usize::MAX - block
            }
        }
    }

    fn none_from(&self, block: usize) -> (r: bool)
        ensures
            r == all_below(self@.pending, block),
    {
        let mut i: usize = 0;
        while i < self.pending.len()
            invariant
                i <= self.pending@.len(),
                forall|k: int| 0 <= k < i ==> (#[trigger] self.pending@[k]).block < block,
            decreases self.pending@.len() - i,
        {
            if self.pending[i].block >= block {
                assert(self@.pending[i as int].block >= block);
                return false;
            }
            i += 1;
        }
        true
    }

    fn none_up_to(&self, block: usize) -> (r: bool)
        ensures
            r == all_above(self@.pending, block),
    {
        let mut i: usize = 0;
        while i < self.pending.len()
            invariant
                i <= self.pending@.len(),
                forall|k: int| 0 <= k < i ==> (#[trigger] self.pending@[k]).block > block,
            decreases self.pending@.len() - i,
        {
            if self.pending[i].block <= block {
                assert(self@.pending[i as int].block <= block);
                return false;
            }
            i += 1;
        }
        true
    }

    /// Drops every request that joins the one kept before it, and returns how many that are.
    pub fn merge_adjacent(&mut self) -> (r: usize)
        requires
            can_merge(old(self)@.pending),
        ensures
            final(self)@ == old(self)@.after_merge(),
            r == old(self)@.pending.len() - merged(old(self)@.pending).len(),
    {
        let ghost q = self.pending@;
        let total: usize = self.pending.len();
        let mut count: usize = 0;
        let mut i: usize = 0;
        assert(q.skip(0) =~= q);
        assert(q.take(0) + merged(q) =~= merged(q));
        while i < self.pending.len() && i + 1 < self.pending.len()
            invariant
                i <= self.pending@.len(),
                count + self.pending@.len() == q.len(),
                q.len() == total,
                can_merge(self.pending@.skip(i as int)),
                merged(q) == self.pending@.take(i as int) + merged(self.pending@.skip(i as int)),
                self@ == (IoView { pending: self.pending@, ..old(self)@ }),
            decreases self.pending@.len() - i,
        {
            let ghost now = self.pending@;
            let ghost tail = now.skip(i as int);
            let a: IoRequest = self.pending[i];
            let b: IoRequest = self.pending[i + 1];
            assert(tail[0] == a && tail[1] == b);
            if a.block + 1 == b.block && a.write == b.write {
                self.pending.remove(i + 1);
                count += 1;
                assert(self.pending@.skip(i as int) =~= tail.remove(1));
                assert(self.pending@.take(i as int) =~= now.take(i as int));
            } else {
                assert(now.skip(i + 1) =~= tail.skip(1));
                assert(now.take(i as int) + (seq![a] + merged(tail.skip(1))) =~= now.take(i + 1) + merged(now.skip(i + 1)));
                i += 1;
            }
        }
        proof {
            assert(self.pending@.take(i as int) + self.pending@.skip(i as int) =~= self.pending@);
            assert(merged(q) == self.pending@);
        }
        self.merged = self.merged.wrapping_add(count);
        count
    }

    pub fn depth(&self) -> (r: usize)
        ensures
            r == self@.pending.len(),
    {
        self.pending.len()
    }
}

/// The request that is served is among the nearest, and none as near came before it.
pub proof fn law_nearest_is_served(q: Seq<IoRequest>, head: usize, up: bool, n: nat)
    requires
        0 < n <= q.len(),
    ensures
        0 <= nearest(q, head, up, n) < n,
        forall|j: int|
            0 <= j < n ==> distance(q[nearest(q, head, up, n)].block, head, up) <= distance(
                (#[trigger] q[j]).block,
                head,
                up,
            ),
        forall|j: int|
            0 <= j < nearest(q, head, up, n) ==> distance(q[nearest(q, head, up, n)].block, head, up) < distance(
                (#[trigger] q[j]).block,
                head,
                up,
            ),
    decreases n,
{
    if n > 1 {
        law_nearest_is_served(q, head, up, (n - 1) as nat);
    }
}

/// After a merge no request joins the one before it, and the first one stays.
pub proof fn law_merged_has_no_joins(q: Seq<IoRequest>)
    ensures
        merged(q).len() <= q.len(),
        q.len() > 0 ==> merged(q).len() > 0 && merged(q)[0] == q[0],
        forall|i: int, j: int|
            0 <= i && j == i + 1 && j < merged(q).len() ==> !joins(#[trigger] merged(q)[i], #[trigger] merged(q)[j]),
    decreases q.len(),
{
    if q.len() >= 2 {
        if joins(q[0], q[1]) {
            law_merged_has_no_joins(q.remove(1));
        } else {
            law_merged_has_no_joins(q.skip(1));
            let m = merged(q);
            let t = merged(q.skip(1));
            assert forall|i: int, j: int| 0 <= i && j == i + 1 && j < m.len() implies !joins(
                #[trigger] m[i],
                #[trigger] m[j],
            ) by {
                assert(m[j] == t[j - 1]);
                if i > 0 {
                    assert(m[i] == t[i - 1]);
                }
            }
        }
    }
}

} // verus!
