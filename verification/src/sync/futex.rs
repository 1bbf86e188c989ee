//! Waiting on an address.

use crate::sequences::{first_hits, hits, lemma_sift_count, lemma_sift_step, sifted};
use std::collections::VecDeque;
use vstd::prelude::*;

verus! {

/// A thread that waits at an address. Its ticket is the place of its flag.
#[derive(Clone, Copy)]
pub struct Waiter {
    pub addr: usize,
    pub thread: usize,
    pub ticket: usize,
}

/// Those who wait at `addr`.
pub open spec fn waits_at(addr: usize) -> spec_fn(Waiter) -> bool {
    |w: Waiter| w.addr == addr
}

/// Waiting at `addr` instead.
pub open spec fn moved_to(addr: usize) -> spec_fn(Waiter) -> Waiter {
    |w: Waiter| Waiter { addr, ..w }
}

/// The threads of some waiters.
pub open spec fn threads(ws: Seq<Waiter>) -> Seq<usize> {
    ws.map_values(|w: Waiter| w.thread)
}

/// The flags with those of the given waiters raised.
pub open spec fn raised(flags: Seq<bool>, ws: Seq<Waiter>) -> Seq<bool> {
    Seq::new(flags.len(), |t: int| flags[t] || exists|i: int| 0 <= i < ws.len() && #[trigger] ws[i].ticket == t)
}

/// The waiters of a process, and a flag for everyone who ever waited that says whether it was
/// woken.
pub struct FutexBucket {
    pub waiters: VecDeque<Waiter>,
    pub flags: Vec<bool>,
}

/// What a bucket stands for.
#[verifier::ext_equal]
pub ghost struct FutexView {
    pub waiters: Seq<Waiter>,
    pub flags: Seq<bool>,
}

impl View for FutexBucket {
    type V = FutexView;

    open spec fn view(&self) -> FutexView {
        FutexView { waiters: self.waiters@, flags: self.flags@ }
    }
}

impl FutexView {
    pub open spec fn new() -> FutexView {
        FutexView { waiters: Seq::empty(), flags: Seq::empty() }
    }

    /// Tickets are places of flags, no two waiters have the same, and none of those who wait was
    /// woken.
    pub open spec fn wf(self) -> bool {
        &&& forall|i: int|
            0 <= i < self.waiters.len() ==> #[trigger] self.waiters[i].ticket < self.flags.len()
                && !self.flags[self.waiters[i].ticket as int]
        &&& forall|i: int, j: int|
            0 <= i < j < self.waiters.len() ==> #[trigger] self.waiters[i].ticket != #[trigger] self.waiters[j].ticket
    }

    /// The first `n` who wait at `src` are woken and leave, and the next `m` wait at `dst`.
    pub open spec fn requeued(self, src: usize, dst: usize, n: nat, m: nat) -> FutexView {
        FutexView {
            waiters: sifted(self.waiters, waits_at(src), n, m, moved_to(dst)),
            flags: raised(self.flags, first_hits(self.waiters, waits_at(src), n)),
        }
    }
}

impl FutexBucket {
    pub fn new() -> (r: Self)
        ensures
            r@ == FutexView::new(),
            r@.wf(),
    {
        FutexBucket { waiters: VecDeque::new(), flags: Vec::new() }
    }

    /// Queues `thread` at `addr` if the value there is still the expected one, and gives it a
    /// ticket to ask with once it runs again.
    pub fn wait(&mut self, addr: usize, expected: u32, val: u32, thread: usize) -> (r: Result<usize, &'static str>)
        requires
            old(self)@.wf(),
        ensures
            final(self)@.wf(),
            val != expected ==> r == Err::<usize, _>("changed") && final(self)@ == old(self)@,
            val == expected ==> {
                let ticket = old(self)@.flags.len() as usize;
                &&& r == Ok::<usize, &'static str>(ticket)
                &&& final(self)@ == (FutexView {
                    waiters: old(self)@.waiters.push(Waiter { addr, thread, ticket }),
                    flags: old(self)@.flags.push(false),
                })
            },
    {
        if val != expected {
            return Err("changed");
        }
        let ticket: usize = self.flags.len();
        self.waiters.push_back(Waiter { addr, thread, ticket });
        self.flags.push(false);
        Ok(ticket)
    }

    /// How a wait ended: by a wake, or otherwise.
    pub fn outcome(&self, ticket: usize) -> (r: Result<(), &'static str>)
        requires
            ticket < self@.flags.len(),
        ensures
            self@.flags[ticket as int] ==> r == Ok::<(), &'static str>(()),
            !self@.flags[ticket as int] ==> r == Err::<(), _>("timeout"),
    {
        if self.flags[ticket] {
            Ok(())
        } else {
            Err("timeout")
        }
    }

    /// Wakes the first `count` who wait at `addr`, and adds their threads to `unpark`.
    pub fn wake(&mut self, addr: usize, count: usize, unpark: &mut Vec<usize>) -> (r: usize)
        requires
            old(self)@.wf(),
        ensures
            final(self)@.wf(),
            final(self)@ == old(self)@.requeued(addr, addr, count as nat, 0),
            r == first_hits(old(self)@.waiters, waits_at(addr), count as nat).len(),
            final(unpark)@ == old(unpark)@ + threads(first_hits(old(self)@.waiters, waits_at(addr), count as nat)),
    {
        self.requeue(addr, addr, count, 0, unpark)
    }

    /// Wakes the first `wake_n` who wait at `src`, and moves the next `move_n` to `dst`.
    pub fn requeue(&mut self, src: usize, dst: usize, wake_n: usize, move_n: usize, unpark: &mut Vec<usize>) -> (r:
        usize)
        requires
            old(self)@.wf(),
        ensures
            final(self)@.wf(),
            final(self)@ == old(self)@.requeued(src, dst, wake_n as nat, move_n as nat),
            r == first_hits(old(self)@.waiters, waits_at(src), wake_n as nat).len(),
            final(unpark)@ == old(unpark)@ + threads(first_hits(old(self)@.waiters, waits_at(src), wake_n as nat)),
    {
        let ghost ws = self.waiters@;
        let ghost n = wake_n as nat;
        let ghost m = move_n as nat;
        let mut rest: VecDeque<Waiter> = VecDeque::new();
        let mut woken: usize = 0;
        let mut moved: usize = 0;
        let mut i: usize = 0;
        let total: usize = self.waiters.len();
        proof {
            reveal(Seq::filter);
            assert(rest@ =~= sifted(ws.take(0), waits_at(src), n, m, moved_to(dst)));
            assert(unpark@ =~= old(unpark)@ + threads(first_hits(ws.take(0), waits_at(src), n)));
            assert(self.flags@ =~= raised(old(self).flags@, first_hits(ws.take(0), waits_at(src), n)));
        }
        while i < total
            invariant
                i <= total == ws.len(),
                self.waiters@ == ws,
                old(self)@.wf(),
                ws == old(self)@.waiters,
                n == wake_n,
                m == move_n,
                rest@ == sifted(ws.take(i as int), waits_at(src), n, m, moved_to(dst)),
                unpark@ == old(unpark)@ + threads(first_hits(ws.take(i as int), waits_at(src), n)),
                self.flags@ == raised(old(self).flags@, first_hits(ws.take(i as int), waits_at(src), n)),
                woken == first_hits(ws.take(i as int), waits_at(src), n).len(),
                woken + moved <= i,
                woken <= n && moved <= m,
                ({
                    let k = hits(ws.take(i as int), waits_at(src));
                    &&& k < n ==> woken == k && moved == 0
                    &&& n <= k ==> woken == n
                    &&& n <= k < n + m ==> moved == k - n
                    &&& k >= n + m ==> moved == m
                }),
            decreases total - i,
        {
            let w: Waiter = self.waiters[i];
            proof {
                lemma_sift_step(ws, i as int, waits_at(src), n, m, moved_to(dst));
            }
            let ghost got = first_hits(ws.take(i as int), waits_at(src), n);
            if w.addr == src {
                if woken < wake_n {
                    let ghost before = self.flags@;
                    self.flags[w.ticket] = true;
                    unpark.push(w.thread);
                    woken += 1;
                    proof {
                        assert(threads(got.push(w)) =~= threads(got).push(w.thread));
                        let all = got.push(w);
                        assert forall|t: int| 0 <= t < before.len() implies self.flags@[t] == raised(
                            old(self).flags@,
                            all,
                        )[t] by {
                            assert(all[got.len() as int].ticket == w.ticket);
                            if exists|j: int| 0 <= j < got.len() && #[trigger] got[j].ticket == t {
                                let j = choose|j: int| 0 <= j < got.len() && #[trigger] got[j].ticket == t;
                                assert(all[j].ticket == t);
                            }
                            if exists|j: int| 0 <= j < all.len() && #[trigger] all[j].ticket == t {
                                let j = choose|j: int| 0 <= j < all.len() && #[trigger] all[j].ticket == t;
                                if j < got.len() {
                                    assert(got[j].ticket == t);
                                }
                            }
                        }
                        assert(self.flags@ =~= raised(old(self).flags@, all));
                    }
                } else if moved < move_n {
                    rest.push_back(Waiter { addr: dst, thread: w.thread, ticket: w.ticket });
                    moved += 1;
                } else {
                    rest.push_back(w);
                }
            } else {
                rest.push_back(w);
            }
            i += 1;
        }
        assert(ws.take(i as int) =~= ws);
        self.waiters = rest;
        proof {
            lemma_requeued_wf(old(self)@, src, dst, n, m);
        }
        woken
    }

    /// How many wait at `addr`.
    pub fn pending_at(&self, addr: usize) -> (r: usize)
        ensures
            r == hits(self@.waiters, waits_at(addr)),
    {
        count_at(&self.waiters, addr)
    }
}

/// How many of `queue` wait at `addr`.
fn count_at(queue: &VecDeque<Waiter>, addr: usize) -> (r: usize)
    ensures
        r == hits(queue@, waits_at(addr)),
{
    let ghost ws = queue@;
    let mut n: usize = 0;
    let mut i: usize = 0;
    proof {
        reveal(Seq::filter);
        assert(hits(ws.take(0), waits_at(addr)) == 0);
    }
    while i < queue.len()
        invariant
            i <= ws.len(),
            ws == queue@,
            n <= i,
            n == hits(ws.take(i as int), waits_at(addr)),
        decreases ws.len() - i,
    {
        proof {
            lemma_sift_step(ws, i as int, waits_at(addr), 0, 0, moved_to(addr));
        }
        if queue[i].addr == addr {
            n += 1;
        }
        i += 1;
    }
    assert(ws.take(i as int) =~= ws);
    n
}

/// Somebody among `ws` has ticket `t`.
spec fn holds_ticket(ws: Seq<Waiter>, t: usize) -> bool {
    exists|k: int| 0 <= k < ws.len() && #[trigger] ws[k].ticket == t
}

spec fn distinct_tickets(ws: Seq<Waiter>) -> bool {
    forall|i: int, j: int| 0 <= i < j < ws.len() ==> #[trigger] ws[i].ticket != #[trigger] ws[j].ticket
}

/// Those who are left and those who were woken are different waiters of the queue.
proof fn lemma_sift_tickets(ws: Seq<Waiter>, src: usize, dst: usize, n: nat, m: nat)
    requires
        distinct_tickets(ws),
    ensures
        ({
            let left = sifted(ws, waits_at(src), n, m, moved_to(dst));
            let got = first_hits(ws, waits_at(src), n);
            &&& forall|i: int| 0 <= i < left.len() ==> holds_ticket(ws, #[trigger] left[i].ticket)
            &&& forall|i: int| 0 <= i < got.len() ==> holds_ticket(ws, #[trigger] got[i].ticket)
            &&& distinct_tickets(left)
            &&& forall|i: int, j: int|
                0 <= i < left.len() && 0 <= j < got.len() ==> #[trigger] left[i].ticket != #[trigger] got[j].ticket
        }),
    decreases ws.len(),
{
    if ws.len() == 0 {
        reveal(Seq::filter);
    } else {
        let t = ws.drop_last();
        lemma_sift_tickets(t, src, dst, n, m);
        lemma_sift_step(ws, ws.len() - 1, waits_at(src), n, m, moved_to(dst));
        assert(ws.take(ws.len() - 1) =~= t);
        assert(ws.take(ws.len() as int) =~= ws);
        assert forall|x: usize| holds_ticket(t, x) implies holds_ticket(ws, x) && x != ws.last().ticket by {
            let k = choose|k: int| 0 <= k < t.len() && #[trigger] t[k].ticket == x;
            assert(ws[k].ticket == x);
        }
        assert(ws[ws.len() - 1].ticket == ws.last().ticket);
        assert(holds_ticket(ws, ws.last().ticket));
    }
}

proof fn lemma_requeued_wf(b: FutexView, src: usize, dst: usize, n: nat, m: nat)
    requires
        b.wf(),
    ensures
        b.requeued(src, dst, n, m).wf(),
{
    lemma_sift_tickets(b.waiters, src, dst, n, m);
    let after = b.requeued(src, dst, n, m);
    let got = first_hits(b.waiters, waits_at(src), n);
    assert forall|i: int| 0 <= i < after.waiters.len() implies #[trigger] after.waiters[i].ticket < after.flags.len()
        && !after.flags[after.waiters[i].ticket as int] by {
        let t = after.waiters[i].ticket;
        assert(holds_ticket(b.waiters, t));
    }
}

/// Whoever is woken gets to know it, and whoever still waits was not woken.
pub proof fn law_wake_tells_the_woken(b: FutexView, addr: usize, n: nat)
    requires
        b.wf(),
    ensures
        ({
            let after = b.requeued(addr, addr, n, 0);
            let got = first_hits(b.waiters, waits_at(addr), n);
            &&& forall|i: int| 0 <= i < got.len() ==> after.flags[#[trigger] got[i].ticket as int]
            &&& forall|i: int| 0 <= i < after.waiters.len() ==> !after.flags[#[trigger] after.waiters[i].ticket as int]
            &&& after.waiters.len() + got.len() == b.waiters.len()
        }),
{
    lemma_sift_tickets(b.waiters, addr, addr, n, 0);
    lemma_requeued_wf(b, addr, addr, n, 0);
    lemma_sift_count(b.waiters, waits_at(addr), n, 0, moved_to(addr));
    let got = first_hits(b.waiters, waits_at(addr), n);
    assert forall|i: int| 0 <= i < got.len() implies b.requeued(addr, addr, n, 0).flags[#[trigger] got[i].ticket as int] by {
        assert(holds_ticket(b.waiters, got[i].ticket));
    }
}

/// A queue of threads that wait at addresses.
pub struct FutexTable {
    pub table: VecDeque<Waiter>,
}

impl View for FutexTable {
    type V = Seq<Waiter>;

    open spec fn view(&self) -> Seq<Waiter> {
        self.table@
    }
}

impl FutexTable {
    pub fn new() -> (r: Self)
        ensures
            r@ == Seq::<Waiter>::empty(),
    {
        FutexTable { table: VecDeque::new() }
    }

    /// Queues `thread` at `addr` if the value there is still the expected one.
    pub fn futex_wait(&mut self, addr: usize, expected: u32, val: u32, thread: usize) -> (r: bool)
        ensures
            r == (val == expected),
            final(self)@ == (if val == expected {
                old(self)@.push(Waiter { addr, thread, ticket: 0 })
            } else {
                old(self)@
            }),
    {
        if val != expected {
            return false;
        }
        self.table.push_back(Waiter { addr, thread, ticket: 0 });
        true
    }

    /// Lets the first `count` who wait at `addr` go, and returns how many they are.
    pub fn futex_wake(&mut self, addr: usize, count: usize, unpark: &mut Vec<usize>) -> (r: usize)
        ensures
            r == first_hits(old(self)@, waits_at(addr), count as nat).len(),
            final(self)@ == sifted(old(self)@, waits_at(addr), count as nat, 0, moved_to(addr)),
            final(unpark)@ == old(unpark)@ + threads(first_hits(old(self)@, waits_at(addr), count as nat)),
    {
        self.futex_requeue(addr, addr, count, 0, unpark)
    }

    /// Lets the first `wake_n` who wait at `src_addr` go, and moves the next `move_n` to
    /// `dst_addr`.
    pub fn futex_requeue(
        &mut self,
        src_addr: usize,
        dst_addr: usize,
        wake_n: usize,
        move_n: usize,
        unpark: &mut Vec<usize>,
    ) -> (r: usize)
        ensures
            r == first_hits(old(self)@, waits_at(src_addr), wake_n as nat).len(),
            final(self)@ == sifted(old(self)@, waits_at(src_addr), wake_n as nat, move_n as nat, moved_to(dst_addr)),
            final(unpark)@ == old(unpark)@ + threads(first_hits(old(self)@, waits_at(src_addr), wake_n as nat)),
    {
        let ghost ws = self.table@;
        let ghost n = wake_n as nat;
        let ghost m = move_n as nat;
        let mut rest: VecDeque<Waiter> = VecDeque::new();
        let mut woken: usize = 0;
        let mut moved: usize = 0;
        let mut i: usize = 0;
        proof {
            reveal(Seq::filter);
            assert(rest@ =~= sifted(ws.take(0), waits_at(src_addr), n, m, moved_to(dst_addr)));
            assert(unpark@ =~= old(unpark)@ + threads(first_hits(ws.take(0), waits_at(src_addr), n)));
        }
        while i < self.table.len()
            invariant
                i <= ws.len(),
                self.table@ == ws,
                n == wake_n,
                m == move_n,
                rest@ == sifted(ws.take(i as int), waits_at(src_addr), n, m, moved_to(dst_addr)),
                unpark@ == old(unpark)@ + threads(first_hits(ws.take(i as int), waits_at(src_addr), n)),
                woken == first_hits(ws.take(i as int), waits_at(src_addr), n).len(),
                woken <= n && moved <= m,
                ({
                    let k = hits(ws.take(i as int), waits_at(src_addr));
                    &&& k < n ==> woken == k && moved == 0
                    &&& n <= k ==> woken == n
                    &&& n <= k < n + m ==> moved == k - n
                    &&& k >= n + m ==> moved == m
                }),
            decreases ws.len() - i,
        {
            let w: Waiter = self.table[i];
            proof {
                lemma_sift_step(ws, i as int, waits_at(src_addr), n, m, moved_to(dst_addr));
                let got = first_hits(ws.take(i as int), waits_at(src_addr), n);
                assert(threads(got.push(w)) =~= threads(got).push(w.thread));
            }
            if w.addr == src_addr {
                if woken < wake_n {
                    unpark.push(w.thread);
                    woken += 1;
                } else if moved < move_n {
                    rest.push_back(Waiter { addr: dst_addr, thread: w.thread, ticket: w.ticket });
                    moved += 1;
                } else {
                    rest.push_back(w);
                }
            } else {
                rest.push_back(w);
            }
            i += 1;
        }
        assert(ws.take(i as int) =~= ws);
        self.table = rest;
        woken
    }
}

/// A wake lets go just as many as it counts: up to `n` of those who wait at the address.
pub proof fn law_table_wake_counts_the_woken(ws: Seq<Waiter>, addr: usize, n: nat)
    ensures
        ({
            let left = sifted(ws, waits_at(addr), n, 0, moved_to(addr));
            let got = first_hits(ws, waits_at(addr), n);
            &&& left.len() + got.len() == ws.len()
            &&& got.len() == (if n < hits(ws, waits_at(addr)) { n } else { hits(ws, waits_at(addr)) })
        }),
{
    lemma_sift_count(ws, waits_at(addr), n, 0, moved_to(addr));
}

} // verus!
