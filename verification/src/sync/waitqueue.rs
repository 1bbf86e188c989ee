//! Queues of sleeping threads.

use crate::sequences::{lemma_filter_push, lemma_marked_filter, lemma_marked_push, marked};
use std::collections::VecDeque;
use vstd::prelude::*;

verus! {

/// A thread that sleeps on a key.
#[derive(Clone, Copy)]
pub struct Sleeper {
    pub key: usize,
    pub thread: usize,
    pub flags: u32,
}

/// The threads of some sleepers.
pub open spec fn sleeping(s: Seq<Sleeper>) -> Seq<usize> {
    s.map_values(|w: Sleeper| w.thread)
}

pub open spec fn sleeps_on(key: usize) -> spec_fn(Sleeper) -> bool {
    |w: Sleeper| w.key == key
}

pub open spec fn sleeps_off(key: usize) -> spec_fn(Sleeper) -> bool {
    |w: Sleeper| w.key != key
}

/// Not this thread's sleep on this key.
pub open spec fn others(key: usize, thread: usize) -> spec_fn(Sleeper) -> bool {
    |w: Sleeper| w.key != key || w.thread != thread
}

pub open spec fn with_flags(flags: u32) -> spec_fn(Sleeper) -> bool {
    |w: Sleeper| w.flags == flags
}

/// `marks` says what `pred` answered for each sleeper.
pub open spec fn answered<F: Fn(usize, u32) -> bool>(pred: F, s: Seq<Sleeper>, marks: Seq<bool>) -> bool {
    &&& marks.len() == s.len()
    &&& forall|i: int| 0 <= i < s.len() ==> call_ensures(pred, (s[i].key, s[i].flags), #[trigger] marks[i])
}

/// The place of the first sleeper on `key`, or the length if there is none.
pub open spec fn first_on(s: Seq<Sleeper>, key: usize) -> int
    decreases s.len(),
{
    if s.len() == 0 || s[0].key == key {
        0
    } else {
        1 + first_on(s.skip(1), key)
    }
}

/// Sleeping threads in the order in which they came, and how many were woken.
pub struct WaitQueue {
    pub inner: VecDeque<Sleeper>,
    pub wake_count: usize,
}

/// What a queue stands for.
#[verifier::ext_equal]
pub ghost struct WaitView {
    pub inner: Seq<Sleeper>,
    pub wake_count: usize,
}

impl View for WaitQueue {
    type V = WaitView;

    open spec fn view(&self) -> WaitView {
        WaitView { inner: self.inner@, wake_count: self.wake_count }
    }
}

impl WaitQueue {
    pub fn new() -> (r: Self)
        ensures
            r@ == (WaitView { inner: Seq::empty(), wake_count: 0 }),
    {
        WaitQueue { inner: VecDeque::new(), wake_count: 0 }
    }

    /// Queues a thread that is about to sleep.
    pub fn sleep(&mut self, key: usize, flags: u32, thread: usize)
        ensures
            final(self)@ == (WaitView { inner: old(self)@.inner.push(Sleeper { key, thread, flags }), ..old(self)@ }),
    {
        self.inner.push_back(Sleeper { key, thread, flags });
    }

    /// Ends a sleep with a time limit: takes the thread off the queue, and tells whether it was
    /// still there.
    pub fn sleep_timeout(&mut self, key: usize, thread: usize) -> (r: bool)
        ensures
            final(self)@ == (WaitView { inner: old(self)@.inner.filter(others(key, thread)), ..old(self)@ }),
            r == (old(self)@.inner.filter(others(key, thread)).len() < old(self)@.inner.len()),
    {
        let before: usize = self.inner.len();
        let mut rest: VecDeque<Sleeper> = VecDeque::new();
        let mut i: usize = 0;
        let ghost s = self.inner@;
        proof {
            reveal(Seq::filter);
            assert(s.take(0).filter(others(key, thread)) =~= Seq::empty());
        }
        while i < self.inner.len()
            invariant
                i <= s.len(),
                s == self.inner@,
                rest@ == s.take(i as int).filter(others(key, thread)),
            decreases s.len() - i,
        {
            let w: Sleeper = self.inner[i];
            proof {
                lemma_filter_push(s.take(i as int), w, others(key, thread));
                assert(s.take(i as int).push(w) =~= s.take(i + 1));
            }
            if w.key != key || w.thread != thread {
                rest.push_back(w);
            }
            i += 1;
        }
        assert(s.take(i as int) =~= s);
        self.inner = rest;
        self.inner.len() < before
    }

    /// Wakes the first sleeper on `key`, if there is one.
    pub fn wake_one(&mut self, key: usize, unpark: &mut Vec<usize>) -> (r: bool)
        ensures
            ({
                let i = first_on(old(self)@.inner, key);
                if i < old(self)@.inner.len() {
                    &&& r
                    &&& final(self)@ == (WaitView {
                        inner: old(self)@.inner.remove(i),
                        wake_count: old(self)@.wake_count.wrapping_add(1),
                    })
                    &&& final(unpark)@ == old(unpark)@.push(old(self)@.inner[i].thread)
                    &&& old(self)@.inner[i].key == key
                } else {
                    !r && final(self)@ == old(self)@ && final(unpark)@ == old(unpark)@
                }
            }),
    {
        let i: usize = self.position(key);
        proof {
            lemma_first_on(self@.inner, key);
        }
        if i < self.inner.len() {
            if let Some(w) = self.inner.remove(i) {
                unpark.push(w.thread);
            }
            self.wake_count = self.wake_count.wrapping_add(1);
            true
        } else {
            false
        }
    }

    fn position(&self, key: usize) -> (i: usize)
        ensures
            i == first_on(self@.inner, key),
    {
        let ghost s = self.inner@;
        let mut i: usize = 0;
        assert(s.skip(0) =~= s);
        while i < self.inner.len()
            invariant_except_break
                first_on(s, key) == i + first_on(s.skip(i as int), key),
            invariant
                s == self.inner@,
                i <= s.len(),
            ensures
                i == first_on(s, key),
            decreases s.len() - i,
        {
            if self.inner[i].key == key {
                break;
            }
            assert(s.skip(i as int).skip(1) =~= s.skip(i + 1));
            i += 1;
        }
        i
    }

    /// Wakes all sleepers on `key`.
    pub fn wake_all(&mut self, key: usize, unpark: &mut Vec<usize>) -> (r: usize)
        ensures
            ({
                let got = old(self)@.inner.filter(sleeps_on(key));
                &&& r == got.len()
                &&& final(self)@ == (WaitView {
                    inner: old(self)@.inner.filter(sleeps_off(key)),
                    wake_count: old(self)@.wake_count.wrapping_add(got.len() as usize),
                })
                &&& final(unpark)@ == old(unpark)@ + sleeping(got)
            }),
    {
        let on_key = |k: usize, f: u32| -> (b: bool)
            ensures
                b == (k == key),
            { k == key };
        let r: usize = self.wake_filtered(&on_key, unpark);
        proof {
            let s = old(self)@.inner;
            let marks = choose|marks: Seq<bool>| #[trigger] answered(on_key, s, marks) && woken_by(
                old(self)@,
                self@,
                old(unpark)@,
                unpark@,
                r,
                marks,
            );
            lemma_marked_filter(s, marks, true, sleeps_on(key));
            lemma_marked_filter(s, marks, false, sleeps_off(key));
        }
        r
    }

    /// Wakes the sleepers that `pred` chooses by their key and flags.
    pub fn wake_filtered<F: Fn(usize, u32) -> bool>(&mut self, pred: &F, unpark: &mut Vec<usize>) -> (r: usize)
        requires
            forall|k: usize, f: u32| call_requires(*pred, (k, f)),
        ensures
            exists|marks: Seq<bool>| #[trigger]
                answered(*pred, old(self)@.inner, marks) && woken_by(
                    old(self)@,
                    final(self)@,
                    old(unpark)@,
                    final(unpark)@,
                    r,
                    marks,
                ),
    {
        let mut rest: VecDeque<Sleeper> = VecDeque::new();
        let mut count: usize = 0;
        let mut i: usize = 0;
        let ghost s = self.inner@;
        let ghost mut marks: Seq<bool> = Seq::empty();
        assert(unpark@ =~= old(unpark)@ + sleeping(marked(s.take(0), marks, true)));
        while i < self.inner.len()
            invariant
                i <= s.len(),
                s == self.inner@,
                forall|k: usize, f: u32| call_requires(*pred, (k, f)),
                self.wake_count == old(self).wake_count,
                answered(*pred, s.take(i as int), marks),
                rest@ == marked(s.take(i as int), marks, false),
                count == marked(s.take(i as int), marks, true).len(),
                count <= i,
                unpark@ == old(unpark)@ + sleeping(marked(s.take(i as int), marks, true)),
            decreases s.len() - i,
        {
            let w: Sleeper = self.inner[i];
            let yes: bool = pred(w.key, w.flags);
            proof {
                let got = marked(s.take(i as int), marks, true);
                lemma_marked_push(s.take(i as int), w, marks, yes, true);
                lemma_marked_push(s.take(i as int), w, marks, yes, false);
                assert(s.take(i as int).push(w) =~= s.take(i + 1));
                assert(sleeping(got.push(w)) =~= sleeping(got).push(w.thread));
                let before = marks;
                marks = marks.push(yes);
                assert forall|k: int| 0 <= k < i + 1 implies call_ensures(
                    *pred,
                    (s.take(i + 1)[k].key, s.take(i + 1)[k].flags),
                    #[trigger] marks[k],
                ) by {
                    if k < i {
                        assert(before[k] == marks[k]);
                        assert(s.take(i as int)[k] == s.take(i + 1)[k]);
                    }
                }
            }
            if yes {
                unpark.push(w.thread);
                count += 1;
            } else {
                rest.push_back(w);
            }
            i += 1;
        }
        assert(s.take(i as int) =~= s);
        self.inner = rest;
        self.wake_count = self.wake_count.wrapping_add(count);
        assert(woken_by(old(self)@, self@, old(unpark)@, unpark@, count, marks));
        count
    }

    pub fn pending_count(&self) -> (r: usize)
        ensures
            r == self@.inner.len(),
    {
        self.inner.len()
    }

    pub fn total_wakes(&self) -> (r: usize)
        ensures
            r == self@.wake_count,
    {
        self.wake_count
    }

    pub fn has_waiters_for(&self, key: usize) -> (r: bool)
        ensures
            r == exists|i: int| 0 <= i < self@.inner.len() && #[trigger] self@.inner[i].key == key,
    {
        proof {
            lemma_first_on(self@.inner, key);
        }
        self.position(key) < self.inner.len()
    }

    /// Puts the sleepers in the order of their flags; those with the same flags keep theirs.
    pub fn reorder_by_priority(&mut self)
        ensures
            by_flags(final(self)@.inner),
            forall|f: u32| final(self)@.inner.filter(#[trigger] with_flags(f)) == old(self)@.inner.filter(with_flags(f)),
            final(self)@.wake_count == old(self)@.wake_count,
    {
        let ghost s = self.inner@;
        let mut out: VecDeque<Sleeper> = VecDeque::new();
        let mut i: usize = 0;
        while i < self.inner.len()
            invariant
                i <= s.len(),
                s == self.inner@,
                self.wake_count == old(self).wake_count,
                by_flags(out@),
                out@.len() == i,
                forall|f: u32| out@.filter(#[trigger] with_flags(f)) == s.take(i as int).filter(with_flags(f)),
            decreases s.len() - i,
        {
            let w: Sleeper = self.inner[i];
            let mut p: usize = out.len();
            while p > 0 && out[p - 1].flags > w.flags
                invariant
                    p <= out@.len(),
                    forall|k: int| p <= k < out@.len() ==> out@[k].flags > w.flags,
                decreases p,
            {
                p -= 1;
            }
            proof {
                assert forall|f: u32| out@.insert(p as int, w).filter(#[trigger] with_flags(f)) == s.take(i + 1).filter(
                    with_flags(f),
                ) by {
                    lemma_insert_before_higher(out@, p as int, w, f);
                    lemma_filter_push(s.take(i as int), w, with_flags(f));
                    assert(s.take(i as int).push(w) =~= s.take(i + 1));
                }
                assert(by_flags(out@.insert(p as int, w))) by {
                    let r = out@.insert(p as int, w);
                    assert forall|a: int, b: int| 0 <= a < b < r.len() implies r[a].flags <= r[b].flags by {
                        if p > 0 && a < p {
                            assert(a == p - 1 || out@[a].flags <= out@[p - 1].flags);
                        }
                    }
                }
            }
            out.insert(p, w);
            i += 1;
        }
        assert(s.take(i as int) =~= s);
        self.inner = out;
    }
}

/// The flags never decrease from one sleeper to the next.
pub open spec fn by_flags(s: Seq<Sleeper>) -> bool {
    forall|i: int, j: int| 0 <= i < j < s.len() ==> s[i].flags <= s[j].flags
}

/// `after` is `before` without the marked sleepers, whose threads were added to those to wake.
pub open spec fn woken_by(
    before: WaitView,
    after: WaitView,
    unpark: Seq<usize>,
    unparked: Seq<usize>,
    r: usize,
    marks: Seq<bool>,
) -> bool {
    let got = marked(before.inner, marks, true);
    &&& r == got.len()
    &&& after == (WaitView {
        inner: marked(before.inner, marks, false),
        wake_count: before.wake_count.wrapping_add(r),
    })
    &&& unparked == unpark + sleeping(got)
}

proof fn lemma_first_on(s: Seq<Sleeper>, key: usize)
    ensures
        0 <= first_on(s, key) <= s.len(),
        first_on(s, key) < s.len() ==> s[first_on(s, key)].key == key,
        forall|i: int| 0 <= i < first_on(s, key) ==> #[trigger] s[i].key != key,
    decreases s.len(),
{
    if s.len() > 0 && s[0].key != key {
        lemma_first_on(s.skip(1), key);
        assert forall|i: int| 0 <= i < first_on(s, key) implies #[trigger] s[i].key != key by {
            if i > 0 {
                assert(s.skip(1)[i - 1].key != key);
            }
        }
    }
}

/// Among those with flags `f`, one put in before higher ones comes last.
proof fn lemma_insert_before_higher(s: Seq<Sleeper>, p: int, w: Sleeper, f: u32)
    requires
        0 <= p <= s.len(),
        forall|k: int| p <= k < s.len() ==> #[trigger] s[k].flags > w.flags,
    ensures
        s.insert(p, w).filter(with_flags(f)) == (if w.flags == f {
            s.filter(with_flags(f)).push(w)
        } else {
            s.filter(with_flags(f))
        }),
    decreases s.len(),
{
    if p == s.len() {
        assert(s.insert(p, w) =~= s.push(w));
        lemma_filter_push(s, w, with_flags(f));
    } else {
        let t = s.drop_last();
        lemma_insert_before_higher(t, p, w, f);
        assert(s.insert(p, w) =~= t.insert(p, w).push(s.last()));
        assert(s =~= t.push(s.last()));
        lemma_filter_push(t.insert(p, w), s.last(), with_flags(f));
        lemma_filter_push(t, s.last(), with_flags(f));
    }
}

/// A descriptor of a task that an epoll set watches.
#[derive(Clone, Copy)]
pub struct RegEpoll {
    pub task_id: usize,
    pub epfd: usize,
    pub fd: usize,
}

/// The place of the first entry equal to `e`, or the length if there is none.
pub open spec fn first_entry(s: Seq<RegEpoll>, e: RegEpoll) -> int
    decreases s.len(),
{
    if s.len() == 0 || s[0] == e {
        0
    } else {
        1 + first_entry(s.skip(1), e)
    }
}

/// What a thread is to do that wants a condition to hold.
#[derive(Clone, Copy, Debug, PartialEq, Eq, Structural)]
pub enum Parking {
    /// The condition holds.
    Ready,
    /// A wakeup was there already: look at the condition once more.
    Recheck,
    /// It is queued: sleep, and look at the condition then.
    Park,
}

/// Threads in the order in which they wait, and the wakeups that came before any waiter.
pub struct SyncQueue {
    pub q: VecDeque<usize>,
    pub eq: VecDeque<RegEpoll>,
    pub extra_signal: usize,
}

/// What a queue stands for.
#[verifier::ext_equal]
pub ghost struct SyncView {
    pub q: Seq<usize>,
    pub eq: Seq<RegEpoll>,
    pub extra_signal: usize,
}

impl View for SyncQueue {
    type V = SyncView;

    open spec fn view(&self) -> SyncView {
        SyncView { q: self.q@, eq: self.eq@, extra_signal: self.extra_signal }
    }
}

impl SyncView {
    pub open spec fn new() -> SyncView {
        SyncView { q: Seq::empty(), eq: Seq::empty(), extra_signal: 0 }
    }

    /// One thread more waits.
    pub open spec fn joined(self, thread: usize) -> SyncView {
        SyncView { q: self.q.push(thread), ..self }
    }

    /// The queue after `n` wakeups.
    pub open spec fn signalled(self, n: nat) -> SyncView {
        let k = self.woken(n);
        SyncView { q: self.q.skip(k as int), extra_signal: (self.extra_signal + n - k) as usize, ..self }
    }

    /// How many threads `n` wakeups reach.
    pub open spec fn woken(self, n: nat) -> nat {
        if n < self.q.len() {
            n
        } else {
            self.q.len()
        }
    }
}

impl SyncQueue {
    pub fn new() -> (r: Self)
        ensures
            r@ == SyncView::new(),
    {
        SyncQueue { q: VecDeque::new(), eq: VecDeque::new(), extra_signal: 0 }
    }

    /// What `thread` is to do given whether its condition holds.
    pub fn park_on(&mut self, satisfied: bool, thread: usize) -> (r: Parking)
        ensures
            satisfied ==> r == Parking::Ready && final(self)@ == old(self)@,
            !satisfied && old(self)@.extra_signal > 0 ==> r == Parking::Recheck && final(self)@ == (SyncView {
                extra_signal: (old(self)@.extra_signal - 1) as usize,
                ..old(self)@
            }),
            !satisfied && old(self)@.extra_signal == 0 ==> r == Parking::Park && final(self)@ == old(self)@.joined(thread),
    {
        if satisfied {
            return Parking::Ready;
        }
        if self.extra_signal > 0 {
            self.extra_signal -= 1;
            return Parking::Recheck;
        }
        self.q.push_back(thread);
        Parking::Park
    }

    /// Wakes the first waiter, or keeps the wakeup for the next.
    pub fn signal(&mut self, unpark: &mut Vec<usize>)
        requires
            old(self)@.q.len() == 0 ==> old(self)@.extra_signal < usize::MAX,
        ensures
            final(self)@ == old(self)@.signalled(1),
            final(unpark)@ == old(unpark)@ + old(self)@.q.take(old(self)@.woken(1) as int),
    {
        match self.q.pop_front() {
            None => {
                self.extra_signal += 1;
                assert(self@.q =~= old(self)@.q.skip(0));
                assert(unpark@ =~= old(unpark)@ + old(self)@.q.take(0));
            },
            Some(t) => {
                unpark.push(t);
                assert(self@.q =~= old(self)@.q.skip(1));
                assert(unpark@ =~= old(unpark)@ + old(self)@.q.take(1));
            },
        }
    }

    /// Wakes all waiters.
    pub fn broadcast(&mut self, unpark: &mut Vec<usize>)
        ensures
            final(self)@ == (SyncView { q: Seq::empty(), ..old(self)@ }),
            final(unpark)@ == old(unpark)@ + old(self)@.q,
    {
        let n: usize = self.q.len();
        self.release_first(n, unpark);
        assert(self@.q =~= Seq::empty());
        assert(old(self)@.q.take(n as int) =~= old(self)@.q);
    }

    fn release_first(&mut self, n: usize, unpark: &mut Vec<usize>)
        requires
            n <= old(self)@.q.len(),
        ensures
            final(self)@ == (SyncView { q: old(self)@.q.skip(n as int), ..old(self)@ }),
            final(unpark)@ == old(unpark)@ + old(self)@.q.take(n as int),
    {
        let mut i: usize = 0;
        assert(self@.q =~= old(self)@.q.skip(0));
        assert(unpark@ =~= old(unpark)@ + old(self)@.q.take(0));
        while i < n
            invariant
                i <= n <= old(self)@.q.len(),
                self@ == (SyncView { q: old(self)@.q.skip(i as int), ..old(self)@ }),
                unpark@ == old(unpark)@ + old(self)@.q.take(i as int),
            decreases n - i,
        {
            if let Some(t) = self.q.pop_front() {
                unpark.push(t);
            }
            i += 1;
            assert(self@.q =~= old(self)@.q.skip(i as int));
            assert(unpark@ =~= old(unpark)@ + old(self)@.q.take(i as int));
        }
    }

    /// Wakes up to `n` waiters, and keeps the wakeups that reach none.
    pub fn signal_n(&mut self, n: usize, unpark: &mut Vec<usize>) -> (r: usize)
        requires
            old(self)@.extra_signal + n - old(self)@.woken(n as nat) <= usize::MAX,
        ensures
            r == old(self)@.woken(n as nat),
            final(self)@ == old(self)@.signalled(n as nat),
            final(unpark)@ == old(unpark)@ + old(self)@.q.take(old(self)@.woken(n as nat) as int),
    {
        let avail: usize = self.q.len();
        let woken: usize = if n < avail {
            n
        } else {
            avail
        };
        self.release_first(woken, unpark);
        self.extra_signal += n - woken;
        woken
    }

    pub fn pending(&self) -> (r: usize)
        ensures
            r == self@.q.len(),
    {
        self.q.len()
    }

    /// One round of waiting for an event: hands on the answer, or queues the thread, which is to
    /// sleep and ask again.
    pub fn wait_ev(&mut self, cond: Option<bool>, thread: usize) -> (r: Option<bool>)
        ensures
            r == cond,
            final(self)@ == (if cond is Some { old(self)@ } else { old(self)@.joined(thread) }),
    {
        if cond.is_none() {
            self.q.push_back(thread);
        }
        cond
    }

    /// One round of waiting on several queues at once.
    pub fn wait_events(queues: &mut Vec<SyncQueue>, cond: Option<bool>, thread: usize) -> (r: Option<bool>)
        ensures
            r == cond,
            final(queues)@.len() == old(queues)@.len(),
            forall|i: int|
                0 <= i < old(queues)@.len() ==> #[trigger] final(queues)@[i]@ == (if cond is Some {
                    old(queues)@[i]@
                } else {
                    old(queues)@[i]@.joined(thread)
                }),
    {
        if cond.is_some() {
            return cond;
        }
        let mut i: usize = 0;
        while i < queues.len()
            invariant
                i <= queues@.len() == old(queues)@.len(),
                forall|k: int| 0 <= k < i ==> #[trigger] queues@[k]@ == old(queues)@[k]@.joined(thread),
                forall|k: int| i <= k < queues@.len() ==> #[trigger] queues@[k] == old(queues)@[k],
            decreases queues@.len() - i,
        {
            queues[i].q.push_back(thread);
            i += 1;
        }
        cond
    }

    /// Queues a thread that lets go of what it guards and sleeps.
    pub fn wait_guard(&mut self, thread: usize)
        ensures
            final(self)@ == old(self)@.joined(thread),
    {
        self.q.push_back(thread);
    }

    /// Queues a thread that sleeps for a limited time. It counts as woken however it wakes.
    pub fn wait_timeout(&mut self, thread: usize) -> (r: bool)
        ensures
            r,
            final(self)@ == old(self)@.joined(thread),
    {
        self.q.push_back(thread);
        true
    }

    pub fn reg_epoll(&mut self, task_id: usize, epfd: usize, fd: usize)
        ensures
            final(self)@ == (SyncView { eq: old(self)@.eq.push(RegEpoll { task_id, epfd, fd }), ..old(self)@ }),
    {
        self.eq.push_back(RegEpoll { task_id, epfd, fd });
    }

    /// Takes the first such entry off, and tells whether there was one.
    pub fn unreg_epoll(&mut self, task_id: usize, epfd: usize, fd: usize) -> (r: bool)
        ensures
            ({
                let i = first_entry(old(self)@.eq, RegEpoll { task_id, epfd, fd });
                if i < old(self)@.eq.len() {
                    r && final(self)@ == (SyncView { eq: old(self)@.eq.remove(i), ..old(self)@ })
                } else {
                    !r && final(self)@ == old(self)@
                }
            }),
    {
        let ghost s = self.eq@;
        let ghost e = RegEpoll { task_id, epfd, fd };
        let mut i: usize = 0;
        assert(s.skip(0) =~= s);
        while i < self.eq.len()
            invariant
                s == self.eq@,
                self@ == old(self)@,
                e == (RegEpoll { task_id, epfd, fd }),
                i <= s.len(),
                first_entry(s, e) == i + first_entry(s.skip(i as int), e),
            decreases s.len() - i,
        {
            let x: RegEpoll = self.eq[i];
            if x.task_id == task_id && x.epfd == epfd && x.fd == fd {
                assert(x == e);
                self.eq.remove(i);
                return true;
            }
            assert(s.skip(i as int).skip(1) =~= s.skip(i + 1));
            i += 1;
        }
        false
    }
}

/// A wakeup that comes before the waiter is not lost: the waiter does not sleep.
pub proof fn law_early_signal_is_kept(q: SyncView)
    requires
        q.q.len() == 0,
        q.extra_signal < usize::MAX,
    ensures
        q.signalled(1).extra_signal > 0,
        q.signalled(1).q.len() == 0,
{
}

/// Wakeups reach waiters in the order in which they came, each at most one.
pub proof fn law_signal_order(q: SyncView, thread: usize, n: nat)
    requires
        n <= q.q.len(),
    ensures
        q.joined(thread).signalled(n).q == q.signalled(n).q.push(thread),
{
    assert(q.joined(thread).signalled(n).q =~= q.signalled(n).q.push(thread));
}

} // verus!
