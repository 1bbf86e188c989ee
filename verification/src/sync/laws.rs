//! What holds of those who wait and those who wake.

use crate::bits::lemma_set_and_clear;
use crate::sequences::{first_hits, hits, lemma_filter_push, marked, sifted};
use crate::sync::channel::effective_cap;
use crate::sync::event::{asked, changed, EventBusView};
use crate::sync::futex::{moved_to, raised, threads, waits_at, Waiter};
use crate::sync::lock::KernelLock;
use crate::sync::semaphore::SemaphoreView;
use crate::sync::waitqueue::{
    by_flags, first_entry, first_on, others, sleeping, sleeps_off, sleeps_on, with_flags, woken_by, RegEpoll, Sleeper,
    SyncView, WaitView,
};
use vstd::prelude::*;

verus! {

/// How many of the first `i` wait at `addr`.
pub open spec fn ahead(ws: Seq<Waiter>, addr: usize, i: int) -> int
    decreases i,
{
    if i <= 0 {
        0
    } else {
        ahead(ws, addr, i - 1) + if ws[i - 1].addr == addr {
            1int
        } else {
            0
        }
    }
}

/// The lesser of the two.
pub open spec fn least(a: int, b: int) -> int {
    if a < b {
        a
    } else {
        b
    }
}

/// Of those who wait at an address the first `n` are let go, the next `m` wait at the other
/// address from then on, and the rest, with all who wait elsewhere, stay as they are. Nobody
/// changes place.
pub proof fn law_wakes_go_to_the_first(ws: Seq<Waiter>, src: usize, dst: usize, n: nat, m: nat, i: int)
    requires
        0 <= i < ws.len(),
    ensures
        ({
            let got = first_hits(ws, waits_at(src), n);
            let left = sifted(ws, waits_at(src), n, m, moved_to(dst));
            let k = ahead(ws, src, i);
            let at = i - least(k, n as int);
            let all = ahead(ws, src, ws.len() as int);
            &&& got.len() == least(all, n as int)
            &&& left.len() + got.len() == ws.len()
            &&& ws[i].addr == src && k < n ==> 0 <= k < got.len() && got[k] == ws[i]
            &&& ws[i].addr == src && n <= k < n + m ==> 0 <= at < left.len() && left[at] == (Waiter {
                addr: dst,
                ..ws[i]
            })
            &&& ws[i].addr != src || k >= n + m ==> 0 <= at < left.len() && left[at] == ws[i]
            &&& hits(ws, waits_at(src)) == all
        }),
    decreases ws.len(),
{
    let t = ws.drop_last();
    let last = ws[ws.len() - 1];
    lemma_sift(t, src, dst, n, m);
    lemma_sift(ws, src, dst, n, m);
    lemma_ahead_local(ws, t, src, t.len() as int);
    lemma_ahead_local(ws, t, src, i);
    reveal(Seq::filter);
    assert(ws =~= t.push(last));
    lemma_filter_push(t, last, waits_at(src));
    let all = ahead(ws, src, ws.len() as int);
    let before = ahead(t, src, t.len() as int);
    if i < t.len() {
        law_wakes_go_to_the_first(t, src, dst, n, m, i);
        assert(ws[i] == t[i]);
        lemma_ahead_bound(t, src, i);
    } else {
        lemma_ahead_bound(t, src, i);
    }
}

proof fn lemma_ahead_local(a: Seq<Waiter>, b: Seq<Waiter>, addr: usize, i: int)
    requires
        0 <= i <= a.len(),
        i <= b.len(),
        forall|k: int| 0 <= k < i ==> #[trigger] a[k] == b[k],
    ensures
        ahead(a, addr, i) == ahead(b, addr, i),
    decreases i,
{
    if i > 0 {
        lemma_ahead_local(a, b, addr, i - 1);
        assert(a[i - 1] == b[i - 1]);
    }
}

proof fn lemma_ahead_bound(ws: Seq<Waiter>, addr: usize, i: int)
    requires
        0 <= i <= ws.len(),
    ensures
        0 <= ahead(ws, addr, i) <= i,
        ahead(ws, addr, i) <= ahead(ws, addr, ws.len() as int),
        i < ws.len() && ws[i].addr == addr ==> ahead(ws, addr, i) < ahead(ws, addr, ws.len() as int),
    decreases ws.len() - i,
{
    lemma_ahead_small(ws, addr, i);
    if i < ws.len() {
        lemma_ahead_bound(ws, addr, i + 1);
    }
}

proof fn lemma_ahead_small(ws: Seq<Waiter>, addr: usize, i: int)
    requires
        0 <= i,
    ensures
        0 <= ahead(ws, addr, i) <= i,
    decreases i,
{
    if i > 0 {
        lemma_ahead_small(ws, addr, i - 1);
    }
}

proof fn lemma_sift(ws: Seq<Waiter>, src: usize, dst: usize, n: nat, m: nat)
    ensures
        hits(ws, waits_at(src)) == ahead(ws, src, ws.len() as int),
        sifted(ws, waits_at(src), n, m, moved_to(dst)).len() + first_hits(ws, waits_at(src), n).len() == ws.len(),
        first_hits(ws, waits_at(src), n).len() == least(ahead(ws, src, ws.len() as int), n as int),
    decreases ws.len(),
{
    reveal(Seq::filter);
    crate::sequences::lemma_sift_count(ws, waits_at(src), n, m, moved_to(dst));
    if ws.len() > 0 {
        let t = ws.drop_last();
        lemma_sift(t, src, dst, n, m);
        lemma_ahead_local(ws, t, src, t.len() as int);
    }
}

/// Whoever was let go by a wake has its flag up, and nobody else's flag changes.
pub proof fn law_flags_tell_who_was_woken(flags: Seq<bool>, ws: Seq<Waiter>, t: int)
    requires
        0 <= t < flags.len(),
    ensures
        raised(flags, ws).len() == flags.len(),
        raised(flags, ws)[t] <==> flags[t] || exists|i: int| 0 <= i < ws.len() && (#[trigger] ws[i]).ticket == t,
        threads(ws).len() == ws.len(),
        forall|i: int| 0 <= i < ws.len() ==> #[trigger] threads(ws)[i] == ws[i].thread,
{
    if exists|i: int| 0 <= i < ws.len() && (#[trigger] ws[i]).ticket == t {
        let i = choose|i: int| 0 <= i < ws.len() && (#[trigger] ws[i]).ticket == t;
        assert(ws[i].ticket == t);
    }
    if raised(flags, ws)[t] && !flags[t] {
        let i = choose|i: int| 0 <= i < ws.len() && #[trigger] ws[i].ticket == t;
        assert(ws[i].ticket == t);
    }
}

/// How many of the first `i` marks are `m`.
pub open spec fn marks_before(marks: Seq<bool>, m: bool, i: int) -> int
    decreases i,
{
    if i <= 0 {
        0
    } else {
        marks_before(marks, m, i - 1) + if marks[i - 1] == m {
            1int
        } else {
            0
        }
    }
}

/// What is marked is picked, in order, and what is not is left out: each element goes to one of
/// two rows, behind those of its mark that come before it.
pub proof fn law_marks_part_a_row<A>(s: Seq<A>, marks: Seq<bool>, m: bool, i: int)
    requires
        marks.len() == s.len(),
        0 <= i < s.len(),
    ensures
        marked(s, marks, m).len() == marks_before(marks, m, s.len() as int),
        marks[i] == m ==> 0 <= marks_before(marks, m, i) < marked(s, marks, m).len() && marked(s, marks, m)[marks_before(
            marks,
            m,
            i,
        )] == s[i],
        marked(s, marks, true).len() + marked(s, marks, false).len() == s.len(),
{
    lemma_marks(s, marks, m, i);
    lemma_marks_len(s, marks);
}

proof fn lemma_marks<A>(s: Seq<A>, marks: Seq<bool>, m: bool, i: int)
    requires
        marks.len() >= s.len(),
        0 <= i < s.len(),
    ensures
        marked(s, marks, m).len() == marks_before(marks, m, s.len() as int),
        0 <= marks_before(marks, m, i),
        marks[i] == m ==> marks_before(marks, m, i) < marked(s, marks, m).len() && marked(s, marks, m)[marks_before(
            marks,
            m,
            i,
        )] == s[i],
    decreases s.len(),
{
    let t = s.drop_last();
    if t.len() == 0 {
        assert(marked(t, marks, m).len() == 0);
        reveal_with_fuel(marks_before, 2);
    } else if i < t.len() {
        lemma_marks(t, marks, m, i);
    } else {
        lemma_marks(t, marks, m, 0);
    }
}

proof fn lemma_marks_len<A>(s: Seq<A>, marks: Seq<bool>)
    ensures
        marked(s, marks, true).len() + marked(s, marks, false).len() == s.len(),
    decreases s.len(),
{
    if s.len() > 0 {
        lemma_marks_len(s.drop_last(), marks);
    }
}

/// A wake on a key goes to the first who sleeps on it. A wake of all takes just those who sleep on
/// it, and the end of one thread's sleep on a key takes that and no other.
pub proof fn law_sleepers_are_found_by_their_key(s: Seq<Sleeper>, key: usize, thread: usize, w: Sleeper)
    ensures
        first_on(s, key) < s.len() <==> exists|i: int| 0 <= i < s.len() && (#[trigger] s[i]).key == key,
        0 <= first_on(s, key) <= s.len(),
        first_on(s, key) < s.len() ==> s[first_on(s, key)].key == key,
        forall|i: int| 0 <= i < first_on(s, key) ==> (#[trigger] s[i]).key != key,
        s.filter(sleeps_on(key)).contains(w) <==> s.contains(w) && w.key == key,
        s.filter(sleeps_off(key)).contains(w) <==> s.contains(w) && w.key != key,
        s.filter(sleeps_on(key)).len() + s.filter(sleeps_off(key)).len() == s.len(),
        s.filter(others(key, thread)).contains(w) <==> s.contains(w) && !(w.key == key && w.thread == thread),
        sleeping(s).len() == s.len(),
        forall|i: int| 0 <= i < s.len() ==> #[trigger] sleeping(s)[i] == s[i].thread,
{
    lemma_first_sleeper(s, key);
    lemma_kept(s, sleeps_on(key), w);
    lemma_kept(s, sleeps_off(key), w);
    lemma_kept(s, others(key, thread), w);
    lemma_on_and_off(s, key);
    if exists|i: int| 0 <= i < s.len() && (#[trigger] s[i]).key == key {
        let i = choose|i: int| 0 <= i < s.len() && (#[trigger] s[i]).key == key;
        assert(first_on(s, key) <= i);
    }
}

proof fn lemma_first_sleeper(s: Seq<Sleeper>, key: usize)
    ensures
        0 <= first_on(s, key) <= s.len(),
        first_on(s, key) < s.len() ==> s[first_on(s, key)].key == key,
        forall|i: int| 0 <= i < first_on(s, key) ==> (#[trigger] s[i]).key != key,
    decreases s.len(),
{
    if s.len() > 0 && s[0].key != key {
        let t = s.skip(1);
        lemma_first_sleeper(t, key);
        assert forall|i: int| 0 <= i < first_on(s, key) implies (#[trigger] s[i]).key != key by {
            if i > 0 {
                assert(t[i - 1].key != key);
            }
        }
    }
}

proof fn lemma_kept(s: Seq<Sleeper>, keep: spec_fn(Sleeper) -> bool, w: Sleeper)
    ensures
        s.filter(keep).contains(w) <==> s.contains(w) && keep(w),
{
    let f = s.filter(keep);
    if f.contains(w) {
        let i = choose|i: int| 0 <= i < f.len() && f[i] == w;
        s.lemma_filter_pred(keep, i);
        s.lemma_filter_contains_rev(keep, w);
    }
    if s.contains(w) && keep(w) {
        let i = choose|i: int| 0 <= i < s.len() && s[i] == w;
        s.lemma_filter_contains(keep, i);
    }
}

proof fn lemma_on_and_off(s: Seq<Sleeper>, key: usize)
    ensures
        s.filter(sleeps_on(key)).len() + s.filter(sleeps_off(key)).len() == s.len(),
    decreases s.len(),
{
    reveal(Seq::filter);
    if s.len() > 0 {
        lemma_on_and_off(s.drop_last(), key);
    }
}

/// Ordered by flags, whoever has lower flags comes first, and a row of sleepers with the same
/// flags is just those.
pub proof fn law_order_by_flags(s: Seq<Sleeper>, f: u32, w: Sleeper)
    ensures
        by_flags(s) <==> forall|i: int, j: int| 0 <= i < j < s.len() ==> (#[trigger] s[i]).flags <= (#[trigger] s[j]).flags,
        s.filter(with_flags(f)).contains(w) <==> s.contains(w) && w.flags == f,
{
    lemma_kept(s, with_flags(f), w);
    if by_flags(s) {
        assert forall|i: int, j: int| 0 <= i < j < s.len() implies (#[trigger] s[i]).flags <= (#[trigger] s[j]).flags by {}
    }
}

/// Wakeups reach as many waiters as there are and no more than were sent, those who came first,
/// and the rest of the wakeups are kept. Whoever waits comes last.
pub proof fn law_wakeups_are_not_lost(q: SyncView, n: nat, thread: usize)
    requires
        q.extra_signal + n <= usize::MAX,
    ensures
        q.woken(n) <= n,
        q.woken(n) <= q.q.len(),
        q.woken(n) == n || q.woken(n) == q.q.len(),
        q.signalled(n).q.len() + q.woken(n) == q.q.len(),
        forall|i: int| 0 <= i < q.signalled(n).q.len() ==> #[trigger] q.signalled(n).q[i] == q.q[i + q.woken(n)],
        q.signalled(n).extra_signal + q.woken(n) == q.extra_signal + n,
        q.signalled(n).eq == q.eq,
        q.joined(thread).q == q.q + seq![thread],
        q.joined(thread).extra_signal == q.extra_signal,
        q.joined(thread).eq == q.eq,
        SyncView::new().q.len() == 0 && SyncView::new().extra_signal == 0 && SyncView::new().eq.len() == 0,
{
    assert(q.q.push(thread) =~= q.q + seq![thread]);
}

/// An entry is found where it first stands.
pub proof fn law_first_entry(s: Seq<RegEpoll>, e: RegEpoll)
    ensures
        0 <= first_entry(s, e) <= s.len(),
        first_entry(s, e) < s.len() <==> s.contains(e),
        first_entry(s, e) < s.len() ==> s[first_entry(s, e)] == e,
        forall|i: int| 0 <= i < first_entry(s, e) ==> #[trigger] s[i] != e,
    decreases s.len(),
{
    if s.len() > 0 && s[0] != e {
        let t = s.skip(1);
        law_first_entry(t, e);
        assert forall|i: int| 0 <= i < first_entry(s, e) implies #[trigger] s[i] != e by {
            if i > 0 {
                assert(t[i - 1] != e);
            }
        }
        if s.contains(e) {
            let i = choose|i: int| 0 <= i < s.len() && s[i] == e;
            assert(t[i - 1] == e);
        }
    } else if s.len() > 0 {
        assert(s[0] == e);
    }
}

/// A channel holds what it was asked to hold, but at least one byte and at most a mebibyte.
pub proof fn law_channel_size(cap: usize)
    ensures
        1 <= effective_cap(cap) <= 1048576,
        1 <= cap <= 1048576 ==> effective_cap(cap) == cap,
        cap == 0 ==> effective_cap(cap) == 1,
        cap > 1048576 ==> effective_cap(cap) == 1048576,
{
}

/// Setting the counter of a semaphore sets just that, and shows the semaphore as available if it
/// is positive. Taking one lowers it by one, and it shows as available no longer once none is
/// left.
pub proof fn law_semaphore_counts(s: SemaphoreView, v: isize)
    ensures
        s.raised_to(v).cnt == v,
        v >= 1 ==> s.raised_to(v).bus.event & 0x20_0000 != 0,
        v < 1 ==> s.raised_to(v).bus == s.bus,
        s.cnt > isize::MIN ==> s.taken().cnt == s.cnt - 1,
        s.cnt == 1 ==> s.taken().bus.event & 0x20_0000 == 0,
        s.cnt > 1 ==> s.taken().bus == s.bus,
        s.raised_to(v) == (SemaphoreView { cnt: v, bus: s.raised_to(v).bus, ..s }),
        s.taken() == (SemaphoreView { cnt: s.taken().cnt, bus: s.taken().bus, ..s }),
        !SemaphoreView::new(v, 0).rm && SemaphoreView::new(v, 0).cnt == v && SemaphoreView::new(v, 0).pid == 0,
{
    let e = s.bus.event;
    lemma_set_and_clear(e, 0x20_0000, 0x20_0000);
}

/// A change of an event word sets the bits that are to be set, clears those that are to be
/// cleared and not set, and leaves the others. Subscribers stay, and hear of it if the word is
/// another one.
pub proof fn law_event_bits(b: EventBusView, rst: u32, s: u32, i: u32)
    requires
        i < 32,
    ensures
        ({
            let a = b.change(rst, s);
            let bit = 1u32 << i;
            &&& a.event & bit != 0 <==> s & bit != 0 || (b.event & bit != 0 && rst & bit == 0)
            &&& a.callbacks == b.callbacks
            &&& a.event == b.event ==> a.notices == b.notices
            &&& a.event != b.event && b.callbacks.len() > 0 ==> a.notices == b.notices + seq![a.event]
        }),
        b.set(s) == b.change(0, s),
        b.clear(s) == b.change(s, 0),
{
    let e = b.event;
    assert((((e & !rst) | s) & (1u32 << i) != 0) == (s & (1u32 << i) != 0 || (e & (1u32 << i) != 0 && rst & (1u32 << i)
        == 0))) by (bit_vector)
        requires
            i < 32,
    ;
    let a = b.change(rst, s);
    assert(b.notices.push(a.event) =~= b.notices + seq![a.event]);
}

/// The lock belongs to whoever entered, who is counted once for each time inside, and to nobody
/// once all those were left.
pub proof fn law_lock_counts_its_holder(l: KernelLock, id: usize, thread: usize)
    requires
        l.wf(),
        l.can_enter(thread),
        l.depth < usize::MAX,
    ensures
        l.entered(id, thread).flag,
        l.entered(id, thread).holder == thread,
        l.entered(id, thread).holder_id == id,
        l.entered(id, thread).depth == l.depth + 1,
        l.depth > 0 ==> l.left().depth == l.depth - 1,
        l.left().flag <==> l.depth > 1,
        l.depth == 0 ==> l.left() == l,
{
}

/// Whoever was marked is woken and sleeps no more, in the order in which they slept, and whoever
/// was not sleeps on. Each is counted once.
pub proof fn law_marked_are_woken(
    before: WaitView,
    after: WaitView,
    unpark: Seq<usize>,
    unparked: Seq<usize>,
    r: usize,
    marks: Seq<bool>,
    i: int,
)
    requires
        marks.len() == before.inner.len(),
        woken_by(before, after, unpark, unparked, r, marks),
        0 <= i < before.inner.len(),
    ensures
        after.inner.len() + r == before.inner.len(),
        unparked.len() == unpark.len() + r,
        unparked.take(unpark.len() as int) == unpark,
        marks[i] ==> unparked[unpark.len() + marks_before(marks, true, i)] == before.inner[i].thread,
        !marks[i] ==> after.inner[marks_before(marks, false, i)] == before.inner[i],
        before.wake_count + r <= usize::MAX ==> after.wake_count == before.wake_count + r,
{
    law_marks_part_a_row(before.inner, marks, true, i);
    law_marks_part_a_row(before.inner, marks, false, i);
    assert(unparked.take(unpark.len() as int) =~= unpark);
}

/// A change tells every subscriber: who wants to hear more goes on to listen, and if nobody does,
/// nobody is left. Clearing and setting bits that are so already tells nobody.
pub proof fn law_who_wants_more_stays<F: Fn(usize, u32) -> bool>(
    run: F,
    before: EventBusView,
    rst: u32,
    s: u32,
    after: EventBusView,
    i: int,
)
    requires
        changed(run, before, rst, s, after),
        before.settled(),
        0 <= i < before.callbacks.len(),
    ensures
        after.event == (before.event & !rst) | s,
        after.event == before.event ==> after == before,
        after.event != before.event ==> {
            let word = after.event;
            let wants = |id: usize| forall|b: bool| #[trigger] call_ensures(run, (id, word), b) ==> !b;
            let tires = |id: usize| forall|b: bool| #[trigger] call_ensures(run, (id, word), b) ==> b;
            &&& wants(before.callbacks[i].id) ==> after.callbacks.contains(before.callbacks[i])
            &&& (forall|j: int| 0 <= j < before.callbacks.len() ==> tires((#[trigger] before.callbacks[j]).id))
                ==> after.callbacks.len() == 0
            &&& after.callbacks.len() <= before.callbacks.len()
        },
{
    let word = (before.event & !rst) | s;
    if word != before.event {
        let subs = before.callbacks;
        let marks = choose|marks: Seq<bool>| #[trigger]
            asked(run, subs, word, marks) && after == (EventBusView {
                event: word,
                callbacks: marked(subs, marks, false),
                notices: Seq::empty(),
            });
        law_marks_part_a_row(subs, marks, false, i);
        assert(call_ensures(run, (subs[i].id, word), marks[i]));
        if !marks[i] {
            assert(after.callbacks[marks_before(marks, false, i)] == subs[i]);
        }
        if forall|j: int|
            0 <= j < subs.len() ==> forall|b: bool| #[trigger]
                call_ensures(run, ((#[trigger] subs[j]).id, word), b) ==> b {
            assert forall|j: int| 0 <= j < subs.len() implies marks[j] by {
                assert(call_ensures(run, (subs[j].id, word), marks[j]));
            }
            lemma_no_marks(marks, subs.len() as int);
        }
    }
}

proof fn lemma_no_marks(marks: Seq<bool>, n: int)
    requires
        0 <= n <= marks.len(),
        forall|j: int| 0 <= j < n ==> marks[j],
    ensures
        marks_before(marks, false, n) == 0,
    decreases n,
{
    if n > 0 {
        lemma_no_marks(marks, n - 1);
    }
}

} // verus!
