//! Clock ticks and timers.

use crate::sequences::lemma_filter_push;
use vstd::prelude::*;

verus! {

pub const USEC_TICK: usize = 1000;

pub const BOOT_EPOCH: usize = 1_700_000_000;

/// Ticks of the first processor, which keep the time, and of all processors.
#[derive(Clone, Copy, Debug, PartialEq, Eq, Structural)]
pub struct Clock {
    pub wall: usize,
    pub all: usize,
}

impl Clock {
    pub fn new() -> (r: Self)
        ensures
            r == (Clock { wall: 0, all: 0 }),
    {
        Clock { wall: 0, all: 0 }
    }

    /// One tick on processor `cpu_id`.
    pub open spec fn ticked(self, cpu_id: usize) -> Clock {
        Clock {
            wall: if cpu_id == 0 {
                self.wall.wrapping_add(1)
            } else {
                self.wall
            },
            all: self.all.wrapping_add(1),
        }
    }
}

/// The time in ticks.
pub fn wclk(clk: &Clock) -> (r: usize)
    ensures
        r == clk.wall,
{
    clk.wall
}

/// The ticks of all processors.
pub fn cclk(clk: &Clock) -> (r: usize)
    ensures
        r == clk.all,
{
    clk.all
}

/// Counts a tick on processor `cpu_id`. Only the first one moves the time.
pub fn dtk(clk: &mut Clock, cpu_id: usize)
    ensures
        *final(clk) == old(clk).ticked(cpu_id),
{
    if cpu_id == 0 {
        clk.wall = clk.wall.wrapping_add(1);
    }
    clk.all = clk.all.wrapping_add(1);
}

/// Milliseconds since the start.
pub fn up_ms(clk: &Clock) -> (r: usize)
    requires
        clk.wall * USEC_TICK <= usize::MAX,
    ensures
        r == clk.wall * USEC_TICK / 1000,
{
    clk.wall * USEC_TICK / 1000
}

/// The timer interrupt on processor `cpu_id`.
pub fn tmr(clk: &mut Clock, cpu_id: usize)
    ensures
        *final(clk) == old(clk).ticked(cpu_id),
{
    dtk(clk, cpu_id);
}

pub const TIMER_WHEEL_SIZE: usize = 256;

pub const TIMER_TICK_HZ: usize = 100;

/// Something to do at a point in time, once or again and again.
#[derive(Clone, Copy, Debug, PartialEq, Eq, Structural)]
pub struct TimerEntry {
    pub deadline: usize,
    pub interval: usize,
    pub callback_id: usize,
    pub active: bool,
    pub repeat: bool,
}

impl TimerEntry {
    pub open spec fn spec_new(deadline: usize, interval: usize, callback_id: usize) -> TimerEntry {
        TimerEntry { deadline, interval, callback_id, active: true, repeat: interval > 0 }
    }

    /// A timer that repeats if it has an interval.
    pub fn new(deadline: usize, interval: usize, callback_id: usize) -> (r: Self)
        ensures
            r == TimerEntry::spec_new(deadline, interval, callback_id),
    {
        TimerEntry { deadline, interval, callback_id, active: true, repeat: interval > 0 }
    }

    pub fn expired(&self, now: usize) -> (r: bool)
        ensures
            r == (now >= self.deadline),
    {
        now >= self.deadline
    }

    /// Sets a repeating timer again, and ends another.
    pub fn reset(&mut self, now: usize)
        requires
            old(self).repeat ==> now + old(self).interval <= usize::MAX,
        ensures
            *final(self) == (if old(self).repeat {
                TimerEntry { deadline: (now + old(self).interval) as usize, ..*old(self) }
            } else {
                TimerEntry { active: false, ..*old(self) }
            }),
    {
        if self.repeat {
            self.deadline = now + self.interval;
        } else {
            self.active = false;
        }
    }

    /// The ticks until the timer is due.
    pub fn remaining(&self, now: usize) -> (r: usize)
        ensures
            r == (if now >= self.deadline { 0 } else { self.deadline - now }),
    {
        if now >= self.deadline {
            0
        } else {
            self.deadline - now
        }
    }

    pub fn cancel(&mut self)
        ensures
            *final(self) == (TimerEntry { active: false, ..*old(self) }),
    {
        self.active = false;
    }
}

/// Timers by the slot of their deadline, and the slot that was looked at last.
pub struct TimerWheel {
    pub slots: Vec<Vec<TimerEntry>>,
    pub current_slot: usize,
}

/// What a wheel stands for.
#[verifier::ext_equal]
pub ghost struct WheelView {
    pub slots: Seq<Seq<TimerEntry>>,
    pub current_slot: usize,
}

impl View for TimerWheel {
    type V = WheelView;

    open spec fn view(&self) -> WheelView {
        WheelView { slots: self.slots@.map_values(|v: Vec<TimerEntry>| v@), current_slot: self.current_slot }
    }
}

pub open spec fn due(now: usize) -> spec_fn(TimerEntry) -> bool {
    |e: TimerEntry| e.active && now >= e.deadline
}

pub open spec fn not_yet_due(now: usize) -> spec_fn(TimerEntry) -> bool {
    |e: TimerEntry| e.active && now < e.deadline
}

pub open spec fn is_active() -> spec_fn(TimerEntry) -> bool {
    |e: TimerEntry| e.active
}

/// How many active timers there are in all slots.
pub open spec fn count_active(slots: Seq<Seq<TimerEntry>>) -> nat
    decreases slots.len(),
{
    if slots.len() == 0 {
        0
    } else {
        count_active(slots.drop_last()) + slots.last().filter(is_active()).len()
    }
}

impl WheelView {
    pub open spec fn wf(self) -> bool {
        self.slots.len() == TIMER_WHEEL_SIZE && self.current_slot < TIMER_WHEEL_SIZE
    }

    /// The timer was put in its slot.
    pub open spec fn added(self, e: TimerEntry) -> WheelView {
        let i = e.deadline as int % TIMER_WHEEL_SIZE as int;
        WheelView { slots: self.slots.update(i, self.slots[i].push(e)), ..self }
    }

    /// The repeating ones among `fired` were set again.
    pub open spec fn rearmed(self, fired: Seq<TimerEntry>, now: usize) -> WheelView
        decreases fired.len(),
    {
        if fired.len() == 0 {
            self
        } else {
            let w = self.rearmed(fired.drop_last(), now);
            let t = fired.last();
            if t.repeat {
                w.added(TimerEntry::spec_new((now + t.interval) as usize, t.interval, t.callback_id))
            } else {
                w
            }
        }
    }

    /// The slot that is looked at next.
    pub open spec fn next_slot(self) -> int {
        (self.current_slot + 1) % TIMER_WHEEL_SIZE as int
    }

    /// The timers that fire when the next slot is looked at.
    pub open spec fn fired(self, now: usize) -> Seq<TimerEntry> {
        self.slots[self.next_slot()].filter(due(now))
    }

    /// The wheel after the next slot was looked at. Cancelled timers in it are gone.
    pub open spec fn advanced(self, now: usize) -> WheelView {
        let i = self.next_slot();
        WheelView {
            slots: self.slots.update(i, self.slots[i].filter(not_yet_due(now))),
            current_slot: i as usize,
        }.rearmed(self.fired(now), now)
    }

    /// Place `j` of slot `i` holds the first active timer for `cb_id`.
    pub open spec fn first_for(self, cb_id: usize, i: int, j: int) -> bool {
        &&& 0 <= i < self.slots.len()
        &&& 0 <= j < self.slots[i].len()
        &&& self.slots[i][j].callback_id == cb_id && self.slots[i][j].active
        &&& forall|a: int, b: int|
            0 <= a < self.slots.len() && 0 <= b < self.slots[a].len() && (a < i || (a == i && b < j)) ==> !((
            #[trigger] self.slots[a][b]).callback_id == cb_id && self.slots[a][b].active)
    }

    pub open spec fn has_active(self, cb_id: usize) -> bool {
        exists|i: int, j: int|
            0 <= i < self.slots.len() && 0 <= j < self.slots[i].len() && (#[trigger] self.slots[i][j]).callback_id
                == cb_id && self.slots[i][j].active
    }

    /// The timer at that place was cancelled.
    pub open spec fn cancelled(self, i: int, j: int) -> WheelView {
        WheelView {
            slots: self.slots.update(
                i,
                self.slots[i].update(j, TimerEntry { active: false, ..self.slots[i][j] }),
            ),
            ..self
        }
    }
}

impl TimerWheel {
    pub fn new() -> (r: Self)
        ensures
            r@ == (WheelView { slots: Seq::new(TIMER_WHEEL_SIZE as nat, |i: int| Seq::empty()), current_slot: 0 }),
            r@.wf(),
    {
        let mut slots: Vec<Vec<TimerEntry>> = Vec::with_capacity(TIMER_WHEEL_SIZE);
        let mut i: usize = 0;
        while i < TIMER_WHEEL_SIZE
            invariant
                i <= TIMER_WHEEL_SIZE,
                slots@.len() == i,
                forall|k: int| 0 <= k < i ==> (#[trigger] slots@[k])@ == Seq::<TimerEntry>::empty(),
            decreases TIMER_WHEEL_SIZE - i,
        {
            slots.push(Vec::new());
            i += 1;
        }
        let r = TimerWheel { slots, current_slot: 0 };
        assert(r@.slots =~= Seq::new(TIMER_WHEEL_SIZE as nat, |i: int| Seq::empty()));
        r
    }

    /// Puts a timer in the slot of its deadline.
    pub fn add_timer(&mut self, entry: TimerEntry)
        requires
            old(self)@.wf(),
        ensures
            final(self)@ == old(self)@.added(entry),
            final(self)@.wf(),
    {
        let slot: usize = entry.deadline % TIMER_WHEEL_SIZE;
        self.slots[slot].push(entry);
        assert(self@.slots =~= old(self)@.added(entry).slots);
    }

    /// Looks at the next slot, and returns the timers in it that are due. Those that repeat are
    /// set again.
    pub fn advance(&mut self, now: usize) -> (r: Vec<TimerEntry>)
        requires
            old(self)@.wf(),
            forall|i: int|
                0 <= i < old(self)@.fired(now).len() && (#[trigger] old(self)@.fired(now)[i]).repeat ==> now + old(
                    self,
                )@.fired(now)[i].interval <= usize::MAX,
        ensures
            r@ == old(self)@.fired(now),
            final(self)@ == old(self)@.advanced(now),
            final(self)@.wf(),
    {
        self.current_slot = (self.current_slot + 1) % TIMER_WHEEL_SIZE;
        let cur: usize = self.current_slot;
        let ghost s = self.slots@[cur as int]@;
        let mut fired: Vec<TimerEntry> = Vec::new();
        let mut remaining: Vec<TimerEntry> = Vec::new();
        let mut i: usize = 0;
        proof {
            reveal(Seq::filter);
            assert(s.take(0).filter(due(now)) =~= Seq::empty());
            assert(s.take(0).filter(not_yet_due(now)) =~= Seq::empty());
        }
        while i < self.slots[cur].len()
            invariant
                i <= s.len(),
                cur < self.slots@.len(),
                s == self.slots@[cur as int]@,
                self.current_slot == cur,
                self.slots@ == old(self).slots@,
                fired@ == s.take(i as int).filter(due(now)),
                remaining@ == s.take(i as int).filter(not_yet_due(now)),
            decreases s.len() - i,
        {
            let entry: TimerEntry = self.slots[cur][i];
            proof {
                assert(s.take(i as int).push(entry) =~= s.take(i + 1));
                lemma_filter_push(s.take(i as int), entry, due(now));
                lemma_filter_push(s.take(i as int), entry, not_yet_due(now));
            }
            if entry.active && entry.expired(now) {
                fired.push(entry);
            } else if entry.active {
                remaining.push(entry);
            }
            i += 1;
        }
        assert(s.take(i as int) =~= s);
        self.slots[cur] = remaining;
        let ghost base = self@;
        assert(base.slots =~= old(self)@.slots.update(cur as int, s.filter(not_yet_due(now))));
        assert(fired@ == old(self)@.fired(now));
        let mut k: usize = 0;
        assert(fired@.take(0) =~= Seq::empty());
        while k < fired.len()
            invariant
                k <= fired@.len(),
                self@.wf(),
                self@ == base.rearmed(fired@.take(k as int), now),
                forall|i: int| 0 <= i < fired@.len() && (#[trigger] fired@[i]).repeat ==> now + fired@[i].interval
                    <= usize::MAX,
            decreases fired@.len() - k,
        {
            let t: TimerEntry = fired[k];
            assert(fired@.take(k + 1).drop_last() =~= fired@.take(k as int));
            if t.repeat {
                self.add_timer(TimerEntry::new(now + t.interval, t.interval, t.callback_id));
            }
            k += 1;
        }
        assert(fired@.take(k as int) =~= fired@);
        fired
    }

    /// Cancels the first active timer for `cb_id`, and tells whether there was one.
    pub fn cancel(&mut self, cb_id: usize) -> (r: bool)
        ensures
            r == old(self)@.has_active(cb_id),
            r ==> exists|i: int, j: int| #[trigger]
                old(self)@.first_for(cb_id, i, j) && final(self)@ == old(self)@.cancelled(i, j),
            !r ==> final(self)@ == old(self)@,
    {
        let mut i: usize = 0;
        while i < self.slots.len()
            invariant
                i <= self.slots@.len(),
                self.slots@ == old(self).slots@,
                self@ == old(self)@,
                forall|a: int, b: int|
                    0 <= a < i && 0 <= b < self@.slots[a].len() ==> !((#[trigger] self@.slots[a][b]).callback_id == cb_id
                        && self@.slots[a][b].active),
            decreases self.slots@.len() - i,
        {
            let mut j: usize = 0;
            while j < self.slots[i].len()
                invariant
                    i < self.slots@.len(),
                    j <= self.slots@[i as int]@.len(),
                    self.slots@ == old(self).slots@,
                    self@ == old(self)@,
                    forall|a: int, b: int|
                        (0 <= a < i && 0 <= b < self@.slots[a].len()) || (a == i && 0 <= b < j) ==> !((
                        #[trigger] self@.slots[a][b]).callback_id == cb_id && self@.slots[a][b].active),
                decreases self.slots@[i as int]@.len() - j,
            {
                let e: TimerEntry = self.slots[i][j];
                assert(self@.slots[i as int][j as int] == e);
                if e.callback_id == cb_id && e.active {
                    self.slots[i][j].active = false;
                    assert(old(self)@.first_for(cb_id, i as int, j as int));
                    assert(self@.slots =~= old(self)@.cancelled(i as int, j as int).slots);
                    return true;
                }
                j += 1;
            }
            i += 1;
        }
        false
    }

    pub fn active_count(&self) -> (r: usize)
        requires
            count_active(self@.slots) <= usize::MAX,
        ensures
            r == count_active(self@.slots),
    {
        let mut n: usize = 0;
        let mut i: usize = 0;
        while i < self.slots.len()
            invariant
                i <= self.slots@.len(),
                count_active(self@.slots) <= usize::MAX,
                n == count_active(self@.slots.take(i as int)),
            decreases self.slots@.len() - i,
        {
            proof {
                lemma_count_grows(self@.slots, i + 1);
                assert(self@.slots.take(i + 1).drop_last() =~= self@.slots.take(i as int));
            }
            let ghost s = self.slots@[i as int]@;
            let mut m: usize = 0;
            let mut j: usize = 0;
            proof {
                reveal(Seq::filter);
                assert(s.take(0).filter(is_active()) =~= Seq::empty());
            }
            while j < self.slots[i].len()
                invariant
                    i < self.slots@.len(),
                    s == self.slots@[i as int]@,
                    j <= s.len(),
                    m == s.take(j as int).filter(is_active()).len(),
                    m <= j,
                decreases s.len() - j,
            {
                let e: TimerEntry = self.slots[i][j];
                proof {
                    assert(s.take(j as int).push(e) =~= s.take(j + 1));
                    lemma_filter_push(s.take(j as int), e, is_active());
                }
                if e.active {
                    m += 1;
                }
                j += 1;
            }
            assert(s.take(j as int) =~= s);
            n += m;
            i += 1;
        }
        assert(self@.slots.take(i as int) =~= self@.slots);
        n
    }
}

proof fn lemma_count_grows(slots: Seq<Seq<TimerEntry>>, k: int)
    requires
        0 <= k <= slots.len(),
    ensures
        count_active(slots.take(k)) <= count_active(slots),
    decreases slots.len() - k,
{
    if k < slots.len() {
        lemma_count_grows(slots, k + 1);
        assert(slots.take(k + 1).drop_last() =~= slots.take(k));
    } else {
        assert(slots.take(k) =~= slots);
    }
}

/// What fires is active and due, and an active timer whose slot comes up once it is due fires.
pub proof fn law_timers_fire_when_due(w: WheelView, e: TimerEntry, now: usize)
    requires
        w.wf(),
    ensures
        forall|i: int| 0 <= i < w.fired(now).len() ==> (#[trigger] w.fired(now)[i]).active && w.fired(now)[i].deadline <= now,
        e.active && e.deadline <= now && w.next_slot() == e.deadline as int % TIMER_WHEEL_SIZE as int ==> w.added(
            e,
        ).fired(now).contains(e),
{
    let s = w.slots[w.next_slot()];
    assert forall|i: int| 0 <= i < w.fired(now).len() implies (#[trigger] w.fired(now)[i]).active
        && w.fired(now)[i].deadline <= now by {
        s.lemma_filter_pred(due(now), i);
    }
    if e.active && e.deadline <= now && w.next_slot() == e.deadline as int % TIMER_WHEEL_SIZE as int {
        lemma_filter_push(s, e, due(now));
        assert(s.filter(due(now)).push(e).last() == e);
    }
}

/// Every tick counts, and those of the first processor move the time by one.
pub proof fn law_clock_ticks(c: Clock, cpu: usize)
    requires
        c.wall < usize::MAX,
        c.all < usize::MAX,
    ensures
        c.ticked(cpu).all == c.all + 1,
        cpu == 0 ==> c.ticked(cpu).wall == c.wall + 1,
        cpu != 0 ==> c.ticked(cpu).wall == c.wall,
{
}

/// A timer starts active, and repeats just if it has an interval.
pub proof fn law_new_timer(deadline: usize, interval: usize, id: usize)
    ensures
        ({
            let e = TimerEntry::spec_new(deadline, interval, id);
            e.active && e.deadline == deadline && e.interval == interval && e.callback_id == id && (e.repeat <==> interval
                > 0)
        }),
{
}

/// A timer goes where its deadline falls on the wheel, behind those that are there, and no other
/// is touched.
pub proof fn law_added_timer_is_there(w: WheelView, e: TimerEntry, i: int)
    requires
        w.wf(),
        0 <= i < 256,
    ensures
        w.added(e).slots[e.deadline as int % 256].last() == e,
        w.added(e).slots[i] == (if i == e.deadline as int % 256 {
            w.slots[i] + seq![e]
        } else {
            w.slots[i]
        }),
        w.added(e).current_slot == w.current_slot,
        w.added(e).wf(),
{
    let n = e.deadline as int % 256;
    assert(w.slots[n].push(e) =~= w.slots[n] + seq![e]);
}

/// A timer that repeats was set again for its interval from now on.
pub open spec fn set_again(f: TimerEntry, x: TimerEntry, now: usize) -> bool {
    f.repeat && x.deadline == now + f.interval && x.interval == f.interval && x.callback_id == f.callback_id && x.active
        && (x.repeat <==> x.interval > 0)
}

/// What the wheel holds after timers were set again: what it held, and each of those that repeat
/// in the slot of its new deadline.
proof fn lemma_rearmed(w: WheelView, fired: Seq<TimerEntry>, now: usize, i: int)
    requires
        w.wf(),
        0 <= i < 256,
        forall|k: int| 0 <= k < fired.len() && (#[trigger] fired[k]).repeat ==> now + fired[k].interval <= usize::MAX,
    ensures
        ({
            let after = w.rearmed(fired, now);
            &&& after.wf()
            &&& after.current_slot == w.current_slot
            &&& forall|e: TimerEntry| #[trigger] w.slots[i].contains(e) ==> after.slots[i].contains(e)
            &&& forall|e: TimerEntry| #[trigger]
                after.slots[i].contains(e) ==> w.slots[i].contains(e) || exists|k: int|
                    0 <= k < fired.len() && set_again(#[trigger] fired[k], e, now)
            &&& forall|k: int|
                0 <= k < fired.len() && (#[trigger] fired[k]).repeat ==> exists|x: TimerEntry| #[trigger]
                    after.slots[(now + fired[k].interval) % 256].contains(x) && set_again(fired[k], x, now)
        }),
    decreases fired.len(),
{
    if fired.len() > 0 {
        let front = fired.drop_last();
        let last = fired[fired.len() - 1];
        assert forall|k: int| 0 <= k < front.len() && (#[trigger] front[k]).repeat implies now + front[k].interval
            <= usize::MAX by {
            assert(fired[k] == front[k]);
        }
        lemma_rearmed(w, front, now, i);
        let mid = w.rearmed(front, now);
        let after = w.rearmed(fired, now);
        let x = TimerEntry::spec_new((now + last.interval) as usize, last.interval, last.callback_id);
        assert forall|j: int, e: TimerEntry| 0 <= j < 256 && #[trigger] mid.slots[j].contains(e) implies after.slots[j].contains(
            e,
        ) by {
            let n = choose|n: int| 0 <= n < mid.slots[j].len() && mid.slots[j][n] == e;
            assert(after.slots[j][n] == e);
        }
        assert forall|e: TimerEntry| #[trigger] after.slots[i].contains(e) implies w.slots[i].contains(e) || exists|k: int|
            0 <= k < fired.len() && set_again(#[trigger] fired[k], e, now) by {
            let n = choose|n: int| 0 <= n < after.slots[i].len() && after.slots[i][n] == e;
            if n < mid.slots[i].len() {
                assert(mid.slots[i][n] == e);
                assert(mid.slots[i].contains(e));
                if !w.slots[i].contains(e) {
                    let k = choose|k: int| 0 <= k < front.len() && set_again(#[trigger] front[k], e, now);
                    assert(fired[k] == front[k]);
                }
            } else {
                assert(e == x);
                assert(set_again(fired[fired.len() - 1], e, now));
            }
        }
        assert forall|k: int| 0 <= k < fired.len() && (#[trigger] fired[k]).repeat implies exists|x: TimerEntry| #[trigger]
            after.slots[(now + fired[k].interval) % 256].contains(x) && set_again(fired[k], x, now) by {
            let j = (now + fired[k].interval) % 256;
            if k < front.len() {
                assert(front[k] == fired[k]);
                let y = choose|y: TimerEntry| #[trigger] mid.slots[j].contains(y) && set_again(front[k], y, now);
                assert(after.slots[j].contains(y));
            } else {
                let s = after.slots[j];
                assert(s[s.len() - 1] == x);
                assert(s.contains(x));
                assert(set_again(fired[k], x, now));
            }
        }
    }
}

/// When the wheel turns by one slot, the timers there that are active and due fire and leave.
/// Those that repeat are set again for their interval from now on. Every active timer that is not
/// due, and every timer of another slot, stays, and nothing else is there.
pub proof fn law_wheel_turns(w: WheelView, now: usize, i: int, e: TimerEntry)
    requires
        w.wf(),
        0 <= i < 256,
        forall|k: int|
            0 <= k < w.fired(now).len() && (#[trigger] w.fired(now)[k]).repeat ==> now + w.fired(now)[k].interval
                <= usize::MAX,
    ensures
        ({
            let next = (w.current_slot + 1) % 256;
            let after = w.advanced(now);
            &&& after.wf()
            &&& after.current_slot == next
            &&& w.fired(now).contains(e) <==> w.slots[next].contains(e) && e.active && e.deadline <= now
            &&& w.slots[i].contains(e) && (i != next || (e.active && e.deadline > now)) ==> after.slots[i].contains(e)
            &&& after.slots[i].contains(e) ==> (w.slots[i].contains(e) && (i != next || (e.active && e.deadline > now)))
                || exists|f: TimerEntry| #[trigger] w.fired(now).contains(f) && set_again(f, e, now)
            &&& w.fired(now).contains(e) && e.repeat ==> exists|x: TimerEntry| #[trigger]
                after.slots[(now + e.interval) % 256].contains(x) && set_again(e, x, now)
        }),
{
    let next = w.next_slot();
    let s = w.slots[next];
    let fired = w.fired(now);
    let left = s.filter(not_yet_due(now));
    lemma_filter_members(s, due(now), e);
    lemma_filter_members(s, not_yet_due(now), e);
    let base = WheelView { slots: w.slots.update(next, left), current_slot: next as usize };
    lemma_rearmed(base, fired, now, i);
    let after = w.advanced(now);
    assert(after == base.rearmed(fired, now));
    assert(base.slots[i] == (if i == next {
        left
    } else {
        w.slots[i]
    }));
    if w.slots[i].contains(e) && (i != next || (e.active && e.deadline > now)) {
        assert(base.slots[i].contains(e));
    }
    if after.slots[i].contains(e) && !base.slots[i].contains(e) {
        let k = choose|k: int| 0 <= k < fired.len() && set_again(#[trigger] fired[k], e, now);
        assert(w.fired(now).contains(fired[k]) && set_again(fired[k], e, now));
    }
    if fired.contains(e) && e.repeat {
        let k = choose|k: int| 0 <= k < fired.len() && fired[k] == e;
        assert(fired[k].repeat);
    }
}

proof fn lemma_filter_members(s: Seq<TimerEntry>, keep: spec_fn(TimerEntry) -> bool, e: TimerEntry)
    ensures
        s.filter(keep).contains(e) <==> s.contains(e) && keep(e),
{
    let f = s.filter(keep);
    if f.contains(e) {
        let i = choose|i: int| 0 <= i < f.len() && f[i] == e;
        s.lemma_filter_pred(keep, i);
        s.lemma_filter_contains_rev(keep, e);
    }
    if s.contains(e) && keep(e) {
        let i = choose|i: int| 0 <= i < s.len() && s[i] == e;
        s.lemma_filter_contains(keep, i);
    }
}

/// Cancelling makes just that timer inactive, and one active timer fewer; adding an active one
/// makes one more.
pub proof fn law_cancelled_timer_counts_no_more(w: WheelView, i: int, j: int, e: TimerEntry, a: int, b: int)
    requires
        w.wf(),
        0 <= i < 256,
        0 <= j < w.slots[i].len(),
        w.slots[i][j].active,
        0 <= a < 256,
        0 <= b < w.slots[a].len(),
    ensures
        !w.cancelled(i, j).slots[i][j].active,
        (a, b) != (i, j) ==> w.cancelled(i, j).slots[a][b] == w.slots[a][b],
        w.cancelled(i, j).slots[a].len() == w.slots[a].len(),
        count_active(w.cancelled(i, j).slots) + 1 == count_active(w.slots),
        count_active(w.added(e).slots) == count_active(w.slots) + (if e.active {
            1nat
        } else {
            0nat
        }),
{
    lemma_count_one(w.slots, i, w.cancelled(i, j).slots[i]);
    lemma_filter_one(w.slots[i], j);
    let n = e.deadline as int % 256;
    lemma_count_one(w.slots, n, w.slots[n].push(e));
    lemma_filter_push(w.slots[n], e, is_active());
}

proof fn lemma_count_one(slots: Seq<Seq<TimerEntry>>, i: int, s: Seq<TimerEntry>)
    requires
        0 <= i < slots.len(),
    ensures
        count_active(slots.update(i, s)) == count_active(slots) - slots[i].filter(is_active()).len() + s.filter(
            is_active(),
        ).len(),
    decreases slots.len(),
{
    let now = slots.update(i, s);
    if i == slots.len() - 1 {
        assert(now.drop_last() =~= slots.drop_last());
    } else {
        lemma_count_one(slots.drop_last(), i, s);
        assert(now.drop_last() =~= slots.drop_last().update(i, s));
    }
}

proof fn lemma_filter_one(s: Seq<TimerEntry>, j: int)
    requires
        0 <= j < s.len(),
        s[j].active,
    ensures
        s.update(j, TimerEntry { active: false, ..s[j] }).filter(is_active()).len() + 1 == s.filter(is_active()).len(),
    decreases s.len(),
{
    reveal(Seq::filter);
    let now = s.update(j, TimerEntry { active: false, ..s[j] });
    if j == s.len() - 1 {
        assert(now.drop_last() =~= s.drop_last());
    } else {
        lemma_filter_one(s.drop_last(), j);
        assert(now.drop_last() =~= s.drop_last().update(j, TimerEntry { active: false, ..s[j] }));
    }
}

/// The timer that a cancel finds is active and of that callback, and there is one if any is. None
/// that stands before it is such a timer.
pub proof fn law_cancel_finds_the_first(w: WheelView, cb_id: usize, i: int, j: int, a: int, b: int)
    requires
        w.first_for(cb_id, i, j),
        0 <= a < w.slots.len(),
        0 <= b < w.slots[a].len(),
        w.slots[a][b].active,
        w.slots[a][b].callback_id == cb_id,
    ensures
        i < a || (i == a && j <= b),
        w.has_active(cb_id),
        w.slots[i][j].active && w.slots[i][j].callback_id == cb_id,
        forall|x: int, y: int| #[trigger] w.first_for(cb_id, x, y) ==> x == i && y == j,
{
    assert forall|x: int, y: int| #[trigger] w.first_for(cb_id, x, y) implies x == i && y == j by {
        assert(w.slots[x][y].active && w.slots[i][j].active);
    }
}

} // verus!
