//! Fair scheduling.

use crate::word::{signed, to_i64};
use vstd::prelude::*;

verus! {

pub const PRIO_MIN: i32 = -20;

pub const PRIO_MAX: i32 = 19;

pub const PRIO_DEFAULT: i32 = 0;

pub const SCHED_NORMAL: u8 = 0;

pub const SCHED_FIFO: u8 = 1;

pub const SCHED_RR: u8 = 2;

pub const SCHED_BATCH: u8 = 3;

pub const MAX_CPU: usize = 8;

/// How a task is to be scheduled, and how long it ran in relation to its weight.
#[derive(Clone, Copy, Debug, PartialEq, Eq, Structural)]
pub struct SchedulePolicy {
    pub task_id: usize,
    pub policy: u8,
    pub nice: i32,
    pub vruntime: u64,
}

/// The share of time that goes with a nice value.
pub open spec fn weight_of(nice: i32) -> u64 {
    if nice < -10 {
        88761
    } else if nice < 0 {
        29154
    } else if nice == 0 {
        1024
    } else if nice < 10 {
        335
    } else {
        110
    }
}

/// The nice value next to `n` that a task can have.
pub open spec fn nice_within(n: int) -> i32 {
    if n < PRIO_MIN {
        PRIO_MIN
    } else if n > PRIO_MAX {
        PRIO_MAX
    } else {
        n as i32
    }
}

impl SchedulePolicy {
    pub fn new(task_id: usize) -> (r: Self)
        ensures
            r == (SchedulePolicy { task_id, policy: SCHED_NORMAL, nice: 0, vruntime: 0 }),
    {
        SchedulePolicy { task_id, policy: SCHED_NORMAL, nice: PRIO_DEFAULT, vruntime: 0 }
    }

    pub fn with_nice(task_id: usize, nice: i32) -> (r: Self)
        ensures
            r == (SchedulePolicy { task_id, policy: SCHED_NORMAL, nice, vruntime: 0 }),
    {
        SchedulePolicy { task_id, policy: SCHED_NORMAL, nice, vruntime: 0 }
    }

    pub fn weight(&self) -> (w: u64)
        ensures
            w == weight_of(self.nice),
    {
        if self.nice < -10 {
            88761
        } else if self.nice < 0 {
            29154
        } else if self.nice == 0 {
            1024
        } else if self.nice < 10 {
            335
        } else {
            110
        }
    }

    /// Runs before `other`: it ran less, or as much and has the lower number.
    pub open spec fn precedes(self, other: SchedulePolicy) -> bool {
        self.vruntime < other.vruntime || (self.vruntime == other.vruntime && self.task_id < other.task_id)
    }

    pub fn before(&self, other: &SchedulePolicy) -> (r: bool)
        ensures
            r == self.precedes(*other),
    {
        self.vruntime < other.vruntime || (self.vruntime == other.vruntime && self.task_id < other.task_id)
    }
}

/// Every task runs before the next.
pub open spec fn in_order(q: Seq<SchedulePolicy>) -> bool {
    forall|i: int, j: int| 0 <= i < j < q.len() ==> (#[trigger] q[i]).precedes(#[trigger] q[j])
}

/// Where `p` belongs in a queue: behind all that run before it.
pub open spec fn place_for(q: Seq<SchedulePolicy>, p: SchedulePolicy) -> int
    decreases q.len(),
{
    if q.len() == 0 || !q[0].precedes(p) {
        0
    } else {
        1 + place_for(q.skip(1), p)
    }
}

/// The queue with `p` in its place, unless one with the same running time and number is there.
pub open spec fn inserted(q: Seq<SchedulePolicy>, p: SchedulePolicy) -> Seq<SchedulePolicy> {
    let i = place_for(q, p);
    if i < q.len() && !p.precedes(q[i]) {
        q
    } else {
        q.insert(i, p)
    }
}

/// The place of the first task with that number, or the length if there is none.
pub open spec fn place_of(q: Seq<SchedulePolicy>, task_id: usize) -> int
    decreases q.len(),
{
    if q.len() == 0 || q[0].task_id == task_id {
        0
    } else {
        1 + place_of(q.skip(1), task_id)
    }
}

/// The tasks that are ready, the next one first, and the one that runs.
pub struct RunQueue {
    pub queue: Vec<SchedulePolicy>,
    pub current: Option<usize>,
}

/// What a run queue stands for.
#[verifier::ext_equal]
pub ghost struct RunView {
    pub queue: Seq<SchedulePolicy>,
    pub current: Option<usize>,
}

impl View for RunQueue {
    type V = RunView;

    open spec fn view(&self) -> RunView {
        RunView { queue: self.queue@, current: self.current }
    }
}

impl RunView {
    pub open spec fn wf(self) -> bool {
        in_order(self.queue)
    }

    /// The first entry of a task was taken out and put back as `p`.
    pub open spec fn moved(self, task_id: usize, p: SchedulePolicy) -> RunView {
        RunView { queue: inserted(self.queue.remove(place_of(self.queue, task_id)), p), ..self }
    }

    pub open spec fn has(self, task_id: usize) -> bool {
        place_of(self.queue, task_id) < self.queue.len()
    }

    pub open spec fn entry(self, task_id: usize) -> SchedulePolicy {
        self.queue[place_of(self.queue, task_id)]
    }
}

impl RunQueue {
    pub fn new() -> (r: Self)
        ensures
            r@ == (RunView { queue: Seq::empty(), current: None }),
            r@.wf(),
    {
        RunQueue { queue: Vec::new(), current: None }
    }

    pub fn enqueue(&mut self, policy: SchedulePolicy)
        requires
            old(self)@.wf(),
        ensures
            final(self)@ == (RunView { queue: inserted(old(self)@.queue, policy), ..old(self)@ }),
            final(self)@.wf(),
    {
        let ghost q = self.queue@;
        let mut i: usize = 0;
        assert(q.skip(0) =~= q);
        while i < self.queue.len()
            invariant_except_break
                place_for(q, policy) == i + place_for(q.skip(i as int), policy),
            invariant
                i <= q.len(),
                q == self.queue@,
                self@ == old(self)@,
            ensures
                i == place_for(q, policy),
            decreases q.len() - i,
        {
            assert(q.skip(i as int)[0] == q[i as int]);
            if !self.queue[i].before(&policy) {
                break;
            }
            assert(q.skip(i as int).skip(1) =~= q.skip(i + 1));
            i += 1;
        }
        proof {
            lemma_inserted_in_order(q, policy);
        }
        if i < self.queue.len() && !policy.before(&self.queue[i]) {
            return ;
        }
        self.queue.insert(i, policy);
    }

    /// Takes out the task that runs next.
    pub fn dequeue(&mut self) -> (r: Option<SchedulePolicy>)
        requires
            old(self)@.wf(),
        ensures
            final(self)@.wf(),
            old(self)@.queue.len() == 0 ==> r is None && final(self)@ == old(self)@,
            old(self)@.queue.len() > 0 ==> r == Some(old(self)@.queue[0]) && final(self)@ == (RunView {
                queue: old(self)@.queue.skip(1),
                ..old(self)@
            }),
    {
        if self.queue.len() == 0 {
            return None;
        }
        let p: SchedulePolicy = self.queue.remove(0);
        assert(self.queue@ =~= old(self)@.queue.skip(1));
        Some(p)
    }

    pub fn pick_next(&self) -> (r: Option<usize>)
        ensures
            r == (if self@.queue.len() == 0 { None } else { Some(self@.queue[0].task_id) }),
    {
        if self.queue.len() == 0 {
            return None;
        }
        Some(self.queue[0].task_id)
    }

    fn position(&self, task_id: usize) -> (i: usize)
        ensures
            i == place_of(self@.queue, task_id),
            i <= self@.queue.len(),
            i < self@.queue.len() ==> self@.queue[i as int].task_id == task_id,
    {
        let ghost q = self.queue@;
        let mut i: usize = 0;
        assert(q.skip(0) =~= q);
        while i < self.queue.len()
            invariant_except_break
                place_of(q, task_id) == i + place_of(q.skip(i as int), task_id),
            invariant
                i <= q.len(),
                q == self.queue@,
            ensures
                i == place_of(q, task_id),
                i < q.len() ==> q[i as int].task_id == task_id,
            decreases q.len() - i,
        {
            assert(q.skip(i as int)[0] == q[i as int]);
            if self.queue[i].task_id == task_id {
                break;
            }
            assert(q.skip(i as int).skip(1) =~= q.skip(i + 1));
            i += 1;
        }
        i
    }

    /// Takes the first entry of a task out, and tells whether there was one.
    pub fn remove(&mut self, task_id: usize) -> (r: bool)
        requires
            old(self)@.wf(),
        ensures
            r == old(self)@.has(task_id),
            final(self)@ == (if r {
                RunView { queue: old(self)@.queue.remove(place_of(old(self)@.queue, task_id)), ..old(self)@ }
            } else {
                old(self)@
            }),
            final(self)@.wf(),
    {
        let i: usize = self.position(task_id);
        if i < self.queue.len() {
            self.queue.remove(i);
            return true;
        }
        false
    }

    /// Adds `delta` to the running time of a task, in relation to its weight.
    pub fn update_vruntime(&mut self, task_id: usize, delta: u64)
        requires
            old(self)@.wf(),
            old(self)@.has(task_id) ==> {
                let p = old(self)@.entry(task_id);
                delta * 1024 <= u64::MAX && p.vruntime + delta * 1024 / weight_of(p.nice) as int <= u64::MAX
            },
        ensures
            final(self)@ == (if old(self)@.has(task_id) {
                let p = old(self)@.entry(task_id);
                old(self)@.moved(
                    task_id,
                    SchedulePolicy {
                        vruntime: (p.vruntime + delta * 1024 / weight_of(p.nice) as int) as u64,
                        ..p
                    },
                )
            } else {
                old(self)@
            }),
            final(self)@.wf(),
    {
        let i: usize = self.position(task_id);
        if i < self.queue.len() {
            let mut p: SchedulePolicy = self.queue[i];
            self.queue.remove(i);
            p.vruntime += delta * 1024 / p.weight();
            self.enqueue(p);
        }
    }

    pub fn set_current(&mut self, id: usize)
        ensures
            final(self)@ == (RunView { current: Some(id), ..old(self)@ }),
    {
        self.current = Some(id);
    }

    pub fn clear_current(&mut self)
        ensures
            final(self)@ == (RunView { current: None, ..old(self)@ }),
    {
        self.current = None;
    }

    pub fn len(&self) -> (r: usize)
        ensures
            r == self@.queue.len(),
    {
        self.queue.len()
    }

    /// Lowers the nice value of a task by `amount`, or raises it for a negative one. It stays
    /// between [`PRIO_MIN`] and [`PRIO_MAX`].
    pub fn boost_priority(&mut self, task_id: usize, amount: i32)
        requires
            old(self)@.wf(),
            old(self)@.has(task_id) ==> i32::MIN <= old(self)@.entry(task_id).nice - amount <= i32::MAX,
        ensures
            final(self)@ == (if old(self)@.has(task_id) {
                let p = old(self)@.entry(task_id);
                old(self)@.moved(task_id, SchedulePolicy { nice: nice_within(p.nice - amount), ..p })
            } else {
                old(self)@
            }),
            final(self)@.wf(),
    {
        let i: usize = self.position(task_id);
        if i < self.queue.len() {
            let mut p: SchedulePolicy = self.queue[i];
            self.queue.remove(i);
            let nice: i32 = p.nice - amount;
            p.nice = if nice < PRIO_MIN {
                PRIO_MIN
            } else if nice > PRIO_MAX {
                PRIO_MAX
            } else {
                nice
            };
            self.enqueue(p);
        }
    }
}

proof fn lemma_place_for(q: Seq<SchedulePolicy>, p: SchedulePolicy)
    ensures
        0 <= place_for(q, p) <= q.len(),
        forall|i: int| 0 <= i < place_for(q, p) ==> (#[trigger] q[i]).precedes(p),
        place_for(q, p) < q.len() ==> !q[place_for(q, p)].precedes(p),
    decreases q.len(),
{
    if q.len() > 0 && q[0].precedes(p) {
        lemma_place_for(q.skip(1), p);
        assert forall|i: int| 0 <= i < place_for(q, p) implies (#[trigger] q[i]).precedes(p) by {
            if i > 0 {
                assert(q.skip(1)[i - 1].precedes(p));
            }
        }
    }
}

proof fn lemma_inserted_in_order(q: Seq<SchedulePolicy>, p: SchedulePolicy)
    requires
        in_order(q),
    ensures
        in_order(inserted(q, p)),
        0 <= place_for(q, p) <= q.len(),
{
    lemma_place_for(q, p);
    let i = place_for(q, p);
    let r = inserted(q, p);
    if !(i < q.len() && !p.precedes(q[i])) {
        assert forall|a: int, b: int| 0 <= a < b < r.len() implies (#[trigger] r[a]).precedes(#[trigger] r[b]) by {
            if b == i {
                assert(r[a] == q[a]);
            } else if a == i {
                assert(r[b] == q[b - 1]);
                assert(q[i] == q[b - 1] || q[i].precedes(q[b - 1]));
            } else {
                let x = if a < i {
                    a
                } else {
                    a - 1
                };
                let y = if b < i {
                    b
                } else {
                    b - 1
                };
                assert(r[a] == q[x] && r[b] == q[y]);
                assert(q[x].precedes(q[y]));
            }
        }
    }
}

/// A change of its nice value leaves a task where it is in the queue, and the value within its
/// range.
pub proof fn law_boost_stays_in_range(r: RunView, task_id: usize, amount: int)
    requires
        r.wf(),
        r.has(task_id),
    ensures
        ({
            let i = place_of(r.queue, task_id);
            let p = r.queue[i];
            let nice = nice_within(p.nice - amount);
            &&& PRIO_MIN <= nice <= PRIO_MAX
            &&& r.moved(task_id, SchedulePolicy { nice, ..p }).queue == r.queue.update(i, SchedulePolicy { nice, ..p })
        }),
{
    let q = r.queue;
    lemma_place_of(q, task_id);
    let i = place_of(q, task_id);
    let p = q[i];
    let changed = SchedulePolicy { nice: nice_within(p.nice - amount), ..p };
    let rest = q.remove(i);
    lemma_place_for(rest, changed);
    let k = place_for(rest, changed);
    if k < i {
        assert(rest[k] == q[k]);
        assert(q[k].precedes(q[i]));
    }
    if k > i {
        assert(rest[i].precedes(changed));
        assert(rest[i] == q[i + 1]);
        assert(q[i].precedes(q[i + 1]));
    }
    if k < rest.len() {
        assert(rest[k] == q[k + 1]);
        assert(q[i].precedes(q[i + 1]));
    }
    assert(rest.insert(i, changed) =~= q.update(i, changed));
}

proof fn lemma_place_of(q: Seq<SchedulePolicy>, task_id: usize)
    ensures
        0 <= place_of(q, task_id) <= q.len(),
    decreases q.len(),
{
    if q.len() > 0 && q[0].task_id != task_id {
        lemma_place_of(q.skip(1), task_id);
    }
}

/// The task that runs next ran least: every other in the queue comes after it.
pub proof fn law_next_ran_least(r: RunView, i: int)
    requires
        r.wf(),
        0 < i < r.queue.len(),
    ensures
        r.queue[0].precedes(r.queue[i]),
        r.queue[0].vruntime <= r.queue[i].vruntime,
{
}

/// A task that was put in is in the queue, and nothing that was there is lost.
pub proof fn law_enqueue_keeps(q: Seq<SchedulePolicy>, p: SchedulePolicy, x: SchedulePolicy)
    requires
        in_order(q),
    ensures
        q.contains(x) ==> inserted(q, p).contains(x),
        exists|i: int|
            0 <= i < inserted(q, p).len() && (#[trigger] inserted(q, p)[i]).task_id == p.task_id && inserted(q, p)[i].vruntime
                == p.vruntime,
{
    lemma_place_for(q, p);
    let i = place_for(q, p);
    let r = inserted(q, p);
    assert(r[i].task_id == p.task_id && r[i].vruntime == p.vruntime);
    if q.contains(x) {
        let k = choose|k: int| 0 <= k < q.len() && q[k] == x;
        if r != q {
            if k < i {
                assert(r[k] == x);
            } else {
                assert(r[k + 1] == x);
            }
        }
    }
}

/// The tasks of a processor, as a signed number.
pub open spec fn tasks_on(counts: Seq<usize>, cpu: int) -> int {
    signed(counts[cpu] as u64)
}

/// The score of a processor after its first `n` parts: few tasks, high priority, not waiting for
/// a device, a warm cache, and standing in the first half.
pub open spec fn score_part(counts: Seq<usize>, prios: Seq<i32>, blocked: Seq<bool>, cpu: int, n: nat) -> int {
    let part1 = -tasks_on(counts, cpu) * 100;
    let part2 = if cpu < prios.len() {
        prios[cpu] * 10
    } else {
        0
    };
    let part3 = if cpu < blocked.len() && blocked[cpu] {
        -500int
    } else {
        0
    };
    let part4 = if counts[cpu] > 0 {
        50int
    } else {
        0
    };
    let part5 = if cpu < counts.len() / 2 {
        10int
    } else {
        -10
    };
    part1 + (if n > 1 {
        part2
    } else {
        0
    }) + (if n > 2 {
        part3
    } else {
        0
    }) + (if n > 3 {
        part4
    } else {
        0
    }) + (if n > 4 {
        part5
    } else {
        0
    })
}

/// What speaks for giving the next task to a processor.
pub open spec fn score(counts: Seq<usize>, prios: Seq<i32>, blocked: Seq<bool>, cpu: int) -> int {
    score_part(counts, prios, blocked, cpu, 5)
}

/// The score of a processor stays within 64 bits all along.
pub open spec fn score_fits(counts: Seq<usize>, prios: Seq<i32>, blocked: Seq<bool>, cpu: int) -> bool {
    &&& tasks_on(counts, cpu) > i64::MIN
    &&& forall|n: nat| 1 <= n <= 5 ==> i64::MIN <= #[trigger] score_part(counts, prios, blocked, cpu, n) <= i64::MAX
}

/// The first among the first `n` processors with the highest score.
pub open spec fn best_cpu(counts: Seq<usize>, prios: Seq<i32>, blocked: Seq<bool>, n: nat) -> int
    decreases n,
{
    if n <= 1 {
        0
    } else {
        let best = best_cpu(counts, prios, blocked, (n - 1) as nat);
        if score(counts, prios, blocked, n - 1) > score(counts, prios, blocked, best) {
            n - 1
        } else {
            best
        }
    }
}

/// Five times the tasks of all processors among the first `n` whose score is at least `limit`.
pub open spec fn migration(counts: Seq<usize>, prios: Seq<i32>, blocked: Seq<bool>, limit: int, n: nat) -> int
    decreases n,
{
    if n == 0 {
        0
    } else {
        migration(counts, prios, blocked, limit, (n - 1) as nat) + (if score(counts, prios, blocked, n - 1) >= limit {
            tasks_on(counts, n - 1) * 5
        } else {
            0
        })
    }
}

/// Scores and what a migration costs stay within 64 bits.
pub open spec fn scores_fit(counts: Seq<usize>, prios: Seq<i32>, blocked: Seq<bool>) -> bool {
    &&& forall|c: int| 0 <= c < counts.len() ==> #[trigger] score_fits(counts, prios, blocked, c)
    &&& counts.len() > 0 ==> {
        let limit = score(counts, prios, blocked, best_cpu(counts, prios, blocked, counts.len())) - 100;
        &&& limit >= i64::MIN
        &&& forall|c: int|
            0 <= c < counts.len() && #[trigger] score(counts, prios, blocked, c) >= limit ==> i64::MIN <= tasks_on(
                counts,
                c,
            ) * 5 <= i64::MAX
        &&& forall|n: nat|
            n <= counts.len() ==> i64::MIN <= #[trigger] migration(counts, prios, blocked, limit, n) <= i64::MAX
    }
}

/// The processor to give the next task to: the first with the highest score.
pub fn compute_load_balance(task_counts: &[usize], priorities: &[i32], io_blocked: &[bool]) -> (r: usize)
    requires
        scores_fit(task_counts@, priorities@, io_blocked@),
    ensures
        r == (if task_counts@.len() == 0 {
            0
        } else {
            best_cpu(task_counts@, priorities@, io_blocked@, task_counts@.len())
        }),
{
    let ncpu: usize = task_counts.len();
    if ncpu == 0 {
        return 0;
    }
    let mut best: usize = 0;
    let mut best_score: i64 = score_at(task_counts, priorities, io_blocked, 0);
    let mut cpu: usize = 1;
    while cpu < ncpu
        invariant
            1 <= cpu <= ncpu == task_counts@.len(),
            forall|c: int| 0 <= c < ncpu ==> #[trigger] score_fits(task_counts@, priorities@, io_blocked@, c),
            best < cpu,
            best == best_cpu(task_counts@, priorities@, io_blocked@, cpu as nat),
            best_score == score(task_counts@, priorities@, io_blocked@, best as int),
        decreases ncpu - cpu,
    {
        let s: i64 = score_at(task_counts, priorities, io_blocked, cpu);
        if s > best_score {
            best = cpu;
            best_score = s;
        }
        cpu += 1;
    }
    best
}

fn score_at(task_counts: &[usize], priorities: &[i32], io_blocked: &[bool], cpu: usize) -> (s: i64)
    requires
        cpu < task_counts@.len(),
        score_fits(task_counts@, priorities@, io_blocked@, cpu as int),
    ensures
        s == score(task_counts@, priorities@, io_blocked@, cpu as int),
{
    proof {
        assert(i64::MIN <= score_part(task_counts@, priorities@, io_blocked@, cpu as int, 1) <= i64::MAX);
        assert(i64::MIN <= score_part(task_counts@, priorities@, io_blocked@, cpu as int, 2) <= i64::MAX);
        assert(i64::MIN <= score_part(task_counts@, priorities@, io_blocked@, cpu as int, 3) <= i64::MAX);
        assert(i64::MIN <= score_part(task_counts@, priorities@, io_blocked@, cpu as int, 4) <= i64::MAX);
        assert(i64::MIN <= score_part(task_counts@, priorities@, io_blocked@, cpu as int, 5) <= i64::MAX);
    }
    let tc: i64 = to_i64(task_counts[cpu] as u64);
    let pr: i64 = if cpu < priorities.len() {
        priorities[cpu] as i64
    } else {
        0
    };
    let blocked: bool = cpu < io_blocked.len() && io_blocked[cpu];
    let mut s: i64 = -tc * 100;
    s += pr * 10;
    if blocked {
        s -= 500;
    }
    if task_counts[cpu] > 0 {
        s += 50;
    }
    if cpu < task_counts.len() / 2 {
        s += 10;
    } else {
        s -= 10;
    }
    s
}

/// No processor has a higher score than the one chosen, and none before it one as high.
pub proof fn law_best_cpu(counts: Seq<usize>, prios: Seq<i32>, blocked: Seq<bool>, n: nat)
    requires
        0 < n <= counts.len(),
    ensures
        0 <= best_cpu(counts, prios, blocked, n) < n,
        forall|c: int|
            0 <= c < n ==> #[trigger] score(counts, prios, blocked, c) <= score(
                counts,
                prios,
                blocked,
                best_cpu(counts, prios, blocked, n),
            ),
        forall|c: int|
            0 <= c < best_cpu(counts, prios, blocked, n) ==> #[trigger] score(counts, prios, blocked, c) < score(
                counts,
                prios,
                blocked,
                best_cpu(counts, prios, blocked, n),
            ),
    decreases n,
{
    if n > 1 {
        law_best_cpu(counts, prios, blocked, (n - 1) as nat);
    }
}

/// The nicer a task is, the less of the time it gets.
pub proof fn law_weight_falls_with_nice(a: i32, b: i32)
    requires
        a <= b,
    ensures
        weight_of(a) >= weight_of(b) > 0,
{
}

/// The queue after `k` tasks were taken out.
pub open spec fn after_dequeues(r: RunView, k: nat) -> RunView
    decreases k,
{
    if k == 0 {
        r
    } else {
        let s = after_dequeues(r, (k - 1) as nat);
        RunView { queue: s.queue.skip(1), ..s }
    }
}

/// Tasks come out one after another in the order of their running times, each before all that
/// come later.
pub proof fn law_dequeues_ascend(r: RunView, i: nat, j: nat)
    requires
        r.wf(),
        i < j < r.queue.len(),
    ensures
        after_dequeues(r, i).queue[0].precedes(after_dequeues(r, j).queue[0]),
        after_dequeues(r, i).queue[0].vruntime <= after_dequeues(r, j).queue[0].vruntime,
{
    lemma_after_dequeues(r, i);
    lemma_after_dequeues(r, j);
}

proof fn lemma_after_dequeues(r: RunView, k: nat)
    requires
        k <= r.queue.len(),
    ensures
        after_dequeues(r, k).queue == r.queue.skip(k as int),
    decreases k,
{
    if k > 0 {
        lemma_after_dequeues(r, (k - 1) as nat);
        assert(r.queue.skip(k - 1).skip(1) =~= r.queue.skip(k as int));
    } else {
        assert(r.queue.skip(0) =~= r.queue);
    }
}

/// Whoever ran less comes first, and of two that ran as much the one with the lower number. Of two
/// that differ in either, one comes first, and never both.
pub proof fn law_who_comes_first(a: SchedulePolicy, b: SchedulePolicy, c: SchedulePolicy)
    ensures
        a.vruntime < b.vruntime ==> a.precedes(b),
        a.vruntime == b.vruntime && a.task_id < b.task_id ==> a.precedes(b),
        !(a.precedes(b) && b.precedes(a)),
        a.precedes(b) && b.precedes(c) ==> a.precedes(c),
        !a.precedes(b) && !b.precedes(a) ==> a.vruntime == b.vruntime && a.task_id == b.task_id,
{
}

/// The five shares, and where one ends and the next begins.
pub proof fn law_shares(nice: i32)
    ensures
        nice <= -11 ==> weight_of(nice) == 88761,
        -10 <= nice <= -1 ==> weight_of(nice) == 29154,
        nice == 0 ==> weight_of(nice) == 1024,
        1 <= nice <= 9 ==> weight_of(nice) == 335,
        nice >= 10 ==> weight_of(nice) == 110,
{
}

/// A nice value in its range stays as it is, and any other goes to the nearer end of the range.
pub proof fn law_nice_is_held_in_range(n: int)
    ensures
        -20 <= n <= 19 ==> nice_within(n) == n,
        n < -20 ==> nice_within(n) == -20,
        n > 19 ==> nice_within(n) == 19,
{
}

/// A task is in the queue if an entry has its number, and its entry is the first one that does.
pub proof fn law_entry_is_the_first(r: RunView, task_id: usize)
    ensures
        r.has(task_id) <==> exists|i: int| 0 <= i < r.queue.len() && (#[trigger] r.queue[i]).task_id == task_id,
        r.has(task_id) ==> r.entry(task_id).task_id == task_id && r.queue.contains(r.entry(task_id)),
        forall|i: int| 0 <= i < place_of(r.queue, task_id) ==> (#[trigger] r.queue[i]).task_id != task_id,
{
    lemma_place_of(r.queue, task_id);
    lemma_first_with(r.queue, task_id);
    if r.has(task_id) {
        assert(r.queue[place_of(r.queue, task_id)].task_id == task_id);
    }
}

proof fn lemma_first_with(q: Seq<SchedulePolicy>, task_id: usize)
    ensures
        place_of(q, task_id) < q.len() ==> q[place_of(q, task_id)].task_id == task_id,
        forall|i: int| 0 <= i < place_of(q, task_id) ==> (#[trigger] q[i]).task_id != task_id,
    decreases q.len(),
{
    if q.len() > 0 && q[0].task_id != task_id {
        let t = q.skip(1);
        lemma_first_with(t, task_id);
        lemma_place_of(t, task_id);
        assert forall|i: int| 0 <= i < place_of(q, task_id) implies (#[trigger] q[i]).task_id != task_id by {
            if i > 0 {
                assert(t[i - 1].task_id != task_id);
            }
        }
    }
}

/// A task that is put in is there, with its nice value, unless one with the same running time and
/// number is: then nothing changes. Nothing else comes in, and nothing goes.
pub proof fn law_enqueue_adds_one(q: Seq<SchedulePolicy>, p: SchedulePolicy, x: SchedulePolicy)
    requires
        in_order(q),
    ensures
        ({
            let there = exists|i: int|
                0 <= i < q.len() && (#[trigger] q[i]).task_id == p.task_id && q[i].vruntime == p.vruntime;
            &&& there ==> inserted(q, p) == q
            &&& !there ==> inserted(q, p).len() == q.len() + 1 && inserted(q, p).contains(p)
            &&& inserted(q, p).contains(x) ==> x == p || q.contains(x)
            &&& in_order(inserted(q, p))
        }),
{
    lemma_place_for(q, p);
    lemma_inserted_in_order(q, p);
    let i = place_for(q, p);
    let r = inserted(q, p);
    if exists|k: int| 0 <= k < q.len() && (#[trigger] q[k]).task_id == p.task_id && q[k].vruntime == p.vruntime {
        let k = choose|k: int| 0 <= k < q.len() && (#[trigger] q[k]).task_id == p.task_id && q[k].vruntime == p.vruntime;
        assert(i <= k) by {
            if k < i {
                assert(q[k].precedes(p));
            }
        }
        if i < k {
            assert(q[i].precedes(q[k]));
        }
    } else if i < q.len() && !p.precedes(q[i]) {
        assert(q[i].task_id == p.task_id && q[i].vruntime == p.vruntime);
    } else {
        assert(r[i] == p);
    }
    if r.contains(x) && r != q {
        let k = choose|k: int| 0 <= k < r.len() && r[k] == x;
        if k < i {
            assert(q[k] == x);
        } else if k > i {
            assert(q[k - 1] == x);
        }
    }
}

/// What speaks for a processor: a hundred points against it for every task it has, ten for every
/// step of priority, five hundred against one that waits for a device, fifty for one that has
/// work, and ten for or against it by the half it stands in.
pub proof fn law_score(counts: Seq<usize>, prios: Seq<i32>, blocked: Seq<bool>, cpu: int)
    requires
        0 <= cpu < counts.len(),
        counts[cpu] <= i64::MAX,
    ensures
        score(counts, prios, blocked, cpu) == -100 * counts[cpu] + (if cpu < prios.len() {
            10 * prios[cpu]
        } else {
            0
        }) - (if cpu < blocked.len() && blocked[cpu] {
            500int
        } else {
            0
        }) + (if counts[cpu] > 0 {
            50int
        } else {
            0
        }) + (if 2 * cpu + 1 < counts.len() {
            10int
        } else {
            -10
        }),
{
    assert(-(counts[cpu] as int) * 100 == -100 * counts[cpu]) by (nonlinear_arith);
}

} // verus!
