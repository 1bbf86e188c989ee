//! What holds of signals that are sent, masked and waited for.

use crate::bits::lemma_set_and_clear;
use crate::kernel::state::KernelView;
use crate::kernel::sys_proc::ordinary;
use crate::kernel::syscall::{Call, SYS_KILL};
use crate::ordered::{ascending, lemma_ascending_exists};
use crate::proc::table::{all_signalled, group_signalled, in_group, is_active, places, TableView};
use crate::proc::task::TaskView;
use crate::sequences::{lemma_filter_counts, lemma_filter_push};
use vstd::prelude::*;

verus! {

/// The numbers of the registered processes that belong to group `g`.
pub open spec fn members(k: KernelView, g: i32) -> Set<usize> {
    k.tasks.map.dom().filter(|id: usize| k.task(k.tasks.map[id]).pgid == g)
}

/// The numbers above 1 of the registered processes that have not ended.
pub open spec fn bystanders(k: KernelView) -> Set<usize> {
    k.tasks.map.dom().filter(|id: usize| id > 1 && k.task(k.tasks.map[id]).status is None)
}

/// Some number of `ids` stands for process `t`.
pub open spec fn among(k: KernelView, ids: Set<usize>, t: usize) -> bool {
    exists|id: usize| #[trigger] ids.contains(id) && k.tasks.map[id] == t
}

/// The process has the signal queued. It is queued behind the others if it was not there, and
/// nothing else happened to the process but that those who wait for one heard of it.
pub open spec fn got_signal(before: TaskView, after: TaskView, signo: i32, sender: isize) -> bool {
    &&& after == (TaskView { sig_queue: after.sig_queue, event: after.event, ..before })
    &&& after.sig_queue.contains((signo, sender))
    &&& if before.sig_queue.contains((signo, sender)) {
        after == before
    } else {
        &&& after.sig_queue == before.sig_queue.push((signo, sender))
        &&& after.event.event == before.event.event | 0x1000
    }
}

/// `after` is `k` once the processes with the numbers in `ids` were sent a signal, and nothing
/// else happened.
pub open spec fn signals_sent(k: KernelView, after: KernelView, ids: Set<usize>, sig: usize) -> bool {
    &&& after.tasks.tasks.len() == k.tasks.tasks.len()
    &&& forall|id: usize| #[trigger]
        ids.contains(id) ==> got_signal(k.task(k.tasks.map[id]), after.task(k.tasks.map[id]), sig as i32, (-1) as isize)
    &&& forall|t: usize|
        t < k.tasks.tasks.len() && !among(k, ids, t) ==> #[trigger] after.task(t) == k.task(t)
    &&& after.tasks.map == k.tasks.map
    &&& after.tasks.seq == k.tasks.seq
    &&& after.tasks.root == k.tasks.root
    &&& after == (KernelView { tasks: after.tasks, ..k })
}

/// Whoever is sent a signal has it queued, once, behind what was queued before.
pub proof fn law_signal_is_queued(t: TaskView, signo: i32, sender: isize)
    ensures
        got_signal(t, t.signalled(signo, sender), signo, sender),
{
    let u = t.signalled(signo, sender);
    let e = t.event.event;
    lemma_set_and_clear(e, 0x1000, 0);
    if t.has_queued(signo, sender) {
        let i = choose|i: int| 0 <= i < t.sig_queue.len() && #[trigger] t.sig_queue[i] == (signo, sender);
        assert(t.sig_queue[i] == (signo, sender));
    } else {
        assert(u.sig_queue[t.sig_queue.len() as int] == (signo, sender));
        if t.sig_queue.contains((signo, sender)) {
            let i = choose|i: int| 0 <= i < t.sig_queue.len() && t.sig_queue[i] == (signo, sender);
            assert(t.sig_queue[i] == (signo, sender));
        }
    }
}

/// Sending a signal to a row of processes gives it to each of them and to nobody else.
pub proof fn lemma_all_got(tasks: Seq<TaskView>, ts: Seq<usize>, signo: i32, sender: isize)
    requires
        forall|i: int| 0 <= i < ts.len() ==> (#[trigger] ts[i]) < tasks.len(),
    ensures
        all_signalled(tasks, ts, signo, sender).len() == tasks.len(),
        forall|t: usize|
            t < tasks.len() ==> if ts.contains(t) {
                got_signal(tasks[t as int], #[trigger] all_signalled(tasks, ts, signo, sender)[t as int], signo, sender)
            } else {
                all_signalled(tasks, ts, signo, sender)[t as int] == tasks[t as int]
            },
    decreases ts.len(),
{
    if ts.len() > 0 {
        let front = ts.drop_last();
        let last = ts[ts.len() - 1];
        lemma_all_got(tasks, front, signo, sender);
        let mid = all_signalled(tasks, front, signo, sender);
        let all = all_signalled(tasks, ts, signo, sender);
        law_signal_is_queued(mid[last as int], signo, sender);
        assert forall|t: usize| t < tasks.len() implies if ts.contains(t) {
            got_signal(tasks[t as int], #[trigger] all[t as int], signo, sender)
        } else {
            all[t as int] == tasks[t as int]
        } by {
            if ts.contains(t) && t != last {
                let i = choose|i: int| 0 <= i < ts.len() && ts[i] == t;
                assert(front[i] == t);
            }
            if front.contains(t) {
                let i = choose|i: int| 0 <= i < front.len() && front[i] == t;
                assert(ts[i] == t);
            }
        }
    }
}

/// The places of the numbers that satisfy `keep`, and the places that are kept, are the same.
pub proof fn lemma_places_filter(ids: Seq<usize>, map: Map<usize, usize>, at: spec_fn(usize) -> bool)
    ensures
        places(ids, map).filter(at) == places(ids.filter(|id: usize| at(map[id])), map),
    decreases ids.len(),
{
    let keep = |id: usize| at(map[id]);
    reveal(Seq::filter);
    if ids.len() == 0 {
        assert(places(ids, map) =~= Seq::empty());
        assert(places(ids.filter(keep), map) =~= Seq::empty());
    } else {
        let front = ids.drop_last();
        let last = ids.last();
        lemma_places_filter(front, map, at);
        assert(ids =~= front.push(last));
        assert(places(ids, map) =~= places(front, map).push(map[last]));
        lemma_filter_push(places(front, map), map[last], at);
        lemma_filter_push(front, last, keep);
        assert(places(front.filter(keep).push(last), map) =~= places(front.filter(keep), map).push(map[last]));
    }
}

/// The processes of a group, listed, are its members.
pub proof fn lemma_group_members(k: KernelView, g: i32)
    requires
        k.wf(),
        k.tasks.map.dom().finite(),
    ensures
        k.group(g).len() == members(k, g).len(),
        members(k, g).finite(),
        forall|t: usize| #[trigger] k.group(g).contains(t) <==> among(k, members(k, g), t),
        forall|i: int| 0 <= i < k.group(g).len() ==> (#[trigger] k.group(g)[i]) < k.tasks.tasks.len(),
{
    let dom = k.tasks.map.dom();
    let ids = ascending(dom);
    let at = in_group(k.tasks.tasks, g);
    let keep = |id: usize| at(k.tasks.map[id]);
    lemma_ascending_exists(dom);
    lemma_no_duplicates(ids);
    lemma_filter_counts(ids, keep);
    lemma_places_filter(ids, k.tasks.map, at);
    assert(ids.to_set().filter(keep) =~= members(k, g));
    let kept = ids.filter(keep);
    assert(k.group(g) == places(kept, k.tasks.map));
    lemma_places(k, kept, members(k, g));
}

/// The places of the given registered numbers.
proof fn lemma_places(k: KernelView, ids: Seq<usize>, set: Set<usize>)
    requires
        k.wf(),
        forall|id: usize| #[trigger] ids.contains(id) <==> set.contains(id),
        forall|id: usize| #[trigger] set.contains(id) ==> k.tasks.map.dom().contains(id),
    ensures
        forall|t: usize| #[trigger] places(ids, k.tasks.map).contains(t) <==> among(k, set, t),
        forall|i: int| 0 <= i < ids.len() ==> (#[trigger] places(ids, k.tasks.map)[i]) < k.tasks.tasks.len(),
{
    let ts = places(ids, k.tasks.map);
    assert forall|t: usize| #[trigger] ts.contains(t) <==> among(k, set, t) by {
        if ts.contains(t) {
            let i = choose|i: int| 0 <= i < ts.len() && ts[i] == t;
            assert(ids.contains(ids[i]));
            assert(set.contains(ids[i]));
        }
        if among(k, set, t) {
            let id = choose|id: usize| #[trigger] set.contains(id) && k.tasks.map[id] == t;
            assert(ids.contains(id));
            let i = choose|i: int| 0 <= i < ids.len() && ids[i] == id;
            assert(ts[i] == t);
        }
    }
    assert forall|i: int| 0 <= i < ids.len() implies (#[trigger] ts[i]) < k.tasks.tasks.len() by {
        assert(ids.contains(ids[i]));
        assert(set.contains(ids[i]));
        assert(k.tasks.map.dom().contains(ids[i]));
    }
}

pub proof fn lemma_no_duplicates(s: Seq<usize>)
    requires
        crate::ordered::strictly_ascending(s),
    ensures
        s.no_duplicates(),
{
    assert forall|i: int, j: int| 0 <= i < s.len() && 0 <= j < s.len() && i != j implies s[i] != s[j] by {
        if i < j {
            assert(s[i] < s[j]);
        } else {
            assert(s[j] < s[i]);
        }
    }
}

proof fn lemma_sent(k: KernelView, ts: Seq<usize>, ids: Set<usize>, sig: usize)
    requires
        k.wf(),
        forall|id: usize| #[trigger] ids.contains(id) ==> k.tasks.map.dom().contains(id),
        forall|t: usize| #[trigger] ts.contains(t) <==> among(k, ids, t),
        forall|i: int| 0 <= i < ts.len() ==> (#[trigger] ts[i]) < k.tasks.tasks.len(),
    ensures
        signals_sent(k, k.signalled(ts, sig), ids, sig),
{
    let after = k.signalled(ts, sig);
    lemma_all_got(k.tasks.tasks, ts, sig as i32, (-1) as isize);
    assert forall|id: usize| #[trigger] ids.contains(id) implies got_signal(
        k.task(k.tasks.map[id]),
        after.task(k.tasks.map[id]),
        sig as i32,
        (-1) as isize,
    ) by {
        let t = k.tasks.map[id];
        assert(k.tasks.map.dom().contains(id));
        assert(among(k, ids, t));
        assert(ts.contains(t));
        assert(after.tasks.tasks[t as int] == all_signalled(k.tasks.tasks, ts, sig as i32, (-1) as isize)[t as int]);
    }
    assert forall|t: usize| t < k.tasks.tasks.len() && !among(k, ids, t) implies #[trigger] after.task(t) == k.task(
        t,
    ) by {
        assert(!ts.contains(t));
        assert(after.tasks.tasks[t as int] == all_signalled(k.tasks.tasks, ts, sig as i32, (-1) as isize)[t as int]);
    }
}

/// A kill of a negative number below -1 sends the signal to every registered process of the group
/// with the negated number, and a kill of 0 to those of the caller's group, and to nobody else.
/// The result is how many they are. A group that nobody belongs to is refused.
pub proof fn law_kill_signals_the_group(k: KernelView, c: Call, g: i32)
    requires
        k.wf(),
        k.tasks.map.dom().finite(),
        c.nr == SYS_KILL,
        c.a1 <= k.platform.nsig,
        ({
            ||| g > 1 && c.a0 + g == usize::MAX + 1
            ||| c.a0 == 0 && c.a1 != 9 && c.a1 != 19 && (k.cpus[0] matches Some(t) && g == k.task(t).pgid)
        }),
    ensures
        ({
            let (after, r) = k.syscall_of(c);
            &&& signals_sent(k, after, members(k, g), c.a1)
            &&& r == (if members(k, g).len() == 0 && c.a0 != 0 {
                Err::<usize, &'static str>("esrch")
            } else {
                Ok(members(k, g).len() as usize)
            })
        }),
{
    lemma_group_members(k, g);
    lemma_sent(k, k.group(g), members(k, g), c.a1);
}

/// A kill of -1 sends the signal to every registered process that has not ended but the first
/// two numbers, and returns how many they are. If there is none it is refused.
pub proof fn law_kill_signals_everybody(k: KernelView, c: Call)
    requires
        k.wf(),
        k.tasks.map.dom().finite(),
        c.nr == SYS_KILL,
        c.a1 <= k.platform.nsig,
        c.a1 != 9,
        c.a1 != 19,
        c.a0 == usize::MAX,
    ensures
        ({
            let (after, r) = k.syscall_of(c);
            &&& signals_sent(k, after, bystanders(k), c.a1)
            &&& r == (if bystanders(k).len() == 0 {
                Err::<usize, &'static str>("esrch")
            } else {
                Ok(bystanders(k).len() as usize)
            })
        }),
{
    let dom = k.tasks.map.dom();
    let all = ascending(dom);
    lemma_ascending_exists(dom);
    lemma_no_duplicates(all);
    lemma_filter_counts(all, is_active(k.tasks));
    let live = all.filter(is_active(k.tasks));
    lemma_filter_counts(live, ordinary());
    let ids = live.filter(ordinary());
    assert(live.to_set().filter(ordinary()) =~= bystanders(k)) by {
        assert forall|id: usize| live.to_set().filter(ordinary()).contains(id) <==> bystanders(k).contains(id) by {
            assert(all.to_set().contains(id) == dom.contains(id));
            assert(live.contains(id) <==> all.contains(id) && is_active(k.tasks)(id));
        }
    }
    assert forall|id: usize| #[trigger] ids.contains(id) <==> bystanders(k).contains(id) by {
        assert(live.to_set().filter(ordinary()).contains(id) <==> live.contains(id) && ordinary()(id));
    }
    lemma_places(k, ids, bystanders(k));
    lemma_sent(k, places(ids, k.tasks.map), bystanders(k), c.a1);
}

/// A kill of a positive number sends the signal to the registered process with that number and
/// to nobody else. One that has ended can only be asked for, with signal 0.
pub proof fn law_kill_signals_one(k: KernelView, c: Call)
    requires
        k.wf(),
        c.nr == SYS_KILL,
        c.a1 <= k.platform.nsig,
        0 < c.a0 <= isize::MAX,
        c.a0 == 1 ==> c.a1 != 9 && c.a1 != 19,
    ensures
        ({
            let (after, r) = k.syscall_of(c);
            let found = k.tasks.map.dom().contains(c.a0) && (k.task(k.tasks.map[c.a0]).status is None || c.a1 == 0);
            &&& r == (if found {
                Ok::<usize, &'static str>(0)
            } else {
                Err("esrch")
            })
            &&& found ==> signals_sent(k, after, set![c.a0], c.a1)
            &&& !found ==> after == k
        }),
{
    if k.tasks.map.dom().contains(c.a0) {
        let t = k.tasks.map[c.a0];
        law_signal_is_queued(k.task(t), c.a1 as i32, (-1) as isize);
        let after = k.syscall_of(c).0;
        assert forall|u: usize| u < k.tasks.tasks.len() && !among(k, set![c.a0], u) implies #[trigger] after.task(u)
            == k.task(u) by {
            assert(set![c.a0].contains(c.a0));
        }
    }
}

/// A signal with a number that the machine does not have is refused, and so are the two that
/// cannot be masked where they would go to the first process, to the caller's group or to
/// everybody.
pub proof fn law_kill_refuses(k: KernelView, c: Call)
    requires
        c.nr == SYS_KILL,
        c.a1 > k.platform.nsig || ((c.a1 == 9 || c.a1 == 19) && (c.a0 <= 1 || c.a0 == usize::MAX)),
    ensures
        k.syscall_of(c) == (k, Err::<usize, &'static str>(
            if c.a1 > k.platform.nsig {
                "einval"
            } else {
                "eperm"
            },
        )),
{
}

/// A signal to a group reaches every registered process of it, and nobody else.
pub proof fn law_signal_to_a_group(k: KernelView, g: i32, signo: i32, id: usize, t: usize)
    requires
        k.wf(),
        k.tasks.map.dom().finite(),
        t < k.tasks.tasks.len(),
    ensures
        ({
            let after = group_signalled(k.tasks, g, signo);
            &&& members(k, g).contains(id) ==> got_signal(
                k.task(k.tasks.map[id]),
                after.tasks[k.tasks.map[id] as int],
                signo,
                (-1) as isize,
            )
            &&& !among(k, members(k, g), t) ==> after.tasks[t as int] == k.task(t)
            &&& after == (TableView { tasks: after.tasks, ..k.tasks })
        }),
{
    lemma_group_members(k, g);
    lemma_all_got(k.tasks.tasks, k.group(g), signo, (-1) as isize);
    if members(k, g).contains(id) {
        assert(among(k, members(k, g), k.tasks.map[id]));
        assert(k.group(g).contains(k.tasks.map[id]));
    }
}

} // verus!
