//! What holds of processes that wait for others.

use crate::bits::lemma_low_bits;
use crate::kernel::service::{asked_for, first_ended};
use crate::kernel::signal_laws::{lemma_group_members, lemma_places_filter, members};
use crate::kernel::state::KernelView;
use crate::kernel::sys_proc::ended;
use crate::kernel::syscall::{Call, SYS_WAIT4};
use crate::ordered::{ascending, lemma_ascending_exists, lemma_filter_ascends};
use crate::proc::table::{in_group, is_zombie, places, TableView};
use crate::proc::task::TaskView;
use vstd::prelude::*;

verus! {

/// A parent that waits for `target` means this child: any for -1, one of its own group for 0, the
/// one with that number, or one of the group with the negated number.
pub open spec fn meant(parent: TaskView, child: TaskView, target: isize) -> bool {
    ||| target == -1
    ||| target == 0 && child.pgid == parent.pgid
    ||| target > 0 && child.id == target
    ||| target < -1 && child.pgid == -target
}

/// The child at place `c` has ended and the parent means it.
pub open spec fn due(k: KernelView, parent: TaskView, c: usize, target: isize) -> bool {
    k.task(c).status is Some && meant(parent, k.task(c), target)
}

/// What a wait gives that found nothing: zeros if it was not to wait, and a refusal otherwise.
pub open spec fn empty_handed(options: usize) -> Result<(usize, usize), &'static str> {
    if options % 2 == 1 {
        Ok((0, 0))
    } else {
        Err("echild")
    }
}

proof fn lemma_first_ended(k: KernelView, parent: TaskView, ch: Seq<usize>, target: isize)
    requires
        target > i32::MIN,
    ensures
        match first_ended(k.tasks, parent, ch, target) {
            Some(c) => exists|j: int|
                0 <= j < ch.len() && #[trigger] ch[j] == c && due(k, parent, c, target) && forall|i: int|
                    0 <= i < j ==> !due(k, parent, #[trigger] ch[i], target),
            None => forall|i: int| 0 <= i < ch.len() ==> !due(k, parent, #[trigger] ch[i], target),
        },
    decreases ch.len(),
{
    if ch.len() > 0 {
        let c = k.tasks.tasks[ch[0] as int];
        assert(asked_for(parent, c, target) == meant(parent, c, target));
        assert(due(k, parent, ch[0], target) == (asked_for(parent, c, target) && c.status is Some));
        let rest = ch.skip(1);
        lemma_first_ended(k, parent, rest, target);
        if !due(k, parent, ch[0], target) {
            match first_ended(k.tasks, parent, rest, target) {
                Some(found) => {
                    let j = choose|j: int|
                        0 <= j < rest.len() && #[trigger] rest[j] == found && due(k, parent, found, target) && forall|
                            i: int,
                        |
                            0 <= i < j ==> !due(k, parent, #[trigger] rest[i], target);
                    assert(ch[j + 1] == found);
                    assert forall|i: int| 0 <= i < j + 1 implies !due(k, parent, #[trigger] ch[i], target) by {
                        if i > 0 {
                            assert(rest[i - 1] == ch[i]);
                        }
                    }
                },
                None => {
                    assert forall|i: int| 0 <= i < ch.len() implies !due(k, parent, #[trigger] ch[i], target) by {
                        if i > 0 {
                            assert(rest[i - 1] == ch[i]);
                        }
                    }
                },
            }
        }
    }
}

/// A wait gives the number and the exit code of the first child that has ended and that the
/// parent means, and that number is off the table afterwards, and no other. Without such a child
/// nothing changes, and the parent goes empty-handed.
pub proof fn law_wait_finds_the_child(k: KernelView, parent_id: usize, target: isize, options: usize)
    requires
        k.tasks.map.dom().contains(parent_id),
        target > i32::MIN,
    ensures
        ({
            let p = k.task(k.tasks.map[parent_id]);
            let (after, r) = k.wait_of(parent_id, target, options);
            let some_due = exists|j: int| 0 <= j < p.subtasks.len() && due(k, p, #[trigger] p.subtasks[j], target);
            &&& some_due ==> exists|j: int|
                {
                    let c = k.task(#[trigger] p.subtasks[j]);
                    &&& 0 <= j < p.subtasks.len()
                    &&& due(k, p, p.subtasks[j], target)
                    &&& forall|i: int| 0 <= i < j ==> !due(k, p, #[trigger] p.subtasks[i], target)
                    &&& r == Ok::<_, &'static str>((c.id, c.exit_code))
                    &&& after.tasks.map == k.tasks.map.remove(c.id)
                }
            &&& !some_due && p.subtasks.len() > 0 ==> r == empty_handed(options)
            &&& p.subtasks.len() == 0 ==> r == Err::<(usize, usize), _>("echild")
            &&& !some_due ==> after == k
            &&& after == (KernelView { tasks: after.tasks, ..k })
        }),
{
    let p = k.task(k.tasks.map[parent_id]);
    lemma_low_bits(options);
    lemma_first_ended(k, p, p.subtasks, target);
    match first_ended(k.tasks, p, p.subtasks, target) {
        Some(c) => {
            let j = choose|j: int|
                0 <= j < p.subtasks.len() && #[trigger] p.subtasks[j] == c && due(k, p, c, target) && forall|i: int|
                    0 <= i < j ==> !due(k, p, #[trigger] p.subtasks[i], target);
            let id = k.task(p.subtasks[j]).id;
            assert(k.tasks.reaped(id).map =~= k.tasks.map.remove(id));
        },
        None => {},
    }
}

/// A process can wait for a child by its number: once the child has ended, the wait gives that
/// number with the exit code of a child that has it, and no wait for a number gives another one.
pub proof fn law_wait_for_a_number(k: KernelView, parent_id: usize, n: isize, options: usize, j: int)
    requires
        k.tasks.map.dom().contains(parent_id),
        0 < n,
    ensures
        ({
            let p = k.task(k.tasks.map[parent_id]);
            let (after, r) = k.wait_of(parent_id, n, options);
            &&& 0 <= j < p.subtasks.len() && k.task(p.subtasks[j]).id == n && k.task(p.subtasks[j]).status is Some ==> {
                &&& r is Ok
                &&& r->Ok_0.0 == n
                &&& !after.tasks.map.dom().contains(n as usize)
                &&& exists|i: int|
                    0 <= i < p.subtasks.len() && k.task(#[trigger] p.subtasks[i]).id == n && r->Ok_0.1 == k.task(
                        p.subtasks[i],
                    ).exit_code
            }
            &&& r is Ok && r->Ok_0.0 != 0 ==> r->Ok_0.0 == n
        }),
{
    law_wait_finds_the_child(k, parent_id, n, options);
    let p = k.task(k.tasks.map[parent_id]);
    if 0 <= j < p.subtasks.len() && k.task(p.subtasks[j]).id == n && k.task(p.subtasks[j]).status is Some {
        assert(due(k, p, p.subtasks[j], n));
    }
}

/// Whoever is not registered cannot wait.
pub proof fn law_strangers_cannot_wait(k: KernelView, parent_id: usize, target: isize, options: usize)
    requires
        !k.tasks.map.dom().contains(parent_id),
    ensures
        k.wait_of(parent_id, target, options) == (k, Err::<(usize, usize), &'static str>("esrch")),
{
}

/// The call finds a process by its number, whether it has ended or not, and reaps nothing.
pub proof fn law_wait4_for_a_number(k: KernelView, c: Call)
    requires
        c.nr == SYS_WAIT4,
        c.a1 == 0,
        c.a3 == 0,
        0 < c.a0 <= isize::MAX,
    ensures
        k.syscall_of(c).0 == k,
        k.syscall_of(c).1 == (if !k.tasks.map.dom().contains(c.a0) {
            Err::<usize, &'static str>("echild")
        } else if k.task(k.tasks.map[c.a0]).status is Some {
            Ok(c.a0)
        } else if c.a2 % 2 == 1 {
            Ok(0)
        } else {
            Err("echild")
        }),
{
    lemma_low_bits(c.a2);
}

/// A call for anybody gives the lowest number of a registered process that has ended.
pub proof fn law_wait4_for_anybody(k: KernelView, c: Call)
    requires
        k.tasks.map.dom().finite(),
        c.nr == SYS_WAIT4,
        c.a1 == 0,
        c.a3 == 0,
        c.a0 == usize::MAX,
    ensures
        ({
            let (after, r) = k.syscall_of(c);
            let over = |id: usize| k.tasks.map.dom().contains(id) && k.task(k.tasks.map[id]).status is Some;
            &&& after == k
            &&& (exists|id: usize| #[trigger] over(id)) ==> r is Ok && over(r->Ok_0) && forall|id: usize| #[trigger]
                over(id) ==> r->Ok_0 <= id
            &&& !(exists|id: usize| #[trigger] over(id)) ==> r == (if c.a2 % 2 == 1 {
                Ok::<usize, &'static str>(0)
            } else {
                Err("echild")
            })
        }),
{
    lemma_low_bits(c.a2);
    let dom = k.tasks.map.dom();
    let all = ascending(dom);
    lemma_ascending_exists(dom);
    lemma_filter_ascends(all, is_zombie(k.tasks));
    let z = all.filter(is_zombie(k.tasks));
    let over = |id: usize| k.tasks.map.dom().contains(id) && k.task(k.tasks.map[id]).status is Some;
    assert forall|id: usize| #[trigger] over(id) <==> z.contains(id) by {
        assert(all.to_set().contains(id) == dom.contains(id));
        if over(id) {
            assert(is_zombie(k.tasks)(id));
        }
        if z.contains(id) {
            let i = choose|i: int| 0 <= i < z.len() && z[i] == id;
            assert(all.contains(z[i]));
        }
    }
    if z.len() > 0 {
        assert(z.contains(z[0]));
        assert(over(z[0]));
        assert forall|id: usize| #[trigger] over(id) implies z[0] <= id by {
            assert(z.contains(id));
            let i = choose|i: int| 0 <= i < z.len() && z[i] == id;
            if i > 0 {
                assert(z[0] < z[i]);
            }
        }
    } else {
        assert forall|id: usize| !(#[trigger] over(id)) by {
            assert(!z.contains(id));
        }
    }
}

/// Every registered process is registered under its own number.
pub open spec fn own_numbers(tab: TableView) -> bool {
    forall|id: usize| #[trigger] tab.map.dom().contains(id) ==> tab.tasks[tab.map[id] as int].id == id
}

/// A call for a group, where processes go by their own numbers, gives the lowest number of a
/// member that has ended, and a call for the caller's group the highest. A group without members
/// is refused.
pub proof fn law_wait4_for_a_group(k: KernelView, c: Call, g: i32)
    requires
        k.wf(),
        k.tasks.map.dom().finite(),
        own_numbers(k.tasks),
        c.nr == SYS_WAIT4,
        c.a1 == 0,
        c.a3 == 0,
        ({
            ||| g > 1 && c.a0 + g == usize::MAX + 1
            ||| c.a0 == 0 && (k.cpus[0] matches Some(t) && g == k.task(t).pgid)
        }),
    ensures
        ({
            let (after, r) = k.syscall_of(c);
            let over = |id: usize| members(k, g).contains(id) && k.task(k.tasks.map[id]).status is Some;
            &&& after == k
            &&& (exists|id: usize| #[trigger] over(id)) ==> r is Ok && over(r->Ok_0) && forall|id: usize| #[trigger]
                over(id) ==> if c.a0 == 0 {
                    id <= r->Ok_0
                } else {
                    r->Ok_0 <= id
                }
            &&& !(exists|id: usize| #[trigger] over(id)) ==> r == (if c.a2 % 2 == 1 && (c.a0 == 0 || members(
                k,
                g,
            ).len() > 0) {
                Ok::<usize, &'static str>(0)
            } else {
                Err("echild")
            })
        }),
{
    lemma_low_bits(c.a2);
    lemma_group_members(k, g);
    let dom = k.tasks.map.dom();
    let map = k.tasks.map;
    let all = ascending(dom);
    lemma_ascending_exists(dom);
    let at = in_group(k.tasks.tasks, g);
    let keep = |id: usize| at(map[id]);
    lemma_places_filter(all, map, at);
    lemma_filter_ascends(all, keep);
    let ours = all.filter(keep);
    let gone = ended(k.tasks);
    let kept = |id: usize| gone(map[id]);
    lemma_places_filter(ours, map, gone);
    lemma_filter_ascends(ours, kept);
    let z = ours.filter(kept);
    let found = k.group(g).filter(gone);
    assert(found == places(z, map));
    let over = |id: usize| members(k, g).contains(id) && k.task(map[id]).status is Some;
    assert forall|id: usize| #[trigger] over(id) <==> z.contains(id) by {
        assert(all.to_set().contains(id) == dom.contains(id));
        if over(id) {
            assert(dom.contains(id));
            assert(keep(id));
            assert(ours.contains(id));
            assert(k.tasks.tasks[map[id] as int].id == id);
            assert(kept(id));
        }
        if z.contains(id) {
            let i = choose|i: int| 0 <= i < z.len() && z[i] == id;
            assert(ours.contains(z[i]) && kept(z[i]));
            let n = choose|n: int| 0 <= n < ours.len() && ours[n] == id;
            assert(all.contains(ours[n]) && keep(ours[n]));
            assert(dom.contains(id));
            assert(k.tasks.tasks[map[id] as int].id == id);
        }
    }
    if z.len() > 0 {
        let first = z[0];
        let last = z[z.len() - 1];
        assert(z.contains(first) && z.contains(last));
        assert(over(first) && over(last));
        assert(found[0] == map[first]);
        assert(found.last() == map[last]);
        assert(dom.contains(first) && dom.contains(last));
        assert forall|id: usize| #[trigger] over(id) implies first <= id <= last by {
            assert(z.contains(id));
            let i = choose|i: int| 0 <= i < z.len() && z[i] == id;
            if i > 0 {
                assert(z[0] < z[i]);
            }
            if i < z.len() - 1 {
                assert(z[i] < z[z.len() - 1]);
            }
        }
        if k.group(g).len() == 0 {
            reveal(Seq::filter);
        }
    } else {
        assert forall|id: usize| !(#[trigger] over(id)) by {
            assert(!z.contains(id));
        }
    }
}

} // verus!
