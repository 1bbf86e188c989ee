//! Process groups.

use crate::proc::table::{all_signalled, places, tasks_delivered, TableView, TaskTable};
use crate::proc::task::Pgid;
use crate::sequences::lemma_filter_push;
use crate::word::{as_signed, to_signed};
use vstd::prelude::*;

verus! {

pub struct ProcessGroup {
    pub pgid: Pgid,
    pub leader: usize,
    pub members: Vec<usize>,
    pub session_id: usize,
    pub foreground: bool,
}

/// What a group stands for.
#[verifier::ext_equal]
pub ghost struct GroupView {
    pub pgid: Pgid,
    pub leader: usize,
    pub members: Seq<usize>,
    pub session_id: usize,
    pub foreground: bool,
}

impl View for ProcessGroup {
    type V = GroupView;

    open spec fn view(&self) -> GroupView {
        GroupView {
            pgid: self.pgid,
            leader: self.leader,
            members: self.members@,
            session_id: self.session_id,
            foreground: self.foreground,
        }
    }
}

pub open spec fn not_pid(pid: usize) -> spec_fn(usize) -> bool {
    |m: usize| m != pid
}

pub open spec fn registered_in(map: Map<usize, usize>) -> spec_fn(usize) -> bool {
    |m: usize| map.dom().contains(m)
}

impl GroupView {
    pub open spec fn joined(self, pid: usize) -> GroupView {
        if self.members.contains(pid) {
            self
        } else {
            GroupView { members: self.members.push(pid), ..self }
        }
    }

    pub open spec fn left(self, pid: usize) -> GroupView {
        GroupView { members: self.members.filter(not_pid(pid)), ..self }
    }

    /// Every member that is registered was sent a signal, as from the leader.
    pub open spec fn signalled(self, tab: TableView, signo: i32) -> TableView {
        TableView {
            tasks: all_signalled(
                tab.tasks,
                places(self.members.filter(registered_in(tab.map)), tab.map),
                signo,
                as_signed(self.leader),
            ),
            ..tab
        }
    }
}

impl ProcessGroup {
    /// A group with its leader as the only member.
    pub fn new(pgid: Pgid, leader: usize, session: usize) -> (r: Self)
        ensures
            r@ == (GroupView { pgid, leader, members: seq![leader], session_id: session, foreground: false }),
    {
        let mut members: Vec<usize> = Vec::new();
        members.push(leader);
        assert(members@ =~= seq![leader]);
        ProcessGroup { pgid, leader, members, session_id: session, foreground: false }
    }

    pub fn add_member(&mut self, pid: usize)
        ensures
            final(self)@ == old(self)@.joined(pid),
    {
        let mut i: usize = 0;
        while i < self.members.len()
            invariant
                i <= self.members@.len(),
                self@ == old(self)@,
                forall|k: int| 0 <= k < i ==> self.members@[k] != pid,
            decreases self.members@.len() - i,
        {
            if self.members[i] == pid {
                assert(self@.members[i as int] == pid);
                return ;
            }
            i += 1;
        }
        self.members.push(pid);
    }

    /// Takes a process out, and tells whether it was in.
    pub fn remove_member(&mut self, pid: usize) -> (r: bool)
        ensures
            final(self)@ == old(self)@.left(pid),
            r == (final(self)@.members.len() < old(self)@.members.len()),
    {
        let ghost s = self.members@;
        let before: usize = self.members.len();
        let mut rest: Vec<usize> = Vec::new();
        let mut i: usize = 0;
        proof {
            reveal(Seq::filter);
            assert(s.take(0).filter(not_pid(pid)) =~= Seq::empty());
        }
        while i < self.members.len()
            invariant
                i <= s.len(),
                s == self.members@,
                rest@ == s.take(i as int).filter(not_pid(pid)),
            decreases s.len() - i,
        {
            let m: usize = self.members[i];
            proof {
                assert(s.take(i as int).push(m) =~= s.take(i + 1));
                lemma_filter_push(s.take(i as int), m, not_pid(pid));
            }
            if m != pid {
                rest.push(m);
            }
            i += 1;
        }
        assert(s.take(i as int) =~= s);
        self.members = rest;
        self.members.len() < before
    }

    pub fn is_empty(&self) -> (r: bool)
        ensures
            r == (self@.members.len() == 0),
    {
        self.members.len() == 0
    }

    pub fn member_count(&self) -> (r: usize)
        ensures
            r == self@.members.len(),
    {
        self.members.len()
    }

    pub fn is_leader(&self, pid: usize) -> (r: bool)
        ensures
            r == (self@.leader == pid),
    {
        self.leader == pid
    }

    pub fn set_foreground(&mut self, fg: bool)
        ensures
            final(self)@ == (GroupView { foreground: fg, ..old(self)@ }),
    {
        self.foreground = fg;
    }

    pub fn is_foreground(&self) -> (r: bool)
        ensures
            r == self@.foreground,
    {
        self.foreground
    }

    /// Sends a signal, as from the leader, to every member that is registered.
    pub fn broadcast_signal<F: Fn(usize, u32) -> bool>(&self, signo: i32, tasks: &mut TaskTable, run: &F)
        requires
            old(tasks)@.linked(),
            forall|c: usize, e: u32| call_requires(*run, (c, e)),
        ensures
            tasks_delivered(*run, self@.signalled(old(tasks)@, signo), final(tasks)@),
    {
        let ghost map = tasks@.map;
        let ghost s = self.members@;
        let mut ts: Vec<usize> = Vec::new();
        let mut i: usize = 0;
        proof {
            reveal(Seq::filter);
            assert(s.take(0).filter(registered_in(map)) =~= Seq::empty());
            assert(ts@ =~= places(s.take(0).filter(registered_in(map)), map));
        }
        while i < self.members.len()
            invariant
                i <= s.len(),
                s == self.members@,
                map == tasks@.map,
                tasks@ == old(tasks)@,
                tasks@.linked(),
                ts@ == places(s.take(i as int).filter(registered_in(map)), map),
                forall|k: int| 0 <= k < ts@.len() ==> (#[trigger] ts@[k]) < tasks@.tasks.len(),
            decreases s.len() - i,
        {
            let m: usize = self.members[i];
            proof {
                let front = s.take(i as int).filter(registered_in(map));
                assert(s.take(i as int).push(m) =~= s.take(i + 1));
                lemma_filter_push(s.take(i as int), m, registered_in(map));
                assert(places(front.push(m), map) =~= places(front, map).push(map[m]));
            }
            if let Some(t) = tasks.find(m) {
                ts.push(t);
            }
            i += 1;
        }
        assert(s.take(i as int) =~= s);
        tasks.signal_all(&ts, signo, to_signed(self.leader));
        tasks.deliver(run);
    }
}

/// Joining twice is joining once, and whoever left is not a member.
pub proof fn law_membership(g: GroupView, pid: usize, other: usize)
    requires
        other != pid,
    ensures
        g.joined(pid).members.contains(pid),
        g.joined(pid).joined(pid) == g.joined(pid),
        !g.left(pid).members.contains(pid),
        g.left(pid).members.contains(other) == g.members.contains(other),
{
    if !g.members.contains(pid) {
        assert(g.joined(pid).members[g.members.len() as int] == pid);
    }
    let m = g.members;
    let f = m.filter(not_pid(pid));
    if f.contains(pid) {
        let i = choose|i: int| 0 <= i < f.len() && f[i] == pid;
        m.lemma_filter_pred(not_pid(pid), i);
    }
    if m.contains(other) {
        let i = choose|i: int| 0 <= i < m.len() && m[i] == other;
        m.lemma_filter_contains(not_pid(pid), i);
    }
    if f.contains(other) {
        m.lemma_filter_contains_rev(not_pid(pid), other);
    }
}

} // verus!
