//! Event bits with subscribers.

use crate::bits::lemma_set_and_clear;
use crate::sequences::{lemma_marked_push, marked};
use vstd::prelude::*;

verus! {

/// Names for the bits of an event word.
pub struct EventBitflag;

impl EventBitflag {
    pub const READABLE: u32 = 0x1;

    pub const WRITABLE: u32 = 0x2;

    pub const ERROR: u32 = 0x4;

    pub const CLOSED: u32 = 0x8;

    pub const PROC_QUIT: u32 = 0x400;

    pub const CHILD_QUIT: u32 = 0x800;

    pub const RECV_SIG: u32 = 0x1000;

    pub const SEMAPHORE_REMOVED: u32 = 0x10_0000;

    pub const SEMAPHORE_AVAILABLE: u32 = 0x20_0000;
}

/// Somebody who wants to hear of changes, and how many of those that are noted came before.
#[derive(Clone, Copy, Debug, PartialEq, Eq, Structural)]
pub struct Subscriber {
    pub id: usize,
    pub since: usize,
}

/// An event word and those who want to hear when it changes.
///
/// A subscriber hears of what changed after it came, and once it answers `true` it has heard
/// enough and is dropped. Where a bus is part of something larger, a change is first noted and
/// then delivered, both within the call that makes it.
pub struct EventBus {
    pub event: u32,
    pub callbacks: Vec<Subscriber>,
    pub notices: Vec<u32>,
}

/// What an event bus stands for.
#[verifier::ext_equal]
pub ghost struct EventBusView {
    pub event: u32,
    pub callbacks: Seq<Subscriber>,
    pub notices: Seq<u32>,
}

impl View for EventBus {
    type V = EventBusView;

    open spec fn view(&self) -> EventBusView {
        EventBusView { event: self.event, callbacks: self.callbacks@, notices: self.notices@ }
    }
}

impl EventBusView {
    pub open spec fn new() -> EventBusView {
        EventBusView { event: 0, callbacks: Seq::empty(), notices: Seq::empty() }
    }

    /// The bits of `rst` are cleared and then those of `s` set; subscribers hear of it if that
    /// made a difference.
    pub open spec fn change(self, rst: u32, s: u32) -> EventBusView {
        let event = (self.event & !rst) | s;
        EventBusView {
            event,
            callbacks: self.callbacks,
            notices: if event != self.event && self.callbacks.len() > 0 {
                self.notices.push(event)
            } else {
                self.notices
            },
        }
    }

    pub open spec fn set(self, s: u32) -> EventBusView {
        self.change(0, s)
    }

    pub open spec fn clear(self, s: u32) -> EventBusView {
        self.change(s, 0)
    }
}

/// `marks` says what the subscribers answered to note number `n`, the word `word`. Those who
/// came later were not asked.
pub open spec fn replied<F: Fn(usize, u32) -> bool>(
    run: F,
    subs: Seq<Subscriber>,
    n: nat,
    word: u32,
    marks: Seq<bool>,
) -> bool {
    &&& marks.len() == subs.len()
    &&& forall|i: int|
        0 <= i < subs.len() ==> if subs[i].since <= n {
            call_ensures(run, (subs[i].id, word), #[trigger] marks[i])
        } else {
            !marks[i]
        }
}

/// `left` are those of `subs` that want to hear more after they heard of every word in `words`.
pub open spec fn heard<F: Fn(usize, u32) -> bool>(
    run: F,
    subs: Seq<Subscriber>,
    words: Seq<u32>,
    left: Seq<Subscriber>,
) -> bool
    decreases words.len(),
{
    if words.len() == 0 {
        left == subs
    } else {
        let n = (words.len() - 1) as nat;
        exists|mid: Seq<Subscriber>, marks: Seq<bool>| #[trigger]
            replied(run, mid, n, words.last(), marks) && heard(run, subs, words.drop_last(), mid) && left == marked(
                mid,
                marks,
                false,
            )
    }
}

/// The subscribers once nothing is noted any more.
pub open spec fn caught_up(subs: Seq<Subscriber>) -> Seq<Subscriber> {
    subs.map_values(|c: Subscriber| Subscriber { id: c.id, since: 0 })
}

/// `after` is `before` once its subscribers have heard of every change that was noted.
pub open spec fn delivered<F: Fn(usize, u32) -> bool>(run: F, before: EventBusView, after: EventBusView) -> bool {
    &&& after.event == before.event
    &&& after.notices.len() == 0
    &&& exists|left: Seq<Subscriber>|
        heard(run, before.callbacks, before.notices, left) && after.callbacks == #[trigger] caught_up(left)
}

/// `after` is `before` once the bits of `rst` were cleared, those of `s` set, and the subscribers
/// told. On a bus with nothing left to tell, each is asked once with the new word if it differs,
/// and those that answer `true` are gone.
pub open spec fn changed<F: Fn(usize, u32) -> bool>(
    run: F,
    before: EventBusView,
    rst: u32,
    s: u32,
    after: EventBusView,
) -> bool {
    &&& after.settled()
    &&& delivered(run, before.change(rst, s), after)
    &&& before.settled() ==> ({
        let word = (before.event & !rst) | s;
        if word == before.event {
            after == before
        } else {
            exists|marks: Seq<bool>| #[trigger]
                asked(run, before.callbacks, word, marks) && after == (EventBusView {
                    event: word,
                    callbacks: marked(before.callbacks, marks, false),
                    notices: Seq::empty(),
                })
        }
    })
}

/// `marks` says what the subscribers answered when each was asked once with `word`.
pub open spec fn asked<F: Fn(usize, u32) -> bool>(run: F, subs: Seq<Subscriber>, word: u32, marks: Seq<bool>) -> bool {
    &&& marks.len() == subs.len()
    &&& forall|i: int| 0 <= i < subs.len() ==> call_ensures(run, (subs[i].id, word), #[trigger] marks[i])
}

impl EventBusView {
    /// Nobody wants to hear of anything.
    pub open spec fn quiet(self) -> bool {
        self.callbacks.len() == 0 && self.notices.len() == 0
    }

    /// No change is waiting to be heard of.
    pub open spec fn settled(self) -> bool {
        &&& self.notices.len() == 0
        &&& forall|i: int| 0 <= i < self.callbacks.len() ==> (#[trigger] self.callbacks[i]).since == 0
    }
}

impl Default for EventBus {
    fn default() -> (r: Self)
        ensures
            r@ == EventBusView::new(),
    {
        EventBus { event: 0, callbacks: Vec::new(), notices: Vec::new() }
    }
}

impl EventBus {
    pub fn make() -> (r: Self)
        ensures
            r@ == EventBusView::new(),
    {
        EventBus { event: 0, callbacks: Vec::new(), notices: Vec::new() }
    }

    /// Sets the bits of `s` and tells the subscribers if that made a difference.
    pub fn set<F: Fn(usize, u32) -> bool>(&mut self, s: u32, run: &F)
        requires
            forall|c: usize, e: u32| call_requires(*run, (c, e)),
        ensures
            changed(*run, old(self)@, 0, s, final(self)@),
    {
        self.change(0, s, run);
    }

    /// Clears the bits of `s` and tells the subscribers if that made a difference.
    pub fn clear<F: Fn(usize, u32) -> bool>(&mut self, s: u32, run: &F)
        requires
            forall|c: usize, e: u32| call_requires(*run, (c, e)),
        ensures
            changed(*run, old(self)@, s, 0, final(self)@),
    {
        self.change(s, 0, run);
    }

    /// Clears the bits of `rst`, sets those of `s`, and tells the subscribers. If the word
    /// changed, each is asked once with the new one, and those that answer `true` are gone.
    pub fn change<F: Fn(usize, u32) -> bool>(&mut self, rst: u32, s: u32, run: &F)
        requires
            forall|c: usize, e: u32| call_requires(*run, (c, e)),
        ensures
            changed(*run, old(self)@, rst, s, final(self)@),
    {
        let ghost before = self@;
        self.note(rst, s);
        let ghost noted = self@;
        self.deliver(run);
        proof {
            if before.settled() {
                law_change_reaches_all(*run, before, noted, self@, rst, s);
            }
        }
    }

    /// Clears the bits of `rst` and sets those of `s`. The change is noted, and whoever holds the
    /// bus delivers it before the call that made it ends.
    pub(crate) fn note(&mut self, rst: u32, s: u32)
        ensures
            final(self)@ == old(self)@.change(rst, s),
    {
        let orig: u32 = self.event;
        self.event = (self.event & !rst) | s;
        if self.event != orig && self.callbacks.len() > 0 {
            self.notices.push(self.event);
        }
    }

    pub fn sub(&mut self, callback: usize)
        ensures
            final(self)@ == (EventBusView {
                callbacks: old(self)@.callbacks.push(
                    Subscriber { id: callback, since: old(self)@.notices.len() as usize },
                ),
                ..old(self)@
            }),
    {
        let since: usize = self.notices.len();
        self.callbacks.push(Subscriber { id: callback, since });
    }

    pub fn callback_len(&self) -> (r: usize)
        ensures
            r == self@.callbacks.len(),
    {
        self.callbacks.len()
    }

    /// Tells the subscribers of every noted change, in order, and drops those that are content.
    pub(crate) fn deliver<F: Fn(usize, u32) -> bool>(&mut self, run: &F)
        requires
            forall|c: usize, e: u32| call_requires(*run, (c, e)),
        ensures
            delivered(*run, old(self)@, final(self)@),
            final(self)@.settled(),
    {
        let mut left: Vec<Subscriber> = Vec::new();
        std::mem::swap(&mut left, &mut self.callbacks);
        let mut i: usize = 0;
        assert(old(self)@.notices.take(0) =~= Seq::<u32>::empty());
        while i < self.notices.len()
            invariant
                forall|c: usize, e: u32| call_requires(*run, (c, e)),
                i <= self.notices@.len(),
                self.notices@ == old(self)@.notices,
                self.event == old(self).event,
                heard(*run, old(self)@.callbacks, old(self)@.notices.take(i as int), left@),
            decreases self.notices@.len() - i,
        {
            let word: u32 = self.notices[i];
            let ghost mid = left@;
            left = Self::discontent(run, &left, i, word);
            proof {
                let words = old(self)@.notices.take(i + 1);
                assert(words.drop_last() =~= old(self)@.notices.take(i as int));
                let marks = choose|marks: Seq<bool>| #[trigger]
                    replied(*run, mid, i as nat, word, marks) && left@ == marked(mid, marks, false);
                assert(replied(*run, mid, (words.len() - 1) as nat, words.last(), marks));
            }
            i += 1;
        }
        assert(old(self)@.notices.take(i as int) =~= old(self)@.notices);
        let mut fresh: Vec<Subscriber> = Vec::new();
        let mut j: usize = 0;
        while j < left.len()
            invariant
                j <= left@.len(),
                fresh@ == caught_up(left@.take(j as int)),
            decreases left@.len() - j,
        {
            fresh.push(Subscriber { id: left[j].id, since: 0 });
            j += 1;
            assert(fresh@ =~= caught_up(left@.take(j as int)));
        }
        assert(left@.take(j as int) =~= left@);
        self.callbacks = fresh;
        self.notices = Vec::new();
    }

    /// The subscribers that want to hear more after note number `n`, the word `word`.
    fn discontent<F: Fn(usize, u32) -> bool>(run: &F, subs: &Vec<Subscriber>, n: usize, word: u32) -> (kept: Vec<
        Subscriber,
    >)
        requires
            forall|c: usize, e: u32| call_requires(*run, (c, e)),
        ensures
            exists|marks: Seq<bool>| #[trigger]
                replied(*run, subs@, n as nat, word, marks) && kept@ == marked(subs@, marks, false),
    {
        let mut kept: Vec<Subscriber> = Vec::new();
        let ghost mut marks: Seq<bool> = Seq::empty();
        let mut j: usize = 0;
        while j < subs.len()
            invariant
                forall|c: usize, e: u32| call_requires(*run, (c, e)),
                j <= subs@.len(),
                replied(*run, subs@.take(j as int), n as nat, word, marks),
                kept@ == marked(subs@.take(j as int), marks, false),
            decreases subs@.len() - j,
        {
            let sub: Subscriber = subs[j];
            let content: bool = sub.since <= n && run(sub.id, word);
            proof {
                let front = subs@.take(j as int);
                let more = subs@.take(j + 1);
                let before = marks;
                lemma_marked_push(front, sub, marks, content, false);
                assert(more =~= front.push(sub));
                marks = marks.push(content);
                assert forall|i: int| 0 <= i < more.len() implies if more[i].since <= n {
                    call_ensures(*run, (more[i].id, word), #[trigger] marks[i])
                } else {
                    !marks[i]
                } by {
                    if i < j {
                        assert(before[i] == marks[i]);
                        assert(front[i] == more[i]);
                    }
                }
            }
            if !content {
                kept.push(sub);
            }
            j += 1;
        }
        assert(subs@.take(j as int) =~= subs@);
        kept
    }
}

/// A change that is delivered reaches everybody who subscribed: each is asked once with the new
/// word, and those that answer `true` are gone. Where nothing changed, nobody is asked.
pub proof fn law_change_reaches_all<F: Fn(usize, u32) -> bool>(
    run: F,
    before: EventBusView,
    noted: EventBusView,
    after: EventBusView,
    rst: u32,
    s: u32,
)
    requires
        before.settled(),
        noted == before.change(rst, s),
        delivered(run, noted, after),
    ensures
        noted.event == before.event ==> after == before,
        noted.event != before.event ==> exists|marks: Seq<bool>| #[trigger]
            asked(run, before.callbacks, noted.event, marks) && after == (EventBusView {
                event: noted.event,
                callbacks: marked(before.callbacks, marks, false),
                notices: Seq::empty(),
            }),
{
    let subs = before.callbacks;
    let left = choose|left: Seq<Subscriber>|
        heard(run, noted.callbacks, noted.notices, left) && after.callbacks == #[trigger] caught_up(left);
    assert(before.notices =~= Seq::empty());
    assert(after.notices =~= Seq::empty());
    if noted.event == before.event || subs.len() == 0 {
        assert(left == subs);
        assert(caught_up(subs) =~= subs);
        if noted.event != before.event {
            let marks = Seq::<bool>::empty();
            assert(asked(run, subs, noted.event, marks));
            assert(marked(subs, marks, false) =~= subs);
        }
    } else {
        let words = noted.notices;
        assert(words =~= seq![noted.event]);
        assert(words.drop_last() =~= Seq::empty());
        reveal_with_fuel(heard, 2);
        let (mid, marks) = choose|mid: Seq<Subscriber>, marks: Seq<bool>| #[trigger]
            replied(run, mid, 0, words.last(), marks) && heard(run, subs, words.drop_last(), mid) && left == marked(
                mid,
                marks,
                false,
            );
        assert(mid == subs);
        assert(asked(run, subs, noted.event, marks));
        lemma_marked_since(subs, marks);
        assert(caught_up(left) =~= left);
    }
}

proof fn lemma_marked_since(subs: Seq<Subscriber>, marks: Seq<bool>)
    requires
        forall|i: int| 0 <= i < subs.len() ==> (#[trigger] subs[i]).since == 0,
    ensures
        forall|i: int| 0 <= i < marked(subs, marks, false).len() ==> (#[trigger] marked(subs, marks, false)[i]).since == 0,
    decreases subs.len(),
{
    if subs.len() > 0 {
        let t = subs.drop_last();
        assert forall|i: int| 0 <= i < t.len() implies (#[trigger] t[i]).since == 0 by {
            assert(subs[i].since == 0);
        }
        lemma_marked_since(t, marks);
        assert(subs[subs.len() - 1].since == 0);
        let front = marked(t, marks, false);
        let all = marked(subs, marks, false);
        assert forall|i: int| 0 <= i < all.len() implies (#[trigger] all[i]).since == 0 by {
            if i < front.len() {
                assert(front[i].since == 0);
            }
        }
    }
}

/// Delivering late is delivering at once: whoever is told of two changes together was as well
/// told of each when it came.
pub proof fn law_late_delivery<F: Fn(usize, u32) -> bool>(
    run: F,
    b: EventBusView,
    first: (u32, u32),
    second: (u32, u32),
    after: EventBusView,
)
    requires
        b.settled(),
        delivered(run, b.change(first.0, first.1).change(second.0, second.1), after),
    ensures
        exists|mid: EventBusView| #[trigger]
            delivered(run, b.change(first.0, first.1), mid) && delivered(run, mid.change(second.0, second.1), after),
{
    let b1 = b.change(first.0, first.1);
    let b2 = b1.change(second.0, second.1);
    let subs = b.callbacks;
    let left = choose|left: Seq<Subscriber>|
        heard(run, b2.callbacks, b2.notices, left) && after.callbacks == #[trigger] caught_up(left);
    assert(b.notices =~= Seq::empty());
    assert(after.notices =~= Seq::empty());
    assert(caught_up(subs) =~= subs);
    if b1.event == b.event || subs.len() == 0 {
        let mid = EventBusView { event: b1.event, ..b };
        assert(heard(run, b1.callbacks, b1.notices, subs));
        assert(mid.callbacks == caught_up(subs));
        assert(delivered(run, b1, mid));
        assert(mid.change(second.0, second.1) == b2);
    } else if b2.event == b1.event {
        let same = after.change(second.0, second.1);
        assert(delivered(run, b1, after));
        assert(heard(run, same.callbacks, same.notices, after.callbacks));
        assert(caught_up(after.callbacks) =~= after.callbacks);
        assert(after.callbacks == caught_up(after.callbacks));
        assert(delivered(run, same, after));
    } else {
        let words = b2.notices;
        assert(words =~= seq![b1.event, b2.event]);
        assert(words.drop_last() =~= b1.notices);
        let (m1, marks) = choose|m1: Seq<Subscriber>, marks: Seq<bool>| #[trigger]
            replied(run, m1, 1, words.last(), marks) && heard(run, subs, words.drop_last(), m1) && left == marked(
                m1,
                marks,
                false,
            );
        assert(b1.notices.drop_last() =~= Seq::empty());
        reveal_with_fuel(heard, 2);
        let (m0, marks0) = choose|m0: Seq<Subscriber>, marks0: Seq<bool>| #[trigger]
            replied(run, m0, 0, b1.event, marks0) && heard(run, subs, b1.notices.drop_last(), m0) && m1 == marked(
                m0,
                marks0,
                false,
            );
        lemma_marked_since(subs, marks0);
        assert(caught_up(m1) =~= m1);
        let mid = EventBusView { event: b1.event, callbacks: m1, notices: Seq::empty() };
        assert(mid.callbacks == caught_up(m1));
        assert(delivered(run, b1, mid));
        let noted = mid.change(second.0, second.1);
        if m1.len() == 0 {
            assert(left =~= m1);
            assert(heard(run, noted.callbacks, noted.notices, left));
        } else {
            assert(noted.notices =~= seq![b2.event]);
            assert(noted.notices.drop_last() =~= Seq::empty());
            assert(replied(run, m1, 0, b2.event, marks));
            assert(heard(run, m1, noted.notices.drop_last(), m1));
            assert(replied(run, m1, (noted.notices.len() - 1) as nat, noted.notices.last(), marks));
            assert(heard(run, noted.callbacks, noted.notices, left));
        }
        assert(delivered(run, noted, after));
    }
}

/// On a bus that nobody listens to a delivery does nothing, and a change leaves nobody to tell.
pub proof fn law_quiet_bus<F: Fn(usize, u32) -> bool>(run: F, before: EventBusView, after: EventBusView)
    requires
        before.quiet(),
        delivered(run, before, after),
    ensures
        after == before,
        forall|rst: u32, s: u32| #[trigger] before.change(rst, s).quiet(),
{
    let left = choose|left: Seq<Subscriber>|
        heard(run, before.callbacks, before.notices, left) && after.callbacks == #[trigger] caught_up(left);
    assert(left.len() == 0);
    assert(after.callbacks =~= before.callbacks);
    assert(after.notices =~= before.notices);
}

/// The event word if one of the bits of `mask` is set; otherwise the caller has to wait.
pub fn wait_ev(bus: &EventBus, mask: u32) -> (r: Option<u32>)
    ensures
        r == (if bus.event & mask != 0 { Some(bus.event) } else { None }),
{
    if (bus.event & mask) != 0 {
        Some(bus.event)
    } else {
        None
    }
}

/// Bits that were set are seen by whoever waits for them, until they are cleared.
pub proof fn law_set_bits_are_seen(b: EventBusView, s: u32, mask: u32)
    ensures
        s & mask != 0 ==> b.set(s).event & mask != 0,
        b.set(s).clear(s).event & s == 0,
{
    let e = b.event;
    lemma_set_and_clear(e, s, mask);
    lemma_set_and_clear(e | s, s, mask);
}

/// Setting bits that are set tells nobody.
pub proof fn law_no_change_no_notice(b: EventBusView, s: u32)
    ensures
        b.set(s).set(s) == b.set(s),
{
    let e = b.event;
    lemma_set_and_clear(e, s, 0);
    lemma_set_and_clear(e | s, s, 0);
}

} // verus!
