use chaos_kernel::sync::channel::{Channel, Received};
use chaos_kernel::sync::event::{wait_ev, EventBitflag, EventBus};
use chaos_kernel::sync::futex::{FutexBucket, FutexTable};
use chaos_kernel::sync::lock::{KernelLock, Spin};
use chaos_kernel::sync::semaphore::Semaphore;
use chaos_kernel::sync::waitqueue::{Parking, SyncQueue, WaitQueue};

/// Whether a thread gets into a lock that it tries to enter so many times.
fn enters_within(lock: &mut KernelLock, id: usize, thread: usize, tries: usize) -> bool {
    for _ in 0..tries {
        if lock.try_enter(id, thread) {
            return true;
        }
    }
    false
}

#[test]
fn adv_bkl_release_reacquire_race() {
    let mut gkl = KernelLock::new();
    gkl.enter(2001, 1);
    gkl.enter(2001, 1);
    assert_eq!(gkl.level(), 2);

    gkl.leave();
    assert_eq!(gkl.level(), 1);
    assert!(gkl.held());

    let done = enters_within(&mut gkl, 2002, 2, 1000);

    assert!(!done, "deadlock expected: leave() cleared holder but not flag at depth>1");

    gkl.leave();
    assert!(!gkl.held());
    assert!(enters_within(&mut gkl, 2002, 2, 1));
    assert_eq!(gkl.owner(), 2002);
}

#[test]
fn lock_keeps_its_last_number() {
    let mut l = KernelLock::new();
    l.leave();
    assert_eq!(l.level(), 0);
    l.enter(7, 3);
    l.enter(8, 3);
    assert_eq!(l.owner(), 8);
    l.leave();
    assert_eq!((l.owner(), l.level()), (8, 1));
    l.leave();
    assert_eq!((l.owner(), l.level(), l.held()), (0, 0, false));
}

#[test]
fn spin_is_taken_once() {
    let mut s = Spin::new();
    assert!(!s.is_held());
    s.acquire();
    assert!(!s.try_acquire());
    s.release();
    assert!(s.try_acquire());
    assert!(s.is_held());
}

fn ids(b: &EventBus) -> Vec<usize> {
    b.callbacks.iter().map(|c| c.id).collect()
}

fn deaf(_id: usize, _word: u32) -> bool {
    false
}

#[test]
fn subscribers_hear_of_changes_and_leave_when_content() {
    let mut bus = EventBus::default();
    bus.sub(1);
    bus.sub(2);
    bus.sub(3);
    bus.set(EventBitflag::READABLE, &|id: usize, word: u32| id != 2 && word == EventBitflag::READABLE);
    assert_eq!(ids(&bus), vec![2]);
    bus.set(EventBitflag::READABLE, &|_id: usize, _word: u32| true);
    assert_eq!(bus.callback_len(), 1);
    assert_eq!(wait_ev(&bus, EventBitflag::READABLE), Some(1));
    assert_eq!(wait_ev(&bus, EventBitflag::CLOSED), None);
    bus.clear(EventBitflag::READABLE, &deaf);
    assert_eq!((bus.event, bus.callback_len()), (0, 1));
    bus.change(0, EventBitflag::ERROR | EventBitflag::CLOSED, &|id: usize, word: u32| id == 2 && word == 0xC);
    assert_eq!((bus.event, bus.callback_len(), bus.notices.len()), (0xC, 0, 0));
}

#[test]
fn a_change_is_delivered_at_once() {
    let mut bus = EventBus::make();
    for id in 1..4 {
        bus.sub(id);
    }
    let heard = std::cell::RefCell::new(Vec::new());
    bus.change(0, 6, &|id: usize, word: u32| {
        heard.borrow_mut().push((id, word));
        id == 2 && word == 6
    });
    assert_eq!(heard.into_inner(), vec![(1, 6), (2, 6), (3, 6)]);
    assert_eq!((bus.event, ids(&bus), bus.notices.len()), (6, vec![1, 3], 0));
    bus.change(0, 6, &|_id: usize, _word: u32| true);
    assert_eq!(ids(&bus), vec![1, 3]);
    bus.change(4, 1, &|id: usize, word: u32| word == 3 && id == 1);
    assert_eq!((bus.event, ids(&bus)), (3, vec![3]));
}

#[test]
fn semaphore_tells_of_its_events() {
    let mut s = Semaphore::new(0);
    s.bus.sub(8);
    s.bus.sub(9);
    s.release(&|id: usize, word: u32| id == 8 && word == EventBitflag::SEMAPHORE_AVAILABLE);
    assert_eq!((s.get_ncnt(), s.get_val()), (1, 1));
    assert_eq!(s.try_acquire(&|id: usize, word: u32| id == 9 && word == 0), Ok(true));
    assert_eq!(s.get_ncnt(), 0);
    s.bus.sub(7);
    s.remove(&|id: usize, word: u32| id == 7 && word == EventBitflag::SEMAPHORE_REMOVED);
    assert_eq!(s.get_ncnt(), 0);
}

#[test]
fn semaphore_counts() {
    let mut s = Semaphore::numbered(1, 40);
    assert_eq!(s.try_acquire(&deaf), Ok(true));
    assert_eq!(s.try_acquire(&deaf), Ok(false));
    s.release(&deaf);
    assert_eq!(s.bus.event, EventBitflag::SEMAPHORE_AVAILABLE);
    let g = match s.access(&deaf) {
        Ok(g) => g,
        Err(_) => panic!("free"),
    };
    assert_eq!((s.get_val(), s.bus.event, g.of), (0, 0, 40));
    g.close(&mut s, &deaf);
    assert_eq!(s.get_val(), 1);
    assert_eq!(s.acquire_spin(&deaf), Ok(()));
    s.set_val(5, &deaf);
    s.set_pid(9);
    assert_eq!((s.get_val(), s.get_pid(), s.get_ncnt()), (5, 9, 0));
    s.remove(&deaf);
    assert_eq!(s.try_acquire(&deaf), Err("removed"));
    assert_eq!(s.acquire_spin(&deaf), Err("removed"));
    assert!(s.access(&deaf).is_err());
}

#[test]
fn futex_wakes_in_order_and_tells_the_woken() {
    let mut b = FutexBucket::new();
    assert_eq!(b.wait(0x10, 1, 2, 100), Err("changed"));
    assert_eq!(b.wait(0x10, 1, 1, 100), Ok(0));
    assert_eq!(b.wait(0x20, 1, 1, 101), Ok(1));
    assert_eq!(b.wait(0x10, 1, 1, 102), Ok(2));
    assert_eq!(b.wait(0x10, 1, 1, 103), Ok(3));
    let mut un = Vec::new();
    assert_eq!(b.wake(0x10, 1, &mut un), 1);
    assert_eq!(un, vec![100]);
    assert_eq!(b.outcome(0), Ok(()));
    assert_eq!(b.outcome(2), Err("timeout"));
    assert_eq!(b.pending_at(0x10), 2);
    assert_eq!(b.requeue(0x10, 0x20, 1, 5, &mut un), 1);
    assert_eq!(un, vec![100, 102]);
    assert_eq!((b.pending_at(0x10), b.pending_at(0x20)), (0, 2));
    assert_eq!(b.wake(0x20, 9, &mut un), 2);
    assert_eq!(un, vec![100, 102, 101, 103]);
}

#[test]
fn futex_table_lets_go_all_it_counts() {
    let mut t = FutexTable::new();
    assert!(!t.futex_wait(1, 0, 9, 50));
    for th in 0..5 {
        assert!(t.futex_wait(1, 0, 0, th));
    }
    let mut un = Vec::new();
    assert_eq!(t.futex_wake(1, 0, &mut un), 0);
    assert_eq!(t.futex_wake(1, 1, &mut un), 1);
    assert_eq!(un, vec![0]);
    assert_eq!(t.futex_wake(1, 2, &mut un), 2);
    assert_eq!(un, vec![0, 1, 2]);
    assert_eq!(t.futex_requeue(1, 2, 1, 1, &mut un), 1);
    assert_eq!(un, vec![0, 1, 2, 3]);
    assert_eq!(t.futex_wake(2, 5, &mut un), 1);
    assert_eq!(un, vec![0, 1, 2, 3, 4]);
    assert_eq!(t.table.len(), 0);
}

#[test]
fn wait_queue_wakes_by_key_and_by_flags() {
    let mut q = WaitQueue::new();
    q.sleep(1, 30, 10);
    q.sleep(2, 10, 11);
    q.sleep(1, 20, 12);
    q.sleep(3, 10, 13);
    assert!(q.has_waiters_for(3) && !q.has_waiters_for(4));
    q.reorder_by_priority();
    let order: Vec<usize> = q.inner.iter().map(|s| s.thread).collect();
    assert_eq!(order, vec![11, 13, 12, 10]);
    let mut un = Vec::new();
    assert!(q.wake_one(1, &mut un));
    assert!(!q.wake_one(9, &mut un));
    assert_eq!(un, vec![12]);
    assert_eq!(q.wake_filtered(&|_k: usize, f: u32| f == 10, &mut un), 2);
    assert_eq!(un, vec![12, 11, 13]);
    assert_eq!(q.wake_all(1, &mut un), 1);
    assert_eq!((q.pending_count(), q.total_wakes()), (0, 4));
    q.sleep(5, 0, 20);
    assert!(q.sleep_timeout(5, 20));
    assert!(!q.sleep_timeout(5, 20));
}

#[test]
fn early_signals_are_not_lost() {
    let mut q = SyncQueue::new();
    let mut un = Vec::new();
    q.signal(&mut un);
    assert_eq!(q.park_on(true, 1), Parking::Ready);
    assert_eq!(q.park_on(false, 1), Parking::Recheck);
    assert_eq!(q.park_on(false, 1), Parking::Park);
    assert_eq!(q.park_on(false, 2), Parking::Park);
    q.wait_guard(3);
    assert!(q.wait_timeout(4));
    assert_eq!(q.pending(), 4);
    q.signal(&mut un);
    assert_eq!(un, vec![1]);
    assert_eq!(q.signal_n(2, &mut un), 2);
    q.broadcast(&mut un);
    assert_eq!(un, vec![1, 2, 3, 4]);
    assert_eq!(q.signal_n(2, &mut un), 0);
    assert_eq!(q.extra_signal, 2);
    assert_eq!(q.wait_ev(Some(false), 7), Some(false));
    assert_eq!(q.wait_ev(None, 7), None);
    assert_eq!(q.pending(), 1);
    let mut two = vec![SyncQueue::new(), SyncQueue::new()];
    assert_eq!(SyncQueue::wait_events(&mut two, None, 5), None);
    assert_eq!((two[0].pending(), two[1].pending()), (1, 1));
    q.reg_epoll(1, 2, 3);
    q.reg_epoll(1, 2, 4);
    assert!(q.unreg_epoll(1, 2, 3));
    assert!(!q.unreg_epoll(1, 2, 3));
}

#[test]
fn channel_delivers_in_order_and_after_closing() {
    let mut un = Vec::new();
    let mut c = Channel::new(2);
    assert_eq!(c.recv(9), Received::Park);
    assert!(c.send(1, &mut un));
    assert_eq!(un, vec![9]);
    assert!(c.send(2, &mut un));
    assert!(!c.send(3, &mut un));
    assert_eq!((c.depth(), c.remaining_capacity()), (2, 0));
    assert_eq!(c.try_recv(), Some(1));
    assert_eq!(c.send_batch(&[5, 6, 7], &mut un), 1);
    c.close(&mut un);
    assert!(c.is_closed());
    assert_eq!(c.recv(9), Received::Byte(2));
    assert_eq!(c.drain_all(), vec![5]);
    assert_eq!(c.recv(9), Received::Closed);
    let small = Channel::new(0);
    assert_eq!(small.remaining_capacity(), 1);
    let large = Channel::new(usize::MAX);
    assert_eq!(large.remaining_capacity(), 1 << 20);
    c.guard.acquire();
    assert_eq!(c.try_recv(), None);
}
