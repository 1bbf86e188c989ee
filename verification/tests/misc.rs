use chaos_kernel::capability::{CapabilitySet, CAP_KILL, CAP_SYS_ADMIN};
use chaos_kernel::cpu::context::{Context, N_REGS};
use chaos_kernel::cpu::trap::TrapCtl;
use chaos_kernel::elf::validate_elf_header;
use chaos_kernel::limits::ResourceLimits;
use chaos_kernel::memory::{
    compute_rss_watermark, defragment_frame_pool, page_end, page_offset, page_start, validate_access,
    verify_page_alignment, FramePool, Platform, UserMemory, VmRegion, VM_EXEC, VM_READ, VM_SHARED, VM_WRITE,
};
use chaos_kernel::net::{build_pseudo_header, compute_inet_checksum, parse_ipv4_header, tcp_checksum, SocketState};
use chaos_kernel::registry::KernelObjectRegistry;
use chaos_kernel::schedule::{compute_load_balance, RunQueue, SchedulePolicy};
use chaos_kernel::sync::lock::KernelLock;
use chaos_kernel::terminal::{TerminalIOSetting, WindowSize};
use chaos_kernel::time::{cclk, dtk, tmr, up_ms, wclk, Clock, TimerEntry, TimerWheel};

const P: Platform = Platform { kern_base: 0x8000_0000, kheap_sz: 0x4000, mem_off: 0x10_0000, nsig: 64 };

#[test]
fn only_the_first_processor_keeps_time() {
    let mut c = Clock::new();
    dtk(&mut c, 0);
    dtk(&mut c, 3);
    tmr(&mut c, 0);
    assert_eq!((wclk(&c), cclk(&c), up_ms(&c)), (2, 3, 2));
}

#[test]
fn timers_fire_when_their_slot_comes_up() {
    let mut w = TimerWheel::new();
    w.add_timer(TimerEntry::new(1, 0, 10));
    w.add_timer(TimerEntry::new(1, 5, 11));
    w.add_timer(TimerEntry::new(257, 0, 12));
    w.add_timer(TimerEntry::new(2, 0, 13));
    assert!(w.cancel(13));
    assert!(!w.cancel(13));
    assert_eq!(w.active_count(), 3);
    let fired = w.advance(1);
    assert_eq!(fired.iter().map(|t| t.callback_id).collect::<Vec<_>>(), vec![10, 11]);
    assert_eq!(w.slots[1].len(), 1);
    assert_eq!(w.slots[6][0], TimerEntry::new(6, 5, 11));
    assert!(w.advance(2).is_empty());
    assert_eq!(w.slots[2].len(), 0);
    let mut t = TimerEntry::new(9, 4, 1);
    assert!(!t.expired(8) && t.expired(9));
    assert_eq!((t.remaining(5), t.remaining(12)), (4, 0));
    t.reset(20);
    assert_eq!(t.deadline, 24);
    t.cancel();
    assert!(!t.active);
    let mut once = TimerEntry::new(9, 0, 1);
    once.reset(20);
    assert!(!once.active && once.deadline == 9);
}

#[test]
fn capabilities_are_granted_and_dropped() {
    let mut c = CapabilitySet::new();
    c.grant(CAP_KILL);
    c.grant(64);
    assert!(c.check(CAP_KILL) && !c.check(CAP_SYS_ADMIN) && !c.check(64));
    assert!(c.has_any(1 << 5) && !c.has_any(1 << 6));
    assert!(c.raise_ambient(CAP_KILL) && !c.raise_ambient(CAP_SYS_ADMIN) && !c.raise_ambient(99));
    c.drop_cap(CAP_KILL);
    assert!(!c.check(CAP_KILL));
    assert_eq!(c.ambient, 1 << 5);
    c.clear_ambient();
    assert_eq!(c, CapabilitySet::new());
    let child = CapabilitySet::inherit(&CapabilitySet::full());
    assert_eq!(child.effective, 0xFF_FFFF_FFFF);
    assert!(child.check(39) && !child.check(40));
}

#[test]
fn limits_read_back() {
    let mut l = ResourceLimits::default_limits(0x9000);
    assert_eq!((l.max_stack_size, l.max_data_size), (0x40000, 0x9000));
    for r in [0, 1, 2, 3, 7] {
        assert_eq!(l.set_limit(r, 100 + r), Ok(()));
    }
    for r in [0, 1, 2, 3, 7] {
        assert_eq!(l.get_limit(r), Ok(100 + r));
    }
    assert_eq!(l.set_limit(4, 1), Err("einval"));
    assert_eq!(l.get_limit(4), Err("einval"));
    assert!(l.check_fd(106) && !l.check_fd(107));
    assert!(l.check_threads(255) && !l.check_threads(256));
    assert!(l.check_stack(103) && !l.check_stack(104));
    assert!(l.check_data(102) && l.check_filesize(101) && !l.check_filesize(102));
    assert!(l.check_mappings(65535) && !l.check_mappings(65536));
    assert_eq!(l.inherit(), l);
    assert!(l.exceeds_any(108, 0, 0) && l.exceeds_any(0, 257, 0) && l.exceeds_any(0, 0, 104));
    assert!(!l.exceeds_any(107, 256, 103));
}

#[test]
fn contexts_change_part_by_part() {
    let mut regs = [0u64; N_REGS];
    regs[3] = 33;
    let mut c = Context::capture(&regs);
    assert_eq!(c.apply(), regs);
    c.set_ip(1);
    c.set_flags(2);
    c.set_sp(3);
    c.set_ret(4);
    c.set_tls(5);
    assert_eq!((c.ip, c.flags, c.r[15], c.r[0], c.r[14]), (1, 2, 3, 4, 5));
    assert_eq!(c.transform(0x10, 9).r[0], 9);
    assert_eq!(c.transform(1, 9).ip, 9);
    assert_eq!(c.transform(2, 9).r[15], 9);
    assert_eq!(c.transform(3, 9).r[14], 9);
    assert_eq!(c.transform(4, 9).flags, 9);
    assert_eq!(c.transform(5, (7 << 56) | 8).r[7], 8);
    assert_eq!(c.transform(5, 16 << 56), c);
    assert_eq!(c.transform(6, 1), c);
    assert_eq!(c.syscall_args(), (4, 0, 0, 33, 0, 0));
    let d = c.clone_with_ret(77).transform(1, 9);
    assert_eq!(c.diff(&d), vec![(0, 4, 77), (16, 1, 9)]);
    assert_eq!(d.diff(&c), vec![(0, 77, 4), (16, 9, 1)]);
    assert_eq!(c.diff(&c), vec![]);
    assert_eq!(c.diff(&c.transform(4, 0)), vec![(17, 2, 0)]);
}

#[test]
fn context_hash_and_classes() {
    let z = Context::new();
    let mut h: u64 = 0xcbf29ce484222325;
    for _ in 0..17 {
        h = h.wrapping_mul(0x100000001b3);
    }
    assert_eq!(z.hash(), h);
    let mut c = Context::new();
    c.set_flags(0xFF);
    assert_eq!(c.hash(), h ^ 0xFF);
    c.r[1] = 0x3000_0000_0000_0001;
    c.r[2] = 0x5000_0000_0000_0002;
    c.r[3] = 0x8000_0000_0000_0003;
    c.r[4] = 0xF000_0000_0000_0004;
    assert_eq!(c.reg_class(1), 1);
    assert_eq!(c.reg_class(2), 2);
    assert_eq!(c.reg_class(3), 0x7FFF_FFFF_FFFF_FFFD);
    assert_eq!(c.reg_class(4), 0xF000_0000_0000_0004);
    assert_eq!(c.reg_class(16), 0);
}

#[test]
fn traps_pass_the_masks() {
    let mut t = TrapCtl::new();
    let mut c = Context::new();
    c.set_ip(42);
    assert!(t.in_handler());
    assert_eq!(t.on_pgfault(0), Ok(()));
    t.configure(0b1, 0b100);
    assert_eq!((t.sw(), t.hw()), (1, 4));
    assert_eq!(t.dispatch_vector(1, c), c);
    assert_eq!((t.nest_depth(), t.current()), (0, None));
    t.dispatch_vector(2, c);
    t.dispatch_vector(8, c);
    t.dispatch_vector(9, c);
    t.dispatch_vector(16, c);
    assert_eq!(t.nest_depth(), 2);
    assert_eq!(t.current(), Some(c));
    assert_eq!(t.handle_irq(c), c);
    assert!(!t.active && t.in_handler());
    let mut idle = TrapCtl::new();
    idle.active = false;
    assert_eq!(idle.on_pgfault(9), Err("fault"));
    assert_eq!(idle.dispatch(c), c);
    assert_eq!(idle.on_pgfault(9), Ok(()));
    t.push_frame(&c);
    assert_eq!(t.pop_frame(), Some(c));
    assert_eq!(t.pop_frame(), None);
    t.suppress();
    assert!(t.suppressed);
    t.unsuppress();
    assert!(!t.suppressed);
}

#[test]
fn pages_and_frames() {
    assert_eq!((page_start(0x1FFF), page_offset(0x1FFF), page_end(0x1001)), (0x1000, 0xFFF, 0x2000));
    let mut p = FramePool::new(3);
    assert_eq!(p.free_count(), 3);
    assert_eq!(p.take_first(), Some(0));
    assert_eq!(p.take(5), vec![1, 2]);
    assert_eq!(p.take_first(), None);
    let mut gkl = KernelLock::new();
    assert_eq!(p.get(&mut gkl, 7, 1), None);
    p.slots[1] = true;
    assert_eq!(p.get(&mut gkl, 7, 1), Some(1));
    assert!(!gkl.held());
    let mut slots = vec![true, false, true];
    assert_eq!(defragment_frame_pool(&mut slots), 2);
    assert_eq!(slots, vec![true, false, true]);
    assert!(verify_page_alignment(&P, 0x4000, 2));
    assert!(!verify_page_alignment(&P, 0x4000, 3));
    assert!(!verify_page_alignment(&P, 0x8000_0000, 0));
    assert!(!verify_page_alignment(&P, 0, 12));
}

#[test]
fn rss_watermark_weighs_regions() {
    assert_eq!(compute_rss_watermark(&[], 10), 0);
    let one = [VmRegion { len: 1, flags: VM_READ | VM_SHARED }];
    assert_eq!(compute_rss_watermark(&one, 0), 0);
    assert_eq!(compute_rss_watermark(&one, 1_000_000), 0);
    assert_eq!(compute_rss_watermark(&one, 10_000), 40);
    let all = [
        VmRegion { len: 4096, flags: VM_EXEC | VM_WRITE },
        VmRegion { len: 4096, flags: VM_WRITE | VM_SHARED },
        VmRegion { len: 4096, flags: 0 },
    ];
    assert_eq!(compute_rss_watermark(&all, 10_000), (6 + 2 + 2) * 4096 * 100 / 10_000);
    assert_eq!(compute_rss_watermark(&all, 100), 50);
}

#[test]
fn accesses_are_validated() {
    let u = UserMemory { ranges: vec![(0x1000, 0x9000), (0xA000, 0xB000)] };
    assert!(u.check_access(0x1000, 0x8000) && !u.check_access(0x8FFF, 2) && !u.check_access(usize::MAX, 2));
    assert_eq!(validate_access(&P, &u, 0, 0, 0, 1), Ok(()));
    assert_eq!(validate_access(&P, &u, 0, usize::MAX, 2, 1), Err("eoverflow"));
    assert_eq!(validate_access(&P, &u, 0, 0x7FFF_FFFF, 1, 1), Err("efault"));
    assert_eq!(validate_access(&P, &u, 0, 0x1000, 16, 1), Ok(()));
    assert_eq!(validate_access(&P, &u, 1, 0x1000, 16, 1), Ok(()));
    assert_eq!(validate_access(&P, &u, 1, 0x100, 16, 1), Err("efault"));
    assert_eq!(validate_access(&P, &u, 2, 0x1000, 0x4000, 1), Ok(()));
    assert_eq!(validate_access(&P, &u, 2, 0x1000, 0x4001, 1), Err("efault"));
    assert_eq!(validate_access(&P, &u, 3, 0x1000, 16, 1), Err("einval"));
}

#[test]
fn checksums_check() {
    let data = [0x45u8, 0, 0, 0x1c, 0xab, 0xcd, 0, 0, 0x40, 0x11];
    let c = compute_inet_checksum(&data);
    assert_eq!(c, !((0x4500u32 + 0x1c + 0xabcd + 0x4011 - 0xFFFF) as u16));
    let mut with = data.to_vec();
    with.push((c >> 8) as u8);
    with.push(c as u8);
    assert_eq!(compute_inet_checksum(&with), 0);
    assert_eq!(compute_inet_checksum(&[]), 0xFFFF);
    assert_eq!(compute_inet_checksum(&[1]), 0xFEFF);
    assert_eq!(tcp_checksum(0x0001_0002, 0x0003_0004, &[0, 5, 6]), !(1 + 2 + 3 + 4 + 6 + 3 + 5 + 0x600u16));
    let payload = [0xFFu8, 0xEE, 0x12, 0x34, 0x56];
    let mut covered = build_pseudo_header(0xC0A8_0001, 0x0A00_00FE, 6, 5);
    covered.extend_from_slice(&payload);
    assert_eq!(tcp_checksum(0xC0A8_0001, 0x0A00_00FE, &payload), compute_inet_checksum(&covered));
}

#[test]
fn ip_headers_parse() {
    let mut pkt = vec![0u8; 24];
    pkt[0] = 0x46;
    pkt[2] = 1;
    pkt[3] = 2;
    pkt[9] = 17;
    pkt[12..16].copy_from_slice(&[10, 0, 0, 1]);
    pkt[16..20].copy_from_slice(&[192, 168, 1, 255]);
    assert_eq!(parse_ipv4_header(&pkt), Some((0x0A000001, 0xC0A801FF, 17, 0x102)));
    assert_eq!(parse_ipv4_header(&pkt[..23]), None);
    assert_eq!(parse_ipv4_header(&pkt[..19]), None);
    pkt[0] = 0x66;
    assert_eq!(parse_ipv4_header(&pkt), None);
    pkt[0] = 0x44;
    assert_eq!(parse_ipv4_header(&pkt), None);
    assert_eq!(build_pseudo_header(0x01020304, 0x05060708, 6, 0x090A), vec![1, 2, 3, 4, 5, 6, 7, 8, 0, 6, 9, 10]);
    assert!(SocketState::Listen != SocketState::Closed);
}

fn elf() -> Vec<u8> {
    let mut d = vec![0u8; 64 + 56];
    d[..7].copy_from_slice(&[0x7f, b'E', b'L', b'F', 2, 1, 1]);
    d[16] = 2;
    d[24..32].copy_from_slice(&0x0040_1234u64.to_le_bytes());
    d[32] = 64;
    d[54] = 56;
    d[56] = 1;
    d[64] = 1;
    d
}

#[test]
fn elf_headers_are_validated() {
    assert_eq!(validate_elf_header(&elf()), Ok(0x0040_1234));
    assert_eq!(validate_elf_header(&elf()[..63]), Err("too_short"));
    for (at, v, e) in [
        (1usize, 0u8, "bad_magic"),
        (4, 1, "not_64bit"),
        (5, 2, "not_le"),
        (6, 0, "bad_version"),
        (16, 1, "not_exec"),
        (56, 0, "no_phdrs"),
        (56, 2, "ph_overflow"),
        (64, 3, "no_load"),
    ] {
        let mut d = elf();
        d[at] = v;
        assert_eq!(validate_elf_header(&d), Err(e));
    }
    let mut so = elf();
    so[16] = 3;
    assert_eq!(validate_elf_header(&so), Ok(0x0040_1234));
}

#[test]
fn run_queue_is_emptied_in_ascending_order() {
    let mut q = RunQueue::new();
    for (id, run) in [(1, 700), (2, 100), (3, 400), (4, 100)] {
        q.enqueue(SchedulePolicy::new(id));
        q.update_vruntime(id, run);
    }
    let mut order = Vec::new();
    while let Some(p) = q.dequeue() {
        order.push((p.vruntime, p.task_id));
    }
    assert_eq!(order, vec![(100, 2), (100, 4), (400, 3), (700, 1)]);
}

#[test]
fn run_queue_is_fair() {
    let mut q = RunQueue::new();
    assert_eq!(q.pick_next(), None);
    q.enqueue(SchedulePolicy::new(3));
    q.enqueue(SchedulePolicy::with_nice(1, 5));
    q.enqueue(SchedulePolicy::with_nice(2, -15));
    q.enqueue(SchedulePolicy::with_nice(3, 9));
    assert_eq!(q.len(), 3);
    assert_eq!(q.pick_next(), Some(1));
    q.update_vruntime(1, 335);
    q.update_vruntime(2, 88761);
    q.update_vruntime(77, 1);
    assert_eq!(q.queue.iter().map(|p| (p.task_id, p.vruntime)).collect::<Vec<_>>(), vec![(3, 0), (1, 1024), (2, 1024)]);
    q.boost_priority(1, 100);
    assert_eq!(q.queue[1].nice, -20);
    q.boost_priority(2, -100);
    assert_eq!(q.queue[2].nice, 19);
    q.boost_priority(2, 34);
    assert_eq!(q.queue[2].nice, -15);
    q.boost_priority(2, -3);
    assert_eq!(q.queue[2].nice, -12);
    assert!(q.remove(1) && !q.remove(1));
    assert_eq!(q.dequeue().map(|p| p.task_id), Some(3));
    assert_eq!(q.dequeue().map(|p| p.task_id), Some(2));
    assert_eq!(q.dequeue(), None);
    q.set_current(4);
    assert_eq!(q.current, Some(4));
    q.clear_current();
    assert_eq!(q.current, None);
    for (n, w) in [(-11, 88761), (-10, 29154), (-1, 29154), (0, 1024), (9, 335), (10, 110)] {
        assert_eq!(SchedulePolicy::with_nice(1, n).weight(), w);
    }
}

#[test]
fn load_goes_to_the_best_processor() {
    assert_eq!(compute_load_balance(&[], &[], &[]), 0);
    assert_eq!(compute_load_balance(&[3, 0, 0, 0], &[], &[]), 1);
    assert_eq!(compute_load_balance(&[0, 0], &[0, 5], &[]), 1);
    assert_eq!(compute_load_balance(&[0, 0], &[0, 2], &[]), 0);
    assert_eq!(compute_load_balance(&[1, 1], &[0, 0], &[true, false]), 1);
}

#[test]
fn registry_counts_references() {
    let mut r = KernelObjectRegistry::new();
    let a = r.register(7, 100, 1);
    let b = r.register_child(7, 100, a, 2);
    let c = r.register_child(8, 200, a, 3);
    assert_eq!((a, b, c), (1, 2, 3));
    assert_eq!(r.find_by_type(7), vec![1, 2]);
    assert_eq!(r.find_by_type(9), Vec::<usize>::new());
    assert_eq!(r.dump_graph(), vec![(1, 2), (1, 3)]);
    assert_eq!(r.owner_objects(100), vec![1, 2]);
    assert!(r.ref_up(2) && r.ref_down(2) && r.ref_down(2) && r.ref_down(2) && r.ref_down(3));
    assert!(!r.ref_up(9) && !r.ref_down(9));
    assert_eq!(r.gc_sweep(), 2);
    assert_eq!(r.find_by_type(7), vec![1]);
    assert_eq!(r.count(), 1);
    assert_eq!((r.register(7, 1, 4), r.find_by_type(7)), (4, vec![1, 4]));
    assert!(r.unregister(4));
    assert!(r.unregister(1) && !r.unregister(1));
    assert_eq!(r.find_by_type(7), Vec::<usize>::new());
}

#[test]
fn terminals_have_settings() {
    let t = TerminalIOSetting::default();
    assert_eq!((t.input_flags, t.local_flags, t.cc[0], t.cc[11], t.cc[16], t.cc[31]), (0o66402, 0o105073, 3, 255, 255, 0));
    assert_eq!(WindowSize::default(), WindowSize { row: 0, col: 0, xpx: 0, ypx: 0 });
}
