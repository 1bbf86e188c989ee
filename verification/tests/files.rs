use chaos_kernel::fs::cache::BlockCache;
use chaos_kernel::fs::disk::{Disk, Disks};
use chaos_kernel::fs::epoll::{EpollCtlOp, EpollEvent, EpollInstance};
use chaos_kernel::fs::file::{FHandle, FSeek};
use chaos_kernel::fs::filelike::{audit_fd_table, FileLike};
use chaos_kernel::fs::ioqueue::IoQueue;
use chaos_kernel::fs::mount::{rehash_mount_cache, MountTable};
use chaos_kernel::fs::pipe::PipeNode;
use chaos_kernel::fs::pseudo::PseudoNode;
use chaos_kernel::fs::store::{FdOpt, Store, O_NONBLOCK};
use chaos_kernel::sync::event::EventBitflag;
use chaos_kernel::sync::lock::KernelLock;
use std::collections::BTreeMap;

const RW: FdOpt = FdOpt { read: true, write: true, append: false, non_blocking: false };

fn deaf(_id: usize, _word: u32) -> bool {
    false
}

#[test]
fn reads_what_was_written() {
    let mut st = Store::new();
    let f = FHandle::new(&mut st, "/a", RW, false, false);
    assert_eq!(f.write(&mut st, b"hello"), Ok(5));
    assert_eq!(f.write_at(&mut st, 7, b"xy"), Ok(2));
    assert_eq!(f.metadata_sz(&st), 9);
    let mut buf = [9u8; 12];
    assert_eq!(f.read_at(&st, 0, &mut buf), Ok(9));
    assert_eq!(&buf, b"hello\0\0xy\x09\x09\x09");
    assert_eq!(f.read_at(&st, 50, &mut buf), Ok(0));
    assert_eq!(f.seek(&mut st, FSeek::Start(1)), Ok(1));
    let mut two = [0u8; 2];
    assert_eq!(f.read(&mut st, &mut two), Ok(2));
    assert_eq!(&two, b"el");
    assert_eq!(f.seek(&mut st, FSeek::Cur(-1)), Ok(2));
    assert_eq!(f.seek(&mut st, FSeek::End(-4)), Ok(5));
    assert_eq!(f.seek(&mut st, FSeek::Cur(-6)), Ok(u64::MAX));
    assert_eq!(f.seek(&mut st, FSeek::Cur(4)), Ok(3));
    assert_eq!(f.set_len(&mut st, 3), Ok(()));
    assert_eq!(f.fallocate(&mut st, 2, 4), Ok(()));
    assert_eq!(st.blobs[f.inode_ref()], b"hel\0\0\0".to_vec());
    assert_eq!((f.sync_all(), f.sync_data(), f.lookup("x", 1)), (Ok(()), Ok(()), Ok(())));
    assert_eq!((f.io_ctl(1, 2), f.mmap(0, 1, 2), f.advise_readahead(0, 9)), (Ok(0), Ok(()), Ok(())));
}

#[test]
fn options_are_kept() {
    let mut st = Store::new();
    let r = FHandle::with_data(&mut st, "/r", FdOpt::default(), b"abc".to_vec());
    assert_eq!(r.write(&mut st, b"x"), Err("This file is not writable!"));
    assert_eq!(r.write_at(&mut st, 0, b"x"), Err("This file is not writable!"));
    assert_eq!(r.set_len(&mut st, 0), Err("This file is not writable!"));
    assert_eq!(r.fallocate(&mut st, 0, 9), Err("This file is not writable!"));
    let w = FHandle::new(&mut st, "/w", FdOpt { read: false, write: true, append: true, non_blocking: false }, false, true);
    let mut b = [0u8; 1];
    assert_eq!(w.read(&mut st, &mut b), Err("This file is not readable!"));
    assert_eq!(w.read_entry(&mut st).is_err(), true);
    assert_eq!(w.write(&mut st, b"ab"), Ok(2));
    assert_eq!(w.seek(&mut st, FSeek::Start(0)), Ok(0));
    assert_eq!(w.write(&mut st, b"cd"), Ok(2));
    assert_eq!(st.blobs[w.inode_ref()], b"abcd".to_vec());
    assert_eq!(r.read_entry(&mut st).unwrap(), "entry_0");
    assert_eq!(r.seek(&mut st, FSeek::Start(41)), Ok(41));
    assert_eq!(r.read_entry(&mut st).unwrap(), "entry_41");
    r.set_opt(&mut st, O_NONBLOCK);
    assert!(r.get_opt(&st).non_blocking && r.get_opt(&st).read);
    assert_eq!(r.poll_status(&st), (true, false, false));
    let e = FHandle::new(&mut st, "", RW, false, false);
    assert_eq!(e.poll_status(&st), (true, true, true));
}

#[test]
fn duplicates_share_a_cursor_and_splices_move_it() {
    let mut st = Store::new();
    let a = FHandle::with_data(&mut st, "/a", RW, b"abcdef".to_vec());
    let b = a.dup(true);
    assert!(b.cloexec && !a.cloexec);
    let mut two = [0u8; 2];
    assert_eq!(a.read(&mut st, &mut two), Ok(2));
    assert_eq!(b.read(&mut st, &mut two), Ok(2));
    assert_eq!(&two, b"cd");
    let d = FHandle::new(&mut st, "/d", RW, false, false);
    assert_eq!(a.splice_to(&mut st, &d, 10), Ok(2));
    assert_eq!(a.splice_to(&mut st, &d, 10), Ok(0));
    assert_eq!(st.blobs[d.inode_ref()], b"ef".to_vec());
    assert_eq!(d.transfer(&mut st, 0, Some(1), None, Some(b"XY")), Ok(2));
    let mut three = [0u8; 3];
    assert_eq!(d.transfer(&mut st, 1, Some(0), Some(&mut three), None), Ok(3));
    assert_eq!(&three, b"eXY");
    assert_eq!(d.transfer(&mut st, 1, None, None, None), Err("no buffer to read"));
    assert_eq!(d.transfer(&mut st, 2, None, None, None), Err("no buffer to write"));
    assert_eq!(d.transfer(&mut st, 0, None, None, Some(b"Z")), Ok(1));
    assert_eq!(d.transfer(&mut st, 1, None, Some(&mut three), None), Ok(0));
}

#[test]
fn pipe_is_first_in_first_out() {
    let mut st = Store::new();
    let (r, w) = PipeNode::pair(&mut st);
    let mut buf = [0u8; 4];
    assert_eq!(r.read_at(&mut st, &mut buf, &deaf), Err("again"));
    assert_eq!(r.read_at(&mut st, &mut [], &deaf), Ok(0));
    assert_eq!(w.read_at(&mut st, &mut buf, &deaf), Err("This is not a read pipe"));
    assert_eq!(r.write_at(&mut st, b"x", &deaf), Err("This is not a write pipe"));
    assert_eq!(w.write_at(&mut st, b"abcdef", &deaf), Ok(6));
    assert_eq!(st.pipes[0].bus.event, EventBitflag::READABLE);
    assert!(r.can_read(&st) && !r.can_write(&st) && w.can_write(&st));
    assert_eq!(r.read_at(&mut st, &mut buf, &deaf), Ok(4));
    assert_eq!(&buf, b"abcd");
    assert!(w.can_write(&st) && !w.can_read(&st));
    st.pipes[0].bus.sub(4);
    r.release(&mut st, &|id: usize, word: u32| id == 4 && word & EventBitflag::CLOSED != 0);
    assert_eq!(st.pipes[0].bus.callback_len(), 0);
    assert!(!w.can_write(&st) && !r.can_read(&st));
    assert_eq!(w.write_at(&mut st, b"x", &deaf), Err("No one is reading from the pipe"));
    assert_eq!(r.read_at(&mut st, &mut buf, &deaf), Ok(2));
    assert_eq!(r.read_at(&mut st, &mut buf, &deaf), Ok(0));
    assert_eq!(st.pipes[0].bus.event, EventBitflag::CLOSED);
}

#[test]
fn epoll_sets_change() {
    let mut st = Store::new();
    let mut e = EpollInstance::new(&mut st);
    let ev = EpollEvent { events: EpollEvent::IN | EpollEvent::ET };
    assert!(ev.has(EpollEvent::IN) && !ev.has(EpollEvent::OUT));
    assert_eq!(e.control(&mut st, EpollCtlOp::MOD, 4, &ev), Err("No such file descriptor"));
    assert_eq!(e.control(&mut st, EpollCtlOp::ADD, 4, &ev), Ok(()));
    assert_eq!(e.control(&mut st, EpollCtlOp::MOD, 4, &EpollEvent { events: 1 }), Ok(()));
    assert_eq!(e.events.get(&4), Some(&EpollEvent { events: 1 }));
    assert!(st.sets[e.new_ctl].contains(&4));
    assert_eq!(e.control(&mut st, EpollCtlOp::DEL, 4, &ev), Ok(()));
    assert_eq!(e.control(&mut st, EpollCtlOp::DEL, 4, &ev), Err("No such file descriptor"));
    assert_eq!(e.control(&mut st, 9, 4, &ev), Err("Undefined operation"));
}

#[test]
fn every_kind_of_file_answers() {
    let mut st = Store::new();
    let f = FileLike::File(FHandle::with_data(&mut st, "/f", RW, b"hi".to_vec()));
    let (r, w) = PipeNode::pair(&mut st);
    let (r, w) = (FileLike::Pipe(r), FileLike::Pipe(w));
    let e = FileLike::Epoll(EpollInstance::new(&mut st));
    let mut buf = [0u8; 2];
    assert_eq!(f.read(&mut st, &mut buf, &deaf), Ok(2));
    assert_eq!(w.write(&mut st, b"yo", &deaf), Ok(2));
    assert_eq!(r.read(&mut st, &mut buf, &deaf), Ok(2));
    assert_eq!(&buf, b"yo");
    assert_eq!(e.read(&mut st, &mut buf, &deaf), Err("not supported"));
    assert_eq!(e.write(&mut st, b"a", &deaf), Err("not supported"));
    assert_eq!((f.io_ctl(0x10, 0), f.io_ctl(0x5401, 0)), (Ok(0), Ok(0)));
    assert_eq!((r.io_ctl(0x5421, 0), r.io_ctl(1, 0)), (Ok(0), Err("enotty")));
    assert_eq!(e.io_ctl(1, 0), Err("not supported"));
    assert_eq!((f.mmap_fl(1, 2, 0), f.mmap_fl(2, 2, 0)), (Ok(()), Err("invalid range")));
    assert_eq!(r.mmap_fl(1, 2, 0), Err("not supported"));
    assert_eq!(e.poll(&st), (false, false, false));
    let at = match &e {
        FileLike::Epoll(x) => x.ready,
        _ => panic!("epoll"),
    };
    st.set_insert(at, 7);
    assert_eq!(e.poll(&st), (true, false, false));
    let d = f.dup(true);
    match &d {
        FileLike::File(h) => assert!(h.cloexec),
        _ => panic!("file"),
    }
    f.release(&mut st, &deaf);
    r.clone().release(&mut st, &deaf);
    assert_eq!(st.pipes[0].ends, 1);
}

#[test]
fn audit_lists_gaps_and_suspects() {
    let mut st = Store::new();
    let mut files = BTreeMap::new();
    let ok = FHandle::new(&mut st, "/x", RW, false, false);
    let nameless = FHandle::new(&mut st, "", RW, false, false);
    files.insert(2, FileLike::File(ok));
    files.insert(5, FileLike::File(nameless));
    files.insert(7, FileLike::Epoll(EpollInstance::new(&mut st)));
    assert_eq!(audit_fd_table(&files), vec![3, 4, 5, 6]);
    assert_eq!(audit_fd_table(&BTreeMap::new()), Vec::<usize>::new());
}

#[test]
fn pseudo_nodes_are_read_only() {
    let n = PseudoNode::new("héy", 3);
    assert_eq!(n.metadata_sz(), 4);
    let mut b = [0u8; 2];
    assert_eq!(n.read_at(1, &mut b), 2);
    assert_eq!(b, [0xC3, 0xA9]);
    assert_eq!(n.read_at(3, &mut b), 1);
    assert_eq!(n.read_at(4, &mut b), 0);
    assert_eq!(n.write_at(0, b"x"), Err("nosup"));
}

#[test]
fn mounts_resolve_by_the_longest_prefix() {
    let mut m = MountTable::new();
    m.bind("/mnt", "hd0");
    m.bind("/mnt/usb", "usb");
    m.bind("/mnt", "hd0");
    m.bind("", "nothing");
    assert_eq!(m.mount_count(), 3);
    assert_eq!(m.resolve("/mnt/usb//a//b").unwrap(), "usb:/a/b");
    assert_eq!(m.resolve("/mnt/x").unwrap(), "hd0:/x");
    assert_eq!(m.resolve("//etc///passwd").unwrap(), "/etc/passwd");
    assert_eq!(m.resolve("").unwrap(), "");
    assert_eq!(m.resolve("/mnt/mnt/q").unwrap(), "hd0:hd0:/q");
    assert_eq!(m.find_mount("/mnt/usbx").unwrap().target, "usb");
    assert!(m.find_mount("/etc").is_none());
    assert!(m.has_prefix("/mnt") && !m.has_prefix("/m"));
    assert_eq!(m.list_mounts()[1], ("/mnt/usb".to_string(), "usb".to_string()));
    let deep = "/mnt".repeat(8);
    assert_eq!(m.resolve(&deep), Err("mount depth exceeded"));
    assert_eq!(m.resolve(&"/mnt".repeat(7)).unwrap(), "hd0:".repeat(7));
    assert_eq!(m.resolve_inner("/mnt/x", 7), Err("mount depth exceeded"));
    assert_eq!(m.resolve_inner("/mnt/x", 6).unwrap(), "hd0:/x");
    assert_eq!(m.resolve_inner("//x", 7).unwrap(), "/x");
    assert_eq!(m.resolve_inner("//x", 8), Err("mount depth exceeded"));
    assert_eq!(m.resolve_inner("//x", usize::MAX), Err("mount depth exceeded"));
    assert_eq!(rehash_mount_cache(&m.entries).len(), 3);
    assert!(m.unmount("/mnt"));
    assert!(!m.unmount("/mnt"));
    assert_eq!(m.resolve("/mnt/x").unwrap(), "/mnt/x");
}

#[test]
fn mount_hashes_have_fixed_values() {
    let mut m = MountTable::new();
    m.bind("", "");
    let h = rehash_mount_cache(&m.entries);
    assert_eq!(h.get(&0xcbf29ce484222325u64.wrapping_mul(0x517cc1b727220a95)), Some(&0));
    let mut n = MountTable::new();
    n.bind("a", "xy");
    let fnv_a = (0xcbf29ce484222325u64 ^ 0x61).wrapping_mul(0x100000001b3);
    assert_eq!(rehash_mount_cache(&n.entries).get(&(fnv_a ^ 2).wrapping_mul(0x517cc1b727220a95)), Some(&0));
}

#[test]
fn elevator_serves_the_nearest_and_turns_round() {
    let mut q = IoQueue::new();
    assert_eq!(q.dispatch(), None);
    q.submit(50, false, 0, 1);
    q.submit(10, true, 0, 2);
    q.submit(30, false, 0, 3);
    assert_eq!(q.dispatch(), Some((10, true)));
    q.submit(5, false, 0, 4);
    assert_eq!(q.dispatch(), Some((30, false)));
    assert_eq!(q.dispatch(), Some((50, false)));
    assert!(!q.direction_up);
    assert_eq!(q.dispatch(), Some((5, false)));
    assert!(q.direction_up);
    assert_eq!((q.depth(), q.dispatched, q.head_pos), (0, 4, 5));
}

#[test]
fn adjacent_requests_merge() {
    let mut q = IoQueue::new();
    let reqs = [(5, false, 0), (6, false, 0), (7, false, 0), (8, true, 0), (9, true, 1)];
    assert_eq!(q.submit_batch(&reqs, 3), 5);
    assert_eq!(q.merge_adjacent(), 2);
    let blocks: Vec<usize> = q.pending.iter().map(|r| r.block).collect();
    assert_eq!(blocks, vec![5, 7, 8]);
    let many: Vec<(usize, bool, u8)> = (0..125).map(|i| (100 + i, false, 0)).collect();
    assert_eq!(q.submit_batch(&many, 4), 125);
    assert_eq!((q.depth(), q.merged), (128, 2));
    assert_eq!(q.merge_adjacent(), 62);
    assert_eq!((q.depth(), q.merged), (66, 64));
}

#[test]
fn disk_fails_as_often_as_it_is_told() {
    let mut ds = Disks::new();
    let d = Disk::failing(&mut ds, "sda", 2);
    let j = Disk::failing(&mut ds, "jnl", 7);
    d.attach_journal(&mut ds, j);
    let mut out = [0u8; 3];
    assert_eq!(d.read_block(&mut ds, 2, &mut out), Ok(()));
    assert_eq!(out, [(2u8.wrapping_mul(0x9D)) | 0xAA; 3]);
    assert_eq!((ds.disks[d.at].errs, d.total_ops(&ds)), (0, 3));
    assert_eq!((ds.disks[j.at].errs, j.total_ops(&ds)), (0, 5 + 3));
    d.set_errs(&mut ds, 4);
    assert_eq!(d.read_block_n(&mut ds, 0, &mut out, 3), Err("limit"));
    assert_eq!(ds.disks[d.at].errs, 1);
    assert_eq!(d.read_block_n(&mut ds, 0, &mut out, 3), Ok(2));
    assert_eq!(out, [0xAA, 0xAB, 0xA8]);
    d.set_errs(&mut ds, usize::MAX);
    assert_eq!(d.read_block_n(&mut ds, 0, &mut out, 4), Err("limit"));
    assert_eq!(d.write_block(&mut ds, 0, &out), Err("io_error"));
    assert_eq!(ds.disks[d.at].errs, usize::MAX);
    d.set_errs(&mut ds, 1);
    assert_eq!(d.write_block(&mut ds, 0, &out), Err("io_error"));
    assert_eq!(d.write_block(&mut ds, 0, &out), Ok(()));
    d.reset_ops(&mut ds);
    j.reset_ops(&mut ds);
    assert_eq!(d.flush(&mut ds), Ok(()));
    assert_eq!((d.total_ops(&ds), j.total_ops(&ds)), (1, 1));
    let x = Disk::new(&mut ds, "x");
    assert_eq!((x.at, ds.disks[x.at].label.as_str()), (2, "x"));
}

#[test]
fn disks_share_a_journal() {
    let mut ds = Disks::new();
    let a = Disk::failing(&mut ds, "a", 2);
    let b = Disk::failing(&mut ds, "b", 3);
    let j = Disk::failing(&mut ds, "j", 1);
    let deep = Disk::new(&mut ds, "k");
    j.attach_journal(&mut ds, deep);
    a.attach_journal(&mut ds, j);
    b.attach_journal(&mut ds, j);
    let mut out = [0u8; 1];
    assert_eq!(a.read_block(&mut ds, 0, &mut out), Ok(()));
    assert_eq!((j.total_ops(&ds), deep.total_ops(&ds), b.total_ops(&ds)), (3, 1, 0));
    assert_eq!(b.read_block_n(&mut ds, 0, &mut out, 2), Err("limit"));
    assert_eq!((j.total_ops(&ds), deep.total_ops(&ds), a.total_ops(&ds)), (5, 1, 3));
    assert_eq!(b.read_block_n(&mut ds, 0, &mut out, 0), Ok(2));
    assert_eq!((j.total_ops(&ds), b.total_ops(&ds)), (6, 4));
}

#[test]
fn cache_keeps_what_it_fetched() {
    let mut c = BlockCache::new(4);
    assert_eq!(c.idx(7), 3);
    let b = c.fetch(7, 5).unwrap();
    assert_eq!(b.len(), 512);
    let seed = 7usize.wrapping_mul(0x9E3779B9) ^ 5;
    assert_eq!((b[0], b[300]), ((seed & 0xFF) as u8, (seed.wrapping_add(300) & 0xFF) as u8));
    assert_eq!(c.fetch(7, 99).unwrap(), b);
    assert_eq!(c.lookup(3), None);
    c.fill(3, 0);
    c.mark_dirty(7);
    c.mark_dirty(8);
    assert_eq!((c.total_entries(), c.dirty_count()), (2, 1));
    assert_eq!(c.evict_cold(100, 22), 0);
    assert_eq!(c.evict_cold(1, 22), 1);
    assert_eq!(c.lookup(7), None);
    c.mark_dirty(3);
    let mut gkl = KernelLock::new();
    c.sync_all(&mut gkl, 1, 1);
    assert_eq!((c.dirty_count(), gkl.held()), (0, false));
    c.invalidate(3);
    assert_eq!(c.total_entries(), 0);
}
