use chaos_kernel::fs::epoll::EpollInstance;
use chaos_kernel::fs::file::FHandle;
use chaos_kernel::fs::filelike::FileLike;
use chaos_kernel::fs::pipe::PipeNode;
use chaos_kernel::fs::store::{FdOpt, Store};
use chaos_kernel::proc::group::ProcessGroup;
use chaos_kernel::proc::init::ProcInit;
use chaos_kernel::proc::stack::KernelStack;
use chaos_kernel::proc::table::{Outside, TaskTable};
use chaos_kernel::proc::task::{Pid, Task, ThdCtx};
use chaos_kernel::sync::event::EventBitflag;
use std::collections::BTreeMap;

const RW: FdOpt = FdOpt { read: true, write: true, append: false, non_blocking: false };

fn deaf(_id: usize, _word: u32) -> bool {
    false
}

/// Nobody listens, and somebody holds the given processes.
fn holding(held: &[usize]) -> Outside<fn(usize, u32) -> bool> {
    Outside { run: deaf, held: held.to_vec() }
}

#[test]
fn pids_print_as_numbers() {
    assert_eq!(Pid::new().get(), 0);
    assert_eq!(Pid(4096).to_string(), "4096");
    assert!(Pid(1).is_init() && !Pid(2).is_init());
}

#[test]
fn stacks_are_aligned() {
    let p = ProcInit {
        args: vec!["/bin/ls".to_string(), "-l".to_string()],
        envs: vec!["PATH=/bin".to_string()],
        auxv: BTreeMap::new(),
    };
    let word = std::mem::size_of::<usize>();
    let size = 8 + 3 + 10 + (2 + 3 + 2 + 1) * word;
    assert_eq!(p.total_size(), size);
    let sp = p.push_at(0x8000_0000);
    assert_eq!(sp, (0x8000_0000 - size) & !0xF);
    assert_eq!(KernelStack::new(0x1000).top(), 0x5000);
}

#[test]
fn numbers_are_reused_from_the_lowest() {
    let mut st = Store::new();
    let mut t = Task::make(5, "sh");
    assert_eq!((t.id(), t.tag(), t.done(), t.exited()), (5, "sh".to_string(), false, true));
    let a = FHandle::with_data(&mut st, "/a", RW, b"abcd".to_vec());
    assert_eq!(t.add_file(FileLike::File(a)), 0);
    assert_eq!(t.dup_fd(&mut st, 0, true, &deaf), Ok(1));
    assert_eq!(t.dup2_fd(&mut st, 0, 7, &deaf), Ok(7));
    assert_eq!(t.dup2_fd(&mut st, 9, 9, &deaf), Ok(9));
    assert_eq!(t.dup2_fd(&mut st, 9, 1, &deaf), Err("no such file"));
    assert_eq!(t.dup_fd(&mut st, 9, false, &deaf), Err("no such file"));
    assert_eq!((t.get_free_fd(), t.get_free_fd_from(7), t.fd_count()), (2, 8, 3));
    assert_eq!(t.close_fd(&mut st, 0, &deaf), Ok(()));
    assert_eq!(t.close_fd(&mut st, 0, &deaf), Err("no such file"));
    assert_eq!(t.get_free_fd(), 0);
    assert_eq!(t.set_cloexec(&mut st, 7, true, &deaf), Ok(()));
    assert_eq!(t.set_cloexec(&mut st, 8, true, &deaf), Err("no such file"));
    let mut buf = [0u8; 2];
    let f1 = t.get_file(1).unwrap();
    let f7 = t.get_file(7).unwrap();
    assert!(t.get_file(0).is_none());
    assert_eq!(f1.read(&mut st, &mut buf, &deaf), Ok(2));
    assert_eq!(f7.read(&mut st, &mut buf, &deaf), Ok(2));
    assert_eq!(&buf, b"cd");
}

#[test]
fn dropping_pipe_copies_closes_the_pipe() {
    let mut st = Store::new();
    let mut t = Task::make(1, "p");
    let (r, w) = PipeNode::pair(&mut st);
    let rd = t.add_file(FileLike::Pipe(r));
    let wr = t.add_file(FileLike::Pipe(w));
    assert_eq!(t.dup_fd(&mut st, rd, false, &deaf), Ok(2));
    assert_eq!(st.pipes[0].ends, 1);
    assert_eq!(t.dup2_fd(&mut st, rd, wr, &deaf), Ok(wr));
    assert_eq!(st.pipes[0].ends, -1);
    assert_eq!(st.pipes[0].bus.event, EventBitflag::CLOSED);
    assert_eq!(t.set_cloexec(&mut st, rd, true, &deaf), Ok(()));
    assert_eq!(t.close_fd(&mut st, rd, &deaf), Ok(()));
    assert_eq!(st.pipes[0].ends, -3);
    t.threads.push(1);
    assert!(!t.exited());
    t.parent = Some(4);
    assert_eq!(t.exit_proc(&mut st, 0x1FF, &deaf), Some(4));
    assert_eq!(st.pipes[0].ends, -5);
    assert_eq!((t.exit_code, t.info.status, t.fd_count()), (0x1FF, Some(0xFF), 0));
    assert_eq!(t.event.event, EventBitflag::PROC_QUIT);
    assert!(t.done() && t.exited());
}

#[test]
fn signals_queue_once_and_can_be_masked() {
    let mut t = Task::make(1, "s");
    assert!(!t.has_sig());
    t.send_sig(5, -1, &deaf);
    t.send_sig(5, -1, &deaf);
    t.send_sig(5, 2, &deaf);
    assert_eq!(t.sig_queue.len(), 2);
    assert_eq!(t.event.event, EventBitflag::RECV_SIG);
    assert!(t.has_sig());
    t.sig_mask = 1 << 5;
    assert!(!t.has_sig());
    t.send_sig(6, 0, &deaf);
    assert!(t.has_sig());
}

#[test]
fn contexts_futexes_and_epoll_sets_of_a_task() {
    let mut st = Store::new();
    let mut t = Task::make(1, "s");
    let mut c = t.begin_run();
    c.clear_tid = 9;
    assert_eq!(t.begin_run().clear_tid, ThdCtx::default().clear_tid);
    t.end_run(c);
    assert_eq!(t.begin_run().clear_tid, 9);
    assert_eq!(t.get_futex(0x10), 0);
    assert_eq!(t.get_futex(0x20), 1);
    assert_eq!(t.get_futex(0x10), 0);
    assert_eq!(t.buckets[1].wait(0x20, 0, 0, 3), Ok(0));
    assert!(t.get_ep_ref(3).is_err());
    let e = EpollInstance::new(&mut st);
    t.set_ep(3, e);
    assert!(t.get_ep_mut(3).is_ok());
    t.link_parent(8);
    t.link_child(9);
    assert_eq!((t.parent, t.n_children()), (Some(8), 1));
}

#[test]
fn table_spawns_forks_and_reaps() {
    let mut st = Store::new();
    let mut tab = TaskTable::new();
    let root = tab.spawn_root(&mut st, &holding(&[]));
    let sh = tab.spawn(&mut st, &holding(&[]), "sh");
    assert_eq!((root, sh, tab.count()), (0, 1, 2));
    assert_eq!((tab.find(1), tab.find(2), tab.find(3)), (Some(0), Some(1), None));
    let f = FHandle::with_data(&mut st, "/a", RW, b"abcd".to_vec());
    tab.tasks[sh].add_file(FileLike::File(f));
    tab.tasks[sh].cwd = "/é".to_string();
    tab.tasks[sh].pgid = 6;
    let c = tab.fork_task(&mut st, &holding(&[]), sh);
    assert_eq!(tab.tasks[c].pid, Pid(3));
    assert_eq!(tab.tasks[c].cwd, "/\u{c3}\u{a9}");
    assert_eq!(tab.tasks[sh].subtasks, vec![c, c]);
    assert_eq!(tab.tasks[c].parent, Some(sh));
    assert_eq!(tab.find_by_tag("sh"), vec![sh, c]);
    assert_eq!(tab.process_of_tid(3), Some(c));
    assert_eq!(tab.process_of_tid(99), None);
    assert_eq!(tab.pgid_group(6), vec![sh, c]);
    let mut two = [0u8; 2];
    assert_eq!(tab.tasks[sh].get_file(0).unwrap().read(&mut st, &mut two, &deaf), Ok(2));
    assert_eq!(tab.tasks[c].get_file(0).unwrap().read(&mut st, &mut two, &deaf), Ok(2));
    assert_eq!(&two, b"cd");
    let th = tab.clone_thread(&mut st, &holding(&[]), sh, 0x9000, 0x77, 0x88);
    let ctx = tab.tasks[th].begin_run();
    assert_eq!((ctx.uctx.r[15], ctx.uctx.r[14], ctx.clear_tid), (0x9000, 0x77, 0x88));
    assert_eq!(tab.tasks[sh].threads, vec![4]);
    assert_eq!(tab.send_signal_group(6, 15, &deaf), 2);
    assert_eq!(tab.tasks[c].sig_queue.len(), 1);
    tab.exit_proc(&mut st, &holding(&[]), c, 3);
    assert_eq!(tab.tasks[sh].event.event & EventBitflag::CHILD_QUIT, EventBitflag::CHILD_QUIT);
    assert_eq!(tab.zombie_tasks(), vec![3]);
    assert_eq!(tab.active_tasks(), vec![1, 2, 4]);
    assert!(tab.terminate_and_collect(&mut st, &holding(&[]), 2, 0));
    assert!(!tab.terminate_and_collect(&mut st, &holding(&[]), 2, 0));
    assert_eq!(tab.tasks[root].subtasks, vec![c, c]);
    assert_eq!(tab.tasks[c].parent, Some(root));
    tab.reap(&mut st, &holding(&[]), 3);
    assert_eq!(tab.active_tasks(), vec![1, 4]);
    tab.register(&mut st, &holding(&[]), c, Pid(50));
    assert_eq!((tab.find(50), tab.tasks[c].pid), (Some(c), Pid(50)));
}

#[test]
fn user_tasks_have_a_terminal() {
    let mut st = Store::new();
    let mut tab = TaskTable::new();
    let t = tab.new_user_task(&mut st, &holding(&[]), "/bin/ls", vec!["ls".to_string()], vec![]);
    assert_eq!(tab.tasks[t].fd_count(), 3);
    assert_eq!((tab.tasks[t].exec_path.as_str(), tab.tasks[t].pid, &tab.tasks[t].threads), ("/bin/ls", Pid(1), &vec![1]));
    let word = std::mem::size_of::<usize>();
    let sp = (0x8000_0000 - (3 + (2 + 2 + 1 + 1) * word)) & !0xF;
    assert_eq!(tab.tasks[t].begin_run().uctx.r[15], sp as u64);
    let err = tab.tasks[t].get_file(2).unwrap();
    assert_eq!(err.write(&mut st, b"oops", &deaf), Ok(4));
    let out = tab.tasks[t].get_file(1).unwrap();
    assert_eq!(out.write(&mut st, b"!", &deaf), Ok(1));
    assert_eq!(st.blobs[1], b"oops!".to_vec());
    let mut b = [0u8; 1];
    assert_eq!(out.read(&mut st, &mut b, &deaf), Err("This file is not readable!"));
}

#[test]
fn groups_pass_signals_on() {
    let mut st = Store::new();
    let mut tab = TaskTable::new();
    let a = tab.spawn(&mut st, &holding(&[]), "a");
    let b = tab.spawn(&mut st, &holding(&[]), "b");
    let mut g = ProcessGroup::new(3, 1, 9);
    g.add_member(2);
    g.add_member(2);
    g.add_member(77);
    assert_eq!((g.member_count(), g.is_empty(), g.is_leader(1), g.is_leader(2)), (3, false, true, false));
    tab.tasks[a].event.sub(5);
    g.broadcast_signal(10, &mut tab, &|id: usize, word: u32| id == 5 && word == EventBitflag::RECV_SIG);
    assert_eq!(tab.tasks[a].event.callback_len(), 0);
    assert_eq!(tab.tasks[a].sig_queue, vec![(10, 1)]);
    assert_eq!(tab.tasks[b].sig_queue, vec![(10, 1)]);
    assert!(g.remove_member(2) && !g.remove_member(2));
    g.set_foreground(true);
    assert!(g.is_foreground());
}

#[test]
fn whoever_is_let_go_closes_its_pipes() {
    let mut st = Store::new();
    let mut tab = TaskTable::new();
    let root = tab.spawn_root(&mut st, &holding(&[]));
    let a = tab.spawn(&mut st, &holding(&[]), "a");
    let b = tab.spawn(&mut st, &holding(&[]), "b");
    let (r, w) = PipeNode::pair(&mut st);
    tab.tasks[a].add_file(FileLike::Pipe(r));
    tab.tasks[b].add_file(FileLike::Pipe(w));
    st.pipes[0].bus.sub(1);
    // `b` is referred to by `a` alone, and `a` by whoever holds it.
    tab.tasks[a].link_parent(b);
    tab.reap(&mut st, &holding(&[a]), 2);
    tab.reap(&mut st, &holding(&[a]), 3);
    assert_eq!((tab.count(), st.pipes[0].ends, st.pipes[0].bus.callback_len()), (1, 2, 1));
    let out = Outside { run: |id: usize, word: u32| id == 1 && word == EventBitflag::CLOSED, held: vec![] };
    tab.let_go(&mut st, &out);
    assert_eq!((st.pipes[0].ends, st.pipes[0].bus.event, st.pipes[0].bus.callback_len()), (0, EventBitflag::CLOSED, 0));
    assert_eq!((tab.tasks[a].fd_count(), tab.tasks[b].fd_count(), tab.tasks[a].parent), (0, 0, None));
    assert_eq!(tab.find(1), Some(root));
    // Whoever is pushed out from under its number is let go too.
    let c = tab.spawn(&mut st, &out, "c");
    let (r, _w) = PipeNode::pair(&mut st);
    tab.tasks[c].add_file(FileLike::Pipe(r));
    tab.register(&mut st, &out, root, Pid(4));
    assert_eq!((tab.find(4), st.pipes[1].ends), (Some(root), 1));
}

#[test]
fn new_numbers_are_unused() {
    let mut st = Store::new();
    let mut tab = TaskTable::new();
    let out = holding(&[]);
    for n in 1..5 {
        assert_eq!((tab.seq, tab.find(n)), (n, None));
        let t = tab.spawn(&mut st, &out, "x");
        assert_eq!(tab.find(n), Some(t));
    }
    tab.reap(&mut st, &out, 2);
    assert!(tab.terminate_and_collect(&mut st, &out, 3, 0));
    assert_eq!((tab.seq, tab.find(2), tab.find(3), tab.find(5)), (5, None, None, None));
}
