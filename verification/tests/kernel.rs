use chaos_kernel::fs::filelike::FileLike;
use chaos_kernel::kernel::state::Kernel;
use chaos_kernel::kernel::syscall::{
    SYS_BRK, SYS_CLOCK_GETTIME, SYS_CLOSE, SYS_DUP, SYS_DUP2, SYS_EPOLL_CREATE, SYS_EPOLL_CTL, SYS_EPOLL_WAIT, SYS_EXEC,
    SYS_EXIT, SYS_FCNTL, SYS_FORK, SYS_FSTAT, SYS_FUTEX, SYS_GETPGID, SYS_GETPID, SYS_GETPPID, SYS_IOCTL, SYS_KILL,
    SYS_MMAP, SYS_MUNMAP, SYS_OPEN, SYS_PIPE, SYS_READ, SYS_SETPGID, SYS_SETSID, SYS_SIGPROCMASK, SYS_STAT, SYS_WAIT4,
    SYS_WRITE, SYS_SignalAction,
};
use chaos_kernel::memory::{Platform, UserMemory};
use chaos_kernel::proc::table::Outside;

type R = Result<usize, &'static str>;

type Run = fn(usize, u32) -> bool;

/// Nobody listens and nobody holds anything.
fn alone() -> Outside<Run> {
    Outside { run: |_id, _word| false, held: vec![] }
}

fn kernel(frames: usize) -> Kernel {
    let p = Platform { kern_base: 0x8000_0000, kheap_sz: 0x40_0000, mem_off: 0x10_0000, nsig: 64 };
    Kernel::new(frames, p, UserMemory { ranges: vec![(0x1000, 0x7000_0000)] })
}

/// A kernel with a root process and a second one that runs.
fn running() -> Kernel {
    let mut k = kernel(65536);
    k.proc_init(&alone(), 0x9000);
    let t = k.tasks.spawn(&mut k.store, &alone(), "sh");
    k.set_cur(&alone(), 0, Some(t));
    k
}

fn call(k: &mut Kernel, nr: usize, a: &[usize]) -> R {
    let g = |i: usize| if i < a.len() { a[i] } else { 0 };
    k.dispatch_syscall(&alone(), nr, g(0), g(1), g(2), g(3), g(4), g(5))
}

#[test]
fn adv_scheduler_fs_memory_deadlock_chain() {
    let mut k = kernel(64);

    // key=0 maps to cache chain 0: (0 ^ (0 >> 7)) % 64 == 0
    let key: usize = 0;

    // A first thread looks for the block and waits for the disk meanwhile.
    let tick_before = k.clk.wall;
    assert!(k.cache.lookup(key).is_none());

    // A second one ticks under the kernel lock and goes through all chains.
    k.tick(1, 2);

    // A third one needs the kernel lock for a frame.
    let done = k.pool.get(&mut k.gkl, 100, 3).is_some();
    assert!(done, "deadlock: fetch holds chain lock while sleeping, tick holds GKL while spinning on chain lock, pool.get blocked on GKL");

    assert_eq!(k.cache.fill(key, tick_before).len(), 512);
    assert!(k.cache.lookup(key).is_some());
}

#[test]
fn processors_terminal_and_clock() {
    let mut k = kernel(4);
    assert!(!k.handle_pgfault(0x1234));
    k.proc_init(&alone(), 0x9000);
    assert_eq!(k.tasks.tasks[0].kernel_stack.map(|s| s.top()), Some(0xD000));
    assert_eq!(k.tasks.tasks[0].threads, vec![1]);
    k.set_cur(&alone(), 0, Some(0));
    k.set_cur(&alone(), 99, Some(0));
    assert_eq!((k.cur_task(0), k.cur_task(1), k.cur_task(99)), (Some(0), None, None));
    assert!(k.handle_pgfault_ext(0x1234, 2));
    k.tty_push(13);
    k.tty_push(b'x');
    assert_eq!((k.tty_pop(), k.tty_pop(), k.tty_pop()), (Some(10), Some(b'x'), None));
    for _ in 0..5000 {
        k.tty_push(1);
    }
    assert_eq!(k.tty_buf.len(), 4096);
    k.schedule_tick(0);
    k.schedule_tick(1);
    assert_eq!((k.clk.wall, k.clk.all), (1, 2));
    assert!(!k.run_once(0));
    assert_eq!(k.balance_load(), 1);
}

#[test]
fn pages_come_and_go() {
    let mut k = kernel(4);
    let p = k.alloc_pages(3);
    assert_eq!(p, vec![0x10_0000, 0x10_1000, 0x10_2000]);
    assert_eq!(k.memory_pressure(), 75);
    k.free_pages(&p[1..2]);
    assert_eq!(k.alloc_pages(5), vec![0x10_1000, 0x10_3000]);
    assert_eq!(k.memory_pressure(), 100);
    k.free_pages(&[0x10_0000, 0x90_0000]);
    assert_eq!(k.pool.free_count(), 1);
    assert_eq!(kernel(0).memory_pressure(), 100);
    assert_eq!(k.cache_stats(), (0, 0));
}

#[test]
fn pages_are_the_lowest_free_ones() {
    let mut k = kernel(6);
    k.pool.slots = vec![false, true, false, true, true, false];
    let p = k.alloc_pages(2);
    assert_eq!(p, vec![0x10_1000, 0x10_3000]);
    assert_eq!(k.pool.slots, vec![false, false, false, false, true, false]);
    k.free_pages(&p);
    assert_eq!(k.pool.slots, vec![false, true, false, true, true, false]);
    assert_eq!(k.alloc_pages(9).len(), 3);
}

#[test]
fn events_of_tasks_and_pipes_are_delivered() {
    let mut k = running();
    assert_eq!(k.do_pipe(2), Ok((0, 1)));
    k.tasks.tasks[0].event.sub(1);
    k.tasks.tasks[1].event.sub(2);
    k.store.pipes[0].bus.sub(3);
    k.tasks.tasks[1].link_parent(0);
    let quit: Run = |id, word| match id {
        1 => word & 0x800 != 0,
        2 => word & 0x400 != 0,
        _ => false,
    };
    assert_eq!(k.dispatch_syscall(&Outside { run: quit, held: vec![] }, SYS_EXIT, 0, 0, 0, 0, 0, 0), Ok(0));
    assert_eq!(k.tasks.tasks[0].event.callback_len(), 0);
    assert_eq!(k.tasks.tasks[1].event.callback_len(), 0);
    assert_eq!((k.store.pipes[0].bus.callback_len(), k.store.pipes[0].bus.notices.len()), (1, 0));
    assert_eq!(k.store.pipes[0].bus.event, 8);
}

#[test]
fn a_process_that_nobody_refers_to_closes_its_pipes() {
    let mut k = running();
    let t = k.tasks.spawn(&mut k.store, &alone(), "w");
    assert_eq!(k.do_pipe(3), Ok((0, 1)));
    k.store.pipes[0].bus.sub(9);
    k.tasks.tasks[t].link_parent(0);
    k.set_cur(&alone(), 1, Some(t));
    k.tasks.tasks[t].info.status = Some(0);
    let held = Outside { run: alone().run, held: vec![t] };
    assert_eq!(k.reclaim_zombies(&held), 1);
    assert_eq!((k.tasks.find(3), k.store.pipes[0].ends), (None, 2));
    k.set_cur(&held, 1, None);
    assert_eq!(k.store.pipes[0].ends, 2);
    let told: Run = |id, word| id == 9 && word == 8;
    k.set_cur(&Outside { run: told, held: vec![] }, 2, None);
    assert_eq!((k.store.pipes[0].ends, k.store.pipes[0].bus.event), (0, 8));
    assert_eq!(k.store.pipes[0].bus.callback_len(), 0);
    assert_eq!((k.tasks.tasks[t].fd_count(), k.tasks.tasks[t].parent), (0, None));
}

#[test]
fn paths_are_looked_up() {
    let mut k = kernel(1);
    k.mnt.bind("/m", "d");
    assert_eq!(k.lookup_path(""), Err("enoent"));
    assert_eq!(k.lookup_path("/m//x"), Ok("d:/x".to_string()));
    assert_eq!(k.lookup_path(&"/m".repeat(9)), Err("mount depth exceeded"));
}

#[test]
fn children_are_forked_and_waited_for() {
    let mut k = running();
    k.tasks.tasks[1].vm_token = 77;
    assert_eq!(k.do_fork(&alone(), 9), Err("esrch"));
    assert_eq!(k.do_wait(&alone(), 9, -1, 0), Err("esrch"));
    assert_eq!(k.do_wait(&alone(), 2, -1, 0), Err("echild"));
    assert_eq!(k.do_fork(&alone(), 2), Ok(3));
    assert_eq!(k.tasks.tasks[2].vm_token, 77);
    assert_eq!(k.do_fork(&alone(), 2), Ok(4));
    assert_eq!(k.do_wait(&alone(), 2, -1, 0), Err("echild"));
    assert_eq!(k.do_wait(&alone(), 2, -1, 1), Ok((0, 0)));
    k.tasks.exit_proc(&mut k.store, &alone(), 3, 0x105);
    assert_eq!(k.do_wait(&alone(), 2, 3, 1), Ok((0, 0)));
    assert_eq!(k.do_wait(&alone(), 2, -7, 1), Ok((0, 0)));
    assert_eq!(k.do_wait(&alone(), 2, 0, 0), Ok((4, 0x105)));
    assert_eq!(k.tasks.find(4), None);
    k.tasks.exit_proc(&mut k.store, &alone(), 2, 1);
    assert_eq!(k.reclaim_zombies(&alone()), 1);
    assert_eq!(k.tasks.count(), 2);
}

#[test]
fn exec_closes_marked_files_and_pipes_work() {
    let mut k = running();
    assert_eq!(call(&mut k, SYS_OPEN, &[0x1000, 2 | 0o2000000]), Ok(0));
    assert_eq!(call(&mut k, SYS_OPEN, &[0x1000, 0]), Ok(1));
    assert_eq!(k.do_pipe(2), Ok((2, 3)));
    assert_eq!(k.do_pipe(9), Err("esrch"));
    assert_eq!(k.do_exec(9, "/x", vec![], vec![]), Err("esrch"));
    assert_eq!(k.do_exec(2, "/x", vec!["x".to_string()], vec![]), Ok(()));
    assert!(k.tasks.tasks[1].get_file(0).is_none() && k.tasks.tasks[1].get_file(1).is_some());
    let c = k.tasks.tasks[1].begin_run();
    assert_eq!((c.uctx.ip, c.uctx.r[15] % 16), (0x40_0000, 0));
    let w = k.tasks.tasks[1].get_file(3).unwrap();
    assert_eq!(w.write(&mut k.store, b"hi", &alone().run), Ok(2));
    let r = k.tasks.tasks[1].get_file(2).unwrap();
    let mut b = [0u8; 2];
    assert_eq!(r.read(&mut k.store, &mut b, &alone().run), Ok(2));
    assert_eq!(&b, b"hi");
}

#[test]
fn reads_and_writes_check_their_buffers() {
    let mut k = running();
    assert_eq!(call(&mut k, SYS_READ, &[5, 0, 1]), Err("efault"));
    assert_eq!(call(&mut k, SYS_READ, &[5, 0, 0]), Ok(0));
    assert_eq!(call(&mut k, SYS_READ, &[5, 0x10, 1]), Err("efault"));
    assert_eq!(call(&mut k, SYS_READ, &[5, 0x1000, 70000]), Ok(65536));
    k.cache.fill(5, 0);
    assert_eq!(call(&mut k, SYS_READ, &[5, 0x1000, 70000]), Ok(70000 - 4096));
    assert_eq!(call(&mut k, SYS_READ, &[5, 0x1000, 4096]), Ok(4096));
    assert_eq!(call(&mut k, SYS_WRITE, &[5, 0x1010, 100]), Ok(100));
    assert_eq!(call(&mut k, SYS_WRITE, &[5, 0x1010, 5000]), Ok(5016));
    assert_eq!(call(&mut k, SYS_WRITE, &[5, 0, 1]), Err("efault"));
    assert_eq!(call(&mut k, SYS_FCNTL, &[5, 1, 0]), Ok(1));
    assert_eq!(k.disk.total_ops(&k.disks), 0);
    assert_eq!(call(&mut k, SYS_WRITE, &[1, 0x1000, 1]), Ok(1));
    assert_eq!(k.disk.total_ops(&k.disks), 1);
    assert_eq!(call(&mut k, SYS_CLOSE, &[5]), Ok(0));
    assert_eq!(k.disk.total_ops(&k.disks), 2);
    assert_eq!(call(&mut k, SYS_CLOSE, &[5]), Ok(0));
    assert_eq!(call(&mut k, SYS_CLOSE, &[1025]), Err("ebadf"));
    assert_eq!(k.disk.total_ops(&k.disks), 2);
    assert_eq!(k.cache.lookup(5), None);
}

#[test]
fn files_open_and_duplicate() {
    let mut k = kernel(10);
    assert_eq!(call(&mut k, SYS_OPEN, &[0x1041, 0]), Ok(3 + 0x1041 % 64));
    assert_eq!(call(&mut k, SYS_OPEN, &[0, 0]), Err("efault"));
    assert_eq!(call(&mut k, SYS_OPEN, &[0x10, 0]), Err("efault"));
    assert_eq!(call(&mut k, SYS_DUP, &[7]), Ok(8));
    assert_eq!(call(&mut k, SYS_PIPE, &[0x1000]), Err("esrch"));
    let mut k = running();
    k.cache.fill(0x1000, 0);
    assert_eq!(call(&mut k, SYS_OPEN, &[0x1000, 0o300]), Err("eexist"));
    assert_eq!(call(&mut k, SYS_OPEN, &[0x1000, 0o100 | 1 | 0o2000]), Ok(0));
    match k.tasks.tasks[1].get_file(0).unwrap() {
        FileLike::File(f) => {
            let o = f.get_opt(&k.store);
            assert_eq!((f.path.as_str(), o.read, o.write, o.append, f.cloexec), ("anon", false, true, true, false));
        }
        _ => panic!("file"),
    }
    assert_eq!(call(&mut k, SYS_PIPE, &[0x1000]), Ok(1 | (2 << 32)));
    assert_eq!(call(&mut k, SYS_PIPE, &[0]), Err("efault"));
    assert_eq!(call(&mut k, SYS_DUP, &[0]), Ok(3));
    assert_eq!(call(&mut k, SYS_DUP, &[1024]), Err("ebadf"));
    assert_eq!(call(&mut k, SYS_DUP2, &[0, 1]), Ok(1));
    assert_eq!(k.store.pipes[0].ends, 1);
    assert_eq!(call(&mut k, SYS_DUP2, &[9, 2]), Err("ebadf"));
    assert_eq!(k.tasks.tasks[1].fd_count(), 2);
    assert_eq!(call(&mut k, SYS_DUP2, &[9, 9]), Ok(9));
    assert_eq!(call(&mut k, SYS_DUP2, &[0, 1024]), Err("ebadf"));
    for _ in 0..126 {
        assert!(call(&mut k, SYS_PIPE, &[0x1000]).is_ok());
    }
    assert_eq!(k.tasks.tasks[1].fd_count(), 254);
    assert!(call(&mut k, SYS_PIPE, &[0x1000]).is_ok());
    assert_eq!(call(&mut k, SYS_PIPE, &[0x1000]), Err("emfile"));
}

#[test]
fn small_file_calls_answer() {
    let mut k = running();
    assert_eq!(call(&mut k, SYS_STAT, &[0x1000, 0x2000]), Ok(0));
    assert_eq!(call(&mut k, SYS_STAT, &[0, 0x2000]), Err("efault"));
    assert_eq!(call(&mut k, SYS_FSTAT, &[0, 0x2000]), Ok(0));
    assert_eq!(call(&mut k, SYS_FSTAT, &[0, 0]), Err("efault"));
    for cmd in [0x5401, 0x5402, 0x540F, 0x5410, 0x5413, 0x5421] {
        assert_eq!(call(&mut k, SYS_IOCTL, &[0, cmd, 0x1000]), Ok(0));
        assert_eq!(call(&mut k, SYS_IOCTL, &[0, cmd, 0]), Err("efault"));
    }
    assert_eq!(call(&mut k, SYS_IOCTL, &[0, 0x5450, 0]), Ok(0));
    assert_eq!(call(&mut k, SYS_IOCTL, &[0, 0x5451, 0]), Ok(0));
    assert_eq!(call(&mut k, SYS_IOCTL, &[0, 1, 0]), Err("enotty"));
    k.clk.wall = 6;
    assert_eq!(call(&mut k, SYS_FCNTL, &[3, 0, 10]), Ok(12));
    assert_eq!(call(&mut k, SYS_FCNTL, &[30, 1030, 10]), Ok(31));
    assert_eq!(call(&mut k, SYS_FCNTL, &[3, 1, 0]), Ok(0));
    assert_eq!(call(&mut k, SYS_FCNTL, &[3, 2, 1]), Ok(0));
    assert_eq!(call(&mut k, SYS_FCNTL, &[2, 3, 0]), Ok(0o6000));
    assert_eq!(call(&mut k, SYS_FCNTL, &[3, 3, 0]), Ok(0o4000));
    assert_eq!(call(&mut k, SYS_FCNTL, &[3, 4, 0o6000]), Ok(0));
    assert_eq!(call(&mut k, SYS_FCNTL, &[3, 4, 1]), Err("einval"));
    assert_eq!(call(&mut k, SYS_FCNTL, &[3, 5, 0x1000]), Ok(0));
    assert_eq!(call(&mut k, SYS_FCNTL, &[3, 7, 0]), Err("efault"));
    assert_eq!(call(&mut k, SYS_FCNTL, &[3, 99, 0]), Err("einval"));
    assert_eq!(call(&mut k, SYS_FCNTL, &[1024, 0, 0]), Err("ebadf"));
    assert_eq!(call(&mut k, 999, &[]), Err("enosys"));
}

#[test]
fn memory_calls() {
    let mut k = running();
    assert_eq!(call(&mut k, SYS_MMAP, &[0, 0]), Err("einval"));
    assert_eq!(call(&mut k, SYS_MMAP, &[0x5000, 100, 3, 0x30]), Ok(0x5000));
    k.clk.wall = 2;
    assert_eq!(call(&mut k, SYS_MMAP, &[0, 100, 3, 0x20, 3]), Ok(0x7000_0000 + 5 * 4096));
    assert_eq!(call(&mut k, SYS_MMAP, &[0, 4096, 3, 0, 3, 8192]), Err("einval"));
    assert_eq!(call(&mut k, SYS_MMAP, &[0x5000, 65537 * 4096, 3, 0x30]), Err("enomem"));
    assert_eq!(call(&mut k, SYS_MUNMAP, &[0x5000, 100]), Ok(0));
    assert_eq!(call(&mut k, SYS_MUNMAP, &[0x5001, 100]), Err("einval"));
    assert_eq!(call(&mut k, SYS_BRK, &[0]), Ok(0x40_0000));
    assert_eq!(call(&mut k, SYS_BRK, &[0x8000_0000]), Err("enomem"));
    assert_eq!(call(&mut k, SYS_BRK, &[4097]), Ok(8192));
    assert_eq!(k.pool.free_count(), 65536 - 2);
    assert_eq!(k.tasks.tasks[1].vm_token, 8192);
    assert_eq!(call(&mut k, SYS_BRK, &[1]), Ok(4096));
    assert_eq!(k.pool.free_count(), 65536 - 2);
    assert_eq!(call(&mut k, SYS_BRK, &[0x7FFF_0000]), Err("enomem"));
    assert_eq!(k.tasks.tasks[1].vm_token, 4096);
}

#[test]
fn process_calls() {
    let mut k = kernel(10);
    assert_eq!(call(&mut k, SYS_GETPID, &[]), Ok(1));
    assert_eq!(call(&mut k, SYS_GETPPID, &[]), Ok(0));
    assert_eq!(call(&mut k, SYS_GETPGID, &[0]), Err("esrch"));
    assert_eq!(call(&mut k, SYS_SETSID, &[]), Err("esrch"));
    assert_eq!(call(&mut k, SYS_EXIT, &[1]), Ok(0));
    assert_eq!(call(&mut k, SYS_FORK, &[]), Err("enomem"));
    assert_eq!(k.tasks.seq, 2);
    let mut k = running();
    assert_eq!(call(&mut k, SYS_FORK, &[]), Ok(3));
    assert_eq!(call(&mut k, SYS_FORK, &[]), Ok(4));
    k.tasks.tasks[1].link_parent(0);
    assert_eq!(call(&mut k, SYS_GETPID, &[]), Ok(2));
    assert_eq!(call(&mut k, SYS_GETPPID, &[]), Ok(1));
    assert_eq!(call(&mut k, SYS_SETPGID, &[0, 0]), Ok(0));
    assert_eq!(call(&mut k, SYS_GETPGID, &[0]), Ok(2));
    assert_eq!(call(&mut k, SYS_SETSID, &[]), Err("eperm"));
    assert_eq!(call(&mut k, SYS_SETPGID, &[2, 0xFFFF_FFFF]), Ok(0));
    assert_eq!(call(&mut k, SYS_GETPGID, &[2]), Ok(usize::MAX));
    assert_eq!(call(&mut k, SYS_SETSID, &[]), Ok(2));
    assert_eq!(call(&mut k, SYS_SETPGID, &[1, 5]), Err("esrch"));
    assert_eq!(call(&mut k, SYS_SETPGID, &[77, 5]), Err("esrch"));
    assert_eq!(call(&mut k, SYS_GETPGID, &[77]), Err("esrch"));
    assert_eq!(k.do_fork(&alone(), 2), Ok(5));
    assert_eq!(call(&mut k, SYS_SETPGID, &[5, 9]), Ok(0));
    assert_eq!(call(&mut k, SYS_EXEC, &[0x1000, 0x1000, 0x1000]), Ok(0));
    assert_eq!(call(&mut k, SYS_EXEC, &[0x1000, 0, 1]), Err("efault"));
    assert_eq!(call(&mut k, SYS_EXEC, &[0]), Err("efault"));
}

#[test]
fn waiting_and_exiting() {
    let mut k = running();
    assert_eq!(k.do_fork(&alone(), 2), Ok(3));
    assert_eq!(k.do_fork(&alone(), 2), Ok(4));
    let any = usize::MAX;
    assert_eq!(call(&mut k, SYS_WAIT4, &[any, 1]), Err("efault"));
    assert_eq!(call(&mut k, SYS_WAIT4, &[any, 0, 0, 1]), Err("efault"));
    assert_eq!(call(&mut k, SYS_WAIT4, &[any, 0x1000]), Err("echild"));
    assert_eq!(call(&mut k, SYS_WAIT4, &[any, 0, 1]), Ok(0));
    k.tasks.exit_proc(&mut k.store, &alone(), 2, 9);
    k.tasks.exit_proc(&mut k.store, &alone(), 3, 9);
    assert_eq!(call(&mut k, SYS_WAIT4, &[any]), Ok(3));
    assert_eq!(call(&mut k, SYS_WAIT4, &[0]), Ok(4));
    assert_eq!(call(&mut k, SYS_WAIT4, &[3]), Ok(3));
    assert_eq!(call(&mut k, SYS_WAIT4, &[2]), Err("echild"));
    assert_eq!(call(&mut k, SYS_WAIT4, &[2, 0, 1]), Ok(0));
    assert_eq!(call(&mut k, SYS_WAIT4, &[99]), Err("echild"));
    assert_eq!(call(&mut k, SYS_WAIT4, &[usize::MAX - 6]), Err("echild"));
    for t in 0..4 {
        k.tasks.tasks[t].pgid = 7;
    }
    assert_eq!(call(&mut k, SYS_WAIT4, &[usize::MAX - 6]), Ok(3));
    k.tasks.tasks[1].link_parent(0);
    assert_eq!(call(&mut k, SYS_EXIT, &[0x2FE]), Ok(0));
    let t = &k.tasks.tasks[1];
    assert_eq!((t.exit_code, t.info.status), (0x2FE, Some(0xFE)));
    assert_eq!(k.tasks.tasks[0].sig_queue, vec![(17, 2)]);
    assert_eq!(k.tasks.tasks[0].subtasks, vec![2, 2, 3, 3]);
    assert_eq!(k.tasks.tasks[2].parent, Some(0));
}

#[test]
fn signals_are_sent() {
    let mut k = running();
    assert_eq!(k.do_fork(&alone(), 2), Ok(3));
    assert_eq!(call(&mut k, SYS_KILL, &[2, 65]), Err("einval"));
    assert_eq!(call(&mut k, SYS_KILL, &[1, 9]), Err("eperm"));
    assert_eq!(call(&mut k, SYS_KILL, &[usize::MAX, 19]), Err("eperm"));
    assert_eq!(call(&mut k, SYS_KILL, &[0, 9]), Err("eperm"));
    assert_eq!(call(&mut k, SYS_KILL, &[2, 9]), Ok(0));
    assert_eq!(k.tasks.tasks[1].sig_queue, vec![(9, -1)]);
    assert_eq!(call(&mut k, SYS_KILL, &[usize::MAX, 15]), Ok(2));
    assert_eq!(k.tasks.tasks[2].sig_queue, vec![(15, -1)]);
    assert_eq!(k.tasks.tasks[0].sig_queue.len(), 0);
    assert_eq!(call(&mut k, SYS_KILL, &[0, 16]), Ok(3));
    k.tasks.tasks[2].pgid = 8;
    assert_eq!(call(&mut k, SYS_KILL, &[usize::MAX - 7, 17]), Ok(1));
    assert_eq!(call(&mut k, SYS_KILL, &[usize::MAX - 8, 17]), Err("esrch"));
    assert_eq!(call(&mut k, SYS_KILL, &[50, 17]), Err("esrch"));
    k.tasks.exit_proc(&mut k.store, &alone(), 2, 0);
    assert_eq!(call(&mut k, SYS_KILL, &[3, 17]), Err("esrch"));
    assert_eq!(call(&mut k, SYS_KILL, &[3, 0]), Ok(0));
    let mut lone = kernel(1);
    assert_eq!(call(&mut lone, SYS_KILL, &[0, 5]), Ok(0));
    assert_eq!(call(&mut lone, SYS_KILL, &[usize::MAX, 5]), Err("esrch"));
}

#[test]
fn signal_masks_leave_two_out() {
    let mut k = running();
    assert_eq!(call(&mut k, SYS_SIGPROCMASK, &[0, 1]), Err("efault"));
    assert_eq!(call(&mut k, SYS_SIGPROCMASK, &[0, 0, 1]), Err("efault"));
    assert_eq!(call(&mut k, SYS_SIGPROCMASK, &[0, 0x8_0203]), Ok(0));
    assert_eq!(k.tasks.tasks[1].sig_mask, 3);
    assert_eq!(call(&mut k, SYS_SIGPROCMASK, &[1, 0x10_0001]), Ok(0));
    assert_eq!(k.tasks.tasks[1].sig_mask, 2);
    assert_eq!(call(&mut k, SYS_SIGPROCMASK, &[2, 0x1_0200]), Ok(0));
    assert_eq!(k.tasks.tasks[1].sig_mask, 0x1_0000);
    assert_eq!(call(&mut k, SYS_SIGPROCMASK, &[3, 0x1000]), Err("einval"));
    assert_eq!(call(&mut k, SYS_SIGPROCMASK, &[3, 0]), Ok(0));
    assert_eq!(call(&mut k, SYS_SignalAction, &[9, 0x1000, 0x1000]), Ok(0));
    assert_eq!(call(&mut k, SYS_SignalAction, &[9, 1, 0]), Err("efault"));
    assert_eq!(call(&mut k, SYS_SignalAction, &[15, 0, 0]), Err("einval"));
    assert_eq!(call(&mut k, SYS_SignalAction, &[0, 0, 0]), Err("einval"));
    assert_eq!(call(&mut k, SYS_SignalAction, &[64, 0, 0]), Err("einval"));
}

#[test]
fn event_calls() {
    let mut k = running();
    assert_eq!(call(&mut k, SYS_EPOLL_CREATE, &[0]), Err("einval"));
    assert_eq!(call(&mut k, SYS_EPOLL_CREATE, &[62]), Ok(4));
    assert_eq!(call(&mut k, SYS_EPOLL_CREATE, &[usize::MAX]), Err("enomem"));
    assert_eq!(call(&mut k, SYS_EPOLL_CTL, &[0, 1, 0, 0x1000]), Ok(0));
    assert_eq!(call(&mut k, SYS_EPOLL_CTL, &[0, 3, 0, 0]), Err("efault"));
    assert_eq!(call(&mut k, SYS_EPOLL_CTL, &[0, 2, 0, 0]), Ok(0));
    assert_eq!(call(&mut k, SYS_EPOLL_CTL, &[0, 2, 0, 1]), Err("efault"));
    assert_eq!(call(&mut k, SYS_EPOLL_CTL, &[0, 4, 0, 0]), Err("einval"));
    assert_eq!(call(&mut k, SYS_EPOLL_WAIT, &[0, 0, 1]), Err("einval"));
    assert_eq!(call(&mut k, SYS_EPOLL_WAIT, &[0, 0x1000, 4, 10]), Ok(0));
    assert_eq!(call(&mut k, SYS_EPOLL_WAIT, &[0, 0x1000, usize::MAX / 2, 10]), Err("einval"));
    assert_eq!(call(&mut k, SYS_EPOLL_WAIT, &[0, 1, 4, 10]), Err("efault"));
    assert_eq!(call(&mut k, SYS_CLOCK_GETTIME, &[1, 0x1000]), Ok(0));
    assert_eq!(call(&mut k, SYS_CLOCK_GETTIME, &[2, 0x1000]), Err("einval"));
    assert_eq!(call(&mut k, SYS_CLOCK_GETTIME, &[0, 0]), Err("efault"));
    assert_eq!(call(&mut k, SYS_FUTEX, &[0, 0]), Err("efault"));
    assert_eq!(call(&mut k, SYS_FUTEX, &[0x1000, 0x80]), Ok(0));
    assert_eq!(call(&mut k, SYS_FUTEX, &[0x1000, 0, 0, 1]), Err("efault"));
    assert_eq!(call(&mut k, SYS_FUTEX, &[0x1000, 1, 0]), Ok(1));
    assert_eq!(call(&mut k, SYS_FUTEX, &[0x1000, 1, 9]), Ok(2));
    assert_eq!(call(&mut k, SYS_FUTEX, &[0x1000, 3, 100, 0, 0x1000, 100]), Ok(128));
    assert_eq!(call(&mut k, SYS_FUTEX, &[0x1000, 3, 1, 0, 0, 1]), Err("efault"));
    assert_eq!(call(&mut k, SYS_FUTEX, &[0x1000, 5, 0, 0]), Err("efault"));
    assert_eq!(call(&mut k, SYS_FUTEX, &[0x1000, 5, 0, 0x1000]), Ok(0));
    assert_eq!(call(&mut k, SYS_FUTEX, &[0x1000, 9, 5, 0, 0x1000, 50]), Ok(37));
    assert_eq!(call(&mut k, SYS_FUTEX, &[0x1000, 2]), Err("enosys"));
}
