# chaos_kernel

A small teaching kernel whose behaviour is stated and proved: bit tricks, clocks and timers,
locks and wait queues, files, pipes and mounts, a disk with its cache, processes and their
table, scheduling, and the system calls.

The library under `src/` has no threads and no shared cells. Whatever the kernel keeps is a
plain value, and every operation says in its contract what it returns and what the value is
afterwards. Files, cursors and pipes that several handles share live in a store and are named by
their places in it; processes live in a table and disks in a set, and are named in the same way. A
thread that has to wait is named by a number: operations queue it, or return the numbers of those
to wake. Whoever waits for an event is called before the operation that brings it about ends, and
a process that nobody refers to any more is dropped then and closes its files.

- `bits`, `word`, `text`, `scan`, `codec`, `circbuf`, `ordered`, `sequences`: numbers, bytes and
  sequences
- `time`, `sync`: the clock and the timer wheel; locks, events, semaphores, futexes, queues and
  channels
- `fs`: files, pipes, epoll sets, mounts, the request queue, disks and the block cache
- `cpu`, `memory`, `elf`, `net`, `terminal`: contexts and traps, pages and frames, headers and
  checksums
- `proc`, `schedule`, `registry`, `limits`, `capability`: processes, groups, run queues and what
  they may do
- `kernel`: the state of the kernel, its services, its system calls, and the laws that hold of
  them as a whole

`app/` adds threads that block and wake, memory for stacks, and the shared kernel.
