# rcore_kernel

The decision logic of a small teaching kernel, verified with Verus.

- `src/deadlock.rs` — deadlock detection over the banker's tables (available,
  allocation, need), proved to report a deadlock exactly when some set of
  threads can never obtain what it waits for, and equivalently when no safe
  sequence exists.
- `src/resources.rs` — the tables a process keeps for its mutexes or
  semaphores, and how creating, requesting, obtaining and giving back a
  primitive changes them.
- `src/sync.rs` — the synchronisation system calls of a process.
- `src/scheduler.rs` — the ready queue, first-in first-out or by stride.
- `src/memory.rs` — the checks of `mmap` and `munmap`.
- `src/process.rs` — `waitpid`, `get_time` and the other process calls.
- `src/vfs.rs` — the file system: lookup, create, hard links, unlink and
  listing in the root directory, with link counts kept equal to the number of
  names, and reading, writing and clearing file contents.
- `app/` — the kernel side: the global ready queue and the system calls that
  read the running kernel's state, block on primitives and carry out what the
  library decided.
