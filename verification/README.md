# os

The process, scheduling and resource-management logic of a small RISC-V teaching
kernel, written in Verus and verified against its contracts.

Modules under `src/`:

- `config` – kernel constants (page size, stack sizes, the trampoline and trap
  context addresses).
- `task` – task control blocks and the stride arithmetic (`pass = BIG_STRIDE / priority`).
- `manager` – the stride scheduler's ready queue and its order on strides, with the
  proof that a fetch followed by re-queueing keeps all strides within
  `BIG_STRIDE / 2` of each other.
- `deadlock` – the banker's safety check, proved equal to the existence of a safe
  sequence.
- `process` – process control blocks: file descriptors, thread ids, deadlock
  bookkeeping, `fork`, `exec` (with the bytes and layout of the argument stack),
  the program break, and finding a process by pid among a process's descendants.
- `mm` – a page-granular model of an address space (areas, permissions, 39-bit
  virtual addresses).
- `id` – the recycling allocator of thread ids and pids, and per-thread user resources.
- `syscall` – `mmap`, `munmap`, `sbrk`, `waitpid`, `fork`, `exec`, `spawn`,
  `set_priority`, `exit`, `get_time` and the other process system calls, on an
  explicit process, pid allocator and scheduler.
- `trace` – per-task system-call counts.
- `fs` – open flags, hard-link counts, `stat`, open files, and the steps of opening,
  linking and unlinking files.
- `trap` – the trap context an application starts from.

`app/` holds the kernel-wide state behind locks and the entry points that act on
the current task; `tests/` exercises the library.
