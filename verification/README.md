# rcore_os

The verified core of a small RISC-V (Sv39) teaching kernel, written in Verus.

* `deadlock` — per-resource deadlock detection (free units, held units and
  needs per thread) with the safety check; `check_dead_lock` is proved to
  answer exactly whether some order lets every thread finish.
* `id` — the recycling allocator of thread and process ids.
* `mm` — Sv39 address arithmetic, page-table entries, the physical frame
  allocator, physical memory, and address spaces (map, unmap, copy, release).
  Only leaf entries are kept; the frames of the page table itself are not
  modelled.
* `task`, `trap` — task control blocks, the round-robin task manager, and the
  saved user registers.
* `syscall` — `exit`, `yield`, `get_time`, `trace`, `mmap`, `munmap`, `sbrk`,
  acting on the task manager, the frame allocator and physical memory that the
  kernel passes in.
* `process` — process control blocks: descriptor and thread-id allocation,
  `new` and `fork` (which register the process in the pid table and queue
  its main thread), and `exec` with the argument block it places on the
  user stack.
* `pack` — the application name the image packer derives from a file name.
* `encode`, `config` — byte layout of machine words; kernel constants.

The kernel's globals (the task manager, the pid allocator, the pid table, the
ready queue, the frame allocator and physical memory) are passed to these
functions as arguments; the context switch, the timer read and the
address-space loading from ELF stay with the caller.

`app/` is the image packer: command line, host files, and the easy-fs calls.
