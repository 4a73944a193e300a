# muse_os

The logic of a small RISC-V operating system, its disk image builder, its user
library and a small board's system, as plain state machines and functions whose
contracts are proved.

What runs on a machine is split in two. `src/` decides: it takes state and plain
values (register contents, clock readings, received bytes) and returns the new
state and what is to be done. `app/` does it: instructions, registers, files.

| Where | What |
| --- | --- |
| `src/mem` | frames, page tables, address spaces, their copies and their end, the heap |
| `src/task` | processes, run queues, waiting, groups, paths, program images, start-up |
| `src/trap` | trap frames, the trap handler, starting the harts |
| `src/sys` | descriptors, files and processes as calls see them, all calls |
| `src/fs` | disk, cache, journal, the file system on disk and in memory, pipes |
| `src/net` | frames and segments, connections, sockets, the device |
| `src/hw` | firmware calls, timer, interrupt controller, serial chip, disk queue |
| `src/user` | formatting, arguments, calls, names, web pages, small programs |
| `src/mkfs` | the disk image builder, and what the kernel sees of its images |
| `src/eos` | the board: three tasks, traps, timer, shell |
| `src/logic.rs` | page-table arithmetic, record checksums, scheduling shares |
| `tests` | the library from outside |
| `app` | the image builder's program, the kernel and the board on their machines, what programs are linked with |

Laws that hold over several functions are public proof functions named `law_..`,
next to the functions they are about or in a `laws` module.
