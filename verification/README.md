# sumi_kernel

The logic of a small kernel that runs one Linux program inside a virtual machine, in one address space with it, verified with
Verus. The functions of `src/` have contracts that say what they give back and what they change, and Verus proves the code
against them. What a device does when it is asked is left to the device.

## Layout

- `src/memory`: the page allocator, the kernel heap with its free list in memory, the arenas for small mappings, the table of
  mappings, and the user's address space.
- `src/sched`: threads, run queues, the scheduler of all processors, stealing work, futexes, reaping and cloning.
- `src/net`: sockets over smoltcp, connections within the guest, pipes, epoll sets, waiting, and the virtio network card.
- `src/fs`: file descriptors, and the client of the host's file system with the record of what was asked of it.
- `src/syscall`: the system calls, and which number leads to which.
- `tests`: the library at work.
- `app`: what only the machine can do. It holds the state behind a lock, changes threads, moves frames to the card and enters
  system calls.

## How it is described

The state of a part is a value: a sequence of pages in use, a map of threads, a table of sockets. A contract relates the value
before a call to the value after it. What a device answers is its own affair, so calls to the host's file system, the console,
the card and the network device are recorded in order, and a contract says which requests are made, and what is done with each
answer.

A call that has to wait ends with a change of threads and with what it needs to go on. The machine calls the library again when
the thread runs.
