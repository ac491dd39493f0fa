# Vespertine

The logic of a small capability kernel, written in Rust and verified with
Verus. Every function states what it returns and what it changes, over models
of the data it works on, and is proved to do so and not to panic.

## Layout

- `src/common`: bytes, bits and text.
- `src/hal`: page tables of four levels over a model of physical memory.
- `src/memory`: the buddy allocator of page frames and its per-processor
  magazines, the kernel heap, page trees, range trees, memory objects and those
  of files, and address spaces with their regions, faults and page operations.
- `src/object`, `src/process`: rights, handles, requests to objects, the packets
  that lists are sent in, and the process manager.
- `src/program`: ELF files and how their segments are laid out and filled.
- `src/sched`: the scheduler of one processor, and what becomes of its threads.
- `src/drivers`: PCI configuration space, and virtio block devices with their
  queues.
- `src/storage`: block devices, GUID partition tables, and the ext2 file
  system.
- `src/xtask.rs`: the steps of a build.
- `app`: the command that runs those steps, and the access to ports and device
  registers, with the queue of a block device in the memory shared with it.
- `tests`: the library on concrete values.

Public proof functions whose names begin with `law_` state what holds of the
functions together: what a read gives back of a write, what one call undoes of
another, and what every call keeps.

Only one function is trusted: `is_utf8` in `src/common/text.rs`, which stands
for `core::str::from_utf8`.

The kernel runs many of these functions under a lock or as part of an
asynchronous task. Here they take what they change as a `&mut` parameter, and
what comes from outside (the time, the process that asks, whether interrupts
could be had) as an argument.
