# lib: verified core of a small RISC-V kernel

`src/` is a Verus library: every function in it is verified against its
`requires`/`ensures` contract. It holds the parts of the kernel that decide
things:

- `vm`: the physical page pool, Sv39 page tables (mapping, walking, the
  kernel map), the zone allocator, the tree allocator of small pieces and the
  general allocator that chooses between them.
- `heap`: a first-fit heap of chunks with headers.
- `process`: process state changes, loading an ELF executable into a fresh
  address space, the round-robin queue, blocking on resources, process ids.
- `file`, `fs`: ELF64 headers, and the ext2 superblock, descriptors, inodes
  and directories, read from bytes.
- `device`: register addresses and values for the UART, PLIC and CLINT, and
  the virtio block queue.
- `trap`, `lock`, `id`, `mem`, `param`, `hw`: trap causes, lock state
  transitions, id generation, heap boxes and machine constants.

`app/` is ordinary Rust around it: volatile register access, the rings the
virtio device reads, spin locks on atomics, trap dispatch, and the loops that
read the disk or copy program segments, each asking the library what to do.

`tests/` runs the library on concrete values.
