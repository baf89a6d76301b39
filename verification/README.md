# Praesidium

The core of a capability microkernel, written and verified in Verus: every operation states what
it does, and what the kernel promises as a whole is proved as laws over the same models.

## Layout

- `src/cap`: capabilities, the derivation tree, CSpaces and budgets. `laws.rs` holds what the
  operations keep together: rights only narrow, revocation is complete, budgets are conserved,
  retyped objects are disjoint and cleared. `history.rs` holds what stays true over any number of
  operations: no frame is retyped twice, and no identity of processor time is used again.
- `src/abi`: the `.pex` image format with its parser and encoder, and the invocation interface.
- `src/ipc`: messages, endpoints and notifications.
- `src/mem`: frames, the buddy allocator, slabs and untyped memory.
- `src/kernel`: boot and memory set-up, page tables for x86-64 and aarch64, the loader, the task
  scheduler, system calls and processes.
- `tests`: scenarios on concrete values.
- `app`: the kernel image around the library: entry, registers, interrupts, the console and the
  boot sequence.

Functions that the library calls for the machine take it as a parameter: `ZeroFrames` clears
frames, `TableMemory` reads and writes page tables. The library has an implementation of each over
plain vectors, and `app/memory.rs` has one over physical memory.
