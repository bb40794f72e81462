# kernova

The logic of the Kernova x86-64 hobby kernel as a library verified with Verus,
plus the kernel image around it.

- `src/` — the verified library:
  - `fs/ustar.rs`, `fs/mod.rs`: the ustar archive reader and the read-only
    initrd filesystem behind the `Vfs` trait;
  - `shell.rs`: keyboard decoding, the line editor, the tokenizer and the
    builtin commands;
  - `sched/`: kernel threads (initial switch frame) and the round-robin
    scheduler;
  - `memory.rs`: the frame allocator over the boot memory map;
  - `usermode/`: the user address-space layout, the exit-code bookkeeping of
    a user program, the system-call decoder and the built-in programs;
  - `interrupts.rs`: interrupt vectors and the fault policy (faults from
    ring 3 kill the program);
  - `text.rs`: UTF-8 decoding and string comparison.
- `tests/` — tests of the library.
- `app/` — the kernel image: boot entry, GDT/IDT/PIC setup, interrupt entry
  stubs, paging, context switching and ring-3 entry in assembly, the serial
  console, and the loops that feed hardware events to the library.
