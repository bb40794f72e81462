//! Kernova kernel logic: the initrd archive reader and its filesystem view,
//! the shell's line editor and command interpreter, the round-robin thread
//! scheduler, the boot frame allocator, the syscall decoder and the
//! fault-handling policy, each with a contract proved by Verus.

pub mod text;
pub mod fs;
pub mod sched;
pub mod memory;
pub mod interrupts;
pub mod usermode;
pub mod shell;
