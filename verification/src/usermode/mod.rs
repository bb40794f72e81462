//! Ring 3 execution: the user address-space layout and the bookkeeping of
//! the one user program that runs at a time.

pub mod programs;
pub mod syscall;

use vstd::prelude::*;

verus! {

/// Start of the user region: PML4 slot 32, far away from every kernel
/// mapping so the whole subtree can be user-accessible.
pub const USER_BASE: u64 = 0x1000_0000_0000;
/// End of the user code page, the one page mapped at `USER_BASE`.
pub const USER_CODE_TOP: u64 = 0x1000_0000_1000;
/// User stack page start (the stack grows down from `USER_STACK_TOP`).
pub const USER_STACK: u64 = 0x1000_0010_0000;
/// End of the user stack page.
pub const USER_STACK_TOP: u64 = 0x1000_0010_1000;

/// Whether a user program runs and the exit code it has set so far.
pub struct UserMode {
    in_user: bool,
    exit_code: i64,
}

impl UserMode {
    /// True while a ring-3 program is running.
    pub closed spec fn running(&self) -> bool {
        self.in_user
    }

    /// The exit code recorded for the program.
    pub closed spec fn code(&self) -> i64 {
        self.exit_code
    }

    /// No program running, exit code 0.
    pub fn new() -> (u: UserMode)
        ensures
            !u.running(),
            u.code() == 0,
    {
        UserMode { in_user: false, exit_code: 0 }
    }

    /// True while a ring-3 program is running (gates preemption).
    pub fn in_user(&self) -> (b: bool)
        ensures
            b == self.running(),
    {
        self.in_user
    }

    /// Record the program's exit code (from `exit`, or the kill code).
    pub fn set_exit_code(&mut self, code: i64)
        ensures
            final(self).code() == code,
            final(self).running() == old(self).running(),
    {
        self.exit_code = code;
    }

    /// A program starts: its exit code is 0 until it sets one.
    pub fn enter(&mut self)
        ensures
            final(self).running(),
            final(self).code() == 0,
    {
        self.exit_code = 0;
        self.in_user = true;
    }

    /// The program has ended: returns its exit code.
    pub fn leave(&mut self) -> (code: i64)
        ensures
            !final(self).running(),
            code == old(self).code(),
            final(self).code() == old(self).code(),
    {
        self.in_user = false;
        self.exit_code
    }
}

} // verus!
