//! The embedded ring-3 test programs, by name.

use vstd::prelude::*;
use crate::text::str_eq;

verus! {

/// The user programs built into the kernel image.
#[derive(Debug, Clone, Copy, PartialEq, Eq, Structural)]
pub enum Program {
    /// Writes a greeting with `sys_write`, then exits with 42.
    Hello,
    /// Exits with the pid `sys_getpid` returns.
    Getpid,
    /// Dereferences an unmapped address (page fault).
    Fault,
    /// Executes `hlt` in ring 3 (general protection fault).
    Privileged,
}

/// The program the shell's `run` builtin starts for `name`.
pub open spec fn program_named(name: Seq<char>) -> Option<Program> {
    if name == seq!['h', 'e', 'l', 'l', 'o'] {
        Some(Program::Hello)
    } else if name == seq!['g', 'e', 't', 'p', 'i', 'd'] {
        Some(Program::Getpid)
    } else if name == seq!['f', 'a', 'u', 'l', 't'] {
        Some(Program::Fault)
    } else if name == seq!['p', 'r', 'i', 'v'] {
        Some(Program::Privileged)
    } else {
        None
    }
}

/// Look up a runnable program by name (used by the shell's `run` builtin).
pub fn by_name(name: &str) -> (p: Option<Program>)
    ensures
        p == program_named(name@),
{
    proof {
        reveal_strlit("hello");
        reveal_strlit("getpid");
        reveal_strlit("fault");
        reveal_strlit("priv");
    }
    if str_eq(name, "hello") {
        assert("hello"@ =~= seq!['h', 'e', 'l', 'l', 'o']);
        Some(Program::Hello)
    } else if str_eq(name, "getpid") {
        assert("getpid"@ =~= seq!['g', 'e', 't', 'p', 'i', 'd']);
        Some(Program::Getpid)
    } else if str_eq(name, "fault") {
        assert("fault"@ =~= seq!['f', 'a', 'u', 'l', 't']);
        Some(Program::Fault)
    } else if str_eq(name, "priv") {
        assert("priv"@ =~= seq!['p', 'r', 'i', 'v']);
        Some(Program::Privileged)
    } else {
        assert("hello"@ =~= seq!['h', 'e', 'l', 'l', 'o']);
        assert("getpid"@ =~= seq!['g', 'e', 't', 'p', 'i', 'd']);
        assert("fault"@ =~= seq!['f', 'a', 'u', 'l', 't']);
        assert("priv"@ =~= seq!['p', 'r', 'i', 'v']);
        None
    }
}

} // verus!
