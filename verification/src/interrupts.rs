//! Interrupt vector numbers and the policy for CPU faults.

use vstd::prelude::*;
use x86_64::registers::segmentation::SegmentSelector;

verus! {

/// Vector of the first line of the primary PIC after remapping.
pub const PIC_1_OFFSET: u8 = 32;
/// Vector of the first line of the secondary PIC after remapping.
pub const PIC_2_OFFSET: u8 = PIC_1_OFFSET + 8;

/// Exit code a user program gets when a fault kills it (128 + SIGSEGV).
pub const KILLED_EXIT_CODE: i64 = 139;

/// The hardware interrupts the kernel handles, by PIC line.
#[derive(Debug, Clone, Copy, PartialEq, Eq, Structural)]
pub enum InterruptIndex {
    Timer,
    Keyboard,
}

impl InterruptIndex {
    /// The vector the interrupt arrives on: the timer on the first line of
    /// the primary PIC, the keyboard on the next one.
    pub fn as_u8(self) -> (v: u8)
        ensures
            v == match self {
                InterruptIndex::Timer => PIC_1_OFFSET,
                InterruptIndex::Keyboard => (PIC_1_OFFSET + 1) as u8,
            },
    {
        match self {
            InterruptIndex::Timer => PIC_1_OFFSET,
            InterruptIndex::Keyboard => PIC_1_OFFSET + 1,
        }
    }
}

/// The requested privilege level of a segment selector, through
/// `x86_64::registers::segmentation::SegmentSelector::rpl`, which reads the
/// selector's two low bits; the ring is returned as its number.
#[verifier::external_body]
fn selector_rpl(selector: u16) -> (r: u8)
    ensures
        r as u16 == selector & 3,
{
    SegmentSelector(selector).rpl() as u8
}

/// What to do about a CPU fault.
#[derive(Debug, Clone, Copy, PartialEq, Eq, Structural)]
pub enum FaultAction {
    /// The fault came from ring 3: end the user program with this code and
    /// resume the kernel.
    KillUser { exit_code: i64 },
    /// The fault came from the kernel itself: report it.
    KernelFault,
}

/// A fault raised from ring 3 kills the user program, not the kernel. Decided
/// on the code segment selector the CPU saved with the faulting context.
pub fn kill_user_if_ring3(code_segment: u16) -> (a: FaultAction)
    ensures
        a == if code_segment & 3 == 3 {
            FaultAction::KillUser { exit_code: KILLED_EXIT_CODE }
        } else {
            FaultAction::KernelFault
        },
{
    if selector_rpl(code_segment) == 3 {
        FaultAction::KillUser { exit_code: KILLED_EXIT_CODE }
    } else {
        FaultAction::KernelFault
    }
}

} // verus!
