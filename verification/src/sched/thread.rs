//! Kernel thread: an owned stack plus the saved stack pointer while it is
//! switched out.

use vstd::prelude::*;

verus! {

/// Bytes of stack each kernel thread owns.
pub const STACK_SIZE: usize = 16 * 1024;
/// The same stack counted in 8-byte words.
pub const STACK_WORDS: usize = 2048;
/// Words of the frame a context switch leaves on a switched-out stack, low to
/// high: `[r15][r14][r13][r12][rbx][rbp][return address]`.
pub const SWITCH_FRAME_QWORDS: usize = 7;

/// Identifier of a kernel thread; 0 is the bootstrap thread.
#[derive(Debug, Clone, Copy, PartialEq, Eq, Structural)]
pub struct ThreadId(pub u64);

impl ThreadId {
    /// Hands out the id `counter` holds and moves the counter on by one,
    /// wrapping at the end of `u64` like the atomic counter it models.
    pub fn next(counter: &mut u64) -> (id: ThreadId)
        ensures
            id == ThreadId(*old(counter)),
            *final(counter) == (if *old(counter) == u64::MAX {
                0
            } else {
                (*old(counter) + 1) as u64
            }),
    {
        let id = ThreadId(*counter);
        *counter = counter.wrapping_add(1);
        id
    }
}

/// The initial switch frame of a new thread: callee-saved registers zero,
/// the entry function in the r12 slot and the trampoline as return address.
pub open spec fn initial_frame(entry: usize, trampoline: usize) -> Seq<u64> {
    seq![0u64, 0u64, 0u64, entry as u64, 0u64, 0u64, trampoline as u64]
}

/// The 16-byte aligned top of a stack that starts at `base`.
pub open spec fn stack_top(base: usize) -> int {
    ((base + STACK_SIZE) as usize & !0xfusize) as int
}

/// `t`'s own stack is the handed-over `stack`, `STACK_WORDS` long, with the
/// initial switch frame for `entry` and `trampoline` written at the saved
/// stack pointer and every other word as it was.
pub open spec fn holds_initial_frame(t: Thread, stack: Seq<u64>, entry: usize, trampoline: usize) -> bool {
    let k = (t.saved_rsp - t.stack_base()) / 8;
    &&& t.stack_base() <= t.saved_rsp
    &&& (t.saved_rsp - t.stack_base()) % 8 == 0
    &&& k + 7 <= STACK_WORDS
    &&& t.stack() matches Some(s)
    &&& s.len() == STACK_WORDS
    &&& s.subrange(k, k + 7) == initial_frame(entry, trampoline)
    &&& forall|i: int| 0 <= i < k ==> s[i] == stack[i]
    &&& forall|i: int| k + 7 <= i < STACK_WORDS ==> s[i] == stack[i]
}

/// A new thread's stack, read in the order the context switch restores it
/// (r15, r14, r13, r12, rbx, rbp, then the return address): all registers
/// are zero except r12, which holds the entry the trampoline calls, and the
/// switch returns into the trampoline.
pub proof fn lemma_new_frame_enters_entry(t: Thread, stack: Seq<u64>, entry: usize, trampoline: usize)
    requires
        holds_initial_frame(t, stack, entry, trampoline),
    ensures
        t.stack() matches Some(s) && {
            let k = (t.saved_rsp - t.stack_base()) / 8;
            &&& s[k] == 0
            &&& s[k + 1] == 0
            &&& s[k + 2] == 0
            &&& s[k + 3] == entry as u64
            &&& s[k + 4] == 0
            &&& s[k + 5] == 0
            &&& s[k + 6] == trampoline as u64
        },
{
    let s = t.stack()->0;
    let k = (t.saved_rsp - t.stack_base()) / 8;
    let f = s.subrange(k, k + 7);
    assert(f[0] == s[k] && f[1] == s[k + 1] && f[2] == s[k + 2] && f[3] == s[k + 3]);
    assert(f[4] == s[k + 4] && f[5] == s[k + 5] && f[6] == s[k + 6]);
}

/// The stack a thread owns, if any.
pub struct ThreadStack {
    /// Owned stack backing store. `None` for the bootstrap thread, which runs
    /// on the boot stack.
    words: Option<Vec<u64>>,
    /// Address of the first word of the stack when it was handed over.
    base: Ghost<usize>,
}

impl ThreadStack {
    /// The words of the stack, if the thread owns one.
    pub closed spec fn words(&self) -> Option<Seq<u64>> {
        match self.words {
            Some(v) => Some(v@),
            None => None,
        }
    }

    /// Where the stack lies in memory.
    pub closed spec fn base(&self) -> usize {
        self.base@
    }
}

/// A kernel thread.
pub struct Thread {
    pub id: ThreadId,
    /// Saved stack pointer while the thread is not running. Only meaningful
    /// when the thread is parked in the run queue.
    pub saved_rsp: usize,
    /// The thread's own stack.
    pub stack: ThreadStack,
}

impl Thread {
    /// The words of the thread's own stack, if it owns one.
    pub open spec fn stack(&self) -> Option<Seq<u64>> {
        self.stack.words()
    }

    /// Where the thread's stack lies in memory.
    pub open spec fn stack_base(&self) -> usize {
        self.stack.base()
    }

    /// Wraps the currently running boot flow into a schedulable thread.
    pub fn bootstrap() -> (t: Thread)
        ensures
            t.id == ThreadId(0),
            t.saved_rsp == 0,
            t.stack() is None,
    {
        Thread {
            id: ThreadId(0),
            saved_rsp: 0,
            stack: ThreadStack { words: None, base: Ghost(0) },
        }
    }

    /// A new thread that will start in `trampoline`, which calls `entry`.
    ///
    /// `stack` is the thread's stack and `stack_base` the address of its first
    /// word. The switch frame is built just below the 16-byte aligned top of
    /// the stack, and the saved stack pointer points at it.
    pub fn new(
        entry: usize,
        trampoline: usize,
        stack: Vec<u64>,
        stack_base: usize,
        next_id: &mut u64,
    ) -> (t: Thread)
        requires
            stack@.len() == STACK_WORDS,
            stack_base % 8 == 0,
            stack_base + STACK_SIZE <= usize::MAX,
        ensures
            t.id == ThreadId(*old(next_id)),
            *final(next_id) == (if *old(next_id) == u64::MAX {
                0
            } else {
                (*old(next_id) + 1) as u64
            }),
            t.stack_base() == stack_base,
            t.saved_rsp == stack_top(stack_base) - SWITCH_FRAME_QWORDS * 8,
            t.saved_rsp >= stack_base,
            (t.saved_rsp - stack_base) % 8 == 0,
            holds_initial_frame(t, stack@, entry, trampoline),
    {
        let mut stack = stack;
        let end = stack_base + STACK_SIZE;
        let top = end & !0xfusize;
        assert(top <= end && end - top < 16 && (end - top) % 8 == (end % 8)) by (bit_vector)
            requires
                top == end & !0xfusize,
        ;
        let rsp = top - SWITCH_FRAME_QWORDS * 8;
        let idx = (rsp - stack_base) / 8;
        assert(idx == STACK_WORDS - 7 || idx == STACK_WORDS - 8);
        stack.set(idx, 0);
        stack.set(idx + 1, 0);
        stack.set(idx + 2, 0);
        stack.set(idx + 3, entry as u64);
        stack.set(idx + 4, 0);
        stack.set(idx + 5, 0);
        stack.set(idx + 6, trampoline as u64);
        assert(stack@.subrange(idx as int, idx + 7) =~= initial_frame(entry, trampoline));
        Thread {
            id: ThreadId::next(next_id),
            saved_rsp: rsp,
            stack: ThreadStack { words: Some(stack), base: Ghost(stack_base) },
        }
    }
}

} // verus!
