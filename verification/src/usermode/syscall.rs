//! The `int 0x80` system call interface: number in rax, arguments in
//! rdi/rsi/rdx, result in rax. Calls: 0 read, 1 write, 2 exit, 3 getpid.

use vstd::prelude::*;
use super::{USER_BASE, USER_CODE_TOP, USER_STACK, USER_STACK_TOP};

verus! {

pub const SYS_READ: u64 = 0;
pub const SYS_WRITE: u64 = 1;
pub const SYS_EXIT: u64 = 2;
pub const SYS_GETPID: u64 = 3;

/// The result a failed call returns (-1).
pub const SYSCALL_ERROR: u64 = u64::MAX;

/// What the kernel does for a system call.
#[derive(Debug, Clone, Copy, PartialEq, Eq, Structural)]
pub enum SyscallAction {
    /// Return this value to the caller.
    Return(u64),
    /// End the program with this exit code.
    Exit(i64),
    /// Print the `len` user bytes at `buf` (rendered by
    /// [`render_user_bytes`]) to the console, then return `len`.
    Write { buf: u64, len: u64 },
}

/// The range `buf..buf + len` lies wholly inside the page `lo..hi`.
pub open spec fn within_page(buf: u64, len: u64, lo: u64, hi: u64) -> bool {
    lo <= buf < hi && buf + len <= hi
}

/// The range `buf..buf + len` lies wholly inside one of the two pages a
/// user program has mapped: its code page or its stack page. Nothing else
/// of the user region is mapped, so the kernel reads no other user address.
pub open spec fn user_range_ok(buf: u64, len: u64) -> bool {
    ||| within_page(buf, len, USER_BASE, USER_CODE_TOP)
    ||| within_page(buf, len, USER_STACK, USER_STACK_TOP)
}

/// The action for system call `num` with arguments `a1`, `a2`, `a3`.
pub open spec fn spec_dispatch(num: u64, a1: u64, a2: u64, a3: u64) -> SyscallAction {
    if num == SYS_READ {
        SyscallAction::Return(0)
    } else if num == SYS_WRITE {
        if a1 != 1 || !user_range_ok(a2, a3) {
            SyscallAction::Return(SYSCALL_ERROR)
        } else {
            SyscallAction::Write { buf: a2, len: a3 }
        }
    } else if num == SYS_EXIT {
        SyscallAction::Exit(a1 as i64)
    } else if num == SYS_GETPID {
        SyscallAction::Return(1)
    } else {
        SyscallAction::Return(SYSCALL_ERROR)
    }
}

/// Decodes a system call. `read` has no input source yet and always reports
/// end of file; `write` accepts only fd 1 and a buffer inside one mapped
/// user page; `exit` ends the program with its argument; `getpid` is 1, as one
/// user process runs at a time; any other number fails.
pub fn dispatch(num: u64, a1: u64, a2: u64, a3: u64) -> (r: SyscallAction)
    ensures
        r == spec_dispatch(num, a1, a2, a3),
{
    if num == SYS_READ {
        SyscallAction::Return(0)
    } else if num == SYS_WRITE {
        sys_write(a1, a2, a3)
    } else if num == SYS_EXIT {
        SyscallAction::Exit(a1 as i64)
    } else if num == SYS_GETPID {
        SyscallAction::Return(1)
    } else {
        SyscallAction::Return(SYSCALL_ERROR)
    }
}

/// `write(fd, buf, len)`: only standard output, and only a buffer that one
/// mapped user page (code or stack) holds entirely; anything else fails
/// without touching memory.
pub fn sys_write(fd: u64, buf: u64, len: u64) -> (r: SyscallAction)
    ensures
        r == spec_dispatch(SYS_WRITE, fd, buf, len),
{
    if fd != 1 {
        return SyscallAction::Return(SYSCALL_ERROR);
    }
    let end = match buf.checked_add(len) {
        Some(e) => e,
        None => return SyscallAction::Return(SYSCALL_ERROR),
    };
    let in_code = USER_BASE <= buf && buf < USER_CODE_TOP && end <= USER_CODE_TOP;
    let in_stack = USER_STACK <= buf && buf < USER_STACK_TOP && end <= USER_STACK_TOP;
    if !(in_code || in_stack) {
        return SyscallAction::Return(SYSCALL_ERROR);
    }
    SyscallAction::Write { buf, len }
}

/// An address of one of the two pages a user program has mapped: the code
/// page `USER_BASE..USER_BASE + 0x1000` or the stack page
/// `USER_STACK..USER_STACK + 0x1000`.
pub open spec fn mapped_user_byte(x: int) -> bool {
    ||| 0x1000_0000_0000 <= x < 0x1000_0000_1000
    ||| 0x1000_0010_0000 <= x < 0x1000_0010_1000
}

/// Every byte of `buf..buf + len` is a mapped user address.
pub open spec fn all_bytes_mapped(buf: u64, len: u64) -> bool {
    forall|x: int| buf <= x < buf + len ==> #[trigger] mapped_user_byte(x)
}

/// What each system call does, whatever its arguments: `read` reports end
/// of file, `getpid` is 1, `exit` ends the program with its first argument,
/// an unknown number fails, and `write` either fails or prints exactly the
/// requested buffer to fd 1, and then only when every byte of it is a
/// mapped user address. A non-empty buffer on fd 1 whose bytes are all
/// mapped is always printed.
pub proof fn lemma_syscall_meaning(num: u64, a1: u64, a2: u64, a3: u64)
    ensures
        num == 0 ==> spec_dispatch(num, a1, a2, a3) == SyscallAction::Return(0),
        num == 3 ==> spec_dispatch(num, a1, a2, a3) == SyscallAction::Return(1),
        num == 2 ==> spec_dispatch(num, a1, a2, a3) == SyscallAction::Exit(a1 as i64),
        num > 3 ==> spec_dispatch(num, a1, a2, a3) == SyscallAction::Return(u64::MAX),
        num == 1 && a1 != 1 ==> spec_dispatch(num, a1, a2, a3) == SyscallAction::Return(u64::MAX),
        num == 1 ==> spec_dispatch(num, a1, a2, a3) == (SyscallAction::Write { buf: a2, len: a3 })
            || spec_dispatch(num, a1, a2, a3) == SyscallAction::Return(u64::MAX),
        num == 1 && spec_dispatch(num, a1, a2, a3) is Write ==> all_bytes_mapped(a2, a3),
        num == 1 && a1 == 1 && a3 > 0 && all_bytes_mapped(a2, a3) ==> spec_dispatch(num, a1, a2, a3)
            == (SyscallAction::Write { buf: a2, len: a3 }),
{
    if num == 1 && a1 == 1 && a3 > 0 && all_bytes_mapped(a2, a3) {
        let first = a2 as int;
        let last = a2 + a3 - 1;
        assert(mapped_user_byte(first));
        assert(mapped_user_byte(last));
        if first < 0x1000_0000_1000 && last >= 0x1000_0010_0000 {
            assert(mapped_user_byte(0x1000_0000_1000));
        }
    }
}

/// How a user byte appears on the console: newline and printable ASCII pass
/// through, anything else becomes `?`.
pub open spec fn shown_char(b: u8) -> char {
    if b == 10 || (0x20 <= b <= 0x7e) {
        b as char
    } else {
        '?'
    }
}

/// Rendering keeps the length and passes newline and printable ASCII
/// (space to `~`) through as the same character; every other byte shows as
/// `?`.
pub proof fn lemma_rendering(bytes: Seq<u8>, i: int)
    requires
        0 <= i < bytes.len(),
    ensures
        bytes.map_values(|b: u8| shown_char(b)).len() == bytes.len(),
        (bytes[i] == 10 || 32 <= bytes[i] <= 126) ==> bytes.map_values(|b: u8| shown_char(b))[i]
            as u32 == bytes[i] as u32,
        !(bytes[i] == 10 || 32 <= bytes[i] <= 126) ==> bytes.map_values(|b: u8| shown_char(b))[i]
            == '?',
{
}

/// The console rendering of bytes a user program writes.
pub fn render_user_bytes(bytes: &[u8]) -> (out: Vec<char>)
    ensures
        out@ == bytes@.map_values(|b: u8| shown_char(b)),
{
    let mut out: Vec<char> = Vec::new();
    let mut i: usize = 0;
    while i < bytes.len()
        invariant
            0 <= i <= bytes@.len(),
            out@ == bytes@.take(i as int).map_values(|b: u8| shown_char(b)),
        decreases bytes.len() - i,
    {
        let b = bytes[i];
        let c = if b == 10 || (b >= 0x20 && b <= 0x7e) {
            b as char
        } else {
            '?'
        };
        out.push(c);
        assert(bytes@.take(i + 1) =~= bytes@.take(i as int).push(b));
        assert(out@ =~= bytes@.take(i + 1).map_values(|b: u8| shown_char(b)));
        i += 1;
    }
    assert(bytes@.take(bytes@.len() as int) =~= bytes@);
    out
}

} // verus!
