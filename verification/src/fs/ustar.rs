//! Minimal read-only ustar (tar) reader.
//!
//! An archive is a sequence of 512-byte headers, each followed by the entry's
//! data rounded up to whole blocks. The reader stops at the first block that
//! is all zero, at a header without the `ustar` magic, or at the end of the
//! bytes.

use vstd::prelude::*;
use vstd::utf8::*;
use crate::text::{str_eq, utf8_str};

verus! {

/// Size of a header block and the unit data is padded to.
pub const BLOCK: usize = 512;
const NAME_OFF: usize = 0;
const NAME_LEN: usize = 100;
const SIZE_OFF: usize = 124;
const SIZE_LEN: usize = 12;
const TYPE_OFF: usize = 156;
const MAGIC_OFF: usize = 257;

/// Largest distance the reading position may lie beyond the end of the bytes
/// (a header announcing more data than the archive holds).
const SLACK: u64 = 0x40_0000_0000;

// ---------------------------------------------------------------------------
// Mathematical model of an archive
// ---------------------------------------------------------------------------

/// What an entry stands for: its name, its data and whether it is a directory.
pub struct EntryView {
    pub name: Seq<char>,
    pub data: Seq<u8>,
    pub is_dir: bool,
}

/// An ASCII octal digit `'0'..='7'`.
pub open spec fn is_octal_digit(b: u8) -> bool {
    48 <= b <= 55
}

/// The end of the run of octal digits of `s` that starts at `i`.
pub open spec fn digit_run_end(s: Seq<u8>, i: int) -> int
    decreases s.len() - i,
{
    if 0 <= i < s.len() && is_octal_digit(s[i]) {
        digit_run_end(s, i + 1)
    } else {
        i
    }
}

/// Base-8 value of a run of digits (a digit byte counts `b - '0'`).
pub open spec fn octal_value(s: Seq<u8>) -> nat
    decreases s.len(),
{
    if s.len() == 0 {
        0
    } else {
        octal_value(s.drop_last()) * 8 + (s.last() - 48) as nat
    }
}

/// The number a size field holds: its leading octal digits read in base 8;
/// the first byte that is no octal digit (NUL, space, padding) ends it.
pub open spec fn spec_parse_octal(field: Seq<u8>) -> nat {
    octal_value(field.take(digit_run_end(field, 0)))
}

/// Position of the first NUL byte of `s` at or after `i`, or `s.len()`.
pub open spec fn nul_from(s: Seq<u8>, i: int) -> int
    decreases s.len() - i,
{
    if 0 <= i < s.len() && s[i] != 0 {
        nul_from(s, i + 1)
    } else {
        i
    }
}

/// A NUL-terminated text field: the bytes before the first NUL decoded as
/// UTF-8, or the empty string when they are not valid UTF-8.
pub open spec fn spec_cstr(field: Seq<u8>) -> Seq<char> {
    let p = field.take(nul_from(field, 0));
    if valid_utf8(p) {
        decode_utf8(p)
    } else {
        seq![]
    }
}

/// The magic bytes `ustar`.
pub open spec fn ustar_magic() -> Seq<u8> {
    seq![117u8, 115u8, 116u8, 97u8, 114u8]
}

/// A block that holds only zero bytes.
pub open spec fn all_zero(s: Seq<u8>) -> bool {
    forall|i: int| 0 <= i < s.len() ==> s[i] == 0
}

/// A whole header block starts at `off`, is not all zero and carries the
/// `ustar` magic.
pub open spec fn header_ok(b: Seq<u8>, off: int) -> bool {
    &&& 0 <= off
    &&& off + 512 <= b.len()
    &&& !all_zero(b.subrange(off, off + 512))
    &&& b.subrange(off + 257, off + 262) == ustar_magic()
}

/// The data size the header at `off` announces.
pub open spec fn entry_size(b: Seq<u8>, off: int) -> nat {
    spec_parse_octal(b.subrange(off + 124, off + 136))
}

/// The entry described by the header at `off`. Its data follows the header;
/// when the archive is too short to hold it, the data is empty.
pub open spec fn entry_at(b: Seq<u8>, off: int) -> EntryView {
    let ds = off + 512;
    let size = entry_size(b, off);
    EntryView {
        name: spec_cstr(b.subrange(off, off + 100)),
        data: if ds + size <= b.len() {
            b.subrange(ds, ds + size)
        } else {
            seq![]
        },
        is_dir: b[off + 156] == 53,
    }
}

/// Where the header after the one at `off` starts: past the header and the
/// data rounded up to whole blocks.
pub open spec fn next_offset(b: Seq<u8>, off: int) -> int {
    off + 512 + ((entry_size(b, off) + 511) / 512) * 512
}

/// The entries of the archive `b`, read from the header at `off` on.
pub open spec fn entries_from(b: Seq<u8>, off: int) -> Seq<EntryView>
    decreases b.len() - off,
{
    if header_ok(b, off) {
        let nxt = next_offset(b, off);
        seq![entry_at(b, off)] + if nxt <= b.len() {
            entries_from(b, nxt)
        } else {
            seq![]
        }
    } else {
        seq![]
    }
}

/// The offsets of the headers read from `off` on, one per entry of
/// `entries_from(b, off)`, in the same order.
pub open spec fn header_offsets(b: Seq<u8>, off: int) -> Seq<int>
    decreases b.len() - off,
{
    if header_ok(b, off) {
        let nxt = next_offset(b, off);
        seq![off] + if nxt <= b.len() {
            header_offsets(b, nxt)
        } else {
            seq![]
        }
    } else {
        seq![]
    }
}

/// All entries of the archive `b`.
pub open spec fn entries(b: Seq<u8>) -> Seq<EntryView> {
    entries_from(b, 0)
}

/// The first entry of `es` named `name`.
pub open spec fn first_named(es: Seq<EntryView>, name: Seq<char>) -> Option<EntryView>
    decreases es.len(),
{
    if es.len() == 0 {
        None
    } else if es[0].name == name {
        Some(es[0])
    } else {
        first_named(es.drop_first(), name)
    }
}

// ---------------------------------------------------------------------------
// Lemmas
// ---------------------------------------------------------------------------

/// A digit run that starts at `i` ends at or after `i`, and consists of digits.
proof fn lemma_digit_run(s: Seq<u8>, i: int)
    requires
        0 <= i,
    ensures
        i <= digit_run_end(s, i) <= s.len() || (i > s.len() && digit_run_end(s, i) == i),
        forall|k: int| i <= k < digit_run_end(s, i) ==> is_octal_digit(#[trigger] s[k]),
        digit_run_end(s, i) < s.len() ==> !is_octal_digit(s[digit_run_end(s, i)]),
    decreases s.len() - i,
{
    if 0 <= i < s.len() && is_octal_digit(s[i]) {
        lemma_digit_run(s, i + 1);
    }
}

/// The NUL search starting at `i` ends at or after `i`, and skips only
/// non-NUL bytes.
proof fn lemma_nul_from(s: Seq<u8>, i: int)
    requires
        0 <= i <= s.len(),
    ensures
        i <= nul_from(s, i) <= s.len(),
        forall|k: int| i <= k < nul_from(s, i) ==> #[trigger] s[k] != 0,
        nul_from(s, i) < s.len() ==> s[nul_from(s, i)] == 0,
    decreases s.len() - i,
{
    if 0 <= i < s.len() && s[i] != 0 {
        lemma_nul_from(s, i + 1);
    }
}

/// Reading more digits never lowers the value.
proof fn lemma_octal_prefix_mono(s: Seq<u8>, j: int, k: int)
    requires
        0 <= j <= k <= s.len(),
        forall|i: int| 0 <= i < k ==> is_octal_digit(#[trigger] s[i]),
    ensures
        octal_value(s.take(j)) <= octal_value(s.take(k)),
    decreases k - j,
{
    if j < k {
        lemma_octal_prefix_mono(s, j, k - 1);
        assert(s.take(k).drop_last() =~= s.take(k - 1));
    }
}

/// The largest value `n` digits can spell.
pub open spec fn octal_bound(n: nat) -> nat
    decreases n,
{
    if n == 0 {
        0
    } else {
        octal_bound((n - 1) as nat) * 8 + 7
    }
}

proof fn lemma_octal_bound(s: Seq<u8>)
    requires
        forall|i: int| 0 <= i < s.len() ==> is_octal_digit(#[trigger] s[i]),
    ensures
        octal_value(s) <= octal_bound(s.len()),
    decreases s.len(),
{
    if s.len() > 0 {
        assert(is_octal_digit(s[s.len() - 1]));
        lemma_octal_bound(s.drop_last());
    }
}

proof fn lemma_octal_bound_mono(m: nat, n: nat)
    requires
        m <= n,
    ensures
        octal_bound(m) <= octal_bound(n),
    decreases n - m,
{
    if m < n {
        lemma_octal_bound_mono(m, (n - 1) as nat);
    }
}

/// A size field of twelve bytes never announces 2^36 bytes or more.
proof fn lemma_size_field_bound(field: Seq<u8>)
    requires
        field.len() == 12,
    ensures
        spec_parse_octal(field) < 0x20_0000_0000,
{
    lemma_digit_run(field, 0);
    let k = digit_run_end(field, 0);
    let p = field.take(k);
    assert forall|i: int| 0 <= i < p.len() implies is_octal_digit(#[trigger] p[i]) by {
        assert(p[i] == field[i]);
    }
    lemma_octal_bound(p);
    lemma_octal_bound_mono(p.len(), 12);
    assert(octal_bound(12) == 68719476735) by {
        reveal_with_fuel(octal_bound, 13);
    }
}

// ---------------------------------------------------------------------------
// Field decoders
// ---------------------------------------------------------------------------

/// Reads the leading octal digits of `field` in base 8; the first byte that
/// is no digit (NUL, space or padding) ends the number.
pub fn parse_octal(field: &[u8]) -> (n: u64)
    requires
        spec_parse_octal(field@) <= u64::MAX,
    ensures
        n == spec_parse_octal(field@),
{
    proof {
        lemma_digit_run(field@, 0);
    }
    let mut n: u64 = 0;
    let mut i: usize = 0;
    while i < field.len()
        invariant
            0 <= i <= field@.len(),
            digit_run_end(field@, 0) <= field@.len(),
            forall|k: int| 0 <= k < digit_run_end(field@, 0) ==> is_octal_digit(#[trigger] field@[k]),
            digit_run_end(field@, 0) < field@.len() ==> !is_octal_digit(
                field@[digit_run_end(field@, 0)],
            ),
            i <= digit_run_end(field@, 0),
            n == octal_value(field@.take(i as int)),
            spec_parse_octal(field@) <= u64::MAX,
        ensures
            i == digit_run_end(field@, 0),
            n == octal_value(field@.take(i as int)),
        decreases field.len() - i,
    {
        let b = field[i];
        if b >= 48 && b <= 55 {
            proof {
                if i == digit_run_end(field@, 0) {
                    assert(false);
                }
                lemma_octal_prefix_mono(field@, i + 1, digit_run_end(field@, 0));
                assert(field@.take(i + 1).drop_last() =~= field@.take(i as int));
            }
            n = n * 8 + (b - 48) as u64;
            i += 1;
        } else {
            break;
        }
    }
    n
}

/// The text of a NUL-terminated field: the bytes before the first NUL, or the
/// empty string when they are not UTF-8.
pub fn cstr<'a>(field: &'a [u8]) -> (s: &'a str)
    ensures
        s@ == spec_cstr(field@),
{
    proof {
        lemma_nul_from(field@, 0);
    }
    let mut end: usize = 0;
    while end < field.len()
        invariant
            0 <= end <= nul_from(field@, 0) <= field@.len(),
            forall|k: int| 0 <= k < nul_from(field@, 0) ==> #[trigger] field@[k] != 0,
            nul_from(field@, 0) < field@.len() ==> field@[nul_from(field@, 0)] == 0,
        ensures
            end == nul_from(field@, 0),
        decreases field.len() - end,
    {
        if field[end] == 0 {
            break;
        }
        end += 1;
    }
    let prefix = &field[0..end];
    assert(prefix@ =~= field@.take(nul_from(field@, 0)));
    match utf8_str(prefix) {
        Some(s) => s,
        None => {
            let empty = "";
            proof {
                reveal_strlit("");
            }
            empty
        },
    }
}

// ---------------------------------------------------------------------------
// Entries and the archive reader
// ---------------------------------------------------------------------------

/// One file or directory of an archive, borrowing from the archive's bytes.
#[derive(Debug, Clone, Copy, PartialEq, Eq)]
pub struct Entry<'a> {
    pub name: &'a str,
    pub data: &'a [u8],
    pub is_dir: bool,
}

impl<'a> View for Entry<'a> {
    type V = EntryView;

    open spec fn view(&self) -> EntryView {
        EntryView { name: self.name@, data: self.data@, is_dir: self.is_dir }
    }
}

/// Reader over the entries of a ustar archive.
pub struct Archive<'a> {
    bytes: &'a [u8],
    offset: u64,
}

impl<'a> Archive<'a> {
    #[verifier::type_invariant]
    spec fn inv(&self) -> bool {
        &&& self.bytes@.len() <= isize::MAX
        &&& self.offset <= self.bytes@.len() + SLACK
        &&& self.offset % 512 == 0
    }

    /// The archive's bytes.
    pub closed spec fn bytes(&self) -> Seq<u8> {
        self.bytes@
    }

    /// Where the next header is looked for.
    pub closed spec fn position(&self) -> int {
        self.offset as int
    }

    /// The entries not yet returned by [`Archive::next`].
    pub closed spec fn remaining(&self) -> Seq<EntryView> {
        entries_from(self.bytes@, self.offset as int)
    }

    /// A reader positioned at the first header of `bytes`.
    pub fn new(bytes: &'a [u8]) -> (r: Self)
        requires
            bytes@.len() <= isize::MAX,
        ensures
            r.bytes() == bytes@,
            r.position() == 0,
            r.remaining() == entries(bytes@),
    {
        Archive { bytes, offset: 0 }
    }

    /// Returns the next entry and moves past it, or `None` at the end of the
    /// archive (end of the bytes, an all-zero block, or a block without the
    /// `ustar` magic). At the end the position stays, so every later call
    /// gives `None` too; headers are only looked for at multiples of 512.
    pub fn next(&mut self) -> (r: Option<Entry<'a>>)
        ensures
            final(self).bytes() == old(self).bytes(),
            old(self).position() % 512 == 0,
            final(self).position() % 512 == 0,
            match r {
                None => {
                    &&& !header_ok(old(self).bytes(), old(self).position())
                    &&& final(self).position() == old(self).position()
                    &&& old(self).remaining().len() == 0
                    &&& final(self).remaining().len() == 0
                },
                Some(e) => {
                    &&& header_ok(old(self).bytes(), old(self).position())
                    &&& e@ == entry_at(old(self).bytes(), old(self).position())
                    &&& final(self).position() == next_offset(
                        old(self).bytes(),
                        old(self).position(),
                    )
                    &&& old(self).remaining().len() > 0
                    &&& e@ == old(self).remaining()[0]
                    &&& final(self).remaining() == old(self).remaining().drop_first()
                },
            },
    {
        proof {
            use_type_invariant(&*self);
        }
        let bytes: &'a [u8] = self.bytes;
        let ghost b = bytes@;
        let off = self.offset;
        if off + 512 > bytes.len() as u64 {
            assert(!header_ok(b, off as int));
            return None;
        }
        let o = off as usize;
        let header = &bytes[o..o + BLOCK];
        assert(header@ =~= b.subrange(o as int, o + 512));
        let mut zero = true;
        let mut i: usize = 0;
        while i < BLOCK
            invariant
                header@.len() == 512,
                0 <= i <= 512,
                zero == (forall|k: int| 0 <= k < i ==> header@[k] == 0),
            decreases 512 - i,
        {
            if header[i] != 0 {
                zero = false;
            }
            i += 1;
        }
        if zero {
            assert(all_zero(header@));
            return None;
        }
        let magic_ok = header[MAGIC_OFF] == 117 && header[MAGIC_OFF + 1] == 115 && header[MAGIC_OFF
            + 2] == 116 && header[MAGIC_OFF + 3] == 97 && header[MAGIC_OFF + 4] == 114;
        assert(b.subrange(o + 257, o + 262) =~= header@.subrange(257, 262));
        if !magic_ok {
            assert(b.subrange(o + 257, o + 262) != ustar_magic()) by {
                if b.subrange(o + 257, o + 262) == ustar_magic() {
                    assert(header@[257] == b.subrange(o + 257, o + 262)[0]);
                    assert(header@[258] == b.subrange(o + 257, o + 262)[1]);
                    assert(header@[259] == b.subrange(o + 257, o + 262)[2]);
                    assert(header@[260] == b.subrange(o + 257, o + 262)[3]);
                    assert(header@[261] == b.subrange(o + 257, o + 262)[4]);
                }
            }
            return None;
        }
        assert(b.subrange(o + 257, o + 262) =~= ustar_magic());
        assert(header_ok(b, o as int));

        let name_field = &header[NAME_OFF..NAME_OFF + NAME_LEN];
        assert(name_field@ =~= b.subrange(o as int, o + 100));
        let name = cstr(name_field);

        let size_field = &header[SIZE_OFF..SIZE_OFF + SIZE_LEN];
        assert(size_field@ =~= b.subrange(o + 124, o + 136));
        proof {
            lemma_size_field_bound(size_field@);
        }
        let size = parse_octal(size_field);
        let is_dir = header[TYPE_OFF] == 53;

        let data_start = off + 512;
        let data: &'a [u8] = if size <= bytes.len() as u64 - data_start {
            let ds = data_start as usize;
            let de = (data_start + size) as usize;
            &bytes[ds..de]
        } else {
            &bytes[0..0]
        };
        assert(data@ =~= entry_at(b, o as int).data);
        let data_blocks = (size + 511) / 512;
        assert((data_start + data_blocks * 512) % 512 == 0) by (nonlinear_arith)
            requires
                data_start % 512 == 0,
        ;
        self.offset = data_start + data_blocks * 512;
        proof {
            let nxt = next_offset(b, o as int);
            assert(self.offset == nxt);
            assert(entries_from(b, o as int) == seq![entry_at(b, o as int)] + if nxt <= b.len() {
                entries_from(b, nxt)
            } else {
                seq![]
            });
            if nxt > b.len() {
                assert(!header_ok(b, nxt));
                assert(entries_from(b, nxt) == Seq::<EntryView>::empty());
            }
            assert(entries_from(b, o as int).drop_first() =~= entries_from(b, nxt));
        }
        Some(Entry { name, data, is_dir })
    }

    /// The first entry of the archive named exactly `path`, read from the
    /// start of the archive whatever this reader's position.
    pub fn find(&self, path: &str) -> (r: Option<Entry<'a>>)
        ensures
            match r {
                None => first_named(entries(self.bytes()), path@) is None,
                Some(e) => first_named(entries(self.bytes()), path@) == Some(e@),
            },
    {
        proof {
            use_type_invariant(self);
        }
        let mut it = Archive::new(self.bytes);
        loop
            invariant
                it.bytes() == self.bytes(),
                first_named(entries(self.bytes()), path@) == first_named(it.remaining(), path@),
            decreases it.remaining().len(),
        {
            let ghost before = it.remaining();
            match it.next() {
                None => {
                    return None;
                },
                Some(e) => {
                    if str_eq(e.name, path) {
                        return Some(e);
                    }
                    assert(before.drop_first() == it.remaining());
                },
            }
        }
    }
}

// ---------------------------------------------------------------------------
// Laws
// ---------------------------------------------------------------------------

/// When the first `k` bytes are octal digits and byte `k` is not (or the
/// field ends there), the digit run is exactly those `k` bytes.
proof fn lemma_run_end_exact(s: Seq<u8>, k: int)
    requires
        0 <= k <= s.len(),
        forall|i: int| 0 <= i < k ==> is_octal_digit(#[trigger] s[i]),
        k == s.len() || !is_octal_digit(s[k]),
    ensures
        digit_run_end(s, 0) == k,
{
    lemma_digit_run(s, 0);
    let e = digit_run_end(s, 0);
    if e < k {
        assert(is_octal_digit(s[e]));
    } else if e > k {
        assert(is_octal_digit(s[k]));
    }
}

/// How a size field reads: an empty field is 0, one more octal digit is
/// eight times the value plus the digit, and the first byte that is no octal
/// digit ends the number, whatever follows it.
pub proof fn lemma_parse_octal_steps(d: Seq<u8>, c: u8, t: u8, r: Seq<u8>)
    requires
        forall|i: int| 0 <= i < d.len() ==> is_octal_digit(#[trigger] d[i]),
        is_octal_digit(c),
        !is_octal_digit(t),
    ensures
        spec_parse_octal(Seq::<u8>::empty()) == 0,
        spec_parse_octal(d.push(c)) == 8 * spec_parse_octal(d) + (c - 48),
        spec_parse_octal(d + seq![t] + r) == spec_parse_octal(d),
{
    lemma_run_end_exact(Seq::<u8>::empty(), 0);
    assert(Seq::<u8>::empty().take(0) =~= Seq::<u8>::empty());
    lemma_run_end_exact(d, d.len() as int);
    assert(d.take(d.len() as int) =~= d);
    let dc = d.push(c);
    assert forall|i: int| 0 <= i < dc.len() implies is_octal_digit(#[trigger] dc[i]) by {
        if i < d.len() {
            assert(dc[i] == d[i]);
        }
    }
    lemma_run_end_exact(dc, dc.len() as int);
    assert(dc.take(dc.len() as int) =~= dc);
    assert(dc.drop_last() =~= d);
    let dt = d + seq![t] + r;
    assert forall|i: int| 0 <= i < d.len() implies is_octal_digit(#[trigger] dt[i]) by {
        assert(dt[i] == d[i]);
    }
    assert(dt[d.len() as int] == t);
    lemma_run_end_exact(dt, d.len() as int);
    assert(dt.take(d.len() as int) =~= d);
}

proof fn lemma_entries_from_bounded(b: Seq<u8>, off: int)
    requires
        0 <= off,
    ensures
        entries_from(b, off).len() == 0 || off + entries_from(b, off).len() * 512 <= b.len(),
    decreases b.len() - off,
{
    if header_ok(b, off) {
        let nxt = next_offset(b, off);
        assert(nxt >= off + 512);
        if nxt <= b.len() {
            lemma_entries_from_bounded(b, nxt);
        }
    }
}

proof fn lemma_header_offsets_from(b: Seq<u8>, off: int)
    requires
        0 <= off,
        off % 512 == 0,
    ensures
        header_offsets(b, off).len() == entries_from(b, off).len(),
        forall|k: int|
            0 <= k < header_offsets(b, off).len() ==> off <= #[trigger] header_offsets(b, off)[k],
        forall|k: int|
            0 <= k < header_offsets(b, off).len() ==> #[trigger] header_offsets(b, off)[k] % 512
                == 0,
        forall|k: int|
            0 <= k < header_offsets(b, off).len() ==> header_ok(
                b,
                #[trigger] header_offsets(b, off)[k],
            ),
        forall|k: int|
            0 <= k < header_offsets(b, off).len() ==> entries_from(b, off)[k] == entry_at(
                b,
                #[trigger] header_offsets(b, off)[k],
            ),
        forall|j: int, k: int|
            0 <= j < k < header_offsets(b, off).len() ==> #[trigger] header_offsets(b, off)[j]
                < #[trigger] header_offsets(b, off)[k],
    decreases b.len() - off,
{
    if header_ok(b, off) {
        let nxt = next_offset(b, off);
        let blocks = (entry_size(b, off) + 511) / 512;
        assert((off + 512 + blocks * 512) % 512 == 0 && blocks * 512 >= 0) by (nonlinear_arith)
            requires
                off % 512 == 0,
                blocks >= 0,
        ;
        assert(nxt % 512 == 0);
        let hs = header_offsets(b, off);
        let es = entries_from(b, off);
        if nxt <= b.len() {
            lemma_header_offsets_from(b, nxt);
            let rh = header_offsets(b, nxt);
            let re = entries_from(b, nxt);
            assert(hs == seq![off] + rh);
            assert(es == seq![entry_at(b, off)] + re);
            assert forall|k: int| 1 <= k < hs.len() implies hs[k] == rh[k - 1] && es[k] == re[k
                - 1] by {}
            assert forall|j: int, k: int| 0 <= j < k < hs.len() implies #[trigger] hs[j]
                < #[trigger] hs[k] by {
                if j > 0 {
                    assert(rh[j - 1] < rh[k - 1]);
                } else {
                    assert(off < nxt <= rh[k - 1]);
                }
            }
        } else {
            assert(hs =~= seq![off]);
            assert(es =~= seq![entry_at(b, off)]);
        }
    }
}

/// Every entry of an archive comes from a whole header block that starts at
/// a multiple of 512 bytes and lies inside the archive; the headers follow
/// one another at strictly increasing offsets.
pub proof fn lemma_headers_on_blocks(b: Seq<u8>)
    ensures
        header_offsets(b, 0).len() == entries(b).len(),
        forall|k: int|
            0 <= k < header_offsets(b, 0).len() ==> #[trigger] header_offsets(b, 0)[k] % 512 == 0,
        forall|k: int|
            0 <= k < header_offsets(b, 0).len() ==> header_ok(
                b,
                #[trigger] header_offsets(b, 0)[k],
            ),
        forall|k: int|
            0 <= k < header_offsets(b, 0).len() ==> entries(b)[k] == entry_at(
                b,
                #[trigger] header_offsets(b, 0)[k],
            ),
        forall|j: int, k: int|
            0 <= j < k < header_offsets(b, 0).len() ==> #[trigger] header_offsets(b, 0)[j]
                < #[trigger] header_offsets(b, 0)[k],
{
    lemma_header_offsets_from(b, 0);
}

/// A header's data takes whole 512-byte blocks and nothing more: the next
/// header is looked for right after the fewest whole blocks that hold the
/// size the header announces (none for an empty file, one for 1 to 512
/// bytes, and so on).
pub proof fn lemma_data_takes_whole_blocks(b: Seq<u8>, off: int)
    ensures
        (next_offset(b, off) - off - 512) % 512 == 0,
        entry_size(b, off) <= next_offset(b, off) - off - 512,
        next_offset(b, off) - off - 512 < entry_size(b, off) + 512,
{
    let s = entry_size(b, off) as int;
    let q = (s + 511) / 512;
    assert(q * 512 % 512 == 0 && s <= q * 512 < s + 512) by (nonlinear_arith)
        requires
            s >= 0,
            q == (s + 511) / 512,
    ;
}

/// Reading an archive from a valid header gives that header's entry, then
/// the entries read from the first block boundary at or past the end of its
/// data; when that boundary lies beyond the bytes, nothing more.
pub proof fn lemma_entries_step(b: Seq<u8>, off: int, p: int)
    requires
        header_ok(b, off),
        (p - off - 512) % 512 == 0,
        entry_size(b, off) <= p - off - 512 < entry_size(b, off) + 512,
    ensures
        p <= b.len() ==> entries_from(b, off) == seq![entry_at(b, off)] + entries_from(b, p),
        p > b.len() ==> entries_from(b, off) == seq![entry_at(b, off)],
{
    lemma_data_takes_whole_blocks(b, off);
    let n = next_offset(b, off);
    let g1 = n - off - 512;
    let g2 = p - off - 512;
    let s = entry_size(b, off) as int;
    assert(g1 == g2) by {
        let a1 = g1 / 512;
        let a2 = g2 / 512;
        assert(g1 == 512 * a1 && g2 == 512 * a2);
        assert(s <= 512 * a1 < s + 512 && s <= 512 * a2 < s + 512);
        assert(a1 == a2) by (nonlinear_arith)
            requires
                s <= 512 * a1 < s + 512,
                s <= 512 * a2 < s + 512,
        ;
    }
    if p > b.len() {
        assert(entries_from(b, off) =~= seq![entry_at(b, off)]);
    }
}

/// An archive holds at most one entry per 512 bytes, so reading it always
/// ends: every entry takes a whole header block, and headers follow one
/// another at increasing offsets.
pub proof fn lemma_entry_count(b: Seq<u8>)
    ensures
        entries(b).len() * 512 <= b.len(),
{
    lemma_entries_from_bounded(b, 0);
}

} // verus!
