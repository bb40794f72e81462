//! Interactive shell: keyboard decoding, line editing with backspace, the
//! tokenizer and the builtin commands.

use vstd::prelude::*;
use vstd::utf8::*;
use vstd::string::StringExecFns;
use pc_keyboard::{layouts::Us104Key, DecodedKey, HandleControl, KeyCode, KeyEvent, Keyboard, ScancodeSet1};
use crate::fs::{Initrd, Vfs};
use crate::text::{str_eq, utf8_str};
use crate::usermode::programs::{by_name, program_named, Program};

verus! {

// ---------------------------------------------------------------------------
// Keyboard decoding (pc_keyboard)
// ---------------------------------------------------------------------------

/// The pc_keyboard decoder for scan code set 1 on the US 104-key layout.
/// `pc_keyboard::Keyboard` is generic over pc_keyboard's layout and scan
/// code set traits, so it is held here as an opaque private field; only the
/// functions below touch it.
#[verifier::external_body]
pub struct KeyDecoder {
    kb: Keyboard<Us104Key, ScancodeSet1>,
}

/// `pc_keyboard::KeyEvent`, a key press or release, carried opaquely from
/// the scan code decoder to the layout decoder.
#[verifier::external_type_specification]
#[verifier::external_body]
pub struct ExKeyEvent(KeyEvent);

/// `pc_keyboard::KeyCode`, the identity of a key without a character,
/// carried opaquely.
#[verifier::external_type_specification]
#[verifier::external_body]
pub struct ExKeyCode(KeyCode);

/// A decoded key: a character, or a key without one (arrows, modifiers).
#[derive(Debug, Clone, Copy)]
pub enum Key {
    Unicode(char),
    RawKey(KeyCode),
}

/// What the line editor sees of a key: its character, or that it has none.
#[derive(Debug, Clone, Copy, PartialEq, Eq, Structural)]
pub enum KeyView {
    Char(char),
    NoChar,
}

impl View for Key {
    type V = KeyView;

    open spec fn view(&self) -> KeyView {
        match self {
            Key::Unicode(c) => KeyView::Char(*c),
            Key::RawKey(_) => KeyView::NoChar,
        }
    }
}

/// The scan code bytes a decoder has been fed, oldest first.
pub uninterp spec fn bytes_fed(kb: KeyDecoder) -> Seq<u8>;

/// The key that the last byte of `fed` completes, when a fresh decoder is
/// fed the bytes of `fed` one by one and every key event it makes is decoded
/// at once; `None` when that byte completes no key.
pub uninterp spec fn key_after(fed: Seq<u8>) -> Option<KeyView>;

/// A decoder for scan code set 1 on the US 104-key layout, with Ctrl
/// combinations left as plain keys: `pc_keyboard::Keyboard::new` with
/// `ScancodeSet1::new()`, `Us104Key` and `HandleControl::Ignore`. It has been
/// fed nothing.
#[verifier::external_body]
fn new_keyboard() -> (kb: KeyDecoder)
    ensures
        bytes_fed(kb) == Seq::<u8>::empty(),
{
    KeyDecoder { kb: Keyboard::new(ScancodeSet1::new(), Us104Key, HandleControl::Ignore) }
}

/// One decoding step of the pc_keyboard decoder: `Keyboard::add_byte` with
/// the byte, then, when that completes a key event, `process_keyevent` on
/// it, as pc_keyboard's documentation pairs them. A rejected byte, or an
/// event that yields no key, gives `None`. The claim: the byte is recorded
/// as fed, and the key that comes out is `key_after` of everything fed so
/// far. pc_keyboard's decoder is deterministic and this is the only step
/// that changes it, so what it yields is a function of the bytes fed; which
/// key that is for given bytes is left to pc_keyboard's tables.
#[verifier::external_body]
fn decode_byte(kb: &mut KeyDecoder, byte: u8) -> (r: Option<Key>)
    ensures
        bytes_fed(*final(kb)) == bytes_fed(*old(kb)).push(byte),
        key_after(bytes_fed(*final(kb))) == (match r {
            Some(k) => Some(k@),
            None => None,
        }),
{
    match kb.kb.add_byte(byte) {
        Ok(Some(ev)) => match kb.kb.process_keyevent(ev) {
            Some(DecodedKey::Unicode(c)) => Some(Key::Unicode(c)),
            Some(DecodedKey::RawKey(k)) => Some(Key::RawKey(k)),
            None => None,
        },
        _ => None,
    }
}

// ---------------------------------------------------------------------------
// Line editing
// ---------------------------------------------------------------------------

/// What the console should show after a key.
#[derive(Debug)]
pub enum ShellEvent {
    /// Nothing changes.
    Nothing,
    /// The character was added to the line: echo it.
    Echo(char),
    /// The last character was removed: erase it on screen.
    Erase,
    /// Enter: the finished line, to be executed; the edit line is empty again.
    Submit(String),
}

/// Backspace (0x08) or delete (0x7f).
pub open spec fn is_erase(c: char) -> bool {
    c == '\u{8}' || c == '\u{7f}'
}

/// One step of the line editor: the key `key` turns the line `line` into
/// `after` and makes the console show `e`.
pub open spec fn key_step(line: Seq<char>, key: KeyView, e: ShellEvent, after: Seq<char>) -> bool {
    match key {
        KeyView::Char(c) => if c == '\n' {
            e matches ShellEvent::Submit(s) && s@ == line && after == Seq::<char>::empty()
        } else if is_erase(c) {
            if line.len() > 0 {
                e is Erase && after == line.drop_last()
            } else {
                e is Nothing && after == line
            }
        } else {
            e == ShellEvent::Echo(c) && after == line.push(c)
        },
        KeyView::NoChar => e is Nothing && after == line,
    }
}

/// The shell's input state: the keyboard decoder and the line being edited.
pub struct Shell {
    keyboard: KeyDecoder,
    line: String,
}

impl Shell {
    /// The line typed so far.
    pub closed spec fn line(&self) -> Seq<char> {
        self.line@
    }

    /// The scan codes the shell has been fed, oldest first.
    pub closed spec fn fed(&self) -> Seq<u8> {
        bytes_fed(self.keyboard)
    }

    /// A shell with an empty line and a decoder that has been fed nothing.
    pub fn new() -> (s: Shell)
        ensures
            s.line() == Seq::<char>::empty(),
            s.fed() == Seq::<u8>::empty(),
    {
        Shell { keyboard: new_keyboard(), line: String::new() }
    }

    /// Apply a decoded key to the line: Enter submits it, backspace or delete
    /// removes the last character, any other character is appended, keys
    /// without a character are ignored.
    pub fn on_key(&mut self, key: Key) -> (e: ShellEvent)
        ensures
            key_step(old(self).line(), key@, e, final(self).line()),
            final(self).fed() == old(self).fed(),
    {
        match key {
            Key::Unicode(c) => {
                if c == '\n' {
                    let mut done = String::new();
                    core::mem::swap(&mut done, &mut self.line);
                    ShellEvent::Submit(done)
                } else if c == '\u{8}' || c == '\u{7f}' {
                    match self.line.pop() {
                        Some(_) => ShellEvent::Erase,
                        None => ShellEvent::Nothing,
                    }
                } else {
                    self.line.push(c);
                    ShellEvent::Echo(c)
                }
            },
            Key::RawKey(_) => ShellEvent::Nothing,
        }
    }

    /// Feed one keyboard scan code to the decoder: when it completes a key,
    /// that key (`key_after` of the scan codes fed so far) edits the line as
    /// in [`Shell::on_key`]; otherwise the line stays and nothing is shown.
    pub fn on_scancode(&mut self, scancode: u8) -> (e: ShellEvent)
        ensures
            final(self).fed() == old(self).fed().push(scancode),
            match key_after(final(self).fed()) {
                Some(k) => key_step(old(self).line(), k, e, final(self).line()),
                None => e is Nothing && final(self).line() == old(self).line(),
            },
    {
        match decode_byte(&mut self.keyboard, scancode) {
            Some(key) => self.on_key(key),
            None => ShellEvent::Nothing,
        }
    }
}

// ---------------------------------------------------------------------------
// Tokenizer
// ---------------------------------------------------------------------------

/// Unicode White_Space, the property `char::is_whitespace` tests.
pub open spec fn is_ws(c: char) -> bool {
    let u = c as u32;
    ||| 0x09 <= u <= 0x0d
    ||| u == 0x20
    ||| u == 0x85
    ||| u == 0xa0
    ||| u == 0x1680
    ||| 0x2000 <= u <= 0x200a
    ||| u == 0x2028
    ||| u == 0x2029
    ||| u == 0x202f
    ||| u == 0x205f
    ||| u == 0x3000
}

/// Whether `c` is Unicode white space.
pub fn is_whitespace(c: char) -> (b: bool)
    ensures
        b == is_ws(c),
{
    let u = c as u32;
    (0x09 <= u && u <= 0x0d) || u == 0x20 || u == 0x85 || u == 0xa0 || u == 0x1680 || (0x2000
        <= u && u <= 0x200a) || u == 0x2028 || u == 0x2029 || u == 0x202f || u == 0x205f || u
        == 0x3000
}

/// The words of `s`: its maximal runs of characters that are not white space,
/// in order.
pub open spec fn words(s: Seq<char>) -> Seq<Seq<char>>
    decreases s.len(),
{
    if s.len() == 0 {
        seq![]
    } else {
        let p = s.drop_last();
        let c = s.last();
        let w = words(p);
        if is_ws(c) {
            w
        } else if p.len() == 0 || is_ws(p.last()) {
            w.push(seq![c])
        } else {
            w.update(w.len() - 1, w.last().push(c))
        }
    }
}

/// Words joined by single spaces.
pub open spec fn join_words(ws: Seq<Seq<char>>) -> Seq<char>
    decreases ws.len(),
{
    if ws.len() == 0 {
        seq![]
    } else if ws.len() == 1 {
        ws[0]
    } else {
        join_words(ws.drop_last()) + seq![' '] + ws.last()
    }
}

/// The character ranges of the words of `line`, in order.
pub fn token_ranges(line: &str) -> (r: Vec<(usize, usize)>)
    ensures
        r@.len() == words(line@).len(),
        forall|k: int|
            0 <= k < r@.len() ==> (#[trigger] r@[k]).0 <= r@[k].1 <= line@.len() && line@.subrange(
                r@[k].0 as int,
                r@[k].1 as int,
            ) == words(line@)[k],
{
    let n = line.unicode_len();
    let mut r: Vec<(usize, usize)> = Vec::new();
    let mut in_word = false;
    let mut i: usize = 0;
    while i < n
        invariant
            n == line@.len(),
            0 <= i <= n,
            r@.len() == words(line@.take(i as int)).len(),
            forall|k: int|
                0 <= k < r@.len() ==> (#[trigger] r@[k]).0 < r@[k].1 <= i && line@.subrange(
                    r@[k].0 as int,
                    r@[k].1 as int,
                ) == words(line@.take(i as int))[k],
            in_word == (i > 0 && !is_ws(line@[i - 1])),
            in_word ==> r@.len() > 0 && r@.last().1 == i,
        decreases n - i,
    {
        let c = line.get_char(i);
        let ghost s = line@.take(i + 1);
        let ghost w = words(line@.take(i as int));
        proof {
            assert(s.drop_last() =~= line@.take(i as int));
            assert(s.last() == c);
        }
        if is_whitespace(c) {
            in_word = false;
            assert(words(s) == w);
        } else if !in_word {
            r.push((i, i + 1));
            in_word = true;
            proof {
                assert(words(s) == w.push(seq![c]));
                assert(line@.subrange(i as int, i + 1) =~= seq![c]);
            }
        } else {
            let last = r.len() - 1;
            let (a, _) = r[last];
            r.set(last, (a, i + 1));
            proof {
                assert(words(s) == w.update(w.len() - 1, w.last().push(c)));
                assert(line@.subrange(a as int, i + 1) =~= line@.subrange(a as int, i as int).push(c));
            }
        }
        i += 1;
    }
    assert(line@.take(n as int) =~= line@);
    r
}

// ---------------------------------------------------------------------------
// Builtins
// ---------------------------------------------------------------------------

/// The builtin commands.
#[derive(Debug, Clone, Copy, PartialEq, Eq, Structural)]
pub enum Builtin {
    Help,
    Echo,
    Clear,
    Uptime,
    Ls,
    Cat,
    Run,
}

/// The builtin a command word names.
pub open spec fn builtin_named(w: Seq<char>) -> Option<Builtin> {
    if w == seq!['h', 'e', 'l', 'p'] {
        Some(Builtin::Help)
    } else if w == seq!['e', 'c', 'h', 'o'] {
        Some(Builtin::Echo)
    } else if w == seq!['c', 'l', 'e', 'a', 'r'] {
        Some(Builtin::Clear)
    } else if w == seq!['u', 'p', 't', 'i', 'm', 'e'] {
        Some(Builtin::Uptime)
    } else if w == seq!['l', 's'] {
        Some(Builtin::Ls)
    } else if w == seq!['c', 'a', 't'] {
        Some(Builtin::Cat)
    } else if w == seq!['r', 'u', 'n'] {
        Some(Builtin::Run)
    } else {
        None
    }
}

/// The builtin named `cmd`, if any.
pub fn builtin(cmd: &str) -> (b: Option<Builtin>)
    ensures
        b == builtin_named(cmd@),
{
    proof {
        reveal_strlit("help");
        reveal_strlit("echo");
        reveal_strlit("clear");
        reveal_strlit("uptime");
        reveal_strlit("ls");
        reveal_strlit("cat");
        reveal_strlit("run");
        assert("help"@ =~= seq!['h', 'e', 'l', 'p']);
        assert("echo"@ =~= seq!['e', 'c', 'h', 'o']);
        assert("clear"@ =~= seq!['c', 'l', 'e', 'a', 'r']);
        assert("uptime"@ =~= seq!['u', 'p', 't', 'i', 'm', 'e']);
        assert("ls"@ =~= seq!['l', 's']);
        assert("cat"@ =~= seq!['c', 'a', 't']);
        assert("run"@ =~= seq!['r', 'u', 'n']);
    }
    if str_eq(cmd, "help") {
        Some(Builtin::Help)
    } else if str_eq(cmd, "echo") {
        Some(Builtin::Echo)
    } else if str_eq(cmd, "clear") {
        Some(Builtin::Clear)
    } else if str_eq(cmd, "uptime") {
        Some(Builtin::Uptime)
    } else if str_eq(cmd, "ls") {
        Some(Builtin::Ls)
    } else if str_eq(cmd, "cat") {
        Some(Builtin::Cat)
    } else if str_eq(cmd, "run") {
        Some(Builtin::Run)
    } else {
        None
    }
}

/// What a command line asks the console to do.
#[derive(Debug)]
pub enum Reply<'f> {
    /// Empty line.
    Nothing,
    /// Print the list of builtins and programs.
    Help,
    /// Print this text.
    Echo(String),
    /// Clear the screen.
    Clear,
    /// Print the time since boot (see [`uptime`]).
    Uptime,
    /// Print these file names, one per line.
    Ls(Vec<&'f str>),
    /// Print the contents of a text file.
    CatText(&'f str),
    /// The file is not UTF-8: print a placeholder.
    CatBinary,
    /// No such file.
    CatMissing(String),
    /// `cat` without a file name.
    CatUsage,
    /// Run the program; the word that named it.
    Run(Program, String),
    /// No program of that name.
    RunUnknown(String),
    /// `run` without a program name.
    RunUsage,
    /// Not a builtin.
    NotFound(String),
}

/// The reply to `cat` with words `w`, on the filesystem `fs`.
pub open spec fn cat_reply<'f>(r: Reply<'f>, w: Seq<Seq<char>>, fs: &Initrd) -> bool {
    if w.len() < 2 {
        r is CatUsage
    } else {
        match fs.spec_read(w[1]) {
            None => r matches Reply::CatMissing(p) && p@ == w[1],
            Some(d) => if valid_utf8(d) {
                r matches Reply::CatText(t) && t@ == decode_utf8(d)
            } else {
                r is CatBinary
            },
        }
    }
}

/// The reply to `run` with words `w`.
pub open spec fn run_reply<'f>(r: Reply<'f>, w: Seq<Seq<char>>) -> bool {
    if w.len() < 2 {
        r is RunUsage
    } else {
        match program_named(w[1]) {
            Some(p) => r matches Reply::Run(q, name) && q == p && name@ == w[1],
            None => r matches Reply::RunUnknown(name) && name@ == w[1],
        }
    }
}

/// The reply to the command line `line` on the filesystem `fs`.
pub open spec fn reply_ok<'f>(r: Reply<'f>, line: Seq<char>, fs: &Initrd) -> bool {
    let w = words(line);
    if w.len() == 0 {
        r is Nothing
    } else {
        match builtin_named(w[0]) {
            None => r matches Reply::NotFound(c) && c@ == w[0],
            Some(Builtin::Help) => r is Help,
            Some(Builtin::Echo) => r matches Reply::Echo(s) && s@ == join_words(w.skip(1)),
            Some(Builtin::Clear) => r is Clear,
            Some(Builtin::Uptime) => r is Uptime,
            Some(Builtin::Ls) => r matches Reply::Ls(v) && v@.map_values(|s: &str| s@)
                == fs.spec_list(),
            Some(Builtin::Cat) => cat_reply(r, w, fs),
            Some(Builtin::Run) => run_reply(r, w),
        }
    }
}

/// Execute a command line: split it into words; the first names a builtin,
/// the others are its arguments.
pub fn execute<'f, 'a>(line: &str, fs: &'f Initrd<'a>) -> (r: Reply<'f>)
    ensures
        reply_ok(r, line@, fs),
{
    let ranges = token_ranges(line);
    let ghost w = words(line@);
    if ranges.len() == 0 {
        return Reply::Nothing;
    }
    let (a0, b0) = ranges[0];
    let cmd = line.substring_char(a0, b0);
    match builtin(cmd) {
        None => Reply::NotFound(cmd.to_owned()),
        Some(Builtin::Help) => Reply::Help,
        Some(Builtin::Clear) => Reply::Clear,
        Some(Builtin::Uptime) => Reply::Uptime,
        Some(Builtin::Ls) => Reply::Ls(fs.list()),
        Some(Builtin::Echo) => {
            let mut out = String::new();
            let mut k: usize = 1;
            proof {
                reveal_strlit(" ");
                assert(w.skip(1).take(0) =~= Seq::<Seq<char>>::empty());
            }
            while k < ranges.len()
                invariant
                    ranges@.len() == w.len(),
                    w == words(line@),
                    forall|j: int|
                        0 <= j < ranges@.len() ==> (#[trigger] ranges@[j]).0 <= ranges@[j].1
                            <= line@.len() && line@.subrange(ranges@[j].0 as int, ranges@[j].1 as int)
                            == w[j],
                    1 <= k <= ranges@.len(),
                    out@ == join_words(w.skip(1).take(k - 1)),
                decreases ranges.len() - k,
            {
                let (a, b) = ranges[k];
                let word = line.substring_char(a, b);
                let ghost before = w.skip(1).take(k - 1);
                let ghost after = w.skip(1).take(k as int);
                assert(after.drop_last() =~= before);
                assert(after.last() == w[k as int]);
                if k > 1 {
                    proof {
                        reveal_strlit(" ");
                    }
                    out.append(" ");
                    assert(" "@ =~= seq![' ']);
                }
                out.append(word);
                assert(out@ =~= join_words(after));
                k += 1;
            }
            assert(w.skip(1).take(ranges.len() - 1) =~= w.skip(1));
            Reply::Echo(out)
        },
        Some(Builtin::Cat) => {
            if ranges.len() < 2 {
                Reply::CatUsage
            } else {
                let (a1, b1) = ranges[1];
                let path = line.substring_char(a1, b1);
                match fs.read(path) {
                    None => Reply::CatMissing(path.to_owned()),
                    Some(data) => match utf8_str(data) {
                        Some(t) => Reply::CatText(t),
                        None => Reply::CatBinary,
                    },
                }
            }
        },
        Some(Builtin::Run) => {
            if ranges.len() < 2 {
                Reply::RunUsage
            } else {
                let (a1, b1) = ranges[1];
                let name = line.substring_char(a1, b1);
                match by_name(name) {
                    Some(p) => Reply::Run(p, name.to_owned()),
                    None => Reply::RunUnknown(name.to_owned()),
                }
            }
        },
    }
}

// ---------------------------------------------------------------------------
// Laws
// ---------------------------------------------------------------------------

/// Backspace (or delete) right after typing a character restores the line.
pub proof fn lemma_erase_undoes_typing(
    line: Seq<char>,
    c: char,
    e1: ShellEvent,
    mid: Seq<char>,
    d: char,
    e2: ShellEvent,
    after: Seq<char>,
)
    requires
        c != '\n',
        !is_erase(c),
        is_erase(d),
        key_step(line, KeyView::Char(c), e1, mid),
        key_step(mid, KeyView::Char(d), e2, after),
    ensures
        e1 == ShellEvent::Echo(c),
        e2 is Erase,
        after == line,
{
    assert(mid.drop_last() =~= line);
}

/// What each key does to the line: Enter submits the line and empties it;
/// backspace (U+0008) and delete (U+007F) remove the last character, or do
/// nothing on an empty line; every other character, the space included, is
/// appended and echoed; a key without a character changes nothing.
pub proof fn lemma_key_effects(line: Seq<char>, k: KeyView, e: ShellEvent, after: Seq<char>)
    requires
        key_step(line, k, e, after),
    ensures
        k == KeyView::Char('\n') ==> (e matches ShellEvent::Submit(s) && s@ == line),
        k == KeyView::Char('\n') ==> after.len() == 0,
        (k == KeyView::Char('\u{8}') || k == KeyView::Char('\u{7f}')) && line.len() > 0 ==> e is Erase
            && after == line.subrange(0, line.len() - 1),
        (k == KeyView::Char('\u{8}') || k == KeyView::Char('\u{7f}')) && line.len() == 0 ==> e is Nothing
            && after == line,
        forall|c: char|
            k == KeyView::Char(c) && c != '\n' && c != '\u{8}' && c != '\u{7f}' ==> e
                == ShellEvent::Echo(c) && after.len() == line.len() + 1 && after.last() == c
                && after.subrange(0, line.len() as int) == line,
        k == KeyView::NoChar ==> e is Nothing && after == line,
{
    match k {
        KeyView::Char(c) => {
            if c != '\n' && !is_erase(c) {
                assert(after.subrange(0, line.len() as int) =~= line);
            }
        },
        KeyView::NoChar => {},
    }
}

/// A word that contains no white space and is not empty.
pub open spec fn is_word(w: Seq<char>) -> bool {
    w.len() > 0 && forall|i: int| 0 <= i < w.len() ==> !is_ws(#[trigger] w[i])
}

/// The tokenizer yields only non-empty words without white space.
pub proof fn lemma_words_are_words(s: Seq<char>)
    ensures
        forall|k: int| 0 <= k < words(s).len() ==> is_word(#[trigger] words(s)[k]),
        s.len() > 0 && !is_ws(s.last()) ==> words(s).len() > 0,
    decreases s.len(),
{
    if s.len() > 0 {
        let p = s.drop_last();
        let c = s.last();
        lemma_words_are_words(p);
        let w = words(p);
        if !is_ws(c) && !(p.len() == 0 || is_ws(p.last())) {
            let v = w.last().push(c);
            assert(is_word(w.last()));
            assert forall|i: int| 0 <= i < v.len() implies !is_ws(#[trigger] v[i]) by {
                if i < v.len() - 1 {
                    assert(v[i] == w.last()[i]);
                }
            }
            assert forall|k: int| 0 <= k < words(s).len() implies is_word(#[trigger] words(s)[k]) by {
                if k < w.len() - 1 {
                    assert(words(s)[k] == w[k]);
                }
            }
        } else if !is_ws(c) {
            assert forall|k: int| 0 <= k < words(s).len() implies is_word(#[trigger] words(s)[k]) by {
                if k < w.len() {
                    assert(words(s)[k] == w[k]);
                } else {
                    assert(words(s)[k] =~= seq![c]);
                }
            }
        }
    }
}

/// A word standing alone is its only word.
proof fn lemma_words_of_word(w: Seq<char>)
    requires
        is_word(w),
    ensures
        words(w) == seq![w],
    decreases w.len(),
{
    let p = w.drop_last();
    if p.len() > 0 {
        assert(is_word(p)) by {
            assert forall|i: int| 0 <= i < p.len() implies !is_ws(#[trigger] p[i]) by {
                assert(p[i] == w[i]);
            }
        }
        lemma_words_of_word(p);
        assert(!is_ws(p.last())) by {
            assert(p.last() == w[p.len() - 1]);
        }
        assert(!is_ws(w.last())) by {
            assert(w.last() == w[w.len() - 1]);
        }
        assert(p.push(w.last()) =~= w);
        assert(words(w) == seq![p].update(0, p.push(w.last())));
        assert(seq![p].update(0, w) =~= seq![w]);
    } else {
        assert(!is_ws(w.last())) by {
            assert(w.last() == w[w.len() - 1]);
        }
        assert(seq![w.last()] =~= w);
        assert(words(p) == Seq::<Seq<char>>::empty());
        assert(words(w) == words(p).push(seq![w.last()]));
        assert(Seq::<Seq<char>>::empty().push(w) =~= seq![w]);
    }
}

/// Appending a space and a word adds exactly that word.
proof fn lemma_words_append_word(s: Seq<char>, w: Seq<char>)
    requires
        is_word(w),
    ensures
        words(s + seq![' '] + w) == words(s).push(w),
    decreases w.len(),
{
    let t = s + seq![' '] + w;
    let p = t.drop_last();
    assert(is_ws(' '));
    if w.len() == 1 {
        assert(p =~= s + seq![' ']);
        assert((s + seq![' ']).drop_last() =~= s);
        assert(words(s + seq![' ']) == words(s));
        assert(seq![w.last()] =~= w);
    } else {
        let v = w.drop_last();
        assert(is_word(v)) by {
            assert forall|i: int| 0 <= i < v.len() implies !is_ws(#[trigger] v[i]) by {
                assert(v[i] == w[i]);
            }
        }
        assert(p =~= s + seq![' '] + v);
        lemma_words_append_word(s, v);
        assert(!is_ws(p.last())) by {
            assert(p.last() == w[w.len() - 2]);
        }
        assert(!is_ws(w.last())) by {
            assert(w.last() == w[w.len() - 1]);
        }
        assert(t.last() == w.last());
        assert(v.push(w.last()) =~= w);
        assert(words(t) == words(s).push(v).update(words(s).len() as int, v.push(w.last())));
        assert(words(s).push(v).update(words(s).len() as int, w) =~= words(s).push(w));
    }
}

/// `echo` is faithful: splitting words joined by single spaces gives back
/// the words.
pub proof fn lemma_split_join(ws: Seq<Seq<char>>)
    requires
        forall|k: int| 0 <= k < ws.len() ==> is_word(#[trigger] ws[k]),
    ensures
        words(join_words(ws)) == ws,
    decreases ws.len(),
{
    if ws.len() == 1 {
        lemma_words_of_word(ws[0]);
        assert(seq![ws[0]] =~= ws);
    } else if ws.len() > 1 {
        let init = ws.drop_last();
        assert forall|k: int| 0 <= k < init.len() implies is_word(#[trigger] init[k]) by {
            assert(init[k] == ws[k]);
        }
        lemma_split_join(init);
        assert(is_word(ws[ws.len() - 1]));
        lemma_words_append_word(join_words(init), ws.last());
        assert(init.push(ws.last()) =~= ws);
    } else {
        assert(words(Seq::<char>::empty()) == Seq::<Seq<char>>::empty());
        assert(ws =~= Seq::<Seq<char>>::empty());
    }
}

/// The time since boot for `ticks` timer ticks at the PIT default rate
/// (about 18.2 Hz): whole seconds and tenths, from `ticks * 10 / 182`
/// tenths of a second.
pub fn uptime(ticks: u64) -> (r: (u64, u64))
    requires
        ticks * 10 <= u64::MAX,
    ensures
        r.0 == ticks * 10 / 182 / 10,
        r.1 == ticks * 10 / 182 % 10,
{
    let tenths = ticks * 10 / 182;
    (tenths / 10, tenths % 10)
}

} // verus!
