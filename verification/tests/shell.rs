use kernova::fs::Initrd;
use kernova::shell::{execute, is_whitespace, token_ranges, uptime, Key, Reply, Shell, ShellEvent};
use kernova::usermode::programs::Program;

fn archive_of(files: &[(&str, &[u8])]) -> Vec<u8> {
    let mut out = Vec::new();
    for (name, data) in files {
        let mut h = [0u8; 512];
        h[..name.len()].copy_from_slice(name.as_bytes());
        let size = format!("{:011o}", data.len());
        h[124..135].copy_from_slice(size.as_bytes());
        h[156] = b'0';
        h[257..262].copy_from_slice(b"ustar");
        out.extend_from_slice(&h);
        out.extend_from_slice(data);
        while out.len() % 512 != 0 {
            out.push(0);
        }
    }
    out.extend_from_slice(&[0u8; 1024]);
    out
}

fn typed(s: &mut Shell, text: &str) {
    for c in text.chars() {
        s.on_key(Key::Unicode(c));
    }
}

#[test]
fn typing_echoes_and_enter_submits() {
    let mut s = Shell::new();
    assert!(matches!(s.on_key(Key::Unicode('l')), ShellEvent::Echo('l')));
    typed(&mut s, "s");
    match s.on_key(Key::Unicode('\n')) {
        ShellEvent::Submit(line) => assert_eq!(line, "ls"),
        other => panic!("unexpected {:?}", other),
    }
    match s.on_key(Key::Unicode('\n')) {
        ShellEvent::Submit(line) => assert_eq!(line, ""),
        other => panic!("unexpected {:?}", other),
    }
}

#[test]
fn backspace_edits_line() {
    let mut s = Shell::new();
    typed(&mut s, "ecjo");
    assert!(matches!(s.on_key(Key::Unicode('\u{8}')), ShellEvent::Erase));
    assert!(matches!(s.on_key(Key::Unicode('\u{7f}')), ShellEvent::Erase));
    typed(&mut s, "ho");
    match s.on_key(Key::Unicode('\n')) {
        ShellEvent::Submit(line) => assert_eq!(line, "echo"),
        other => panic!("unexpected {:?}", other),
    }
    // nothing to erase on an empty line
    assert!(matches!(s.on_key(Key::Unicode('\u{8}')), ShellEvent::Nothing));
}

#[test]
fn raw_keys_are_ignored() {
    let mut s = Shell::new();
    assert!(matches!(s.on_key(Key::RawKey(pc_keyboard::KeyCode::ArrowUp)), ShellEvent::Nothing));
}

#[test]
fn scancodes_decode_to_keys() {
    let mut s = Shell::new();
    // set 1: 0x26 = L pressed, 0xA6 = L released, 0x1C = Enter
    assert!(matches!(s.on_scancode(0x26), ShellEvent::Echo('l')));
    assert!(matches!(s.on_scancode(0xA6), ShellEvent::Nothing));
    match s.on_scancode(0x1C) {
        ShellEvent::Submit(line) => assert_eq!(line, "l"),
        other => panic!("unexpected {:?}", other),
    }
}

#[test]
fn scancodes_follow_shift_and_backspace() {
    let mut s = Shell::new();
    // 0x2A = left shift pressed, 0x1E = A, 0xAA = left shift released, 0x0E = backspace
    assert!(matches!(s.on_scancode(0x2A), ShellEvent::Nothing));
    assert!(matches!(s.on_scancode(0x1E), ShellEvent::Echo('A')));
    assert!(matches!(s.on_scancode(0x9E), ShellEvent::Nothing));
    assert!(matches!(s.on_scancode(0xAA), ShellEvent::Nothing));
    assert!(matches!(s.on_scancode(0x1E), ShellEvent::Echo('a')));
    assert!(matches!(s.on_scancode(0x0E), ShellEvent::Erase));
    match s.on_scancode(0x1C) {
        ShellEvent::Submit(line) => assert_eq!(line, "A"),
        other => panic!("unexpected {:?}", other),
    }
}

#[test]
fn tokenizer_splits_on_whitespace() {
    let line = "  echo \t hi   there ";
    let r = token_ranges(line);
    let chars: Vec<char> = line.chars().collect();
    let words: Vec<String> = r.iter().map(|&(a, b)| chars[a..b].iter().collect()).collect();
    assert_eq!(words, line.split_whitespace().collect::<Vec<_>>());
}

#[test]
fn whitespace_matches_std() {
    for u in 0..=0x10FFFFu32 {
        if let Some(c) = char::from_u32(u) {
            assert_eq!(is_whitespace(c), c.is_whitespace(), "U+{:04X}", u);
        }
    }
}

#[test]
fn builtins() {
    let img = archive_of(&[("hello.txt", b"hi there\n"), ("blob", b"\xff\xfe")]);
    let fs = Initrd::new(&img);
    assert!(matches!(execute("", &fs), Reply::Nothing));
    assert!(matches!(execute("   ", &fs), Reply::Nothing));
    assert!(matches!(execute("help", &fs), Reply::Help));
    assert!(matches!(execute(" clear ", &fs), Reply::Clear));
    assert!(matches!(execute("uptime", &fs), Reply::Uptime));
    match execute("echo  a   b c", &fs) {
        Reply::Echo(s) => assert_eq!(s, "a b c"),
        other => panic!("unexpected {:?}", other),
    }
    match execute("echo", &fs) {
        Reply::Echo(s) => assert_eq!(s, ""),
        other => panic!("unexpected {:?}", other),
    }
    match execute("ls", &fs) {
        Reply::Ls(v) => assert_eq!(v, vec!["hello.txt", "blob"]),
        other => panic!("unexpected {:?}", other),
    }
    match execute("cat hello.txt", &fs) {
        Reply::CatText(t) => assert_eq!(t, "hi there\n"),
        other => panic!("unexpected {:?}", other),
    }
    assert!(matches!(execute("cat blob", &fs), Reply::CatBinary));
    match execute("cat nope", &fs) {
        Reply::CatMissing(p) => assert_eq!(p, "nope"),
        other => panic!("unexpected {:?}", other),
    }
    assert!(matches!(execute("cat", &fs), Reply::CatUsage));
    match execute("run hello", &fs) {
        Reply::Run(p, n) => {
            assert_eq!(p, Program::Hello);
            assert_eq!(n, "hello");
        }
        other => panic!("unexpected {:?}", other),
    }
    match execute("run nothing", &fs) {
        Reply::RunUnknown(n) => assert_eq!(n, "nothing"),
        other => panic!("unexpected {:?}", other),
    }
    assert!(matches!(execute("run", &fs), Reply::RunUsage));
    match execute("frobnicate now", &fs) {
        Reply::NotFound(c) => assert_eq!(c, "frobnicate"),
        other => panic!("unexpected {:?}", other),
    }
    // the command word must match exactly
    assert!(matches!(execute("Help", &fs), Reply::NotFound(_)));
}

#[test]
fn uptime_in_tenths() {
    assert_eq!(uptime(0), (0, 0));
    assert_eq!(uptime(182), (1, 0));
    assert_eq!(uptime(200), (1, 0)); // 2000/182 = 10 tenths
    assert_eq!(uptime(273), (1, 5)); // 2730/182 = 15 tenths
}
