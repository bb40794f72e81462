use kernova::fs::ustar::{cstr, parse_octal, Archive, BLOCK};

const SIZE_OFF: usize = 124;
const TYPE_OFF: usize = 156;
const MAGIC_OFF: usize = 257;

// Build a one-file ustar archive in a fixed buffer.
fn make(name: &str, data: &[u8], buf: &mut [u8; 1024]) {
    buf.iter_mut().for_each(|b| *b = 0);
    buf[..name.len()].copy_from_slice(name.as_bytes());
    // octal size at 124: 11 octal digits, NUL at +11
    let mut size = data.len();
    let mut i = SIZE_OFF + 10;
    for _ in 0..11 {
        buf[i] = b'0' + (size % 8) as u8;
        size /= 8;
        i -= 1;
    }
    buf[TYPE_OFF] = b'0';
    buf[MAGIC_OFF..MAGIC_OFF + 5].copy_from_slice(b"ustar");
    buf[BLOCK..BLOCK + data.len()].copy_from_slice(data);
}

#[test]
fn parses_single_file() {
    let mut buf = [0u8; 1024];
    make("greet.txt", b"hi", &mut buf);
    let archive = Archive::new(&buf);
    let e = archive.find("greet.txt").expect("entry not found");
    assert_eq!(e.name, "greet.txt");
    assert_eq!(e.data, b"hi");
    assert!(!e.is_dir);
}

#[test]
fn octal_size_parsing() {
    // 512 decimal = 1000 octal
    assert_eq!(parse_octal(b"00000001000\0"), 512);
    assert_eq!(parse_octal(b"0"), 0);
}

#[test]
fn missing_returns_none() {
    let mut buf = [0u8; 1024];
    make("a", b"x", &mut buf);
    assert!(Archive::new(&buf).find("nope").is_none());
}

#[test]
fn octal_stops_at_first_non_digit() {
    assert_eq!(parse_octal(b"17 99"), 15);
    assert_eq!(parse_octal(b""), 0);
    assert_eq!(parse_octal(b"\x0012"), 0);
    assert_eq!(parse_octal(b"777"), 511);
    // only '0'..='7' are octal digits
    assert_eq!(parse_octal(b"18\0"), 1);
    assert_eq!(parse_octal(b"9"), 0);
}

#[test]
fn cstr_cuts_at_nul_and_rejects_bad_utf8() {
    assert_eq!(cstr(b"abc\0def"), "abc");
    assert_eq!(cstr(b"plain"), "plain");
    assert_eq!(cstr(b"\xff\xfe\0"), "");
    assert_eq!(cstr(b"\0"), "");
}

#[test]
fn next_walks_entries_then_stops() {
    let mut buf = [0u8; 1024];
    make("only", b"data", &mut buf);
    let mut a = Archive::new(&buf);
    let e = a.next().expect("first entry");
    assert_eq!(e.name, "only");
    assert_eq!(e.data, b"data");
    assert!(a.next().is_none());
    assert!(a.next().is_none());
}

#[test]
fn bad_magic_ends_archive() {
    let mut buf = [0u8; 1024];
    make("x", b"1", &mut buf);
    buf[MAGIC_OFF] = b'X';
    assert!(Archive::new(&buf).next().is_none());
}

#[test]
fn short_archive_gives_empty_data() {
    // header announces 600 bytes but only 512 follow
    let mut buf = [0u8; 1024];
    make("short", b"", &mut buf);
    buf[SIZE_OFF..SIZE_OFF + 11].copy_from_slice(b"00000001130");
    let e = Archive::new(&buf).next().expect("entry");
    assert_eq!(e.data.len(), 0);
}

#[test]
fn empty_buffer_has_no_entries() {
    let buf: [u8; 0] = [];
    assert!(Archive::new(&buf).next().is_none());
    let zeros = [0u8; 512];
    assert!(Archive::new(&zeros).next().is_none());
}
