use kernova::fs::{Initrd, Vfs};

/// A ustar archive of `files` (name, data, is_dir), ended by two zero blocks.
fn tar(files: &[(&str, &[u8], bool)]) -> Vec<u8> {
    let mut out = Vec::new();
    for (name, data, is_dir) in files {
        let mut h = [0u8; 512];
        h[..name.len()].copy_from_slice(name.as_bytes());
        let size = format!("{:011o}", data.len());
        h[124..135].copy_from_slice(size.as_bytes());
        h[156] = if *is_dir { b'5' } else { b'0' };
        h[257..262].copy_from_slice(b"ustar");
        out.extend_from_slice(&h);
        out.extend_from_slice(data);
        while out.len() % 512 != 0 {
            out.push(0);
        }
    }
    out.extend_from_slice(&[0u8; 1024]);
    out
}

fn big_txt() -> Vec<u8> {
    let mut v = Vec::new();
    for i in 0..40 {
        v.extend_from_slice(format!("line {:03}: the quick brown fox jumps over the lazy dog\n", i).as_bytes());
    }
    v
}

fn image() -> Vec<u8> {
    let big = big_txt();
    tar(&[
        ("big.txt", &big, false),
        ("hello.txt", b"hello from the initrd filesystem\n", false),
        ("motd.txt", b"welcome to kernova\n", false),
    ])
}

#[test]
fn lists_expected_files() {
    let img = image();
    let fs = Initrd::new(&img);
    let files = fs.list();
    assert!(files.contains(&"hello.txt"));
    assert!(files.contains(&"motd.txt"));
    assert!(files.contains(&"big.txt"));
}

#[test]
fn reads_small_file() {
    let img = image();
    let fs = Initrd::new(&img);
    let data = fs.read("hello.txt").expect("hello.txt missing");
    assert_eq!(data, b"hello from the initrd filesystem\n");
}

#[test]
fn reads_multiblock_file() {
    // big.txt is 2160 bytes, spanning 5 tar data blocks
    let img = image();
    let fs = Initrd::new(&img);
    let data = fs.read("big.txt").expect("big.txt missing");
    assert_eq!(data.len(), 2160);
    assert!(data.starts_with(b"line 000:"));
    assert!(data.ends_with(b"lazy dog\n"));
    // bytes straddling the first block boundary (512)
    assert_eq!(&data[512..521], b"fox jumps");
}

#[test]
fn missing_file_is_none() {
    let img = image();
    let fs = Initrd::new(&img);
    assert!(fs.read("does_not_exist").is_none());
    assert!(!fs.file_exists("does_not_exist"));
}

#[test]
fn directories_are_not_files() {
    let img = tar(&[("dir", b"", true), ("dir/a", b"A", false)]);
    let fs = Initrd::new(&img);
    assert_eq!(fs.list(), vec!["dir/a"]);
    assert!(fs.read("dir").is_none());
    assert!(!fs.file_exists("dir"));
    assert_eq!(fs.read("dir/a"), Some(&b"A"[..]));
}

#[test]
fn listed_files_are_readable_and_in_order() {
    let img = image();
    let fs = Initrd::new(&img);
    let names = fs.list();
    assert_eq!(names, vec!["big.txt", "hello.txt", "motd.txt"]);
    for n in names {
        assert!(fs.file_exists(n));
    }
}

#[test]
fn first_entry_of_a_name_wins() {
    let img = tar(&[("x", b"one", false), ("x", b"two", false)]);
    let fs = Initrd::new(&img);
    assert_eq!(fs.read("x"), Some(&b"one"[..]));
    assert_eq!(fs.list(), vec!["x", "x"]);
}
