//! Read-only initrd filesystem: a ustar archive exposed behind a tiny VFS.

pub mod ustar;

use vstd::prelude::*;
use ustar::{
    Archive, entries, entry_size, first_named, header_offsets, header_ok, lemma_headers_on_blocks,
    EntryView,
};

verus! {

/// What reading `path` gives on an archive with entries `es`: the data of
/// the first entry with that name, unless that entry is a directory.
pub open spec fn read_spec(es: Seq<EntryView>, path: Seq<char>) -> Option<Seq<u8>> {
    match first_named(es, path) {
        Some(e) => if !e.is_dir {
            Some(e.data)
        } else {
            None
        },
        None => None,
    }
}

/// The names of the entries of `es` that are not directories, in order.
pub open spec fn file_names(es: Seq<EntryView>) -> Seq<Seq<char>>
    decreases es.len(),
{
    if es.len() == 0 {
        seq![]
    } else {
        (if !es[0].is_dir {
            seq![es[0].name]
        } else {
            seq![]
        }) + file_names(es.drop_first())
    }
}

/// Minimal read-only filesystem interface.
pub trait Vfs {
    /// The contents of the file at `path`, if there is one.
    spec fn spec_read(&self, path: Seq<char>) -> Option<Seq<u8>>;

    /// The names of the files, in the order they are listed.
    spec fn spec_list(&self) -> Seq<Seq<char>>;

    /// Read the full contents of a file, or `None` if absent.
    fn read(&self, path: &str) -> (r: Option<&[u8]>)
        ensures
            match r {
                None => self.spec_read(path@) is None,
                Some(d) => self.spec_read(path@) == Some(d@),
            },
    ;

    /// List file names in the archive.
    fn list(&self) -> (r: Vec<&str>)
        ensures
            r@.map_values(|s: &str| s@) == self.spec_list(),
    ;

    /// True if the file exists.
    fn file_exists(&self, path: &str) -> (b: bool)
        ensures
            b == self.spec_read(path@) is Some,
    {
        self.read(path).is_some()
    }
}

/// The initrd: a ustar archive held in memory.
pub struct Initrd<'a> {
    bytes: &'a [u8],
}

impl<'a> Initrd<'a> {
    #[verifier::type_invariant]
    spec fn inv(&self) -> bool {
        self.bytes@.len() <= isize::MAX
    }

    /// The archive bytes the filesystem reads.
    pub closed spec fn archive(&self) -> Seq<u8> {
        self.bytes@
    }

    /// The filesystem stored in the ustar archive `bytes`.
    pub fn new(bytes: &'a [u8]) -> (r: Self)
        requires
            bytes@.len() <= isize::MAX,
        ensures
            r.archive() == bytes@,
    {
        Initrd { bytes }
    }
}

impl<'a> Vfs for Initrd<'a> {
    open spec fn spec_read(&self, path: Seq<char>) -> Option<Seq<u8>> {
        read_spec(entries(self.archive()), path)
    }

    open spec fn spec_list(&self) -> Seq<Seq<char>> {
        file_names(entries(self.archive()))
    }

    fn read(&self, path: &str) -> (r: Option<&[u8]>) {
        proof {
            use_type_invariant(self);
        }
        match Archive::new(self.bytes).find(path) {
            Some(e) => if !e.is_dir {
                Some(e.data)
            } else {
                None
            },
            None => None,
        }
    }

    fn list(&self) -> (r: Vec<&str>) {
        proof {
            use_type_invariant(self);
        }
        let mut out: Vec<&'a str> = Vec::new();
        let mut it = Archive::new(self.bytes);
        loop
            invariant
                it.bytes() == self.archive(),
                out@.map_values(|s: &str| s@) + file_names(it.remaining()) == file_names(
                    entries(self.archive()),
                ),
            decreases it.remaining().len(),
        {
            let ghost before = it.remaining();
            let ghost names = out@.map_values(|s: &str| s@);
            match it.next() {
                None => {
                    assert(file_names(before) == Seq::<Seq<char>>::empty());
                    assert(names + file_names(before) =~= names);
                    return out;
                },
                Some(e) => {
                    assert(file_names(before) == (if !e.is_dir {
                        seq![e.name@]
                    } else {
                        seq![]
                    }) + file_names(it.remaining()));
                    if !e.is_dir {
                        out.push(e.name);
                        assert(out@.map_values(|s: &str| s@) =~= names.push(e.name@));
                        assert(names + file_names(before) =~= names.push(e.name@) + file_names(
                            it.remaining(),
                        ));
                    } else {
                        assert(names + file_names(before) =~= names + file_names(it.remaining()));
                    }
                },
            }
        }
    }
}

/// No two entries of `es` share a name.
pub open spec fn names_distinct(es: Seq<EntryView>) -> bool {
    forall|i: int, j: int|
        0 <= i < es.len() && 0 <= j < es.len() && i != j ==> (#[trigger] es[i]).name != (
        #[trigger] es[j]).name
}

proof fn lemma_listed_readable_seq(es: Seq<EntryView>, k: int)
    requires
        names_distinct(es),
        0 <= k < file_names(es).len(),
    ensures
        read_spec(es, file_names(es)[k]) is Some,
    decreases es.len(),
{
    let rest = es.drop_first();
    let head = if !es[0].is_dir {
        seq![es[0].name]
    } else {
        seq![]
    };
    assert(file_names(es) == head + file_names(rest));
    if k < head.len() {
        assert(file_names(es)[k] == es[0].name);
    } else {
        assert(names_distinct(rest)) by {
            assert forall|i: int, j: int|
                0 <= i < rest.len() && 0 <= j < rest.len() && i != j implies (
                #[trigger] rest[i]).name != (#[trigger] rest[j]).name by {
                assert(rest[i] == es[i + 1] && rest[j] == es[j + 1]);
            }
        }
        let p = file_names(rest)[k - head.len()];
        assert(file_names(es)[k] == p);
        lemma_listed_readable_seq(rest, k - head.len());
        lemma_first_named_in(rest, p);
        let j = choose|j: int| 0 <= j < rest.len() && rest[j].name == p;
        assert(es[j + 1] == rest[j]);
        assert(es[0].name != p);
    }
}

/// When a name is found, an entry with that name exists.
proof fn lemma_first_named_in(es: Seq<EntryView>, p: Seq<char>)
    requires
        first_named(es, p) is Some,
    ensures
        exists|j: int| 0 <= j < es.len() && es[j].name == p,
    decreases es.len(),
{
    if es[0].name != p {
        lemma_first_named_in(es.drop_first(), p);
        let j = choose|j: int| 0 <= j < es.drop_first().len() && es.drop_first()[j].name == p;
        assert(es[j + 1].name == p);
    }
}

proof fn lemma_readable_listed_seq(es: Seq<EntryView>, p: Seq<char>)
    requires
        read_spec(es, p) is Some,
    ensures
        file_names(es).contains(p),
    decreases es.len(),
{
    let rest = es.drop_first();
    let head = if !es[0].is_dir {
        seq![es[0].name]
    } else {
        seq![]
    };
    assert(file_names(es) == head + file_names(rest));
    if es[0].name == p {
        assert(file_names(es)[0] == p);
    } else {
        lemma_readable_listed_seq(rest, p);
        let j = choose|j: int| 0 <= j < file_names(rest).len() && file_names(rest)[j] == p;
        assert(file_names(es)[head.len() + j] == p);
    }
}

/// The first entry of `es` named `p` is at an index that no earlier entry
/// with that name precedes.
proof fn lemma_first_named_index(es: Seq<EntryView>, p: Seq<char>)
    requires
        first_named(es, p) is Some,
    ensures
        exists|k: int|
            0 <= k < es.len() && first_named(es, p) == Some(es[k]) && es[k].name == p && forall|
                j: int,
            | 0 <= j < k ==> (#[trigger] es[j]).name != p,
    decreases es.len(),
{
    if es[0].name != p {
        let rest = es.drop_first();
        lemma_first_named_index(rest, p);
        let k = choose|k: int|
            0 <= k < rest.len() && first_named(rest, p) == Some(rest[k]) && rest[k].name == p
                && forall|j: int| 0 <= j < k ==> (#[trigger] rest[j]).name != p;
        assert(es[k + 1] == rest[k]);
        assert forall|j: int| 0 <= j < k + 1 implies (#[trigger] es[j]).name != p by {
            if j > 0 {
                assert(es[j] == rest[j - 1]);
            }
        }
    } else {
        assert(first_named(es, p) == Some(es[0]));
    }
}

/// Entry `k` of the archive `b` is the first one named `path`, a file, whose
/// header block lies at a multiple of 512, and `r` is exactly the bytes
/// right after that header, as many as its size field announces (when the
/// archive holds them all).
pub open spec fn read_at(b: Seq<u8>, k: int, path: Seq<char>, r: Option<Seq<u8>>) -> bool {
    let es = entries(b);
    let h = header_offsets(b, 0)[k];
    let size = entry_size(b, h);
    &&& es[k].name == path
    &&& !es[k].is_dir
    &&& forall|j: int| 0 <= j < k ==> (#[trigger] es[j]).name != path
    &&& h % 512 == 0
    &&& header_ok(b, h)
    &&& h + 512 + size <= b.len() ==> r == Some(b.subrange(h + 512, h + 512 + size))
}

/// Reading a file gives its whole contents: when `read(path)` succeeds,
/// the file is the first archive entry named `path`, it is no directory,
/// its header block lies at a multiple of 512, and what is read is exactly
/// the bytes right after that header, as many as the header's size field
/// announces (when the archive holds them all).
pub proof fn lemma_read_gives_whole_file(fs: &Initrd, path: Seq<char>)
    requires
        fs.spec_read(path) is Some,
    ensures
        exists|k: int|
            #![trigger header_offsets(fs.archive(), 0)[k]]
            0 <= k < entries(fs.archive()).len() && read_at(fs.archive(), k, path, fs.spec_read(path)),
{
    let b = fs.archive();
    let es = entries(b);
    lemma_headers_on_blocks(b);
    lemma_first_named_index(es, path);
    let k = choose|k: int|
        0 <= k < es.len() && first_named(es, path) == Some(es[k]) && es[k].name == path && forall|
            j: int,
        | 0 <= j < k ==> (#[trigger] es[j]).name != path;
    let h = header_offsets(b, 0)[k];
    assert(es[k] == ustar::entry_at(b, h));
    assert(h % 512 == 0 && header_ok(b, h));
    assert(read_at(b, k, path, fs.spec_read(path)));
}

proof fn lemma_file_names_filter(es: Seq<EntryView>)
    ensures
        file_names(es) == es.filter(|e: EntryView| !e.is_dir).map_values(|e: EntryView| e.name),
    decreases es.len(),
{
    let p = |e: EntryView| !e.is_dir;
    es.lemma_filter_eq_filter_alt(p);
    if es.len() > 0 {
        let rest = es.drop_first();
        lemma_file_names_filter(rest);
        let fr = rest.filter(p);
        if p(es[0]) {
            assert(es.filter(p) =~= seq![es[0]] + fr);
            assert((seq![es[0]] + fr).map_values(|e: EntryView| e.name) =~= seq![es[0].name]
                + fr.map_values(|e: EntryView| e.name));
        } else {
            assert(es.filter(p) =~= fr);
        }
    } else {
        assert(es.filter(p).map_values(|e: EntryView| e.name) =~= Seq::<Seq<char>>::empty());
    }
}

/// Listing gives the names of the archive's entries that are not
/// directories, each once per entry, in archive order.
pub proof fn lemma_list_is_files_in_order(fs: &Initrd)
    ensures
        fs.spec_list() == entries(fs.archive()).filter(|e: EntryView| !e.is_dir).map_values(
            |e: EntryView| e.name,
        ),
{
    lemma_file_names_filter(entries(fs.archive()));
}

/// Every name the filesystem lists can be read, provided no two archive
/// entries share a name.
pub proof fn lemma_listed_files_readable(fs: &Initrd, k: int)
    requires
        names_distinct(entries(fs.archive())),
        0 <= k < fs.spec_list().len(),
    ensures
        fs.spec_read(fs.spec_list()[k]) is Some,
{
    lemma_listed_readable_seq(entries(fs.archive()), k);
}

/// Every file that can be read is listed.
pub proof fn lemma_readable_files_listed(fs: &Initrd, path: Seq<char>)
    requires
        fs.spec_read(path) is Some,
    ensures
        fs.spec_list().contains(path),
{
    lemma_readable_listed_seq(entries(fs.archive()), path);
}

} // verus!
