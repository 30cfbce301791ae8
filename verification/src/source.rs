//! The files of a source, in the order in which their bytes form one stream.

use crate::bencode::strings;
use crate::config::BuildError;
use crate::order::{
    compare_paths, lemma_path_lt_asymmetric, lemma_path_lt_irreflexive,
    lemma_path_lt_transitive, lemma_path_trichotomy, path_lt,
};
use vstd::multiset::Multiset;
use vstd::prelude::*;
use vstd::relations::total_ordering;
use vstd::seq_lib::lemma_sorted_unique;

verus! {

/// One regular file of the source: its path below the root, component by
/// component, and its size in bytes. A source that is a single plain file has
/// one entry, whose path is empty.
#[derive(Debug, Clone, PartialEq, Eq)]
pub struct FileEntry {
    pub path: Vec<Vec<u8>>,
    pub length: u64,
}

/// What a `FileEntry` stands for.
pub struct FileView {
    pub path: Seq<Seq<u8>>,
    pub length: nat,
}

impl View for FileEntry {
    type V = FileView;

    open spec fn view(&self) -> FileView {
        FileView { path: strings(self.path@), length: self.length as nat }
    }
}

/// The views of the entries, in order.
pub open spec fn file_views(files: Seq<FileEntry>) -> Seq<FileView> {
    files.map_values(|f: FileEntry| f@)
}

/// The number of stream bytes that lie before file `n`: the sizes of the
/// first `n` files added up.
pub open spec fn prefix_len(files: Seq<FileView>, n: int) -> nat
    decreases n,
{
    if n <= 0 {
        0
    } else {
        prefix_len(files, n - 1) + files[n - 1].length
    }
}

/// The size of the whole stream.
pub open spec fn total_len(files: Seq<FileView>) -> nat {
    prefix_len(files, files.len() as int)
}

/// The stream never shrinks as files are added.
pub proof fn lemma_prefix_len_monotonic(files: Seq<FileView>, a: int, b: int)
    requires
        a <= b,
    ensures
        prefix_len(files, a) <= prefix_len(files, b),
    decreases b - a,
{
    if a < b {
        lemma_prefix_len_monotonic(files, a, b - 1);
    }
}

/// The total size of the files, or `None` when it does not fit in 64 bits.
pub fn total_size(files: &Vec<FileEntry>) -> (r: Option<u64>)
    ensures
        r == (if total_len(file_views(files@)) <= u64::MAX {
            Some(total_len(file_views(files@)) as u64)
        } else {
            None
        }),
{
    let ghost fv: Seq<FileView> = file_views(files@);
    let n: usize = files.len();
    let mut size: u64 = 0;
    let mut i: usize = 0;
    while i < n
        invariant
            n == files@.len(),
            fv == file_views(files@),
            i <= n,
            size == prefix_len(fv, i as int),
        decreases n - i,
    {
        match size.checked_add(files[i].length) {
            Some(s) => {
                size = s;
            },
            None => {
                proof {
                    lemma_prefix_len_monotonic(fv, i + 1, n as int);
                }
                return None;
            },
        }
        i = i + 1;
    }
    Some(size)
}

/// `a` comes no later than `b` in a walk: its path comes first. Entries of
/// one path, which no directory holds, go by their size.
pub open spec fn entry_le(a: FileView, b: FileView) -> bool {
    path_lt(a.path, b.path) || (a.path == b.path && a.length <= b.length)
}

/// The order of a walk, as a relation.
pub open spec fn walk_order() -> spec_fn(FileView, FileView) -> bool {
    |a: FileView, b: FileView| entry_le(a, b)
}

/// Each entry comes no later than the next.
pub open spec fn in_walk_order(files: Seq<FileView>) -> bool {
    forall|i: int, j: int|
        0 <= i && j == i + 1 && j < files.len() ==> entry_le(#[trigger] files[i], #[trigger] files[j])
}

/// The order of a walk is transitive.
pub proof fn lemma_entry_le_transitive(a: FileView, b: FileView, c: FileView)
    requires
        entry_le(a, b),
        entry_le(b, c),
    ensures
        entry_le(a, c),
{
    if path_lt(a.path, b.path) && path_lt(b.path, c.path) {
        lemma_path_lt_transitive(a.path, b.path, c.path);
    }
}

/// The order of a walk is a total order: any two entries are in order one
/// way or the other, and both ways only where they are the same entry.
pub proof fn lemma_walk_order_total()
    ensures
        total_ordering(walk_order()),
{
    let r = walk_order();
    assert forall|x: FileView| #[trigger] r(x, x) by {}
    assert forall|x: FileView, y: FileView| #[trigger] r(x, y) && #[trigger] r(y, x) implies x
        == y by {
        if path_lt(x.path, y.path) {
            lemma_path_lt_asymmetric(x.path, y.path);
        }
        if path_lt(y.path, x.path) {
            lemma_path_lt_asymmetric(y.path, x.path);
        }
    }
    assert forall|x: FileView, y: FileView, z: FileView| #[trigger]
        r(x, y) && #[trigger] r(y, z) implies r(x, z) by {
        lemma_entry_le_transitive(x, y, z);
    }
    assert forall|x: FileView, y: FileView| #[trigger] r(x, y) || #[trigger] r(y, x) by {
        lemma_path_trichotomy(x.path, y.path);
    }
}

/// In a list in walk order, every entry comes no later than each entry
/// after it.
pub proof fn lemma_walk_order_all_pairs(files: Seq<FileView>, i: int, j: int)
    requires
        in_walk_order(files),
        0 <= i <= j < files.len(),
    ensures
        entry_le(files[i], files[j]),
    decreases j - i,
{
    if i < j {
        lemma_walk_order_all_pairs(files, i, j - 1);
        assert(entry_le(files[j - 1], files[j]));
        lemma_entry_le_transitive(files[i], files[j - 1], files[j]);
    }
}

/// Entries have one walk order only: lists in walk order that hold the same
/// entries are the same list.
pub proof fn lemma_walk_order_unique(x: Seq<FileView>, y: Seq<FileView>)
    requires
        in_walk_order(x),
        in_walk_order(y),
        x.to_multiset() == y.to_multiset(),
    ensures
        x == y,
{
    let r = walk_order();
    lemma_walk_order_total();
    assert forall|i: int, j: int| 0 <= i < j < x.len() implies #[trigger] r(x[i], x[j]) by {
        lemma_walk_order_all_pairs(x, i, j);
    }
    assert forall|i: int, j: int| 0 <= i < j < y.len() implies #[trigger] r(y[i], y[j]) by {
        lemma_walk_order_all_pairs(y, i, j);
    }
    lemma_sorted_unique(x, y, r);
}

/// Inserting an element adds it to what a sequence holds.
pub proof fn lemma_insert_to_multiset<A>(s: Seq<A>, i: int, a: A)
    requires
        0 <= i <= s.len(),
    ensures
        s.insert(i, a).to_multiset() == s.to_multiset().insert(a),
{
    let t = s.insert(i, a);
    t.to_multiset_ensures();
    assert(t.remove(i) =~= s);
    assert(t[i] == a);
    assert(t.to_multiset() =~= s.to_multiset().insert(a));
}

/// Compares two entries in the order of a walk: -1 where `a` comes first,
/// 1 where `b` does, 0 where they are the same entry.
pub fn compare_entries(a: &FileEntry, b: &FileEntry) -> (r: i8)
    ensures
        r == -1 || r == 0 || r == 1,
        r <= 0 <==> entry_le(a@, b@),
        r >= 0 <==> entry_le(b@, a@),
        r == 0 <==> a@ == b@,
{
    let c: i8 = compare_paths(&a.path, &b.path);
    proof {
        if c == -1 {
            lemma_path_lt_asymmetric(a@.path, b@.path);
        }
        if c == 1 {
            lemma_path_lt_asymmetric(b@.path, a@.path);
        }
        if c == 0 {
            lemma_path_lt_irreflexive(a@.path);
        }
    }
    if c != 0 {
        c
    } else if a.length < b.length {
        -1
    } else if a.length > b.length {
        1
    } else {
        0
    }
}

/// Puts `entry` into the list, before the first entry that comes no earlier
/// than it. A list that is in walk order stays so.
pub fn insert_entry(files: &mut Vec<FileEntry>, entry: FileEntry)
    ensures
        in_walk_order(file_views(old(files)@)) ==> in_walk_order(file_views(final(files)@)),
        file_views(final(files)@).to_multiset() == file_views(old(files)@).to_multiset().insert(
            entry@,
        ),
{
    let ghost before: Seq<FileView> = file_views(files@);
    let mut p: usize = files.len();
    let mut searching: bool = true;
    while searching && p > 0
        invariant
            before == file_views(files@),
            p <= files@.len(),
            p < files@.len() ==> entry_le(entry@, before[p as int]),
            !searching ==> p > 0 && entry_le(before[p - 1], entry@),
        decreases p + (if searching {
            1int
        } else {
            0int
        }),
    {
        let c: i8 = compare_entries(&entry, &files[p - 1]);
        assert(before[p - 1] == files@[p - 1]@);
        if c <= 0 {
            p = p - 1;
        } else {
            searching = false;
        }
    }
    files.insert(p, entry);
    proof {
        let after: Seq<FileView> = file_views(files@);
        assert(after =~= before.insert(p as int, entry@));
        lemma_insert_to_multiset(before, p as int, entry@);
        assert forall|i: int, j: int|
            in_walk_order(before) && 0 <= i && j == i + 1 && j < after.len() implies entry_le(
            #[trigger] after[i],
            #[trigger] after[j],
        ) by {
            if j < p {
                assert(after[i] == before[i]);
                assert(after[j] == before[j]);
            } else if j == p {
                assert(after[i] == before[i]);
            } else if i == p {
                assert(after[j] == before[j - 1]);
            } else {
                assert(after[i] == before[i - 1]);
                assert(after[j] == before[j - 1]);
            }
        }
    }
}

/// Puts entries into walk order. Nothing is added and nothing is lost.
pub fn sort_entries(entries: Vec<FileEntry>) -> (files: Vec<FileEntry>)
    ensures
        in_walk_order(file_views(files@)),
        file_views(files@).to_multiset() == file_views(entries@).to_multiset(),
{
    let ghost all: Multiset<FileView> = file_views(entries@).to_multiset();
    let mut rest: Vec<FileEntry> = entries;
    let mut files: Vec<FileEntry> = Vec::new();
    assert(file_views(files@).to_multiset() =~= Multiset::<FileView>::empty()) by {
        file_views(files@).to_multiset_ensures();
    }
    while rest.len() > 0
        invariant
            in_walk_order(file_views(files@)),
            file_views(files@).to_multiset().add(file_views(rest@).to_multiset()) == all,
        decreases rest@.len(),
    {
        let ghost held: Seq<FileEntry> = rest@;
        let ghost placed: Multiset<FileView> = file_views(files@).to_multiset();
        match rest.pop() {
            Some(entry) => {
                proof {
                    assert(file_views(held) =~= file_views(rest@).push(entry@));
                    file_views(rest@).to_multiset_ensures();
                }
                insert_entry(&mut files, entry);
                assert(file_views(files@).to_multiset().add(file_views(rest@).to_multiset())
                    =~= placed.add(file_views(held).to_multiset()));
            },
            None => {},
        }
    }
    proof {
        file_views(rest@).to_multiset_ensures();
        assert(file_views(rest@).to_multiset() =~= Multiset::<FileView>::empty());
        assert(file_views(files@).to_multiset() =~= all);
    }
    files
}

/// What a walk of the source path found.
#[derive(Debug, Clone, PartialEq, Eq)]
pub enum Scan {
    /// Nothing is at the path.
    Missing,
    /// The walk failed at the given path.
    Failed(Vec<Vec<u8>>),
    /// A plain file of the given size.
    File(u64),
    /// A directory, with the regular files found below it, in any order.
    Directory(Vec<FileEntry>),
}

/// The one entry of a source that is a plain file: no path, and its size.
pub open spec fn plain_file(length: u64) -> Seq<FileView> {
    seq![FileView { path: Seq::empty(), length: length as nat }]
}

/// Turns what a walk found into the list of entries: the one entry of a
/// plain file, or the files of a directory in walk order. A path that is
/// missing, and a walk that failed, end the build.
pub fn enumerate(scan: Scan) -> (r: Result<Vec<FileEntry>, BuildError>)
    ensures
        match scan {
            Scan::Missing => r == Err::<Vec<FileEntry>, BuildError>(BuildError::NotFound),
            Scan::Failed(path) => r == Err::<Vec<FileEntry>, BuildError>(
                BuildError::Unreadable(path),
            ),
            Scan::File(length) => r matches Ok(files) && file_views(files@) == plain_file(length),
            Scan::Directory(entries) => r matches Ok(files) && in_walk_order(file_views(files@))
                && file_views(files@).to_multiset() == file_views(entries@).to_multiset(),
        },
{
    match scan {
        Scan::Missing => Err(BuildError::NotFound),
        Scan::Failed(path) => Err(BuildError::Unreadable(path)),
        Scan::File(length) => {
            let mut files: Vec<FileEntry> = Vec::new();
            let entry = FileEntry { path: Vec::new(), length: length };
            assert(entry@.path =~= Seq::<Seq<u8>>::empty());
            files.push(entry);
            assert(file_views(files@) =~= plain_file(length));
            Ok(files)
        },
        Scan::Directory(entries) => Ok(sort_entries(entries)),
    }
}

} // verus!
