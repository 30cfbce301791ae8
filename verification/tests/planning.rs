use maketorrent::builder::{read_segments, MemoryFile};
use maketorrent::config::BuildError;
use maketorrent::planner::{plan_pieces, PieceSegment};
use maketorrent::order::{compare_bytes, compare_paths};
use maketorrent::source::{
    compare_entries, enumerate, insert_entry, sort_entries,
    total_size, FileEntry, Scan,
};

fn entry(name: &[u8], length: u64) -> FileEntry {
    FileEntry { path: vec![name.to_vec()], length }
}

fn seg(file: usize, offset: u64, length: u64) -> PieceSegment {
    PieceSegment { file, offset, length }
}

#[test]
fn two_files_of_three_and_five_bytes_in_pieces_of_four() {
    let scan = Scan::Directory(vec![entry(b"b.txt", 5), entry(b"a.txt", 3)]);
    let files = enumerate(scan).unwrap();
    assert_eq!(files, vec![entry(b"a.txt", 3), entry(b"b.txt", 5)]);
    let plan = plan_pieces(&files, 4);
    assert_eq!(plan.len(), 2);
    assert_eq!(plan[0].index, 0);
    assert_eq!(plan[0].segments, vec![seg(0, 0, 3), seg(1, 0, 1)]);
    assert_eq!(plan[0].digest, None);
    assert_eq!(plan[1].index, 1);
    assert_eq!(plan[1].segments, vec![seg(1, 1, 4)]);
    assert_eq!(plan[1].digest, None);
}

#[test]
fn an_empty_stream_has_no_pieces() {
    assert_eq!(plan_pieces(&vec![], 4).len(), 0);
    assert_eq!(plan_pieces(&vec![FileEntry { path: vec![], length: 0 }], 4).len(), 0);
    assert_eq!(plan_pieces(&vec![entry(b"a", 0), entry(b"b", 0)], 16).len(), 0);
}

#[test]
fn a_stream_of_whole_strides_has_only_full_pieces() {
    let plan = plan_pieces(&vec![FileEntry { path: vec![], length: 12 }], 4);
    assert_eq!(plan.len(), 3);
    assert_eq!(plan[0].segments, vec![seg(0, 0, 4)]);
    assert_eq!(plan[1].segments, vec![seg(0, 4, 4)]);
    assert_eq!(plan[2].segments, vec![seg(0, 8, 4)]);
}

#[test]
fn only_the_last_piece_is_short() {
    let plan = plan_pieces(&vec![FileEntry { path: vec![], length: 10 }], 4);
    assert_eq!(plan.len(), 3);
    let sizes: Vec<u64> = plan.iter().map(|p| p.segments.iter().map(|s| s.length).sum()).collect();
    assert_eq!(sizes, vec![4, 4, 2]);
}

#[test]
fn a_piece_longer_than_the_stream_takes_all_of_it() {
    let plan = plan_pieces(&vec![entry(b"a", 2), entry(b"b", 3)], 1024);
    assert_eq!(plan.len(), 1);
    assert_eq!(plan[0].segments, vec![seg(0, 0, 2), seg(1, 0, 3)]);
}

#[test]
fn empty_files_get_no_segment() {
    let files = vec![entry(b"a", 0), entry(b"b", 3), entry(b"c", 0), entry(b"d", 3), entry(b"e", 0)];
    let plan = plan_pieces(&files, 4);
    assert_eq!(plan.len(), 2);
    assert_eq!(plan[0].segments, vec![seg(1, 0, 3), seg(3, 0, 1)]);
    assert_eq!(plan[1].segments, vec![seg(3, 1, 2)]);
}

#[test]
fn a_piece_can_span_many_files() {
    let files = vec![entry(b"a", 1), entry(b"b", 1), entry(b"c", 1), entry(b"d", 1), entry(b"e", 1)];
    let plan = plan_pieces(&files, 4);
    assert_eq!(plan.len(), 2);
    assert_eq!(plan[0].segments, vec![seg(0, 0, 1), seg(1, 0, 1), seg(2, 0, 1), seg(3, 0, 1)]);
    assert_eq!(plan[1].segments, vec![seg(4, 0, 1)]);
}

#[test]
fn piece_length_one_gives_a_piece_per_byte() {
    let plan = plan_pieces(&vec![entry(b"a", 2), entry(b"b", 1)], 1);
    assert_eq!(plan.len(), 3);
    assert_eq!(plan[2].index, 2);
    assert_eq!(plan[2].segments, vec![seg(1, 0, 1)]);
}

#[test]
fn segments_sum_to_the_size_of_the_stream() {
    let files = vec![entry(b"a", 7), entry(b"b", 0), entry(b"c", 13), entry(b"d", 1)];
    let plan = plan_pieces(&files, 8);
    let sum: u64 = plan.iter().flat_map(|p| p.segments.iter()).map(|s| s.length).sum();
    assert_eq!(sum, 21);
    assert_eq!(plan.len(), 3);
}

#[test]
fn reading_the_plan_gives_back_the_stream() {
    let source = vec![
        MemoryFile { path: vec![b"a".to_vec()], data: b"hello ".to_vec() },
        MemoryFile { path: vec![b"b".to_vec()], data: b"".to_vec() },
        MemoryFile { path: vec![b"c".to_vec()], data: b"wide world!".to_vec() },
    ];
    let files = maketorrent::builder::entries_of(&source);
    let plan = plan_pieces(&files, 4);
    let mut stream = Vec::new();
    for piece in &plan {
        stream.extend_from_slice(&read_segments(&source, &piece.segments).unwrap());
    }
    assert_eq!(stream, b"hello wide world!".to_vec());
}

#[test]
fn read_segments_takes_the_named_ranges() {
    let source = vec![
        MemoryFile { path: vec![b"a".to_vec()], data: b"0123456789".to_vec() },
        MemoryFile { path: vec![b"b".to_vec()], data: b"abcdef".to_vec() },
    ];
    let out = read_segments(&source, &vec![seg(0, 8, 2), seg(1, 0, 3)]);
    assert_eq!(out, Ok(b"89abc".to_vec()));
    assert_eq!(read_segments(&source, &vec![]), Ok(vec![]));
    assert_eq!(read_segments(&source, &vec![seg(1, 6, 0)]), Ok(vec![]));
}

#[test]
fn read_segments_names_the_first_segment_that_is_not_there() {
    let source = vec![
        MemoryFile { path: vec![b"a".to_vec()], data: b"0123456789".to_vec() },
        MemoryFile { path: vec![b"b".to_vec()], data: b"abcdef".to_vec() },
    ];
    assert_eq!(read_segments(&source, &vec![seg(0, 8, 3)]), Err(0));
    assert_eq!(read_segments(&source, &vec![seg(0, 0, 10), seg(1, 4, 3), seg(0, 0, 1)]), Err(1));
    assert_eq!(read_segments(&source, &vec![seg(0, 0, 1), seg(1, 0, 1), seg(2, 0, 1)]), Err(2));
    assert_eq!(read_segments(&source, &vec![seg(0, 11, 0)]), Err(0));
    assert_eq!(read_segments(&source, &vec![seg(0, u64::MAX, 2)]), Err(0));
    assert_eq!(read_segments(&source, &vec![seg(0, 2, u64::MAX)]), Err(0));
}

#[test]
fn total_size_adds_the_lengths() {
    assert_eq!(total_size(&vec![]), Some(0));
    assert_eq!(total_size(&vec![entry(b"a", 3), entry(b"b", 5)]), Some(8));
    assert_eq!(total_size(&vec![entry(b"a", u64::MAX)]), Some(u64::MAX));
}

#[test]
fn total_size_of_more_than_64_bits_is_none() {
    assert_eq!(total_size(&vec![entry(b"a", u64::MAX), entry(b"b", 1)]), None);
    assert_eq!(total_size(&vec![entry(b"a", 1), entry(b"b", u64::MAX), entry(b"c", 0)]), None);
}

#[test]
fn a_missing_path_is_not_found() {
    assert_eq!(enumerate(Scan::Missing), Err(BuildError::NotFound));
}

#[test]
fn a_failed_walk_is_unreadable_at_its_path() {
    let path = vec![b"sub".to_vec(), b"locked".to_vec()];
    assert_eq!(enumerate(Scan::Failed(path.clone())), Err(BuildError::Unreadable(path)));
}

#[test]
fn a_plain_file_is_one_entry_without_a_path() {
    assert_eq!(enumerate(Scan::File(9)), Ok(vec![FileEntry { path: vec![], length: 9 }]));
}

#[test]
fn a_directory_is_put_in_walk_order() {
    let found = vec![
        FileEntry { path: vec![b"z".to_vec()], length: 1 },
        FileEntry { path: vec![b"sub".to_vec(), b"b".to_vec()], length: 2 },
        FileEntry { path: vec![b"a".to_vec()], length: 3 },
        FileEntry { path: vec![b"sub".to_vec(), b"a".to_vec()], length: 4 },
        FileEntry { path: vec![b"ab".to_vec()], length: 5 },
        FileEntry { path: vec![b"Z".to_vec()], length: 6 },
    ];
    let files = enumerate(Scan::Directory(found)).unwrap();
    let lengths: Vec<u64> = files.iter().map(|f| f.length).collect();
    assert_eq!(lengths, vec![6, 3, 5, 4, 2, 1]);
}

#[test]
fn sorting_keeps_every_entry() {
    let found = vec![entry(b"c", 3), entry(b"a", 2), entry(b"c", 1), entry(b"b", 4)];
    let files = sort_entries(found);
    assert_eq!(files, vec![entry(b"a", 2), entry(b"b", 4), entry(b"c", 1), entry(b"c", 3)]);
}

#[test]
fn sorting_does_not_depend_on_the_order_found() {
    let one = vec![entry(b"x", 1), entry(b"m", 2), entry(b"a", 3), entry(b"m", 1)];
    let other = vec![entry(b"m", 1), entry(b"a", 3), entry(b"m", 2), entry(b"x", 1)];
    assert_eq!(sort_entries(one), sort_entries(other));
}

#[test]
fn entries_compare_by_path_then_by_size() {
    assert_eq!(compare_entries(&entry(b"a", 9), &entry(b"b", 1)), -1);
    assert_eq!(compare_entries(&entry(b"b", 1), &entry(b"a", 9)), 1);
    assert_eq!(compare_entries(&entry(b"a", 1), &entry(b"a", 2)), -1);
    assert_eq!(compare_entries(&entry(b"a", 2), &entry(b"a", 1)), 1);
    assert_eq!(compare_entries(&entry(b"a", 2), &entry(b"a", 2)), 0);
}

#[test]
fn insert_entry_finds_the_place() {
    let mut files = vec![entry(b"a", 1), entry(b"c", 3)];
    insert_entry(&mut files, entry(b"b", 2));
    insert_entry(&mut files, entry(b"d", 4));
    insert_entry(&mut files, entry(b"0", 0));
    let lengths: Vec<u64> = files.iter().map(|f| f.length).collect();
    assert_eq!(lengths, vec![0, 1, 2, 3, 4]);
}

#[test]
fn bytes_compare_by_first_difference() {
    assert_eq!(compare_bytes(b"abc", b"abd"), -1);
    assert_eq!(compare_bytes(b"abd", b"abc"), 1);
    assert_eq!(compare_bytes(b"abc", b"abc"), 0);
    assert_eq!(compare_bytes(b"", b""), 0);
    assert_eq!(compare_bytes(b"ab", b"abc"), -1);
    assert_eq!(compare_bytes(b"abc", b"ab"), 1);
    assert_eq!(compare_bytes(b"", b"a"), -1);
    assert_eq!(compare_bytes(b"Z", b"a"), -1);
    assert_eq!(compare_bytes(&[0xff], &[0x7f]), 1);
}

#[test]
fn paths_compare_component_by_component() {
    let p = |parts: &[&[u8]]| -> Vec<Vec<u8>> { parts.iter().map(|c| c.to_vec()).collect() };
    assert_eq!(compare_paths(&p(&[b"a", b"z"]), &p(&[b"b"])), -1);
    assert_eq!(compare_paths(&p(&[b"a"]), &p(&[b"a", b"b"])), -1);
    assert_eq!(compare_paths(&p(&[b"a", b"b"]), &p(&[b"a", b"b"])), 0);
    assert_eq!(compare_paths(&p(&[b"ab"]), &p(&[b"a", b"b"])), 1);
    assert_eq!(compare_paths(&p(&[]), &p(&[])), 0);
    assert_eq!(compare_paths(&p(&[b"sub", b"b"]), &p(&[b"sub", b"a"])), 1);
}
