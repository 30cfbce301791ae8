use bip_metainfo::{DirectAccessor, InfoBuilder, Metainfo, PieceLength};
use maketorrent::builder::{begin, build, build_reporting, conclude, entries_of, read_segments, MemoryFile};
use maketorrent::clock::{time, timestamp_from_seconds};
use maketorrent::config::{
    auto_piece_length, default_output_name, is_supported_piece_length, power_of_two,
    resolve_piece_length, validate, BuildConfig, BuildError, ConfigFault,
};
use maketorrent::digest::piece_digest;
use maketorrent::progress::Progress;
use maketorrent::source::FileEntry;

fn hex(text: &str) -> Vec<u8> {
    let digits: Vec<u8> = text.bytes().map(|c| (c as char).to_digit(16).unwrap() as u8).collect();
    digits.chunks(2).map(|pair| pair[0] * 16 + pair[1]).collect()
}

fn config(name: &[u8], piece_length: u64) -> BuildConfig {
    BuildConfig {
        piece_length,
        private: false,
        comment: None,
        creation_date: None,
        created_by: None,
        trackers: vec![vec![b"http://t/a".to_vec()]],
        name: name.to_vec(),
    }
}

fn plain(data: &[u8]) -> Vec<MemoryFile> {
    vec![MemoryFile { path: vec![], data: data.to_vec() }]
}

fn contains(haystack: &[u8], needle: &[u8]) -> bool {
    haystack.windows(needle.len()).any(|w| w == needle)
}

fn pieces_of(descriptor: &[u8]) -> Vec<u8> {
    let meta = Metainfo::from_bytes(descriptor).unwrap();
    let mut all = Vec::new();
    for piece in meta.info().pieces() {
        all.extend_from_slice(piece);
    }
    all
}

#[test]
fn a_single_file_builds_to_the_expected_bytes() {
    let mut c = config(b"f.bin", 4);
    c.comment = Some(b"hi".to_vec());
    c.created_by = Some(b"mk/1".to_vec());
    c.creation_date = Some(1234567890);
    let out = build(&c, &plain(b"abcd")).unwrap();
    let mut expected = b"d8:announce10:http://t/a7:comment2:hi10:created by4:mk/113:creation datei1234567890e4:infod6:lengthi4e4:name5:f.bin12:piece lengthi4e6:pieces20:".to_vec();
    expected.extend_from_slice(&hex("81fe8bfe87576c3ecb22426f8e57847382917acf"));
    expected.extend_from_slice(b"ee");
    assert_eq!(out, expected);
}

#[test]
fn a_directory_builds_to_the_expected_bytes() {
    let source = vec![
        MemoryFile { path: vec![b"a.txt".to_vec()], data: b"abc".to_vec() },
        MemoryFile { path: vec![b"b.txt".to_vec()], data: b"bcdef".to_vec() },
    ];
    let out = build(&config(b"dir", 4), &source).unwrap();
    let mut expected = b"d8:announce10:http://t/a4:infod5:filesld6:lengthi3e4:pathl5:a.txteed6:lengthi5e4:pathl5:b.txteee4:name3:dir12:piece lengthi4e6:pieces40:".to_vec();
    expected.extend_from_slice(&hex("595f6f228e69ee7ecd567265664f41ba00148d8c"));
    expected.extend_from_slice(&hex("25bf58983b8ab103fa88b4032503fc8b65651ca1"));
    expected.extend_from_slice(b"ee");
    assert_eq!(out, expected);
}

#[test]
fn whole_strides_give_twenty_bytes_of_pieces_each() {
    for (size, piece_length) in [(4usize, 4u64), (8, 4), (64, 16), (1024, 1), (96, 32)] {
        let data: Vec<u8> = (0..size).map(|i| (i % 251) as u8).collect();
        let out = build(&config(b"n", piece_length), &plain(&data)).unwrap();
        assert_eq!(pieces_of(&out).len(), (size / piece_length as usize) * 20);
    }
}

#[test]
fn a_short_last_piece_still_gets_its_digest() {
    let out = build(&config(b"n", 4), &plain(b"0123456789")).unwrap();
    let mut expected = hex("c4b5c86bd577da3d93fea7c89cba61c78b48e589");
    expected.extend_from_slice(&hex("83787f060a59493aefdcd4b2369990e7303e186e"));
    expected.extend_from_slice(&hex("16b06bd9b738835e2d134fe8d596e9ab0086a985"));
    assert_eq!(pieces_of(&out), expected);
}

#[test]
fn each_piece_is_hashed_over_file_boundaries() {
    let source = vec![
        MemoryFile { path: vec![b"a".to_vec()], data: b"01".to_vec() },
        MemoryFile { path: vec![b"b".to_vec()], data: b"".to_vec() },
        MemoryFile { path: vec![b"c".to_vec()], data: b"2345".to_vec() },
        MemoryFile { path: vec![b"d".to_vec()], data: b"6789".to_vec() },
    ];
    let out = build(&config(b"n", 4), &source).unwrap();
    let mut expected = piece_digest(b"0123");
    expected.extend_from_slice(&piece_digest(b"4567"));
    expected.extend_from_slice(&piece_digest(b"89"));
    assert_eq!(pieces_of(&out), expected);
}

#[test]
fn building_twice_gives_the_same_bytes() {
    let mut c = config(b"n", 8);
    c.creation_date = Some(1700000000);
    c.private = true;
    let source = vec![
        MemoryFile { path: vec![b"x".to_vec()], data: vec![1u8; 37] },
        MemoryFile { path: vec![b"y".to_vec(), b"z".to_vec()], data: vec![2u8; 11] },
    ];
    let first = build(&c, &source).unwrap();
    let second = build(&c.clone(), &source.clone()).unwrap();
    assert_eq!(first, second);
}

#[test]
fn an_empty_file_has_no_pieces_and_one_report() {
    let mut reports = Vec::new();
    let out = build_reporting(&config(b"empty", 4), &plain(b""), &mut reports).unwrap();
    assert_eq!(
        out,
        b"d8:announce10:http://t/a4:infod6:lengthi0e4:name5:empty12:piece lengthi4e6:pieces0:ee".to_vec()
    );
    assert_eq!(reports, vec![Progress { completed: 0, total: 0 }]);
    assert!(reports[0].is_complete());
    assert_eq!(reports[0].scaled(1000), 1000);
}

#[test]
fn progress_counts_up_to_the_number_of_pieces() {
    let mut reports = vec![Progress { completed: 9, total: 9 }];
    build_reporting(&config(b"n", 4), &plain(b"0123456789"), &mut reports).unwrap();
    assert_eq!(
        reports,
        vec![
            Progress { completed: 9, total: 9 },
            Progress { completed: 1, total: 3 },
            Progress { completed: 2, total: 3 },
            Progress { completed: 3, total: 3 },
        ]
    );
}

#[test]
fn progress_fractions_never_go_back_and_end_at_one() {
    let data = vec![3u8; 1000];
    let mut reports = Vec::new();
    build_reporting(&config(b"n", 16), &plain(&data), &mut reports).unwrap();
    assert_eq!(reports.len(), 63);
    let fractions: Vec<f64> =
        reports.iter().map(|p| p.completed as f64 / p.total as f64).collect();
    for pair in fractions.windows(2) {
        assert!(pair[0] <= pair[1]);
    }
    assert_eq!(*fractions.last().unwrap(), 1.0);
    assert!(reports.last().unwrap().is_complete());
    for pair in reports.windows(2) {
        assert!(pair[0].scaled(1000) <= pair[1].scaled(1000));
    }
}

#[test]
fn a_rejected_build_reports_nothing() {
    let mut reports = Vec::new();
    let r = build_reporting(&config(b"", 4), &plain(b"abcd"), &mut reports);
    assert_eq!(r, Err(BuildError::InvalidConfig(ConfigFault::EmptyName)));
    assert_eq!(reports, vec![]);
}

#[test]
fn private_torrents_carry_private_one() {
    let mut c = config(b"n", 4);
    c.private = true;
    let out = build(&c, &plain(b"abcd")).unwrap();
    assert!(out.ends_with(b"7:privatei1eee"));
    assert_eq!(Metainfo::from_bytes(&out).unwrap().info().is_private(), Some(true));
}

#[test]
fn other_torrents_have_no_private_key() {
    let out = build(&config(b"n", 4), &plain(b"abcd")).unwrap();
    assert!(!contains(&out, b"private"));
    assert_eq!(Metainfo::from_bytes(&out).unwrap().info().is_private(), None);
}

#[test]
fn the_info_dictionary_is_what_bip_metainfo_builds_for_one_file() {
    let data: Vec<u8> = (0..1000u32).map(|i| (i * 7 % 251) as u8).collect();
    let ours = build(&config(b"f.bin", 64), &plain(&data)).unwrap();
    let theirs = InfoBuilder::new()
        .set_piece_length(PieceLength::Custom(64))
        .build(2, DirectAccessor::new("f.bin", &data), |_fraction: f64| {})
        .unwrap();
    let mut expected = b"d8:announce10:http://t/a4:info".to_vec();
    expected.extend_from_slice(&theirs);
    expected.extend_from_slice(b"e");
    assert_eq!(ours, expected);
}

#[test]
fn the_info_dictionary_of_an_empty_file_is_what_bip_metainfo_builds() {
    let ours = build(&config(b"nothing", 16), &plain(b"")).unwrap();
    let theirs = InfoBuilder::new()
        .set_piece_length(PieceLength::Custom(16))
        .build(1, DirectAccessor::new("nothing", b""), |_fraction: f64| {})
        .unwrap();
    let mut expected = b"d8:announce10:http://t/a4:info".to_vec();
    expected.extend_from_slice(&theirs);
    expected.extend_from_slice(b"e");
    assert_eq!(ours, expected);
}

#[test]
fn bip_metainfo_reads_back_what_was_built() {
    let source = vec![
        MemoryFile { path: vec![b"a.txt".to_vec()], data: b"abc".to_vec() },
        MemoryFile { path: vec![b"sub".to_vec(), b"b.txt".to_vec()], data: b"bcdef".to_vec() },
    ];
    let mut c = config(b"dir", 4);
    c.comment = Some(b"note".to_vec());
    c.creation_date = Some(42);
    let out = build(&c, &source).unwrap();
    let meta = Metainfo::from_bytes(&out).unwrap();
    assert_eq!(meta.main_tracker(), Some("http://t/a"));
    assert_eq!(meta.comment(), Some("note"));
    assert_eq!(meta.created_by(), None);
    assert_eq!(meta.creation_date(), Some(42));
    assert_eq!(meta.info().piece_length(), 4);
    assert_eq!(meta.info().directory().unwrap().to_str(), Some("dir"));
    let files: Vec<(u64, String)> = meta
        .info()
        .files()
        .map(|f| (f.length(), f.path().to_str().unwrap().replace('\\', "/")))
        .collect();
    assert_eq!(files, vec![(3, "a.txt".to_string()), (5, "sub/b.txt".to_string())]);
    assert_eq!(meta.info().pieces().count(), 2);
}

#[test]
fn a_piece_length_that_is_no_power_of_two_is_rejected() {
    for bad in [0u64, 3, 5, 6, 1000, (1 << 25) + 1, 1 << 26, u64::MAX] {
        assert_eq!(
            build(&config(b"n", bad), &plain(b"abcd")),
            Err(BuildError::InvalidConfig(ConfigFault::PieceLength))
        );
        assert!(!is_supported_piece_length(bad));
    }
}

#[test]
fn powers_of_two_up_to_32_mib_are_supported() {
    for e in 0..=25u32 {
        assert!(is_supported_piece_length(1u64 << e));
        assert_eq!(power_of_two(e), 1u64 << e);
    }
    assert_eq!(validate(&config(b"n", 1 << 25)), Ok(()));
    assert_eq!(validate(&config(b"n", 1)), Ok(()));
}

#[test]
fn a_configuration_without_tracker_is_rejected() {
    let mut c = config(b"n", 4);
    c.trackers = vec![];
    assert_eq!(validate(&c), Err(BuildError::InvalidConfig(ConfigFault::NoTracker)));
    c.trackers = vec![vec![]];
    assert_eq!(validate(&c), Err(BuildError::InvalidConfig(ConfigFault::NoTracker)));
    c.trackers = vec![vec![], vec![b"u".to_vec()]];
    assert_eq!(build(&c, &plain(b"")), Err(BuildError::InvalidConfig(ConfigFault::NoTracker)));
}

#[test]
fn an_empty_name_is_rejected() {
    assert_eq!(
        validate(&config(b"", 4)),
        Err(BuildError::InvalidConfig(ConfigFault::EmptyName))
    );
}

#[test]
fn the_piece_length_is_looked_at_first() {
    let mut c = config(b"", 3);
    c.trackers = vec![];
    assert_eq!(validate(&c), Err(BuildError::InvalidConfig(ConfigFault::PieceLength)));
    c.piece_length = 4;
    assert_eq!(validate(&c), Err(BuildError::InvalidConfig(ConfigFault::NoTracker)));
}

#[test]
fn a_source_beyond_64_bits_is_too_large() {
    let files = vec![
        FileEntry { path: vec![b"a".to_vec()], length: u64::MAX },
        FileEntry { path: vec![b"b".to_vec()], length: 1 },
    ];
    assert!(matches!(begin(&config(b"n", 4), &files), Err(BuildError::TooLarge)));
    assert!(matches!(
        begin(&config(b"n", 3), &files),
        Err(BuildError::InvalidConfig(ConfigFault::PieceLength))
    ));
}

#[test]
fn a_run_driven_by_hand_ends_in_the_same_bytes() {
    let source = vec![
        MemoryFile { path: vec![b"a".to_vec()], data: b"hello ".to_vec() },
        MemoryFile { path: vec![b"b".to_vec()], data: b"world".to_vec() },
    ];
    let c = config(b"dir", 4);
    let files = entries_of(&source);
    let mut session = begin(&c, &files).unwrap();
    assert_eq!(conclude(&c, &files, &session), None);
    let mut claims = Vec::new();
    while let Some(claim) = session.claim() {
        claims.push(claim);
    }
    assert_eq!(claims.len(), 3);
    for claim in claims.iter().rev() {
        let data = read_segments(&source, &claim.segments).unwrap();
        assert!(session.complete(claim.index, piece_digest(&data)).is_some());
    }
    assert_eq!(conclude(&c, &files, &session), Some(Ok(build(&c, &source).unwrap())));
}

#[test]
fn a_failed_read_leaves_no_output() {
    let source = plain(b"0123456789");
    let c = config(b"n", 4);
    let files = entries_of(&source);
    let mut session = begin(&c, &files).unwrap();
    for _ in 0..2 {
        let claim = session.claim().unwrap();
        let data = read_segments(&source, &claim.segments).unwrap();
        session.complete(claim.index, piece_digest(&data)).unwrap();
    }
    let last = session.claim().unwrap();
    session.fail(last.index as u64, 0);
    assert_eq!(
        conclude(&c, &files, &session),
        Some(Err(BuildError::ReadFailure { piece: 2, segment: 0 }))
    );
}

#[test]
fn the_output_file_is_named_after_the_torrent() {
    assert_eq!(default_output_name(b"movie"), b"movie.torrent".to_vec());
    assert_eq!(default_output_name(b""), b".torrent".to_vec());
    assert_eq!(default_output_name(b"a.b"), b"a.b.torrent".to_vec());
}

#[test]
fn powers_of_two_go_up_to_the_top_bit() {
    assert_eq!(power_of_two(0), 1);
    assert_eq!(power_of_two(32), 4294967296);
    assert_eq!(power_of_two(63), 9223372036854775808);
}

#[test]
fn exponents_give_powers_of_two() {
    assert_eq!(resolve_piece_length(1, 0), Ok(2));
    assert_eq!(resolve_piece_length(18, 12345), Ok(262144));
    assert_eq!(resolve_piece_length(25, u64::MAX), Ok(33554432));
}

#[test]
fn exponents_above_25_are_rejected() {
    assert_eq!(
        resolve_piece_length(26, 0),
        Err(BuildError::InvalidConfig(ConfigFault::PieceLength))
    );
    assert_eq!(
        resolve_piece_length(u32::MAX, 0),
        Err(BuildError::InvalidConfig(ConfigFault::PieceLength))
    );
}

#[test]
fn exponent_zero_sizes_by_the_stream() {
    assert_eq!(resolve_piece_length(0, 0), Ok(524288));
    assert_eq!(resolve_piece_length(0, 3_000_000_000), Ok(2097152));
}

#[test]
fn automatic_sizing_keeps_to_two_thousand_pieces() {
    assert_eq!(auto_piece_length(0), 524288);
    assert_eq!(auto_piece_length(2000 * 524288), 524288);
    assert_eq!(auto_piece_length(2000 * 524288 + 1), 1048576);
    assert_eq!(auto_piece_length(2000 * 1048576), 1048576);
    assert_eq!(auto_piece_length(2000 * 1048576 + 1), 2097152);
    assert_eq!(auto_piece_length(2000 * 8388608 + 1), 16777216);
}

#[test]
fn automatic_sizing_stops_at_16_mib() {
    assert_eq!(auto_piece_length(2000 * 16777216 + 1), 16777216);
    assert_eq!(auto_piece_length(u64::MAX), 16777216);
}

#[test]
fn the_clock_reads_a_time_after_2017() {
    let now = time().unwrap();
    assert!(now > 1_500_000_000);
}

#[test]
fn seconds_become_a_timestamp_where_they_fit() {
    assert_eq!(timestamp_from_seconds(0), Some(0));
    assert_eq!(timestamp_from_seconds(1_500_000_000), Some(1_500_000_000));
    assert_eq!(timestamp_from_seconds(i64::MAX as u64), Some(i64::MAX));
    assert_eq!(timestamp_from_seconds(i64::MAX as u64 + 1), None);
    assert_eq!(timestamp_from_seconds(u64::MAX), None);
}
