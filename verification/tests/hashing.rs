use maketorrent::config::BuildError;
use maketorrent::digest::{piece_digest, DIGEST_LEN};
use maketorrent::planner::{plan_pieces, Piece, PieceSegment};
use maketorrent::progress::{status_line, BarState, Progress};
use maketorrent::session::HashSession;
use maketorrent::source::FileEntry;

fn hex(text: &str) -> Vec<u8> {
    let digits: Vec<u8> = text.bytes().map(|c| (c as char).to_digit(16).unwrap() as u8).collect();
    digits.chunks(2).map(|pair| pair[0] * 16 + pair[1]).collect()
}

fn plan_of(pieces: u64) -> Vec<Piece> {
    plan_pieces(&vec![FileEntry { path: vec![], length: pieces * 4 }], 4)
}

#[test]
fn digest_of_nothing_is_the_known_sha1() {
    assert_eq!(piece_digest(b""), hex("da39a3ee5e6b4b0d3255bfef95601890afd80709"));
}

#[test]
fn digest_of_abc_is_the_known_sha1() {
    assert_eq!(piece_digest(b"abc"), hex("a9993e364706816aba3e25717850c26c9cd0d89d"));
}

#[test]
fn digest_has_twenty_bytes_whatever_the_input() {
    assert_eq!(DIGEST_LEN, 20);
    assert_eq!(piece_digest(&vec![0u8; 100_000]).len(), 20);
    assert_eq!(piece_digest(b"hello world"), hex("2aae6c35c94fcfb415dbe95f408b9ce91ee846ed"));
}

#[test]
fn pieces_are_claimed_in_index_order() {
    let mut session = HashSession::new(plan_of(3));
    assert_eq!(session.piece_total(), 3);
    let first = session.claim().unwrap();
    assert_eq!(first.index, 0);
    assert_eq!(first.segments, vec![PieceSegment { file: 0, offset: 0, length: 4 }]);
    let second = session.claim().unwrap();
    assert_eq!(second.index, 1);
    assert_eq!(second.segments, vec![PieceSegment { file: 0, offset: 4, length: 4 }]);
    assert_eq!(session.claim().unwrap().index, 2);
    assert_eq!(session.claim(), None);
    assert_eq!(session.claim(), None);
}

#[test]
fn digests_come_out_in_index_order_whatever_the_order_they_came_in() {
    let mut session = HashSession::new(plan_of(3));
    for _ in 0..3 {
        session.claim().unwrap();
    }
    assert_eq!(session.complete(2, vec![2u8; 20]), Some(Progress { completed: 1, total: 3 }));
    assert_eq!(session.outcome(), None);
    assert_eq!(session.complete(0, vec![0u8; 20]), Some(Progress { completed: 2, total: 3 }));
    assert_eq!(session.outcome(), None);
    assert_eq!(session.complete(1, vec![1u8; 20]), Some(Progress { completed: 3, total: 3 }));
    let mut expected = vec![0u8; 20];
    expected.extend_from_slice(&[1u8; 20]);
    expected.extend_from_slice(&[2u8; 20]);
    assert_eq!(session.outcome(), Some(Ok(expected)));
}

#[test]
fn a_digest_is_taken_once_for_each_piece() {
    let mut session = HashSession::new(plan_of(2));
    session.claim().unwrap();
    assert_eq!(session.complete(0, vec![1u8; 20]), Some(Progress { completed: 1, total: 2 }));
    assert_eq!(session.complete(0, vec![9u8; 20]), None);
    session.claim().unwrap();
    session.complete(1, vec![2u8; 20]).unwrap();
    let mut expected = vec![1u8; 20];
    expected.extend_from_slice(&[2u8; 20]);
    assert_eq!(session.outcome(), Some(Ok(expected)));
}

#[test]
fn a_digest_for_a_piece_not_handed_out_is_dropped() {
    let mut session = HashSession::new(plan_of(2));
    assert_eq!(session.complete(0, vec![1u8; 20]), None);
    session.claim().unwrap();
    assert_eq!(session.complete(1, vec![1u8; 20]), None);
    assert_eq!(session.complete(2, vec![1u8; 20]), None);
    assert_eq!(session.complete(usize::MAX, vec![1u8; 20]), None);
    assert_eq!(session.progress(), Progress { completed: 0, total: 2 });
}

#[test]
fn a_digest_of_the_wrong_length_is_dropped() {
    let mut session = HashSession::new(plan_of(1));
    session.claim().unwrap();
    assert_eq!(session.complete(0, vec![1u8; 19]), None);
    assert_eq!(session.complete(0, vec![1u8; 21]), None);
    assert_eq!(session.complete(0, vec![]), None);
    assert_eq!(session.complete(0, vec![1u8; 20]), Some(Progress { completed: 1, total: 1 }));
}

#[test]
fn a_failed_read_on_the_last_piece_fails_the_run() {
    let mut session = HashSession::new(plan_of(3));
    session.claim().unwrap();
    session.complete(0, vec![0u8; 20]).unwrap();
    session.claim().unwrap();
    session.complete(1, vec![1u8; 20]).unwrap();
    let last = session.claim().unwrap();
    assert_eq!(last.index, 2);
    session.fail(2, 0);
    assert_eq!(
        session.outcome(),
        Some(Err(BuildError::ReadFailure { piece: 2, segment: 0 }))
    );
    assert_eq!(session.complete(2, vec![2u8; 20]), None);
    assert_eq!(
        session.outcome(),
        Some(Err(BuildError::ReadFailure { piece: 2, segment: 0 }))
    );
}

#[test]
fn after_a_failure_nothing_is_handed_out() {
    let mut session = HashSession::new(plan_of(4));
    session.claim().unwrap();
    session.claim().unwrap();
    session.fail(1, 0);
    assert_eq!(session.claim(), None);
    assert_eq!(session.complete(0, vec![0u8; 20]), None);
    assert_eq!(
        session.outcome(),
        Some(Err(BuildError::ReadFailure { piece: 1, segment: 0 }))
    );
}

#[test]
fn the_first_failure_stays() {
    let mut session = HashSession::new(plan_of(3));
    session.claim().unwrap();
    session.claim().unwrap();
    session.fail(1, 3);
    session.fail(0, 0);
    assert_eq!(
        session.outcome(),
        Some(Err(BuildError::ReadFailure { piece: 1, segment: 3 }))
    );
}

#[test]
fn a_run_without_pieces_is_complete_at_once() {
    let mut session = HashSession::new(vec![]);
    assert_eq!(session.empty_run_report(), Some(Progress { completed: 0, total: 0 }));
    assert!(session.empty_run_report().unwrap().is_complete());
    assert_eq!(session.claim(), None);
    assert_eq!(session.outcome(), Some(Ok(vec![])));
}

#[test]
fn a_run_with_pieces_has_no_report_before_the_first_digest() {
    let session = HashSession::new(plan_of(1));
    assert_eq!(session.empty_run_report(), None);
    assert_eq!(session.progress(), Progress { completed: 0, total: 1 });
    assert_eq!(session.outcome(), None);
}

#[test]
fn a_run_starts_with_every_slot_empty() {
    let mut plan = plan_of(2);
    plan[0].digest = Some(vec![5u8; 20]);
    let mut session = HashSession::new(plan);
    assert_eq!(session.progress(), Progress { completed: 0, total: 2 });
    session.claim().unwrap();
    assert_eq!(session.complete(0, vec![1u8; 20]), Some(Progress { completed: 1, total: 2 }));
}

#[test]
fn the_pieces_come_back_with_their_digests() {
    let mut session = HashSession::new(plan_of(2));
    session.claim().unwrap();
    session.claim().unwrap();
    session.complete(1, vec![8u8; 20]).unwrap();
    let pieces = session.into_pieces();
    assert_eq!(pieces.len(), 2);
    assert_eq!(pieces[0].index, 0);
    assert_eq!(pieces[0].digest, None);
    assert_eq!(pieces[1].index, 1);
    assert_eq!(pieces[1].digest, Some(vec![8u8; 20]));
    assert_eq!(pieces[1].segments, vec![PieceSegment { file: 0, offset: 4, length: 4 }]);
}

#[test]
fn progress_scales_rounding_down() {
    assert_eq!(Progress { completed: 1, total: 3 }.scaled(10), 3);
    assert_eq!(Progress { completed: 2, total: 3 }.scaled(10), 6);
    assert_eq!(Progress { completed: 3, total: 3 }.scaled(10), 10);
    assert_eq!(Progress { completed: 0, total: 3 }.scaled(10), 0);
    assert_eq!(Progress { completed: 1, total: 2 }.scaled(u64::MAX), u64::MAX / 2);
    assert_eq!(Progress { completed: u64::MAX - 1, total: u64::MAX }.scaled(u64::MAX), u64::MAX - 1);
}

#[test]
fn progress_of_nothing_to_do_is_complete() {
    let p = Progress { completed: 0, total: 0 };
    assert!(p.is_complete());
    assert_eq!(p.scaled(77), 77);
    assert!(!Progress { completed: 2, total: 3 }.is_complete());
    assert!(Progress { completed: 3, total: 3 }.is_complete());
}

#[test]
fn the_bar_advances_by_the_difference() {
    let mut bar = BarState::new();
    assert_eq!(bar.shown, 0);
    assert_eq!(bar.advance(10), 10);
    assert_eq!(bar.advance(10), 0);
    assert_eq!(bar.advance(25), 15);
    assert_eq!(bar.shown, 25);
}

#[test]
fn the_bar_never_moves_back() {
    let mut bar = BarState::new();
    bar.advance(10);
    assert_eq!(bar.advance(4), 0);
    assert_eq!(bar.shown, 10);
    assert_eq!(bar.advance(11), 1);
}

#[test]
fn the_status_line_counts_pieces() {
    assert_eq!(status_line(3, 7), b"Hashed 3 of 7 pieces\r".to_vec());
    assert_eq!(status_line(0, 0), b"Hashed 0 of 0 pieces\r".to_vec());
    assert_eq!(status_line(1200, 1200), b"Hashed 1200 of 1200 pieces\r".to_vec());
}
