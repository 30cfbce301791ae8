//! The logical byte stream of a source, and what a plan's segments read from it.

use crate::planner::{
    covers, is_plan, piece_count, piece_end, segment_end, segment_in_file, segment_start,
    PieceSegment, PieceView,
};
use crate::source::{prefix_len, total_len, FileView};
use vstd::arithmetic::div_mod::{lemma_fundamental_div_mod, lemma_fundamental_div_mod_converse};
use vstd::prelude::*;

verus! {

/// The parts one after the other.
pub open spec fn concat(parts: Seq<Seq<u8>>) -> Seq<u8>
    decreases parts.len(),
{
    if parts.len() == 0 {
        Seq::empty()
    } else {
        concat(parts.drop_last()) + parts.last()
    }
}

/// `contents` holds the bytes of each file of `files`, in order and in full.
pub open spec fn contents_match(files: Seq<FileView>, contents: Seq<Seq<u8>>) -> bool {
    &&& contents.len() == files.len()
    &&& forall|i: int| 0 <= i < files.len() ==> (#[trigger] contents[i]).len() == files[i].length
}

/// The bytes that a segment names.
pub open spec fn segment_bytes(contents: Seq<Seq<u8>>, s: PieceSegment) -> Seq<u8> {
    contents[s.file as int].subrange(s.offset as int, s.offset + s.length)
}

/// The bytes of the segments, in order.
pub open spec fn segments_bytes(contents: Seq<Seq<u8>>, segs: Seq<PieceSegment>) -> Seq<u8>
    decreases segs.len(),
{
    if segs.len() == 0 {
        Seq::empty()
    } else {
        segments_bytes(contents, segs.drop_last()) + segment_bytes(contents, segs.last())
    }
}

/// The bytes of all segments of all pieces, in index order.
pub open spec fn plan_bytes(contents: Seq<Seq<u8>>, pieces: Seq<PieceView>) -> Seq<u8>
    decreases pieces.len(),
{
    if pieces.len() == 0 {
        Seq::empty()
    } else {
        plan_bytes(contents, pieces.drop_last()) + segments_bytes(contents, pieces.last().segments)
    }
}

/// The bytes of piece `k` of a stream.
pub open spec fn piece_range(stream: Seq<u8>, k: int, piece_length: nat) -> Seq<u8> {
    stream.subrange(k * piece_length, piece_end(k, piece_length, stream.len()))
}

/// The first `n` files hold as many bytes as their sizes add up to.
pub proof fn lemma_concat_prefix(files: Seq<FileView>, contents: Seq<Seq<u8>>, n: int)
    requires
        contents_match(files, contents),
        0 <= n <= files.len(),
    ensures
        concat(contents.take(n)).len() == prefix_len(files, n),
    decreases n,
{
    if n > 0 {
        lemma_concat_prefix(files, contents, n - 1);
        assert(contents.take(n).drop_last() =~= contents.take(n - 1));
        assert(contents.take(n).last() == contents[n - 1]);
    }
}

/// The stream is as long as the sizes of the files say.
pub proof fn lemma_stream_len(files: Seq<FileView>, contents: Seq<Seq<u8>>)
    requires
        contents_match(files, contents),
    ensures
        concat(contents).len() == total_len(files),
{
    lemma_concat_prefix(files, contents, files.len() as int);
    assert(contents.take(files.len() as int) =~= contents);
}

proof fn lemma_file_in_prefix(files: Seq<FileView>, contents: Seq<Seq<u8>>, f: int, m: int)
    requires
        contents_match(files, contents),
        0 <= f < m <= files.len(),
    ensures
        prefix_len(files, f) + files[f].length <= concat(contents.take(m)).len(),
        concat(contents.take(m)).subrange(
            prefix_len(files, f) as int,
            (prefix_len(files, f) + files[f].length) as int,
        ) =~= contents[f],
    decreases m,
{
    lemma_concat_prefix(files, contents, m - 1);
    assert(contents.take(m).drop_last() =~= contents.take(m - 1));
    assert(contents.take(m).last() == contents[m - 1]);
    if m - 1 > f {
        lemma_file_in_prefix(files, contents, f, m - 1);
    }
}

/// A file's bytes stand in the stream right after those of the files before it.
pub proof fn lemma_file_in_stream(files: Seq<FileView>, contents: Seq<Seq<u8>>, f: int)
    requires
        contents_match(files, contents),
        0 <= f < files.len(),
    ensures
        prefix_len(files, f) + files[f].length <= concat(contents).len(),
        concat(contents).subrange(
            prefix_len(files, f) as int,
            (prefix_len(files, f) + files[f].length) as int,
        ) == contents[f],
{
    lemma_file_in_prefix(files, contents, f, files.len() as int);
    assert(contents.take(files.len() as int) =~= contents);
}

/// A segment reads the stream from its start to its end.
pub proof fn lemma_segment_in_stream(
    files: Seq<FileView>,
    contents: Seq<Seq<u8>>,
    s: PieceSegment,
)
    requires
        contents_match(files, contents),
        segment_in_file(files, s),
    ensures
        segment_end(files, s) <= concat(contents).len(),
        segment_bytes(contents, s) == concat(contents).subrange(
            segment_start(files, s),
            segment_end(files, s),
        ),
{
    lemma_file_in_stream(files, contents, s.file as int);
    let stream = concat(contents);
    let base: int = prefix_len(files, s.file as int) as int;
    assert(stream.subrange(base, base + files[s.file as int].length).subrange(
        s.offset as int,
        s.offset + s.length,
    ) =~= stream.subrange(base + s.offset, base + s.offset + s.length));
}

proof fn lemma_segments_prefix(
    files: Seq<FileView>,
    contents: Seq<Seq<u8>>,
    segs: Seq<PieceSegment>,
    lo: int,
    hi: int,
    n: int,
)
    requires
        contents_match(files, contents),
        covers(files, segs, lo, hi),
        1 <= n <= segs.len(),
    ensures
        0 <= lo < segment_end(files, segs[n - 1]) <= concat(contents).len(),
        segments_bytes(contents, segs.take(n)) == concat(contents).subrange(
            lo,
            segment_end(files, segs[n - 1]),
        ),
    decreases n,
{
    let stream = concat(contents);
    lemma_segment_in_stream(files, contents, segs[n - 1]);
    assert(segs.take(n).drop_last() =~= segs.take(n - 1));
    assert(segs.take(n).last() == segs[n - 1]);
    if n == 1 {
        assert(segments_bytes(contents, segs.take(0)) =~= Seq::<u8>::empty());
        assert(segments_bytes(contents, segs.take(n)) =~= segment_bytes(contents, segs[0]));
    } else {
        lemma_segments_prefix(files, contents, segs, lo, hi, n - 1);
        let mid: int = segment_end(files, segs[n - 2]);
        assert(segment_start(files, segs[n - 1]) == mid);
        assert(stream.subrange(lo, mid) + stream.subrange(mid, segment_end(files, segs[n - 1]))
            =~= stream.subrange(lo, segment_end(files, segs[n - 1])));
    }
}

/// Segments that cover a range of the stream read exactly that range.
pub proof fn lemma_cover_bytes(
    files: Seq<FileView>,
    contents: Seq<Seq<u8>>,
    segs: Seq<PieceSegment>,
    lo: int,
    hi: int,
)
    requires
        contents_match(files, contents),
        covers(files, segs, lo, hi),
    ensures
        0 <= lo < hi <= concat(contents).len(),
        segments_bytes(contents, segs) == concat(contents).subrange(lo, hi),
{
    lemma_segments_prefix(files, contents, segs, lo, hi, segs.len() as int);
    assert(segs.take(segs.len() as int) =~= segs);
}

/// The segments of piece `k` of a plan read piece `k` of the stream.
pub proof fn lemma_piece_bytes(
    files: Seq<FileView>,
    contents: Seq<Seq<u8>>,
    piece_length: nat,
    pieces: Seq<PieceView>,
    k: int,
)
    requires
        contents_match(files, contents),
        is_plan(files, piece_length, pieces),
        0 <= k < pieces.len(),
    ensures
        segments_bytes(contents, pieces[k].segments) == piece_range(
            concat(contents),
            k,
            piece_length,
        ),
{
    lemma_stream_len(files, contents);
    lemma_cover_bytes(
        files,
        contents,
        pieces[k].segments,
        k * piece_length,
        piece_end(k, piece_length, total_len(files)),
    );
}

proof fn lemma_plan_prefix(
    files: Seq<FileView>,
    contents: Seq<Seq<u8>>,
    piece_length: nat,
    pieces: Seq<PieceView>,
    n: int,
)
    requires
        contents_match(files, contents),
        is_plan(files, piece_length, pieces),
        0 <= n <= pieces.len(),
    ensures
        n > 0 ==> 0 <= piece_end(n - 1, piece_length, total_len(files)) <= concat(contents).len(),
        plan_bytes(contents, pieces.take(n)) == concat(contents).take(
            if n == 0 {
                0
            } else {
                piece_end(n - 1, piece_length, total_len(files))
            },
        ),
    decreases n,
{
    let stream = concat(contents);
    let total = total_len(files);
    if n == 0 {
        assert(plan_bytes(contents, pieces.take(0)) =~= stream.take(0));
    } else {
        lemma_plan_prefix(files, contents, piece_length, pieces, n - 1);
        assert(pieces.take(n).drop_last() =~= pieces.take(n - 1));
        assert(pieces.take(n).last() == pieces[n - 1]);
        let lo: int = (n - 1) * piece_length;
        let hi: int = piece_end(n - 1, piece_length, total);
        lemma_cover_bytes(files, contents, pieces[n - 1].segments, lo, hi);
        if n - 1 > 0 {
            assert(((n - 2) + 1) * piece_length == lo);
            assert(piece_end(n - 2, piece_length, total) == lo);
        } else {
            assert(lo == 0) by (nonlinear_arith)
                requires
                    lo == (n - 1) * piece_length,
                    n == 1,
            ;
        }
        assert(stream.take(lo) + stream.subrange(lo, hi) =~= stream.take(hi));
    }
}

/// Read piece after piece and segment after segment, a plan gives back the
/// whole stream, every byte once and in order.
pub proof fn lemma_plan_round_trip(
    files: Seq<FileView>,
    contents: Seq<Seq<u8>>,
    piece_length: nat,
    pieces: Seq<PieceView>,
)
    requires
        piece_length > 0,
        contents_match(files, contents),
        is_plan(files, piece_length, pieces),
    ensures
        plan_bytes(contents, pieces) == concat(contents),
{
    let stream = concat(contents);
    let total = total_len(files);
    let n: int = pieces.len() as int;
    lemma_stream_len(files, contents);
    lemma_plan_prefix(files, contents, piece_length, pieces, n);
    assert(pieces.take(n) =~= pieces);
    let l: int = piece_length as int;
    lemma_fundamental_div_mod(total + l - 1, l);
    if n == 0 {
        assert(l * 0 == 0);
        assert(total == 0);
        assert(stream.take(0) =~= stream);
    } else {
        assert(l * n == n * l) by (nonlinear_arith);
        assert(((n - 1) + 1) * l == n * l);
        assert(n * l >= total);
        assert(piece_end(n - 1, piece_length, total) == total);
        assert(stream.take(total as int) =~= stream);
    }
}

/// A stream whose size is a positive multiple of the piece length has exactly
/// that multiple of pieces.
pub proof fn lemma_piece_count_exact(total: nat, piece_length: nat)
    requires
        piece_length > 0,
        total > 0,
        total % piece_length == 0,
    ensures
        piece_count(total, piece_length) == total / piece_length,
        piece_count(total, piece_length) > 0,
{
    let l: int = piece_length as int;
    let q: int = total as int / l;
    lemma_fundamental_div_mod(total as int, l);
    assert(total == l * q);
    assert(q > 0) by (nonlinear_arith)
        requires
            total == l * q,
            total > 0,
            l > 0,
    ;
    assert(total + l - 1 == q * l + (l - 1)) by (nonlinear_arith)
        requires
            total == l * q,
    ;
    lemma_fundamental_div_mod_converse(total + l - 1, l, q, l - 1);
}

} // verus!
