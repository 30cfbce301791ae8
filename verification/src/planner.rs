//! The piece plan: which byte ranges of which files make up each piece.

use crate::source::{
    file_views, lemma_prefix_len_monotonic, prefix_len, total_len, total_size, FileEntry, FileView,
};
use vstd::arithmetic::div_mod::lemma_fundamental_div_mod_converse;
use vstd::prelude::*;

verus! {

/// The part of one file that falls within one piece.
#[derive(Debug, Clone, Copy, PartialEq, Eq)]
pub struct PieceSegment {
    /// Position of the file in the list of entries.
    pub file: usize,
    /// Offset of the first byte within that file.
    pub offset: u64,
    /// Number of bytes.
    pub length: u64,
}

/// One piece: its index, its segments in stream order, and its digest once
/// it has been computed.
#[derive(Debug, Clone, PartialEq, Eq)]
pub struct Piece {
    pub index: u64,
    pub segments: Vec<PieceSegment>,
    pub digest: Option<Vec<u8>>,
}

/// What a `Piece` stands for.
pub struct PieceView {
    pub index: nat,
    pub segments: Seq<PieceSegment>,
    pub digest: Option<Seq<u8>>,
}

impl View for Piece {
    type V = PieceView;

    open spec fn view(&self) -> PieceView {
        PieceView {
            index: self.index as nat,
            segments: self.segments@,
            digest: match self.digest {
                Some(d) => Some(d@),
                None => None,
            },
        }
    }
}

/// The views of the pieces, in order.
pub open spec fn piece_views(pieces: Seq<Piece>) -> Seq<PieceView> {
    pieces.map_values(|p: Piece| p@)
}

/// The number of pieces of a stream: its size divided by the piece length,
/// rounded up.
pub open spec fn piece_count(total: nat, piece_length: nat) -> nat {
    if piece_length == 0 {
        0
    } else {
        ((total + piece_length - 1) / (piece_length as int)) as nat
    }
}

/// The stream position at which piece `k` ends: a full stride after its
/// start, or the end of the stream if that comes first.
pub open spec fn piece_end(k: int, piece_length: nat, total: nat) -> int {
    if (k + 1) * piece_length <= total {
        (k + 1) * piece_length
    } else {
        total as int
    }
}

/// The stream position of the first byte of a segment.
pub open spec fn segment_start(files: Seq<FileView>, s: PieceSegment) -> int {
    prefix_len(files, s.file as int) + s.offset
}

/// The stream position just past the last byte of a segment.
pub open spec fn segment_end(files: Seq<FileView>, s: PieceSegment) -> int {
    segment_start(files, s) + s.length
}

/// The segment names a file of the list and a non-empty range inside it.
pub open spec fn segment_in_file(files: Seq<FileView>, s: PieceSegment) -> bool {
    &&& s.file < files.len()
    &&& s.length > 0
    &&& s.offset + s.length <= files[s.file as int].length
}

/// The segments are exactly the stream range from `lo` to `hi`, cut at file
/// boundaries and nowhere else: each lies inside one file, each starts where
/// the one before it ended, and only the last may stop short of its file's end.
pub open spec fn covers(files: Seq<FileView>, segs: Seq<PieceSegment>, lo: int, hi: int) -> bool {
    &&& segs.len() > 0
    &&& forall|j: int| 0 <= j < segs.len() ==> segment_in_file(files, #[trigger] segs[j])
    &&& segment_start(files, segs[0]) == lo
    &&& segment_end(files, segs.last()) == hi
    &&& forall|i: int, j: int|
        0 <= i && j == i + 1 && j < segs.len() ==> segment_start(files, #[trigger] segs[j])
            == segment_end(files, #[trigger] segs[i])
    &&& forall|j: int|
        0 <= j < segs.len() - 1 ==> (#[trigger] segs[j]).offset + segs[j].length
            == files[segs[j].file as int].length
}

/// `pieces` is the plan of `files` for the given piece length: as many pieces
/// as the stream needs, numbered from zero, none with a digest yet, piece `k`
/// covering the stream from `k * piece_length` to the end of its stride.
pub open spec fn is_plan(files: Seq<FileView>, piece_length: nat, pieces: Seq<PieceView>) -> bool {
    &&& pieces.len() == piece_count(total_len(files), piece_length)
    &&& forall|k: int|
        0 <= k < pieces.len() ==> {
            &&& (#[trigger] pieces[k]).index == k
            &&& pieces[k].digest is None
            &&& covers(
                files,
                pieces[k].segments,
                k * piece_length,
                piece_end(k, piece_length, total_len(files)),
            )
        }
}

/// A stream that ends inside stride `k` (or at its end) has `k + 1` pieces.
pub proof fn lemma_piece_count_partial(k: int, piece_length: nat, total: nat)
    requires
        piece_length > 0,
        0 <= k,
        k * piece_length < total <= (k + 1) * piece_length,
    ensures
        piece_count(total, piece_length) == k + 1,
{
    let l: int = piece_length as int;
    let r: int = total - k * l - 1;
    assert((k + 1) * l == k * l + l) by (nonlinear_arith);
    assert(total + l - 1 == (k + 1) * l + r);
    lemma_fundamental_div_mod_converse(total + l - 1, l, k + 1, r);
}

/// An empty stream has no pieces.
pub proof fn lemma_piece_count_zero(piece_length: nat)
    requires
        piece_length > 0,
    ensures
        piece_count(0, piece_length) == 0,
{
    let l: int = piece_length as int;
    assert(l - 1 == 0 * l + (l - 1)) by (nonlinear_arith);
    lemma_fundamental_div_mod_converse(l - 1, l, 0, l - 1);
}

/// The number of bytes that the segments name.
pub open spec fn segments_len(segs: Seq<PieceSegment>) -> nat
    decreases segs.len(),
{
    if segs.len() == 0 {
        0
    } else {
        segments_len(segs.drop_last()) + segs.last().length as nat
    }
}

proof fn lemma_cover_prefix_len(
    files: Seq<FileView>,
    segs: Seq<PieceSegment>,
    lo: int,
    hi: int,
    n: int,
)
    requires
        covers(files, segs, lo, hi),
        1 <= n <= segs.len(),
    ensures
        segments_len(segs.take(n)) == segment_end(files, segs[n - 1]) - lo,
    decreases n,
{
    assert(segs.take(n).drop_last() =~= segs.take(n - 1));
    assert(segs.take(n).last() == segs[n - 1]);
    assert(segment_in_file(files, segs[n - 1]));
    if n > 1 {
        lemma_cover_prefix_len(files, segs, lo, hi, n - 1);
        assert(segment_start(files, segs[n - 1]) == segment_end(files, segs[n - 2]));
    } else {
        assert(segments_len(segs.take(0)) == 0);
    }
}

/// Segments that cover a range of the stream name as many bytes as the
/// range holds.
pub proof fn lemma_cover_len(files: Seq<FileView>, segs: Seq<PieceSegment>, lo: int, hi: int)
    requires
        covers(files, segs, lo, hi),
    ensures
        segments_len(segs) == hi - lo,
        lo < hi,
{
    lemma_cover_prefix_len(files, segs, lo, hi, segs.len() as int);
    assert(segs.take(segs.len() as int) =~= segs);
}

/// Every piece of a plan holds a full stride, but for the last, which holds
/// what is left of the stream: at least one byte, at most a stride.
pub proof fn lemma_piece_sizes(
    files: Seq<FileView>,
    piece_length: nat,
    pieces: Seq<PieceView>,
    k: int,
)
    requires
        piece_length > 0,
        is_plan(files, piece_length, pieces),
        0 <= k < pieces.len(),
    ensures
        k < pieces.len() - 1 ==> segments_len(pieces[k].segments) == piece_length,
        k == pieces.len() - 1 ==> segments_len(pieces[k].segments) == total_len(files) - k
            * piece_length,
        0 < segments_len(pieces[k].segments) <= piece_length,
{
    let total = total_len(files);
    lemma_cover_len(files, pieces[k].segments, k * piece_length, piece_end(k, piece_length, total));
    assert((k + 1) * piece_length == k * piece_length + piece_length) by (nonlinear_arith);
    if k < pieces.len() - 1 {
        lemma_cover_len(
            files,
            pieces[k + 1].segments,
            (k + 1) * piece_length,
            piece_end(k + 1, piece_length, total),
        );
    } else {
        let l: int = piece_length as int;
        vstd::arithmetic::div_mod::lemma_fundamental_div_mod(total + l - 1, l);
        assert(l * (k + 1) == (k + 1) * l) by (nonlinear_arith);
    }
}

/// The segments of a covering end ever later in the stream.
proof fn lemma_ends_increase(
    files: Seq<FileView>,
    segs: Seq<PieceSegment>,
    lo: int,
    hi: int,
    i: int,
    j: int,
)
    requires
        covers(files, segs, lo, hi),
        0 <= i < j < segs.len(),
    ensures
        segment_end(files, segs[i]) < segment_end(files, segs[j]),
    decreases j - i,
{
    assert(segment_in_file(files, segs[j]));
    assert(segment_start(files, segs[j]) == segment_end(files, segs[j - 1]));
    if i < j - 1 {
        lemma_ends_increase(files, segs, lo, hi, i, j - 1);
    }
}

/// A stream position lies in one file only: segments that start at the same
/// position name the same file and the same offset.
proof fn lemma_segment_place_unique(files: Seq<FileView>, s: PieceSegment, t: PieceSegment)
    requires
        segment_in_file(files, s),
        segment_in_file(files, t),
        segment_start(files, s) == segment_start(files, t),
    ensures
        s.file == t.file,
        s.offset == t.offset,
{
    if s.file < t.file {
        lemma_prefix_len_monotonic(files, s.file + 1, t.file as int);
    } else if t.file < s.file {
        lemma_prefix_len_monotonic(files, t.file + 1, s.file as int);
    }
}

/// What a covering says of its segment `j`: where it starts, and where it
/// ends.
proof fn lemma_cover_at(files: Seq<FileView>, segs: Seq<PieceSegment>, lo: int, hi: int, j: int)
    requires
        covers(files, segs, lo, hi),
        0 <= j < segs.len(),
    ensures
        segment_in_file(files, segs[j]),
        j == 0 ==> segment_start(files, segs[j]) == lo,
        j > 0 ==> segment_start(files, segs[j]) == segment_end(files, segs[j - 1]),
        j < segs.len() - 1 ==> segment_end(files, segs[j]) < hi && segs[j].offset
            + segs[j].length == files[segs[j].file as int].length,
        j == segs.len() - 1 ==> segment_end(files, segs[j]) == hi,
{
    if j > 0 {
        assert(segment_start(files, segs[j]) == segment_end(files, segs[j - 1]));
    }
    if j < segs.len() - 1 {
        lemma_ends_increase(files, segs, lo, hi, j, segs.len() - 1);
    }
}

/// Segments that start at one position, each ending at its file's end or at
/// `hi`, whichever comes first, are the same segment.
proof fn lemma_segment_unique(files: Seq<FileView>, a: PieceSegment, b: PieceSegment, hi: int)
    requires
        segment_in_file(files, a),
        segment_in_file(files, b),
        segment_start(files, a) == segment_start(files, b),
        segment_end(files, a) == hi || (segment_end(files, a) < hi && a.offset + a.length
            == files[a.file as int].length),
        segment_end(files, b) == hi || (segment_end(files, b) < hi && b.offset + b.length
            == files[b.file as int].length),
    ensures
        a == b,
{
    lemma_segment_place_unique(files, a, b);
}

proof fn lemma_covers_agree(
    files: Seq<FileView>,
    s: Seq<PieceSegment>,
    t: Seq<PieceSegment>,
    lo: int,
    hi: int,
    j: int,
)
    requires
        covers(files, s, lo, hi),
        covers(files, t, lo, hi),
        0 <= j < s.len(),
        j < t.len(),
    ensures
        s[j] == t[j],
    decreases j,
{
    lemma_cover_at(files, s, lo, hi, j);
    lemma_cover_at(files, t, lo, hi, j);
    if j > 0 {
        lemma_covers_agree(files, s, t, lo, hi, j - 1);
    }
    lemma_segment_unique(files, s[j], t[j], hi);
}

/// A range of the stream has one covering only.
pub proof fn lemma_covers_unique(
    files: Seq<FileView>,
    s: Seq<PieceSegment>,
    t: Seq<PieceSegment>,
    lo: int,
    hi: int,
)
    requires
        covers(files, s, lo, hi),
        covers(files, t, lo, hi),
    ensures
        s == t,
{
    let n: int = if s.len() <= t.len() {
        s.len() as int
    } else {
        t.len() as int
    };
    lemma_covers_agree(files, s, t, lo, hi, n - 1);
    lemma_cover_at(files, s, lo, hi, n - 1);
    lemma_cover_at(files, t, lo, hi, n - 1);
    assert(s.len() == t.len());
    assert forall|j: int| 0 <= j < s.len() implies s[j] == t[j] by {
        lemma_covers_agree(files, s, t, lo, hi, j);
    }
    assert(s =~= t);
}

/// Files and a piece length have one plan only: `is_plan` says of a plan
/// all there is to say.
pub proof fn lemma_plan_unique(
    files: Seq<FileView>,
    piece_length: nat,
    p: Seq<PieceView>,
    q: Seq<PieceView>,
)
    requires
        is_plan(files, piece_length, p),
        is_plan(files, piece_length, q),
    ensures
        p == q,
{
    assert forall|k: int| 0 <= k < p.len() implies p[k] == q[k] by {
        lemma_covers_unique(
            files,
            p[k].segments,
            q[k].segments,
            k * piece_length,
            piece_end(k, piece_length, total_len(files)),
        );
    }
    assert(p =~= q);
}

/// Cuts the stream formed by `files` into pieces of `piece_length` bytes, the
/// last one possibly shorter, and each piece into its segments.
pub fn plan_pieces(files: &Vec<FileEntry>, piece_length: u64) -> (pieces: Vec<Piece>)
    requires
        piece_length > 0,
        total_len(file_views(files@)) <= u64::MAX,
    ensures
        is_plan(file_views(files@), piece_length as nat, piece_views(pieces@)),
{
    let ghost fv: Seq<FileView> = file_views(files@);
    let ghost len: nat = piece_length as nat;
    let total: u64 = match total_size(files) {
        Some(t) => t,
        None => 0,
    };
    let mut pieces: Vec<Piece> = Vec::new();
    let mut file: usize = 0;
    let mut offset: u64 = 0;
    let mut pos: u64 = 0;
    proof {
        lemma_piece_count_zero(len);
        assert(0 * len == 0) by (nonlinear_arith);
    }
    while pos < total
        invariant
            piece_length > 0,
            len == piece_length as nat,
            fv == file_views(files@),
            total == total_len(fv),
            file <= files@.len(),
            file < files@.len() ==> offset <= files@[file as int].length,
            file == files@.len() ==> offset == 0,
            pos == prefix_len(fv, file as int) + offset,
            pos <= total,
            pos < total ==> pos == pieces@.len() * len,
            pieces@.len() == piece_count(pos as nat, len),
            forall|k: int|
                0 <= k < pieces@.len() ==> {
                    &&& (#[trigger] pieces@[k])@.index == k
                    &&& pieces@[k]@.digest is None
                    &&& covers(
                        fv,
                        pieces@[k]@.segments,
                        k * len,
                        piece_end(k, len, total as nat),
                    )
                },
        decreases total - pos,
    {
        let ghost k: int = pieces@.len() as int;
        let start: u64 = pos;
        let end: u64 = if total - pos < piece_length {
            total
        } else {
            pos + piece_length
        };
        proof {
            assert((k + 1) * len == k * len + len) by (nonlinear_arith);
            assert(end == piece_end(k, len, total as nat));
        }
        let mut segs: Vec<PieceSegment> = Vec::new();
        while pos < end
            invariant
                fv == file_views(files@),
                total == total_len(fv),
                file <= files@.len(),
                file < files@.len() ==> offset <= files@[file as int].length,
                file == files@.len() ==> offset == 0,
                pos == prefix_len(fv, file as int) + offset,
                start <= pos <= end <= total,
                segs@.len() == 0 <==> pos == start,
                forall|j: int| 0 <= j < segs@.len() ==> segment_in_file(fv, #[trigger] segs@[j]),
                segs@.len() > 0 ==> segment_start(fv, segs@[0]) == start,
                segs@.len() > 0 ==> segment_end(fv, segs@.last()) == pos,
                forall|i: int, j: int|
                    0 <= i && j == i + 1 && j < segs@.len() ==> segment_start(
                        fv,
                        #[trigger] segs@[j],
                    ) == segment_end(fv, #[trigger] segs@[i]),
                forall|j: int|
                    0 <= j < segs@.len() && (j < segs@.len() - 1 || pos < end) ==> (
                    #[trigger] segs@[j]).offset + segs@[j].length
                        == fv[segs@[j].file as int].length,
            decreases (end - pos) + (files@.len() - file),
        {
            if file < files.len() && offset < files[file].length {
                let avail: u64 = files[file].length - offset;
                let need: u64 = end - pos;
                let take: u64 = if avail < need {
                    avail
                } else {
                    need
                };
                let seg = PieceSegment { file: file, offset: offset, length: take };
                let ghost before: Seq<PieceSegment> = segs@;
                segs.push(seg);
                offset = offset + take;
                pos = pos + take;
                proof {
                    assert(segment_in_file(fv, seg));
                    assert forall|j: int| 0 <= j < segs@.len() implies segment_in_file(
                        fv,
                        #[trigger] segs@[j],
                    ) by {
                        if j < before.len() {
                            assert(segs@[j] == before[j]);
                        }
                    }
                    assert forall|i: int, j: int|
                        0 <= i && j == i + 1 && j < segs@.len() implies segment_start(
                        fv,
                        #[trigger] segs@[j],
                    ) == segment_end(fv, #[trigger] segs@[i]) by {
                        if j < before.len() {
                            assert(segs@[j] == before[j]);
                            assert(segs@[i] == before[i]);
                        } else {
                            assert(segs@[i] == before[i]);
                            assert(before[i] == before.last());
                        }
                    }
                    assert forall|j: int|
                        0 <= j < segs@.len() && (j < segs@.len() - 1 || pos < end) implies (
                    #[trigger] segs@[j]).offset + segs@[j].length
                        == fv[segs@[j].file as int].length by {
                        if j < before.len() {
                            assert(segs@[j] == before[j]);
                        }
                    }
                }
            } else {
                proof {
                    if file == files@.len() {
                        assert(pos == total);
                    }
                }
                file = file + 1;
                offset = 0;
            }
        }
        let ghost old_pieces: Seq<Piece> = pieces@;
        let index: u64 = pieces.len() as u64;
        pieces.push(Piece { index: index, segments: segs, digest: None });
        proof {
            if pos < total {
                assert(pos == (k + 1) * len);
                assert(0 <= k + 1);
                assert((k + 1) * len < total);
                if k + 1 > 0 {
                    assert(((k + 1) + 1) * len == (k + 1) * len + len) by (nonlinear_arith);
                    assert((k + 1) * len + len - 1 == (k + 1) * len + (len - 1));
                    lemma_fundamental_div_mod_converse(
                        (k + 1) * len + len - 1,
                        len as int,
                        k + 1,
                        len - 1,
                    );
                }
            } else {
                lemma_piece_count_partial(k, len, total as nat);
            }
            assert forall|i: int| 0 <= i < pieces@.len() implies {
                &&& (#[trigger] pieces@[i])@.index == i
                &&& pieces@[i]@.digest is None
                &&& covers(fv, pieces@[i]@.segments, i * len, piece_end(i, len, total as nat))
            } by {
                if i < old_pieces.len() {
                    assert(pieces@[i] == old_pieces[i]);
                }
            }
        }
    }
    proof {
        let pv: Seq<PieceView> = piece_views(pieces@);
        assert forall|i: int| 0 <= i < pv.len() implies {
            &&& (#[trigger] pv[i]).index == i
            &&& pv[i].digest is None
            &&& covers(fv, pv[i].segments, i * len, piece_end(i, len, total_len(fv)))
        } by {
            assert(pv[i] == pieces@[i]@);
        }
    }
    pieces
}

} // verus!
