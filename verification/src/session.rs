//! The bookkeeping of one hashing run: which piece is handed out next, which
//! digests have come in, and how the run ended.

use crate::bencode::append;
use crate::config::BuildError;
use crate::digest::DIGEST_LEN;
use crate::planner::{piece_views, Piece, PieceSegment, PieceView};
use crate::progress::Progress;
use crate::stream::concat;
use vstd::prelude::*;
use vstd::slice::slice_to_vec;

verus! {

/// The digest slots of the pieces, in index order.
pub open spec fn digests_of(pieces: Seq<PieceView>) -> Seq<Option<Seq<u8>>> {
    pieces.map_values(|p: PieceView| p.digest)
}

/// The pieces with every digest slot emptied.
pub open spec fn without_digests(pieces: Seq<PieceView>) -> Seq<PieceView> {
    pieces.map_values(|p: PieceView| PieceView { digest: None, ..p })
}

/// The number of slots that hold a digest.
pub open spec fn done_count(slots: Seq<Option<Seq<u8>>>) -> nat
    decreases slots.len(),
{
    if slots.len() == 0 {
        0
    } else {
        done_count(slots.drop_last()) + if slots.last() is Some {
            1nat
        } else {
            0nat
        }
    }
}

/// The digests in the slots, where every slot holds one.
pub open spec fn digest_values(slots: Seq<Option<Seq<u8>>>) -> Seq<Seq<u8>> {
    slots.map_values(|s: Option<Seq<u8>>| s.unwrap())
}

/// Filling an empty slot makes one more slot full.
pub proof fn lemma_done_count_fill(slots: Seq<Option<Seq<u8>>>, i: int, d: Seq<u8>)
    requires
        0 <= i < slots.len(),
        slots[i] is None,
    ensures
        done_count(slots.update(i, Some(d))) == done_count(slots) + 1,
    decreases slots.len(),
{
    let after = slots.update(i, Some(d));
    if i == slots.len() - 1 {
        assert(after.drop_last() =~= slots.drop_last());
    } else {
        assert(after.drop_last() =~= slots.drop_last().update(i, Some(d)));
        lemma_done_count_fill(slots.drop_last(), i, d);
    }
}

/// No more slots are full than there are slots; where as many are full as
/// there are, each is; and where none holds a digest, none is full.
pub proof fn lemma_done_count_bounds(slots: Seq<Option<Seq<u8>>>)
    ensures
        done_count(slots) <= slots.len(),
        done_count(slots) == slots.len() ==> forall|k: int|
            0 <= k < slots.len() ==> (#[trigger] slots[k]) is Some,
        (forall|k: int| 0 <= k < slots.len() ==> (#[trigger] slots[k]) is None) ==> done_count(
            slots,
        ) == 0,
    decreases slots.len(),
{
    if slots.len() > 0 {
        let front = slots.drop_last();
        lemma_done_count_bounds(front);
        if done_count(slots) == slots.len() {
            assert forall|k: int| 0 <= k < slots.len() implies (#[trigger] slots[k]) is Some by {
                if k < front.len() {
                    assert(front[k] == slots[k]);
                }
            }
        }
        if forall|k: int| 0 <= k < slots.len() ==> (#[trigger] slots[k]) is None {
            assert forall|k: int| 0 <= k < front.len() implies (#[trigger] front[k]) is None by {
                assert(front[k] == slots[k]);
            }
        }
    }
}

/// Parts of one width add up to that width times their number.
pub proof fn lemma_concat_uniform(parts: Seq<Seq<u8>>, width: nat)
    requires
        forall|k: int| 0 <= k < parts.len() ==> (#[trigger] parts[k]).len() == width,
    ensures
        concat(parts).len() == parts.len() * width,
    decreases parts.len(),
{
    if parts.len() > 0 {
        let front = parts.drop_last();
        assert forall|k: int| 0 <= k < front.len() implies (#[trigger] front[k]).len()
            == width by {
            assert(front[k] == parts[k]);
        }
        lemma_concat_uniform(front, width);
        assert(parts.len() * width == front.len() * width + width) by (nonlinear_arith)
            requires
                parts.len() == front.len() + 1,
        ;
    } else {
        assert(parts.len() * width == 0) by (nonlinear_arith)
            requires
                parts.len() == 0,
        ;
    }
}

/// A piece taken from the queue: its index and the segments to read.
#[derive(Debug, Clone, PartialEq, Eq)]
pub struct Claim {
    pub index: usize,
    pub segments: Vec<PieceSegment>,
}

/// One hashing run over a plan. Workers claim pieces in index order, hand in
/// one digest for each, or report a failed read; the run ends with the
/// digests of all pieces in index order, or with the first failure.
pub struct HashSession {
    pieces: Vec<Piece>,
    claimed: usize,
    completed: usize,
    failure: Option<(u64, u64)>,
}

impl HashSession {
    /// The pieces of the run, with the digests that have come in.
    pub closed spec fn pieces(&self) -> Seq<PieceView> {
        piece_views(self.pieces@)
    }

    /// The number of pieces handed out so far: the index of the next one.
    pub closed spec fn claimed(&self) -> nat {
        self.claimed as nat
    }

    /// The number of digests that have come in.
    pub closed spec fn completed(&self) -> nat {
        self.completed as nat
    }

    /// The first failure reported: the piece and the segment that could not
    /// be read.
    pub closed spec fn failure(&self) -> Option<(u64, u64)> {
        self.failure
    }

    /// The digest slots, in index order.
    pub open spec fn slots(&self) -> Seq<Option<Seq<u8>>> {
        digests_of(self.pieces())
    }

    /// The number of pieces of the run.
    pub open spec fn total(&self) -> nat {
        self.pieces().len()
    }

    /// The books are in order: no more pieces are handed out than there are,
    /// a digest stands only in the slot of a piece that was handed out, every
    /// digest has the digest length, and the count of digests is right.
    pub open spec fn wf(&self) -> bool {
        &&& self.claimed() <= self.total()
        &&& self.completed() == done_count(self.slots())
        &&& forall|k: int|
            0 <= k < self.total() ==> ((#[trigger] self.slots()[k]) matches Some(d) ==> k
                < self.claimed() && d.len() == DIGEST_LEN)
    }

    /// `digest` would be taken for piece `index`: the run has not failed, the
    /// piece was handed out, its slot is empty, and the digest has the digest
    /// length.
    pub open spec fn accepts(&self, index: usize, digest: Seq<u8>) -> bool {
        &&& self.failure() is None
        &&& index < self.claimed()
        &&& index < self.total()
        &&& self.slots()[index as int] is None
        &&& digest.len() == DIGEST_LEN
    }

    /// Starts a run over the pieces of a plan. Digests that the pieces carry
    /// are dropped: a run starts with every slot empty.
    pub fn new(pieces: Vec<Piece>) -> (s: HashSession)
        ensures
            s.wf(),
            s.pieces() == without_digests(piece_views(pieces@)),
            s.claimed() == 0,
            s.completed() == 0,
            s.failure() is None,
    {
        let ghost before: Seq<PieceView> = piece_views(pieces@);
        let mut pieces = pieces;
        let n: usize = pieces.len();
        let mut i: usize = 0;
        while i < n
            invariant
                n == pieces@.len(),
                n == before.len(),
                i <= n,
                forall|k: int|
                    0 <= k < i ==> (#[trigger] pieces@[k])@ == (PieceView {
                        digest: None,
                        ..before[k]
                    }),
                forall|k: int| i <= k < n ==> (#[trigger] pieces@[k])@ == before[k],
            decreases n - i,
        {
            pieces[i].digest = None;
            i = i + 1;
        }
        let s = HashSession { pieces: pieces, claimed: 0, completed: 0, failure: None };
        proof {
            assert(s.pieces() =~= without_digests(before));
            assert forall|k: int| 0 <= k < s.slots().len() implies (#[trigger] s.slots()[k])
                is None by {}
            lemma_done_count_bounds(s.slots());
        }
        s
    }

    /// The number of pieces of the run.
    pub fn piece_total(&self) -> (n: usize)
        ensures
            n == self.total(),
    {
        self.pieces.len()
    }

    /// Where the run stands: the digests that have come in, out of all.
    pub fn progress(&self) -> (p: Progress)
        ensures
            p.completed == self.completed(),
            p.total == self.total(),
    {
        Progress { completed: self.completed as u64, total: self.pieces.len() as u64 }
    }

    /// The one report of a run that has nothing to hash: complete from the
    /// start. A run with pieces reports as their digests come in, and gets
    /// `None` here.
    pub fn empty_run_report(&self) -> (r: Option<Progress>)
        ensures
            r is Some <==> self.total() == 0,
            r matches Some(p) ==> p.completed == 0 && p.total == 0,
    {
        if self.pieces.len() == 0 {
            Some(Progress { completed: 0, total: 0 })
        } else {
            None
        }
    }

    /// Hands out the next piece: the lowest index not handed out yet. Nothing
    /// is handed out once a failure was reported, or when all pieces are out.
    pub fn claim(&mut self) -> (r: Option<Claim>)
        requires
            old(self).wf(),
        ensures
            final(self).wf(),
            final(self).pieces() == old(self).pieces(),
            final(self).completed() == old(self).completed(),
            final(self).failure() == old(self).failure(),
            r is None <==> (old(self).failure() is Some || old(self).claimed() == old(
                self,
            ).total()),
            r is None ==> final(self).claimed() == old(self).claimed(),
            r matches Some(c) ==> {
                &&& c.index == old(self).claimed()
                &&& c.segments@ == old(self).pieces()[c.index as int].segments
                &&& final(self).claimed() == old(self).claimed() + 1
            },
    {
        if self.failure.is_some() || self.claimed == self.pieces.len() {
            return None;
        }
        let index: usize = self.claimed;
        let segments: Vec<PieceSegment> = slice_to_vec(self.pieces[index].segments.as_slice());
        assert(self.pieces()[index as int] == self.pieces@[index as int]@);
        self.claimed = index + 1;
        Some(Claim { index: index, segments: segments })
    }

    /// Takes the digest of piece `index`, and reports the progress made. A
    /// digest is taken once for each piece that was handed out; anything else
    /// (an index not handed out, a second digest for a piece, a digest of the
    /// wrong length, any digest after a failure) is dropped, and `None` says so.
    pub fn complete(&mut self, index: usize, digest: Vec<u8>) -> (r: Option<Progress>)
        requires
            old(self).wf(),
        ensures
            final(self).wf(),
            final(self).claimed() == old(self).claimed(),
            final(self).failure() == old(self).failure(),
            r is Some <==> old(self).accepts(index, digest@),
            r is None ==> final(self).pieces() == old(self).pieces() && final(self).completed()
                == old(self).completed(),
            r matches Some(p) ==> {
                &&& final(self).pieces() == old(self).pieces().update(
                    index as int,
                    PieceView { digest: Some(digest@), ..old(self).pieces()[index as int] },
                )
                &&& final(self).completed() == old(self).completed() + 1
                &&& p.completed == final(self).completed()
                &&& p.total == final(self).total()
                &&& p.completed <= p.total
            },
    {
        if self.failure.is_some() || index >= self.claimed || digest.len() != DIGEST_LEN {
            return None;
        }
        assert(self.pieces()[index as int] == self.pieces@[index as int]@);
        if self.pieces[index].digest.is_some() {
            return None;
        }
        let ghost before: Seq<PieceView> = self.pieces();
        let done: usize = self.completed;
        assert(done == done_count(digests_of(before)));
        let ghost filled: PieceView = PieceView { digest: Some(digest@), ..before[index as int] };
        self.pieces[index].digest = Some(digest);
        proof {
            assert(self.pieces() =~= before.update(index as int, filled));
            assert(self.slots() =~= digests_of(before).update(index as int, Some(digest@)));
            lemma_done_count_fill(digests_of(before), index as int, digest@);
            lemma_done_count_bounds(self.slots());
            assert(self.slots().len() == self.pieces@.len());
            assert(done_count(self.slots()) == done + 1);
            assert(done + 1 <= self.pieces@.len());
        }
        let total: usize = self.pieces.len();
        self.completed = done + 1;
        Some(Progress { completed: self.completed as u64, total: total as u64 })
    }

    /// Reports that `segment` of `piece` could not be read. The first report
    /// stays; from then on no piece is handed out and no digest is taken.
    pub fn fail(&mut self, piece: u64, segment: u64)
        requires
            old(self).wf(),
        ensures
            final(self).wf(),
            final(self).pieces() == old(self).pieces(),
            final(self).claimed() == old(self).claimed(),
            final(self).completed() == old(self).completed(),
            final(self).failure() == (if old(self).failure() is Some {
                old(self).failure()
            } else {
                Some((piece, segment))
            }),
    {
        if self.failure.is_none() {
            self.failure = Some((piece, segment));
        }
    }

    /// Ends the run and gives the pieces back, each with the digest that came
    /// in for it.
    pub fn into_pieces(self) -> (pieces: Vec<Piece>)
        ensures
            piece_views(pieces@) == self.pieces(),
    {
        self.pieces
    }

    /// How the run ended, if it has: the read failure that was reported, or,
    /// with every digest in, the digests of all pieces in index order as one
    /// byte string. `None` while pieces are still missing and nothing failed.
    pub fn outcome(&self) -> (r: Option<Result<Vec<u8>, BuildError>>)
        requires
            self.wf(),
        ensures
            match r {
                None => self.failure() is None && self.completed() < self.total(),
                Some(Err(e)) => self.failure() matches Some(f) && e == (BuildError::ReadFailure {
                    piece: f.0,
                    segment: f.1,
                }),
                Some(Ok(blob)) => {
                    &&& self.failure() is None
                    &&& self.completed() == self.total()
                    &&& forall|k: int|
                        0 <= k < self.total() ==> (#[trigger] self.slots()[k]) is Some
                    &&& blob@ == concat(digest_values(self.slots()))
                    &&& blob@.len() == self.total() * DIGEST_LEN
                },
            },
    {
        match self.failure {
            Some(f) => {
                return Some(Err(BuildError::ReadFailure { piece: f.0, segment: f.1 }));
            },
            None => {},
        }
        proof {
            lemma_done_count_bounds(self.slots());
        }
        if self.completed < self.pieces.len() {
            return None;
        }
        let ghost values: Seq<Seq<u8>> = digest_values(self.slots());
        let mut blob: Vec<u8> = Vec::new();
        let n: usize = self.pieces.len();
        let mut i: usize = 0;
        assert(concat(values.take(0)) =~= Seq::<u8>::empty());
        while i < n
            invariant
                self.wf(),
                n == self.pieces@.len(),
                n == self.total(),
                i <= n,
                values == digest_values(self.slots()),
                forall|k: int| 0 <= k < n ==> (#[trigger] self.slots()[k]) is Some,
                blob@ == concat(values.take(i as int)),
            decreases n - i,
        {
            assert(self.slots()[i as int] is Some);
            assert(self.pieces()[i as int] == self.pieces@[i as int]@);
            match &self.pieces[i].digest {
                Some(d) => {
                    append(&mut blob, d.as_slice());
                    proof {
                        assert(values.take(i + 1).drop_last() =~= values.take(i as int));
                        assert(values.take(i + 1).last() == d@);
                    }
                },
                None => {},
            }
            i = i + 1;
        }
        proof {
            assert(values.take(n as int) =~= values);
            assert forall|k: int| 0 <= k < values.len() implies (#[trigger] values[k]).len()
                == DIGEST_LEN by {
                assert(self.slots()[k] is Some);
            }
            lemma_concat_uniform(values, DIGEST_LEN as nat);
        }
        Some(Ok(blob))
    }
}

} // verus!
