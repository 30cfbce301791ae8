//! Whole builds: how a build begins and ends around a hashing run, and the
//! build of a source held in memory from start to end.

use crate::bencode::{append, encode, strings};
use crate::config::{config_fault, validate, BuildConfig, BuildError, ConfigView};
use crate::digest::{piece_digest, sha1, DIGEST_LEN};
use crate::metainfo::{assemble, metainfo_value};
use crate::planner::{
    is_plan, piece_count, piece_views, plan_pieces, segment_in_file, Piece, PieceSegment,
    PieceView,
};
use crate::progress::{lemma_progress_monotonic, Progress};
use crate::session::{digest_values, digests_of, lemma_concat_uniform, HashSession};
use crate::source::{file_views, total_len, total_size, FileEntry, FileView};
use crate::stream::{
    concat, contents_match, lemma_piece_bytes, lemma_stream_len, piece_range, segment_bytes,
    segments_bytes,
};
use vstd::arithmetic::power2::{lemma_pow2_pos, pow2};
use vstd::pervasive::unreached;
use vstd::prelude::*;
use vstd::slice::{slice_subrange, slice_to_vec};

verus! {

/// A file of a source that is held in memory: its path below the root, empty
/// for a source that is one plain file, and its bytes.
#[derive(Debug, Clone, PartialEq, Eq)]
pub struct MemoryFile {
    pub path: Vec<Vec<u8>>,
    pub data: Vec<u8>,
}

/// The entries of the files: each path, with the number of bytes held.
pub open spec fn memory_entries(source: Seq<MemoryFile>) -> Seq<FileView> {
    source.map_values(|m: MemoryFile| FileView { path: strings(m.path@), length: m.data@.len() })
}

/// The bytes of the files.
pub open spec fn memory_contents(source: Seq<MemoryFile>) -> Seq<Seq<u8>> {
    source.map_values(|m: MemoryFile| m.data@)
}

/// The digests of the pieces of a stream, in index order.
pub open spec fn stream_digests(stream: Seq<u8>, piece_length: nat) -> Seq<Seq<u8>> {
    Seq::new(
        piece_count(stream.len(), piece_length),
        |k: int| sha1(piece_range(stream, k, piece_length)),
    )
}

/// The `pieces` string of a stream: the digests of its pieces, in index
/// order, one after the other.
pub open spec fn pieces_string(stream: Seq<u8>, piece_length: nat) -> Seq<u8> {
    concat(stream_digests(stream, piece_length))
}

/// The descriptor of a source: the encoding of its metainfo, with the digests
/// of the pieces of its stream.
pub open spec fn descriptor(c: ConfigView, files: Seq<FileView>, contents: Seq<Seq<u8>>) -> Seq<
    u8,
> {
    encode(metainfo_value(c, files, pieces_string(concat(contents), c.piece_length)))
}

/// What a build gives: the configuration's fault if it has one, else
/// `TooLarge` for a stream beyond 64 bits, else the descriptor.
pub open spec fn build_result(
    c: ConfigView,
    files: Seq<FileView>,
    contents: Seq<Seq<u8>>,
) -> Result<Seq<u8>, BuildError> {
    match config_fault(c) {
        Some(fault) => Err(BuildError::InvalidConfig(fault)),
        None => if total_len(files) > u64::MAX {
            Err(BuildError::TooLarge)
        } else {
            Ok(descriptor(c, files, contents))
        },
    }
}

/// Equal inputs give equal outputs: a build's result is a function of the
/// configuration, the files and their bytes, and of nothing else.
pub proof fn lemma_build_deterministic(
    a: BuildConfig,
    b: BuildConfig,
    source_a: Seq<MemoryFile>,
    source_b: Seq<MemoryFile>,
)
    requires
        a@ == b@,
        memory_entries(source_a) == memory_entries(source_b),
        memory_contents(source_a) == memory_contents(source_b),
    ensures
        build_result(a@, memory_entries(source_a), memory_contents(source_a)) == build_result(
            b@,
            memory_entries(source_b),
            memory_contents(source_b),
        ),
{
}

fn copy_path(path: &Vec<Vec<u8>>) -> (out: Vec<Vec<u8>>)
    ensures
        strings(out@) == strings(path@),
{
    let mut out: Vec<Vec<u8>> = Vec::new();
    let n: usize = path.len();
    let mut i: usize = 0;
    while i < n
        invariant
            n == path@.len(),
            i <= n,
            strings(out@) == strings(path@).take(i as int),
        decreases n - i,
    {
        let component: Vec<u8> = slice_to_vec(path[i].as_slice());
        let ghost before: Seq<Vec<u8>> = out@;
        out.push(component);
        i = i + 1;
        proof {
            assert(strings(out@) =~= strings(before).push(component@));
            assert(strings(path@).take(i as int) =~= strings(path@).take(i - 1).push(
                path@[i - 1]@,
            ));
        }
    }
    assert(strings(path@).take(n as int) =~= strings(path@));
    out
}

/// The entries of a source held in memory.
pub fn entries_of(source: &Vec<MemoryFile>) -> (files: Vec<FileEntry>)
    ensures
        file_views(files@) == memory_entries(source@),
{
    let mut files: Vec<FileEntry> = Vec::new();
    let n: usize = source.len();
    let mut i: usize = 0;
    while i < n
        invariant
            n == source@.len(),
            i <= n,
            file_views(files@) == memory_entries(source@).take(i as int),
        decreases n - i,
    {
        let path: Vec<Vec<u8>> = copy_path(&source[i].path);
        let length: u64 = source[i].data.len() as u64;
        let ghost before: Seq<FileEntry> = files@;
        let entry = FileEntry { path: path, length: length };
        files.push(entry);
        i = i + 1;
        proof {
            assert(file_views(files@) =~= file_views(before).push(entry@));
            assert(entry@ == memory_entries(source@)[i - 1]);
            assert(memory_entries(source@).take(i as int) =~= memory_entries(source@).take(
                i - 1,
            ).push(memory_entries(source@)[i - 1]));
        }
    }
    assert(memory_entries(source@).take(n as int) =~= memory_entries(source@));
    files
}

/// The bytes that the segment names are there to be read.
pub open spec fn readable(contents: Seq<Seq<u8>>, s: PieceSegment) -> bool {
    s.file < contents.len() && s.offset + s.length <= contents[s.file as int].len()
}

/// Reads the bytes of the segments, in order, from a source held in memory.
/// Where a segment names bytes that are not there, its index comes back, and
/// nothing of what was read before it.
pub fn read_segments(source: &Vec<MemoryFile>, segments: &Vec<PieceSegment>) -> (r: Result<
    Vec<u8>,
    usize,
>)
    ensures
        match r {
            Ok(out) => {
                &&& forall|j: int|
                    0 <= j < segments@.len() ==> readable(
                        memory_contents(source@),
                        #[trigger] segments@[j],
                    )
                &&& out@ == segments_bytes(memory_contents(source@), segments@)
            },
            Err(j) => {
                &&& j < segments@.len()
                &&& !readable(memory_contents(source@), segments@[j as int])
                &&& forall|i: int|
                    0 <= i < j ==> readable(memory_contents(source@), #[trigger] segments@[i])
            },
        },
{
    let ghost contents: Seq<Seq<u8>> = memory_contents(source@);
    let mut out: Vec<u8> = Vec::new();
    let n: usize = segments.len();
    let mut j: usize = 0;
    assert(segments_bytes(contents, segments@.take(0)) =~= Seq::<u8>::empty());
    while j < n
        invariant
            n == segments@.len(),
            j <= n,
            contents == memory_contents(source@),
            forall|i: int| 0 <= i < j ==> readable(contents, #[trigger] segments@[i]),
            out@ == segments_bytes(contents, segments@.take(j as int)),
        decreases n - j,
    {
        let seg: PieceSegment = segments[j];
        if seg.file >= source.len() {
            return Err(j);
        }
        let data: &Vec<u8> = &source[seg.file].data;
        let held: usize = data.len();
        assert(contents[seg.file as int] == data@);
        if seg.offset > held as u64 || seg.length > held as u64 - seg.offset {
            return Err(j);
        }
        let from: usize = seg.offset as usize;
        let to: usize = (seg.offset + seg.length) as usize;
        let bytes: &[u8] = slice_subrange(data.as_slice(), from, to);
        append(&mut out, bytes);
        proof {
            assert(bytes@ == segment_bytes(contents, seg));
            assert(segments@.take(j + 1).drop_last() =~= segments@.take(j as int));
            assert(segments@.take(j + 1).last() == seg);
        }
        j = j + 1;
    }
    assert(segments@.take(n as int) =~= segments@);
    Ok(out)
}

/// The reports of a run over `n` pieces, in order: one after each piece,
/// counting up to `n` out of `n`; for a run without pieces, the one report
/// that says it is complete.
pub open spec fn run_reports(n: nat) -> Seq<Progress> {
    if n == 0 {
        seq![Progress { completed: 0, total: 0 }]
    } else {
        Seq::new(n, |i: int| Progress { completed: (i + 1) as u64, total: n as u64 })
    }
}

/// The reports of a run never go back, and the last one says that the run is
/// complete.
pub proof fn lemma_run_reports_monotonic(n: nat, i: int, j: int)
    requires
        n <= u64::MAX,
        0 <= i <= j < run_reports(n).len(),
    ensures
        run_reports(n)[i].at_most(run_reports(n)[j]),
        run_reports(n).last().complete(),
{
    if n > 0 {
        lemma_progress_monotonic(run_reports(n)[i], run_reports(n)[j], 1);
    }
}

/// Whatever the order in which the digests came in: a run whose slots hold
/// the digest of each piece of the stream ends in the descriptor of the
/// source.
pub proof fn lemma_run_gives_descriptor(
    c: ConfigView,
    files: Seq<FileView>,
    contents: Seq<Seq<u8>>,
    slots: Seq<Option<Seq<u8>>>,
)
    requires
        contents_match(files, contents),
        slots.len() == piece_count(total_len(files), c.piece_length),
        forall|k: int|
            0 <= k < slots.len() ==> #[trigger] slots[k] == Some(
                sha1(piece_range(concat(contents), k, c.piece_length)),
            ),
    ensures
        encode(metainfo_value(c, files, concat(digest_values(slots)))) == descriptor(
            c,
            files,
            contents,
        ),
{
    lemma_stream_len(files, contents);
    assert(digest_values(slots) =~= stream_digests(concat(contents), c.piece_length));
}

/// Starts a build over the files of a source: checks the configuration and
/// the size of the stream, plans the pieces, and opens a hashing run over
/// the plan.
pub fn begin(config: &BuildConfig, files: &Vec<FileEntry>) -> (r: Result<HashSession, BuildError>)
    ensures
        match config_fault(config@) {
            Some(fault) => r matches Err(e) && e == BuildError::InvalidConfig(fault),
            None => if total_len(file_views(files@)) > u64::MAX {
                r matches Err(e) && e == BuildError::TooLarge
            } else {
                &&& r matches Ok(session)
                &&& session.wf()
                &&& is_plan(file_views(files@), config@.piece_length, session.pieces())
                &&& session.claimed() == 0
                &&& session.completed() == 0
                &&& session.failure() is None
            },
        },
{
    match validate(config) {
        Err(e) => {
            return Err(e);
        },
        Ok(()) => {},
    }
    if total_size(files).is_none() {
        return Err(BuildError::TooLarge);
    }
    proof {
        let e: nat = choose|e: nat| e <= 25 && config@.piece_length == #[trigger] pow2(e);
        lemma_pow2_pos(e);
    }
    let plan: Vec<Piece> = plan_pieces(files, config.piece_length);
    let ghost planv: Seq<PieceView> = piece_views(plan@);
    let session: HashSession = HashSession::new(plan);
    assert(session.pieces() =~= planv);
    Ok(session)
}

/// Ends a build: with every digest in, the encoded descriptor; after a
/// failed read, that failure. `None` while the run is neither complete nor
/// failed: no part of a descriptor is ever given out.
pub fn conclude(config: &BuildConfig, files: &Vec<FileEntry>, session: &HashSession) -> (r: Option<
    Result<Vec<u8>, BuildError>,
>)
    requires
        session.wf(),
    ensures
        match r {
            None => session.failure() is None && session.completed() < session.total(),
            Some(Err(e)) => session.failure() matches Some(f) && e == (BuildError::ReadFailure {
                piece: f.0,
                segment: f.1,
            }),
            Some(Ok(out)) => {
                &&& session.failure() is None
                &&& session.completed() == session.total()
                &&& out@ == encode(
                    metainfo_value(
                        config@,
                        file_views(files@),
                        concat(digest_values(session.slots())),
                    ),
                )
            },
        },
{
    match session.outcome() {
        None => None,
        Some(Err(e)) => Some(Err(e)),
        Some(Ok(blob)) => Some(Ok(assemble(config, files, blob.as_slice()))),
    }
}

/// Builds the descriptor of a source held in memory: checks the
/// configuration, plans the pieces, hashes them in index order and assembles
/// the encoded metainfo. Each report of progress is added to `reports`.
pub fn build_reporting(
    config: &BuildConfig,
    source: &Vec<MemoryFile>,
    reports: &mut Vec<Progress>,
) -> (r: Result<Vec<u8>, BuildError>)
    ensures
        match build_result(config@, memory_entries(source@), memory_contents(source@)) {
            Ok(bytes) => r matches Ok(out) && out@ == bytes,
            Err(e) => r == Err::<Vec<u8>, BuildError>(e),
        },
        r is Err ==> final(reports)@ == old(reports)@,
        r is Ok ==> final(reports)@ == old(reports)@ + run_reports(
            piece_count(total_len(memory_entries(source@)), config@.piece_length),
        ),
        r is Ok ==> pieces_string(
            concat(memory_contents(source@)),
            config@.piece_length,
        ).len() == piece_count(total_len(memory_entries(source@)), config@.piece_length)
            * DIGEST_LEN,
{
    let files: Vec<FileEntry> = entries_of(source);
    let ghost fv: Seq<FileView> = memory_entries(source@);
    let ghost contents: Seq<Seq<u8>> = memory_contents(source@);
    let ghost stream: Seq<u8> = concat(contents);
    let ghost len: nat = config@.piece_length;
    let mut session: HashSession = match begin(config, &files) {
        Ok(session) => session,
        Err(e) => {
            return Err(e);
        },
    };
    let ghost planv: Seq<PieceView> = session.pieces();
    proof {
        assert(contents_match(fv, contents));
        lemma_stream_len(fv, contents);
    }
    let n: usize = session.piece_total();
    match session.empty_run_report() {
        Some(p) => {
            reports.push(p);
            assert(reports@ =~= old(reports)@ + run_reports(0));
        },
        None => {
            assert(reports@ =~= old(reports)@ + run_reports(n as nat).take(0));
        },
    }
    let mut k: usize = 0;
    while k < n
        invariant
            session.wf(),
            n == planv.len(),
            k <= n,
            fv == memory_entries(source@),
            contents == memory_contents(source@),
            stream == concat(contents),
            contents_match(fv, contents),
            is_plan(fv, len, planv),
            session.total() == n,
            session.claimed() == k,
            session.completed() == k,
            session.failure() is None,
            n > 0 ==> reports@ == old(reports)@ + run_reports(n as nat).take(k as int),
            n == 0 ==> reports@ == old(reports)@ + run_reports(0),
            forall|j: int|
                0 <= j < n ==> (#[trigger] session.pieces()[j]).segments == planv[j].segments,
            forall|j: int|
                0 <= j < k ==> (#[trigger] session.slots()[j]) == Some(
                    sha1(piece_range(stream, j, len)),
                ),
            forall|j: int| k <= j < n ==> (#[trigger] session.slots()[j]) is None,
        decreases n - k,
    {
        let ghost before: Seq<PieceView> = session.pieces();
        let ghost reported: Seq<Progress> = reports@;
        match session.claim() {
            Some(claim) => {
                assert(claim.segments@ == planv[k as int].segments);
                assert(session.slots()[k as int] is None);
                proof {
                    assert forall|j: int| 0 <= j < claim.segments@.len() implies readable(
                        contents,
                        #[trigger] claim.segments@[j],
                    ) by {
                        assert(segment_in_file(fv, claim.segments@[j]));
                    }
                    lemma_piece_bytes(fv, contents, len, planv, k as int);
                }
                let data: Vec<u8> = match read_segments(source, &claim.segments) {
                    Ok(data) => data,
                    Err(_) => unreached(),
                };
                let digest: Vec<u8> = piece_digest(data.as_slice());
                match session.complete(claim.index, digest) {
                    Some(p) => {
                        reports.push(p);
                    },
                    None => {
                        unreached::<()>();
                    },
                }
                proof {
                    assert(reports@ =~= old(reports)@ + run_reports(n as nat).take(k + 1)) by {
                        assert(run_reports(n as nat).take(k + 1) =~= run_reports(n as nat).take(
                            k as int,
                        ).push(run_reports(n as nat)[k as int]));
                        assert(reports@ == reported.push(run_reports(n as nat)[k as int]));
                    }
                    assert forall|j: int| 0 <= j < n implies (#[trigger] session.pieces()[j]).segments
                        == planv[j].segments by {
                        assert(before[j].segments == planv[j].segments);
                    }
                    assert forall|j: int| 0 <= j < k + 1 implies (#[trigger] session.slots()[j])
                        == Some(sha1(piece_range(stream, j, len))) by {
                        if j < k {
                            assert(digests_of(before)[j] == Some(
                                sha1(piece_range(stream, j, len)),
                            ));
                        }
                    }
                    assert forall|j: int| k + 1 <= j < n implies (#[trigger] session.slots()[j])
                        is None by {
                        assert(digests_of(before)[j] is None);
                    }
                }
            },
            None => {
                unreached::<()>();
            },
        }
        k = k + 1;
    }
    proof {
        assert(digest_values(session.slots()) =~= stream_digests(stream, len));
        lemma_concat_uniform(digest_values(session.slots()), DIGEST_LEN as nat);
        if n > 0 {
            assert(run_reports(n as nat).take(n as int) =~= run_reports(n as nat));
        }
    }
    match conclude(config, &files, &session) {
        Some(Ok(out)) => Ok(out),
        Some(Err(e)) => unreached(),
        None => unreached(),
    }
}

/// Builds the descriptor of a source held in memory, as `build_reporting`
/// does, without keeping the reports of progress.
pub fn build(config: &BuildConfig, source: &Vec<MemoryFile>) -> (r: Result<Vec<u8>, BuildError>)
    ensures
        match build_result(config@, memory_entries(source@), memory_contents(source@)) {
            Ok(bytes) => r matches Ok(out) && out@ == bytes,
            Err(e) => r == Err::<Vec<u8>, BuildError>(e),
        },
        r is Ok ==> pieces_string(
            concat(memory_contents(source@)),
            config@.piece_length,
        ).len() == piece_count(total_len(memory_entries(source@)), config@.piece_length)
            * DIGEST_LEN,
{
    let mut reports: Vec<Progress> = Vec::new();
    build_reporting(config, source, &mut reports)
}

} // verus!
