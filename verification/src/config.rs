//! What a build is configured with, how a configuration is checked, and the
//! errors a build can end in.

use crate::bencode::{append, append_text, ascii, strings};
use vstd::arithmetic::power2::{lemma2_to64, lemma_pow2_strictly_increases, lemma_pow2_unfold, pow2};
use vstd::prelude::*;

verus! {

/// The largest supported piece length is two to this power: 32 MiB.
pub const MAX_PIECE_EXPONENT: u32 = 25;

/// Automatic sizing never goes below two to this power: 512 KiB.
pub const AUTO_MIN_EXPONENT: u32 = 19;

/// Automatic sizing never goes above two to this power: 16 MiB.
pub const AUTO_MAX_EXPONENT: u32 = 24;

/// Automatic sizing aims at no more than this many pieces.
pub const AUTO_TARGET_PIECES: u64 = 2000;

/// Why a configuration was rejected.
#[derive(Debug, Clone, Copy, PartialEq, Eq)]
pub enum ConfigFault {
    /// The piece length is not a power of two, or is above 32 MiB.
    PieceLength,
    /// There is no tracker URL to announce to.
    NoTracker,
    /// The display name is empty.
    EmptyName,
}

/// How a build can fail. Every failure ends the build; nothing is retried.
#[derive(Debug, Clone, PartialEq, Eq)]
pub enum BuildError {
    /// The source path does not exist.
    NotFound,
    /// Walking the source failed at the given path.
    Unreadable(Vec<Vec<u8>>),
    /// The configuration was rejected.
    InvalidConfig(ConfigFault),
    /// Reading the given segment of the given piece failed while hashing.
    ReadFailure { piece: u64, segment: u64 },
    /// The files together hold more bytes than a 64-bit offset can address.
    TooLarge,
}

/// The settings of one build.
#[derive(Debug, Clone, PartialEq, Eq)]
pub struct BuildConfig {
    /// Bytes per piece: a power of two, at most 32 MiB.
    pub piece_length: u64,
    /// Whether the torrent is marked private.
    pub private: bool,
    pub comment: Option<Vec<u8>>,
    /// Seconds since the Unix epoch, if a creation date is to be written.
    pub creation_date: Option<i64>,
    pub created_by: Option<Vec<u8>>,
    /// Tracker URLs in groups; the first URL of the first group is the main one.
    pub trackers: Vec<Vec<Vec<u8>>>,
    /// The display name of the torrent.
    pub name: Vec<u8>,
}

/// What a `BuildConfig` stands for.
pub struct ConfigView {
    pub piece_length: nat,
    pub private: bool,
    pub comment: Option<Seq<u8>>,
    pub creation_date: Option<int>,
    pub created_by: Option<Seq<u8>>,
    pub trackers: Seq<Seq<Seq<u8>>>,
    pub name: Seq<u8>,
}

/// The URLs of the tracker groups.
pub open spec fn tiers(trackers: Seq<Vec<Vec<u8>>>) -> Seq<Seq<Seq<u8>>> {
    trackers.map_values(|t: Vec<Vec<u8>>| strings(t@))
}

/// The bytes of an optional byte string.
pub open spec fn optional_bytes(v: Option<Vec<u8>>) -> Option<Seq<u8>> {
    match v {
        Some(b) => Some(b@),
        None => None,
    }
}

impl View for BuildConfig {
    type V = ConfigView;

    open spec fn view(&self) -> ConfigView {
        ConfigView {
            piece_length: self.piece_length as nat,
            private: self.private,
            comment: optional_bytes(self.comment),
            creation_date: match self.creation_date {
                Some(d) => Some(d as int),
                None => None,
            },
            created_by: optional_bytes(self.created_by),
            trackers: tiers(self.trackers@),
            name: self.name@,
        }
    }
}

/// A power of two from 1 byte up to 32 MiB.
pub open spec fn supported_piece_length(n: nat) -> bool {
    exists|e: nat| e <= MAX_PIECE_EXPONENT && n == #[trigger] pow2(e)
}

/// The first fault of a configuration, if it has one: the piece length is
/// looked at first, then the trackers, then the name.
pub open spec fn config_fault(c: ConfigView) -> Option<ConfigFault> {
    if !supported_piece_length(c.piece_length) {
        Some(ConfigFault::PieceLength)
    } else if c.trackers.len() == 0 || c.trackers[0].len() == 0 {
        Some(ConfigFault::NoTracker)
    } else if c.name.len() == 0 {
        Some(ConfigFault::EmptyName)
    } else {
        None
    }
}

/// `length` is what automatic sizing picks for a stream of `total` bytes: the
/// smallest power of two from 512 KiB to 16 MiB that needs no more than 2000
/// pieces, or 16 MiB where even that needs more.
pub open spec fn is_auto_piece_length(total: nat, length: nat) -> bool {
    exists|e: nat|
        {
            &&& AUTO_MIN_EXPONENT <= e <= AUTO_MAX_EXPONENT
            &&& length == #[trigger] pow2(e)
            &&& (e == AUTO_MAX_EXPONENT || length * AUTO_TARGET_PIECES >= total)
            &&& (e == AUTO_MIN_EXPONENT || (length / 2) * AUTO_TARGET_PIECES < total)
        }
}

/// Two to the power `exponent`.
pub fn power_of_two(exponent: u32) -> (p: u64)
    requires
        exponent <= 63,
    ensures
        p == pow2(exponent as nat),
{
    let mut p: u64 = 1;
    let mut e: u32 = 0;
    proof {
        lemma2_to64();
    }
    while e < exponent
        invariant
            e <= exponent <= 63,
            p == pow2(e as nat),
            pow2(64) == 0x10000000000000000,
        decreases exponent - e,
    {
        proof {
            lemma_pow2_unfold((e + 1) as nat);
            lemma_pow2_strictly_increases((e + 1) as nat, 64);
        }
        p = p * 2;
        e = e + 1;
    }
    p
}

/// Whether `n` is a supported piece length.
pub fn is_supported_piece_length(n: u64) -> (b: bool)
    ensures
        b == supported_piece_length(n as nat),
{
    let mut e: u32 = 0;
    while e <= MAX_PIECE_EXPONENT
        invariant
            e <= MAX_PIECE_EXPONENT + 1,
            forall|x: nat| x < e ==> n != #[trigger] pow2(x),
        decreases MAX_PIECE_EXPONENT + 1 - e,
    {
        let p: u64 = power_of_two(e);
        if n == p {
            return true;
        }
        e = e + 1;
    }
    false
}

/// Checks a configuration before a build.
pub fn validate(config: &BuildConfig) -> (r: Result<(), BuildError>)
    ensures
        r == (match config_fault(config@) {
            Some(fault) => Err::<(), BuildError>(BuildError::InvalidConfig(fault)),
            None => Ok(()),
        }),
{
    if !is_supported_piece_length(config.piece_length) {
        return Err(BuildError::InvalidConfig(ConfigFault::PieceLength));
    }
    if config.trackers.len() == 0 {
        return Err(BuildError::InvalidConfig(ConfigFault::NoTracker));
    }
    assert(config@.trackers[0] == strings(config.trackers@[0]@));
    if config.trackers[0].len() == 0 {
        return Err(BuildError::InvalidConfig(ConfigFault::NoTracker));
    }
    if config.name.len() == 0 {
        return Err(BuildError::InvalidConfig(ConfigFault::EmptyName));
    }
    Ok(())
}

/// The piece length that automatic sizing picks for a stream of `total` bytes.
pub fn auto_piece_length(total: u64) -> (length: u64)
    ensures
        is_auto_piece_length(total as nat, length as nat),
{
    let mut e: u32 = AUTO_MIN_EXPONENT;
    let mut length: u64 = power_of_two(AUTO_MIN_EXPONENT);
    proof {
        lemma2_to64();
    }
    while e < AUTO_MAX_EXPONENT && length * 2000 < total
        invariant
            AUTO_TARGET_PIECES == 2000,
            AUTO_MIN_EXPONENT <= e <= AUTO_MAX_EXPONENT,
            length == pow2(e as nat),
            length <= pow2(24),
            pow2(24) == 0x1000000,
            e == AUTO_MIN_EXPONENT || (length / 2) * AUTO_TARGET_PIECES < total,
        decreases AUTO_MAX_EXPONENT - e,
    {
        proof {
            lemma_pow2_unfold((e + 1) as nat);
            if e + 1 < 24 {
                lemma_pow2_strictly_increases((e + 1) as nat, 24);
            }
        }
        length = length * 2;
        e = e + 1;
    }
    length
}

/// The piece length for a requested exponent. Zero asks for automatic sizing
/// by the size of the stream; 1 to 25 ask for two to that power; anything
/// above is rejected.
pub fn resolve_piece_length(exponent: u32, total: u64) -> (r: Result<u64, BuildError>)
    ensures
        exponent > MAX_PIECE_EXPONENT ==> r == Err::<u64, BuildError>(
            BuildError::InvalidConfig(ConfigFault::PieceLength),
        ),
        exponent == 0 ==> r is Ok && is_auto_piece_length(total as nat, r->Ok_0 as nat),
        0 < exponent <= MAX_PIECE_EXPONENT ==> r == Ok::<u64, BuildError>(
            pow2(exponent as nat) as u64,
        ),
        r is Ok ==> supported_piece_length(r->Ok_0 as nat),
{
    if exponent > MAX_PIECE_EXPONENT {
        Err(BuildError::InvalidConfig(ConfigFault::PieceLength))
    } else if exponent == 0 {
        Ok(auto_piece_length(total))
    } else {
        Ok(power_of_two(exponent))
    }
}

/// The name of the file that a torrent is written to where none is asked
/// for: the display name, followed by `.torrent`.
pub open spec fn output_name(name: Seq<u8>) -> Seq<u8> {
    name + ascii(".torrent"@)
}

/// The default name of the output file for a display name.
pub fn default_output_name(name: &[u8]) -> (out: Vec<u8>)
    ensures
        out@ == output_name(name@),
{
    proof {
        reveal_strlit(".torrent");
    }
    let mut out: Vec<u8> = Vec::new();
    append(&mut out, name);
    append_text(&mut out, ".torrent");
    assert(out@ =~= output_name(name@));
    out
}

} // verus!
