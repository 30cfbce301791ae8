//! The piece digest: SHA-1, computed by `bip_metainfo`.

use vstd::prelude::*;

verus! {

/// Length in bytes of a piece digest.
pub const DIGEST_LEN: usize = 20;

/// The SHA-1 digest of `data`, as `bip_metainfo::InfoHash::from_bytes` computes it.
pub uninterp spec fn sha1(data: Seq<u8>) -> Seq<u8>;

/// Calls `bip_metainfo::InfoHash::from_bytes`, which hashes the given bytes
/// with SHA-1, and copies the 20 bytes of the hash it returns. The contract
/// names that hash `sha1(data)` and states its length; nothing else about it
/// is claimed.
#[verifier::external_body]
fn sha1_of(data: &[u8]) -> (out: Vec<u8>)
    ensures
        out@ == sha1(data@),
        out@.len() == DIGEST_LEN,
{
    bip_metainfo::InfoHash::from_bytes(data).as_ref().to_vec()
}

/// The digest of one piece's bytes.
pub fn piece_digest(data: &[u8]) -> (out: Vec<u8>)
    ensures
        out@ == sha1(data@),
        out@.len() == DIGEST_LEN,
{
    sha1_of(data)
}

} // verus!
