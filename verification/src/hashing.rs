//! Content hashing of statements.
//!
//! The store identifies a statement by a deterministic content digest of its
//! bytes; the gossip layer tracks statements under a fixed-width identifier
//! derived from the same digest.

use vstd::prelude::*;

verus! {

/// The 32-byte content digest of a statement's bytes, as the store's hashing
/// assigns it. A pure function of the bytes; its value is not specified here.
pub uninterp spec fn statement_digest(bytes: Seq<u8>) -> Seq<u8>;

/// The identifier under which the gossip layer tracks a statement: the first
/// eight bytes of its content digest, read little-endian.
pub open spec fn hash_of(bytes: Seq<u8>) -> u64 {
    let d = statement_digest(bytes);
    (d[0] + d[1] * 0x100 + d[2] * 0x10000 + d[3] * 0x1000000 + d[4] * 0x100000000 + d[5]
        * 0x10000000000 + d[6] * 0x1000000000000 + d[7] * 0x100000000000000) as u64
}

/// Relies on `blake2::Blake2b256` (through the `Digest` trait): a pure
/// function of the input bytes alone, returning a 32-byte digest.
#[verifier::external_body]
fn blake2b_256(bytes: &Vec<u8>) -> (digest: Vec<u8>)
    ensures
        digest@ == statement_digest(bytes@),
        digest@.len() == 32,
{
    let mut hasher = <blake2::Blake2b256 as blake2::Digest>::new();
    blake2::Digest::update(&mut hasher, bytes.as_slice());
    let out = blake2::Digest::finalize(hasher);
    out.to_vec()
}

/// Compute the gossip identifier of a statement from its bytes.
pub fn statement_hash(bytes: &Vec<u8>) -> (h: u64)
    ensures
        h == hash_of(bytes@),
{
    let d = blake2b_256(bytes);
    let mut h: u64 = d[7] as u64;
    h = h * 256 + (d[6] as u64);
    h = h * 256 + (d[5] as u64);
    h = h * 256 + (d[4] as u64);
    h = h * 256 + (d[3] as u64);
    h = h * 256 + (d[2] as u64);
    h = h * 256 + (d[1] as u64);
    h = h * 256 + (d[0] as u64);
    h
}

} // verus!
