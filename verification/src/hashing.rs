//! The hash oracle: a fixed-width, deterministic, collision-resistant hash
//! over byte strings, and over pairs of hashes by hashing their
//! concatenation.  The digest itself comes from an outside crate; everything
//! the library proves speaks of it only through the name `hash_of`.

use vstd::prelude::*;
use crate::bytes::push_bytes;

verus! {

/// The digest of a byte string.  The digest function is deterministic, so
/// this is a function of the bytes alone; nothing else about its value is
/// assumed.
pub uninterp spec fn hash_of(bytes: Seq<u8>) -> Seq<u8>;

/// Combining a left and a right subtree hash means hashing their
/// concatenation, left operand first.
pub open spec fn hash_pair_of(left: Seq<u8>, right: Seq<u8>) -> Seq<u8> {
    hash_of(left + right)
}

/// Relies on `blake2::Blake2b` with 32-byte output, through the one-shot
/// `Digest::digest`: the digest is a function of the input bytes alone and
/// is always 32 bytes wide.
#[verifier::external_body]
fn blake2b_256(input: &[u8]) -> (r: Vec<u8>)
    ensures
        r@ == hash_of(input@),
        r@.len() == 32,
{
    let digest = <blake2::Blake2b<blake2::digest::consts::U32> as blake2::Digest>::digest(input);
    digest.to_vec()
}

/// The hash of one value (a leaf, or a lone subtree hash being promoted a
/// level by self-hashing).
pub fn hash_value(value: &Vec<u8>) -> (r: Vec<u8>)
    ensures
        r@ == hash_of(value@),
        r@.len() == 32,
{
    blake2b_256(value.as_slice())
}

/// The hash of a left/right pair of subtree hashes.
pub fn hash_pair(left: &Vec<u8>, right: &Vec<u8>) -> (r: Vec<u8>)
    ensures
        r@ == hash_pair_of(left@, right@),
        r@.len() == 32,
{
    let mut joined: Vec<u8> = Vec::new();
    push_bytes(&mut joined, left);
    push_bytes(&mut joined, right);
    proof {
        assert(joined@ =~= left@ + right@);
    }
    blake2b_256(joined.as_slice())
}

} // verus!
