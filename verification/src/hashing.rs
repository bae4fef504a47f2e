//! The seeded hash primitive that every refinement round combines labels with.
//!
//! The digest itself is an external collaborator: it is treated as an opaque
//! deterministic function of the seed and the word sequence, named by
//! [`xxh64`], and nothing else is assumed of it.
use vstd::prelude::*;

verus! {

/// The value that the seeded 64-bit digest assigns to a sequence of words.
///
/// Same seed and same words always give the same value; distinct inputs are
/// not promised distinct outputs (hash collisions are possible).
pub uninterp spec fn xxh64(seed: u64, words: Seq<u64>) -> u64;

/// Relies on `twox_hash::XxHash64::oneshot`: a deterministic, seeded digest of a
/// byte slice, a pure function of seed and bytes. `bytemuck::cast_slice`
/// reinterprets the words as their in-memory bytes (through the platform's
/// byte order, fixed for any one machine), so the digest is a function of the
/// seed and the word sequence alone; values are comparable between runs on
/// the same platform.
#[verifier::external_body]
pub(crate) fn hash_words(seed: u64, words: &Vec<u64>) -> (r: u64)
    ensures
        r == xxh64(seed, words@),
{
    twox_hash::XxHash64::oneshot(seed, bytemuck::cast_slice(words.as_slice()))
}

} // verus!
