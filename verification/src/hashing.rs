//! Archive path hashes.

use vstd::prelude::*;
use vstd::string::*;
use vstd::utf8::*;
use crate::text::{lowered, to_lower};

verus! {

/// The 64-bit xxHash of some bytes with a seed.
pub uninterp spec fn xxh64_of(bytes: Seq<u8>, seed: u64) -> u64;

/// `xxhash_rust::xxh64::xxh64`: the XXH64 digest of `bytes` with `seed`, which depends
/// on the two alone.
#[verifier::external_body]
fn xxh64(bytes: &[u8], seed: u64) -> (r: u64)
    ensures
        r == xxh64_of(bytes@, seed),
{
    xxhash_rust::xxh64::xxh64(bytes, seed)
}

/// The hash under which an archive files a path: XXH64 of the lower-case path, seed 0.
pub open spec fn path_hash(path: Seq<char>) -> u64 {
    xxh64_of(encode_utf8(lowered(path)), 0)
}

/// The hash under which an archive files `path`.
pub fn wad_path_hash(path: &str) -> (r: u64)
    ensures
        r == path_hash(path@),
{
    let lower = to_lower(path);
    xxh64(lower.as_str().as_bytes(), 0)
}

/// A way to hash paths.
pub trait PathHasher {
    /// The hash of a path.
    open spec fn of(&self, path: Seq<char>) -> u64 {
        0
    }

    /// The hash of a path.
    fn hash(&self, path: &str) -> (r: u64)
        ensures
            r == self.of(path@),
    ;
}

/// The hash that archives use: see [`wad_path_hash`].
#[derive(Clone, Copy, Debug)]
pub struct WadHasher;

impl PathHasher for WadHasher {
    open spec fn of(&self, path: Seq<char>) -> u64 {
        path_hash(path)
    }

    fn hash(&self, path: &str) -> (r: u64)
    {
        wad_path_hash(path)
    }
}

} // verus!
