//! String utilities: extension replacement, wildcard patterns, FNV-1a hashes and
//! path normalization.

use vstd::prelude::*;
use vstd::string::*;
use vstd::utf8::*;
use crate::text::{
    begins, contains, ends, ends_with, holds, lowered, normal, normalize, number, parse_number, same, slice,
    starts_with, strip_prefix, to_lower, trim_end, trim_start, trimmed_end, trimmed_start, without_prefix,
};

verus! {

/// `path` with its ending `from`, in any case, turned into `to`; `None` where `path`
/// does not end that way.
pub open spec fn with_extension(path: Seq<char>, from: Seq<char>, to: Seq<char>) -> Option<Seq<char>> {
    if ends(lowered(path), lowered(from)) && from.len() <= path.len() {
        Some(path.subrange(0, path.len() - from.len()) + to)
    } else {
        None
    }
}

/// Replace the file extension of a path (case-insensitive match).
///
/// The ending is cut off as as many characters as `from` has.
pub fn replace_extension(path: &str, from: &str, to: &str) -> (r: Option<String>)
    ensures
        r is Some <==> with_extension(path@, from@, to@) is Some,
        r matches Some(t) ==> with_extension(path@, from@, to@) == Some(t@),
{
    let lower = to_lower(path);
    let from_lower = to_lower(from);
    let n = path.unicode_len();
    let k = from.unicode_len();
    if ends_with(lower.as_str(), from_lower.as_str()) && k <= n {
        let mut stem = slice(path, 0, n - k);
        stem.append(to);
        Some(stem)
    } else {
        None
    }
}

/// `pattern` without the stars at both ends.
pub open spec fn pattern_core(pattern: Seq<char>) -> Seq<char> {
    trimmed_end(trimmed_start(pattern, "*"@), "*"@)
}

/// `name` matches a pattern in which a star at either end stands for any text.
pub open spec fn pattern_matches(name: Seq<char>, pattern: Seq<char>) -> bool {
    if pattern == "*"@ {
        true
    } else if begins(pattern, "*"@) && ends(pattern, "*"@) {
        holds(name, pattern_core(pattern))
    } else if begins(pattern, "*"@) {
        ends(name, pattern_core(pattern))
    } else if ends(pattern, "*"@) {
        begins(name, pattern_core(pattern))
    } else {
        name == pattern
    }
}

/// Check if a field name matches a wildcard pattern.
///
/// Supports `*foo*` (contains), `foo*` (starts with), `*foo` (ends with), or exact match.
pub fn matches_pattern(name: &str, pattern: &str) -> (r: bool)
    ensures
        r == pattern_matches(name@, pattern@),
{
    if same(pattern, "*") {
        return true;
    }
    let starts_wild = starts_with(pattern, "*");
    let ends_wild = ends_with(pattern, "*");
    let head = trim_start(pattern, "*");
    let core = trim_end(head.as_str(), "*");
    if starts_wild && ends_wild {
        contains(name, core.as_str())
    } else if starts_wild {
        ends_with(name, core.as_str())
    } else if ends_wild {
        starts_with(name, core.as_str())
    } else {
        same(name, pattern)
    }
}

/// One step of the 32-bit FNV-1a hash: exclusive or with the byte, then times the prime.
pub open spec fn fnv1a_step(hash: u32, byte: u8) -> u32 {
    (((hash ^ (byte as u32)) as int * 0x0100_0193) % 0x1_0000_0000) as u32
}

/// The 32-bit FNV-1a hash of some bytes.
pub open spec fn fnv1a(bytes: Seq<u8>) -> u32
    decreases bytes.len(),
{
    if bytes.len() == 0 {
        0x811c_9dc5
    } else {
        fnv1a_step(fnv1a(bytes.drop_last()), bytes.last())
    }
}

/// The hash of a class or field name: FNV-1a of its lower-case form.
pub open spec fn name_hash(name: Seq<char>) -> u32 {
    fnv1a(encode_utf8(lowered(name)))
}

/// Compute the FNV-1a hash of a name (lower-cased first).
pub fn fnv1a_hash(name: &str) -> (r: u32)
    ensures
        r == name_hash(name@),
{
    let lower = to_lower(name);
    let bytes = lower.as_str().as_bytes();
    let mut hash: u32 = 0x811c_9dc5;
    let mut i: usize = 0;
    while i < bytes.len()
        invariant
            bytes@ == encode_utf8(lowered(name@)),
            i <= bytes@.len(),
            hash == fnv1a(bytes@.take(i as int)),
        decreases bytes@.len() - i,
    {
        assert(bytes@.take(i + 1).drop_last() =~= bytes@.take(i as int));
        let mixed: u32 = hash ^ (bytes[i] as u32);
        hash = mixed.wrapping_mul(0x0100_0193);
        i = i + 1;
    }
    assert(bytes@.take(i as int) =~= bytes@);
    hash
}

/// What a class, field or key token means: the number behind `0x` or `0X` where it is
/// one of 32 bits, and the name's hash otherwise.
pub open spec fn token_hash(token: Seq<char>) -> u32 {
    let digits = match without_prefix(token, "0x"@) {
        Some(d) => Some(d),
        None => without_prefix(token, "0X"@),
    };
    match digits {
        Some(d) => match number(d, 16, u32::MAX as nat) {
            Some(n) => n as u32,
            None => name_hash(token),
        },
        None => name_hash(token),
    }
}

/// Resolve a class, field or key token to its 32-bit hash.
pub fn resolve_hash_token(token: &str) -> (r: u32)
    ensures
        r == token_hash(token@),
{
    let digits = match strip_prefix(token, "0x") {
        Some(d) => Some(d),
        None => strip_prefix(token, "0X"),
    };
    match digits {
        Some(d) => match parse_number(d.as_str(), 16, u32::MAX as u64) {
            Some(n) => n as u32,
            None => fnv1a_hash(token),
        },
        None => fnv1a_hash(token),
    }
}

/// Normalize a WAD asset path (lowercase, forward slashes).
pub fn normalize_wad_path(path: &str) -> (r: String)
    ensures
        r@ == normal(path@),
{
    normalize(path)
}

} // verus!
