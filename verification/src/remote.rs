//! Which of the copies of a configuration a run uses: the cache, the remote one, or the
//! one that the program came with.

use vstd::prelude::*;
use vstd::string::*;
use crate::text::{lemma_pieces_push, number, parse_number, pieces, split, texts, trim, trimmed};

verus! {

/// How long a cached configuration is fresh, in nanoseconds: one hour.
pub const CACHE_TTL_NANOS: u64 = 3600000000000;

/// How long a cached version manifest is fresh, in nanoseconds: fifteen minutes.
pub const MANIFEST_TTL_NANOS: u64 = 900000000000;

/// The numbers of a dotted version; what is no number counts as zero.
pub open spec fn segments(v: Seq<char>) -> Seq<nat> {
    pieces(v, '.').map_values(|p: Seq<char>| segment(p))
}

/// The number of one part of a version.
pub open spec fn segment(p: Seq<char>) -> nat {
    match number(trimmed(p), 10, u64::MAX as nat) {
        Some(n) => n,
        None => 0,
    }
}

/// The number at a place; a missing one counts as zero.
pub open spec fn segment_at(s: Seq<nat>, i: int) -> nat {
    if 0 <= i < s.len() {
        s[i]
    } else {
        0
    }
}

/// The versions first differ at `i`, and `a` is larger there.
pub open spec fn larger_at(a: Seq<nat>, b: Seq<nat>, i: int) -> bool {
    0 <= i && segment_at(a, i) > segment_at(b, i) && forall|j: int|
        0 <= j < i ==> segment_at(a, j) == #[trigger] segment_at(b, j)
}

/// The version `a` is strictly newer than `b`.
pub open spec fn newer(a: Seq<char>, b: Seq<char>) -> bool {
    exists|i: int| larger_at(segments(a), segments(b), i)
}

fn parse_segments(v: &str) -> (r: Vec<u64>)
    ensures
        r@.len() == segments(v@).len(),
        forall|i: int| 0 <= i < r@.len() ==> #[trigger] r@[i] as nat == segments(v@)[i],
{
    let parts = split(v, '.');
    let ghost ps = pieces(v@, '.');
    let mut out: Vec<u64> = Vec::new();
    let mut i: usize = 0;
    assert(texts(parts@).len() == parts@.len());
    while i < parts.len()
        invariant
            ps == pieces(v@, '.'),
            texts(parts@) == ps,
            texts(parts@).len() == parts@.len(),
            i <= parts@.len(),
            out@.len() == i,
            forall|j: int| 0 <= j < i ==> #[trigger] out@[j] as nat == segments(v@)[j],
        decreases parts@.len() - i,
    {
        let t = trim(parts[i].as_str());
        assert(texts(parts@)[i as int] == parts@[i as int]@);
        assert(segments(v@)[i as int] == segment(ps[i as int]));
        let n: u64 = match parse_number(t.as_str(), 10, u64::MAX) {
            Some(n) => n,
            None => 0,
        };
        out.push(n);
        i = i + 1;
    }
    out
}

/// Compare dotted numeric versions: whether `a` is strictly newer than `b`. Parts that are
/// no number, and parts that are missing, count as zero.
pub fn version_newer(a: &str, b: &str) -> (r: bool)
    ensures
        r == newer(a@, b@),
{
    let x = parse_segments(a);
    let y = parse_segments(b);
    let ghost sa = segments(a@);
    let ghost sb = segments(b@);
    let n: usize = if x.len() > y.len() { x.len() } else { y.len() };
    let mut i: usize = 0;
    while i < n
        invariant
            sa == segments(a@),
            sb == segments(b@),
            x@.len() == sa.len(),
            y@.len() == sb.len(),
            forall|j: int| 0 <= j < x@.len() ==> #[trigger] x@[j] as nat == sa[j],
            forall|j: int| 0 <= j < y@.len() ==> #[trigger] y@[j] as nat == sb[j],
            n >= x@.len(),
            n >= y@.len(),
            i <= n,
            forall|j: int| 0 <= j < i ==> segment_at(sa, j) == #[trigger] segment_at(sb, j),
        decreases n - i,
    {
        let p: u64 = if i < x.len() { x[i] } else { 0 };
        let q: u64 = if i < y.len() { y[i] } else { 0 };
        assert(p as nat == segment_at(sa, i as int));
        assert(q as nat == segment_at(sb, i as int));
        if p != q {
            proof {
                if p > q {
                    assert(larger_at(sa, sb, i as int));
                } else {
                    assert forall|k: int| !larger_at(sa, sb, k) by {
                        if larger_at(sa, sb, k) {
                            if k < i {
                                assert(segment_at(sa, k) == segment_at(sb, k));
                            } else if k > i {
                                assert(segment_at(sa, i as int) == segment_at(sb, i as int));
                            }
                        }
                    }
                }
            }
            return p > q;
        }
        i = i + 1;
    }
    proof {
        assert forall|k: int| !larger_at(sa, sb, k) by {
            if larger_at(sa, sb, k) && k < n {
                assert(segment_at(sa, k) == segment_at(sb, k));
            }
        }
    }
    false
}

/// What is known of a cached file.
#[derive(Clone, Copy, Debug, PartialEq, Eq, Structural)]
pub struct CachedFile {
    pub exists: bool,
    /// How old it is, in nanoseconds, where that could be found out.
    pub age_nanos: Option<u64>,
}

/// The cached file is there and younger than `ttl`.
pub open spec fn is_fresh(f: CachedFile, ttl: u64) -> bool {
    f.exists && f.age_nanos is Some && f.age_nanos->0 < ttl
}

/// Check if a cached file is still valid: it is there and younger than `ttl` nanoseconds.
pub fn is_cache_valid(f: &CachedFile, ttl: u64) -> (r: bool)
    ensures
        r == is_fresh(*f, ttl),
{
    match f.age_nanos {
        Some(age) => f.exists && age < ttl,
        None => false,
    }
}

/// The state of the cache.
#[derive(Clone, Copy, Debug, PartialEq, Eq, Structural)]
pub struct CacheStatus {
    pub fix_config_cached: bool,
    pub fix_config_valid: bool,
    pub champion_list_cached: bool,
    pub champion_list_valid: bool,
}

/// The state of the cache, from what is known of its two files.
pub fn get_cache_status(fix_config: &CachedFile, champion_list: &CachedFile) -> (r: CacheStatus)
    ensures
        r == (CacheStatus {
            fix_config_cached: fix_config.exists,
            fix_config_valid: is_fresh(*fix_config, CACHE_TTL_NANOS),
            champion_list_cached: champion_list.exists,
            champion_list_valid: is_fresh(*champion_list, CACHE_TTL_NANOS),
        }),
{
    CacheStatus {
        fix_config_cached: fix_config.exists,
        fix_config_valid: is_cache_valid(fix_config, CACHE_TTL_NANOS),
        champion_list_cached: champion_list.exists,
        champion_list_valid: is_cache_valid(champion_list, CACHE_TTL_NANOS),
    }
}

/// Where a configuration is taken from.
#[derive(Clone, Copy, Debug, PartialEq, Eq, Structural)]
pub enum ConfigSource {
    /// A cached copy that is fresh.
    FreshCache,
    /// The remote copy, which is then cached.
    Remote,
    /// A cached copy, however old.
    StaleCache,
    /// The copy that the program came with.
    Embedded,
}

/// What is to be tried next for a configuration.
#[derive(Clone, Copy, Debug, PartialEq, Eq, Structural)]
pub enum ConfigStep {
    ReadFreshCache,
    Fetch,
    ReadStaleCache,
    Use(ConfigSource),
}

/// What is tried first. Where there is no place for a cache, nothing is fetched either.
pub open spec fn first_try(cache_dir_known: bool, fresh: bool) -> ConfigStep {
    if !cache_dir_known {
        ConfigStep::Use(ConfigSource::Embedded)
    } else if fresh {
        ConfigStep::ReadFreshCache
    } else {
        ConfigStep::Fetch
    }
}

/// What is tried once a step has given a usable copy or not.
pub open spec fn next_try(step: ConfigStep, usable: bool, cache_exists: bool) -> ConfigStep {
    match step {
        ConfigStep::ReadFreshCache => if usable {
            ConfigStep::Use(ConfigSource::FreshCache)
        } else {
            ConfigStep::Fetch
        },
        ConfigStep::Fetch => if usable {
            ConfigStep::Use(ConfigSource::Remote)
        } else if cache_exists {
            ConfigStep::ReadStaleCache
        } else {
            ConfigStep::Use(ConfigSource::Embedded)
        },
        ConfigStep::ReadStaleCache => ConfigStep::Use(
            if usable {
                ConfigSource::StaleCache
            } else {
                ConfigSource::Embedded
            },
        ),
        ConfigStep::Use(_) => step,
    }
}

/// What is tried first for a configuration.
pub fn first_step(cache_dir_known: bool, fresh: bool) -> (r: ConfigStep)
    ensures
        r == first_try(cache_dir_known, fresh),
{
    if !cache_dir_known {
        ConfigStep::Use(ConfigSource::Embedded)
    } else if fresh {
        ConfigStep::ReadFreshCache
    } else {
        ConfigStep::Fetch
    }
}

/// What is tried next, once a step has given a copy that could be read or not.
pub fn next_step(step: ConfigStep, usable: bool, cache_exists: bool) -> (r: ConfigStep)
    ensures
        r == next_try(step, usable, cache_exists),
{
    match step {
        ConfigStep::ReadFreshCache => if usable {
            ConfigStep::Use(ConfigSource::FreshCache)
        } else {
            ConfigStep::Fetch
        },
        ConfigStep::Fetch => if usable {
            ConfigStep::Use(ConfigSource::Remote)
        } else if cache_exists {
            ConfigStep::ReadStaleCache
        } else {
            ConfigStep::Use(ConfigSource::Embedded)
        },
        ConfigStep::ReadStaleCache => if usable {
            ConfigStep::Use(ConfigSource::StaleCache)
        } else {
            ConfigStep::Use(ConfigSource::Embedded)
        },
        ConfigStep::Use(source) => ConfigStep::Use(source),
    }
}

/// Whether the embedded configuration is used in place of the one that was loaded: a run
/// never uses one that is older than the program.
pub fn prefers_embedded(embedded_version: &str, loaded_version: &str) -> (r: bool)
    ensures
        r == newer(embedded_version@, loaded_version@),
{
    version_newer(embedded_version, loaded_version)
}

/// No version is newer than itself, and of two versions at most one is newer.
pub proof fn law_newer_is_strict(a: Seq<char>, b: Seq<char>)
    ensures
        !newer(a, a),
        !(newer(a, b) && newer(b, a)),
{
    let x = segments(a);
    let y = segments(b);
    if newer(a, b) && newer(b, a) {
        let i = choose|i: int| larger_at(x, y, i);
        let j = choose|j: int| larger_at(y, x, j);
        assert(larger_at(x, y, i));
        assert(larger_at(y, x, j));
        if i < j {
            assert(segment_at(y, i) == segment_at(x, i));
        } else if j < i {
            assert(segment_at(x, j) == segment_at(y, j));
        }
    }
}

/// Newer than newer is newer.
pub proof fn law_newer_is_transitive(a: Seq<char>, b: Seq<char>, c: Seq<char>)
    requires
        newer(a, b),
        newer(b, c),
    ensures
        newer(a, c),
{
    let x = segments(a);
    let y = segments(b);
    let z = segments(c);
    let i = choose|i: int| larger_at(x, y, i);
    let j = choose|j: int| larger_at(y, z, j);
    assert(larger_at(x, y, i));
    assert(larger_at(y, z, j));
    let k = if i < j { i } else { j };
    assert forall|m: int| 0 <= m < k implies segment_at(x, m) == #[trigger] segment_at(z, m) by {
        assert(segment_at(x, m) == segment_at(y, m));
        assert(segment_at(y, m) == segment_at(z, m));
    }
    if i < j {
        assert(segment_at(y, i) == segment_at(z, i));
    } else if j < i {
        assert(segment_at(x, j) == segment_at(y, j));
    }
    assert(larger_at(x, z, k));
}

/// Wherever a configuration is taken from, three attempts are enough.
pub proof fn law_three_attempts_are_enough(
    cache_dir_known: bool,
    fresh: bool,
    a: bool,
    b: bool,
    c: bool,
    cache_exists: bool,
)
    ensures
        next_try(
            next_try(next_try(first_try(cache_dir_known, fresh), a, cache_exists), b, cache_exists),
            c,
            cache_exists,
        ) is Use,
{
}

/// A version with one part more is newer than the version without it exactly where that part
/// is not zero, and the version without it is never newer.
pub proof fn law_a_further_part_makes_newer(v: Seq<char>, part: Seq<char>)
    requires
        !part.contains('.'),
    ensures
        newer(v.push('.') + part, v) <==> segment(part) > 0,
        !newer(v, v.push('.') + part),
{
    let a = segments(v.push('.') + part);
    let b = segments(v);
    lemma_pieces_push(v, part, '.');
    assert(a =~= b.push(segment(part)));
    let n = b.len() as int;
    assert(segment_at(a, n) == segment(part) && segment_at(b, n) == 0);
    assert forall|j: int| j != n implies segment_at(a, j) == #[trigger] segment_at(b, j) by {
        if 0 <= j < n {
            assert(a[j] == b[j]);
        }
    }
    if segment(part) > 0 {
        assert(larger_at(a, b, n));
    }
    if exists|i: int| larger_at(a, b, i) {
        let i = choose|i: int| larger_at(a, b, i);
        assert(i == n) by {
            if i != n {
                assert(segment_at(a, i) == segment_at(b, i));
            }
        }
    }
    if exists|i: int| larger_at(b, a, i) {
        let i = choose|i: int| larger_at(b, a, i);
        if i != n {
            assert(segment_at(a, i) == segment_at(b, i));
        }
    }
}

/// Of two versions that agree before it, the one with the larger part at some place is newer,
/// whatever stands behind.
pub proof fn law_first_difference_decides(a: Seq<char>, b: Seq<char>, i: int)
    requires
        0 <= i < segments(a).len(),
        i < segments(b).len(),
        forall|j: int| 0 <= j < i ==> segments(a)[j] == segments(b)[j],
        segments(a)[i] > segments(b)[i],
    ensures
        newer(a, b),
        !newer(b, a),
{
    let x = segments(a);
    let y = segments(b);
    assert forall|j: int| 0 <= j < i implies segment_at(x, j) == #[trigger] segment_at(y, j) by {
        assert(x[j] == y[j]);
    }
    assert(larger_at(x, y, i));
    law_newer_is_strict(a, b);
}

/// A fresh copy is used where it can be read, else what can be fetched, else an old copy, and
/// the one that the program came with where nothing else is to be had.
pub proof fn law_sources_are_tried_in_order(cached: bool)
    ensures
        first_try(true, true) == ConfigStep::ReadFreshCache,
        next_try(first_try(true, true), true, cached) == ConfigStep::Use(ConfigSource::FreshCache),
        next_try(first_try(true, false), true, cached) == ConfigStep::Use(ConfigSource::Remote),
        next_try(next_try(first_try(true, true), false, cached), true, cached) == ConfigStep::Use(ConfigSource::Remote),
        next_try(next_try(first_try(true, false), false, true), true, true) == ConfigStep::Use(ConfigSource::StaleCache),
        next_try(next_try(first_try(true, false), false, true), false, true) == ConfigStep::Use(ConfigSource::Embedded),
        next_try(first_try(true, false), false, false) == ConfigStep::Use(ConfigSource::Embedded),
        first_try(false, cached) == ConfigStep::Use(ConfigSource::Embedded),
{
}

} // verus!
