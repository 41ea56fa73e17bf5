//! Loose textures that the game will never load: `.dds` files that nothing points at.
//!
//! The check applies only to a mod without a skin definition; one that defines a skin
//! wires its own art up.

use vstd::prelude::*;
use vstd::string::*;
use crate::check::asset_ratio::{describe_share, exceeds, percent_of, percent_share, share_exceeds, share_text};
use crate::text::{
    after_last, before_last, begins, cat, chars, contains, ends, ends_with, holds, leading_digits, lemma_push_contains, lemma_take_next, lemma_texts_push,
    lowered, normal, normalize, rfind_char, slice, starts_with, tail_after, texts, to_lower,
};
use crate::traits::NameSet;

verus! {

/// FNV-1a of `SkinCharacterDataProperties`: a mod that has one defines a skin.
pub const SKIN_CHARACTER_DATA_PROPERTIES: u32 = 0x9b67_e9f6;

/// The path lies in a folder of interface art.
pub open spec fn default_excluded(path: Seq<char>) -> bool {
    holds(path, "/hud/"@) || holds(path, "/icons2d/"@) || holds(path, "/icons/"@) || holds(path, "/spells/icons"@) || holds(
        path,
        "/loadouts/"@,
    ) || holds(path, "/summonericons"@)
}

/// What the measurement found.
#[derive(Clone, Copy, Debug, PartialEq, Eq, Structural)]
pub struct LooseTextureVerdict {
    /// Textures that will not load.
    pub lost: usize,
    /// Textures counted.
    pub total: usize,
    /// Those of the lost whose `.tex` counterpart exists.
    pub convertible: usize,
}

impl LooseTextureVerdict {
    /// Whole-percent share that will not load, truncated.
    pub fn percent(&self) -> (r: u32)
        ensures
            r == percent_of(self.lost as nat, self.total as nat),
    {
        percent_share(self.lost, self.total)
    }

    /// Player-facing summary.
    pub fn describe(&self) -> (r: String)
        ensures
            r@ == share_text(self.lost as nat, self.total as nat)
                + " of the skin's loose textures will not display as shipped"@,
    {
        let mut s = describe_share(self.lost, self.total);
        s.append(" of the skin's loose textures will not display as shipped");
        s
    }
}

/// The stem is that of a mipmap level, like `4x_foo`.
pub open spec fn mipmap_level(stem: Seq<char>) -> bool {
    let digits = leading_digits(stem).len();
    digits > 0 && begins(stem.skip(digits as int), "x_"@)
}

proof fn lemma_leading_digits(s: Seq<char>, n: int)
    requires
        0 <= n <= s.len(),
        forall|j: int| 0 <= j < n ==> '0' <= (#[trigger] s[j]) && s[j] <= '9',
        n == s.len() || !('0' <= s[n] && s[n] <= '9'),
    ensures
        leading_digits(s).len() == n,
    decreases s.len(),
{
    if n > 0 {
        let t = s.skip(1);
        assert forall|j: int| 0 <= j < n - 1 implies '0' <= (#[trigger] t[j]) && t[j] <= '9' by {
            assert(t[j] == s[j + 1]);
        }
        if n < s.len() {
            assert(t[n - 1] == s[n]);
        }
        lemma_leading_digits(t, n - 1);
        assert('0' <= s[0] && s[0] <= '9');
    }
}

/// Whether a stem is a mipmap level like `4x_foo`.
pub fn is_mipmap_level(stem: &str) -> (r: bool)
    ensures
        r == mipmap_level(stem@),
{
    let v = chars(stem);
    let mut n: usize = 0;
    while n < v.len() && '0' <= v[n] && v[n] <= '9'
        invariant
            v@ == stem@,
            n <= v@.len(),
            forall|j: int| 0 <= j < n ==> '0' <= (#[trigger] stem@[j]) && stem@[j] <= '9',
        decreases v@.len() - n,
    {
        n = n + 1;
    }
    proof {
        lemma_leading_digits(stem@, n as int);
    }
    if n == 0 {
        return false;
    }
    let rest = slice(stem, n, v.len());
    assert(rest@ =~= stem@.skip(n as int));
    starts_with(rest.as_str(), "x_")
}

/// The file name of a path without its extension.
pub open spec fn stem(path: Seq<char>) -> Seq<char> {
    let file = after_last(path, '/');
    match before_last(file, '.') {
        Some(s) => s,
        None => file,
    }
}

/// The file name of a path without its extension.
pub fn stem_of(path: &str) -> (r: String)
    ensures
        r@ == stem(path@),
{
    let file = tail_after(path, '/');
    match rfind_char(file.as_str(), '.') {
        Some(i) => slice(file.as_str(), 0, i),
        None => file,
    }
}

/// The path contains one of the segments, in lower case.
pub open spec fn holds_any(path: Seq<char>, segments: Seq<String>) -> bool {
    exists|i: int| 0 <= i < segments.len() && holds(path, lowered((#[trigger] segments[i])@))
}

/// The path is excluded: by the given segments, or by the default ones where none are
/// given.
pub open spec fn excluded(path: Seq<char>, segments: Seq<String>) -> bool {
    if segments.len() == 0 {
        default_excluded(path)
    } else {
        holds_any(path, segments)
    }
}

/// A normalized path is that of a loose texture that counts.
pub open spec fn counted(path: Seq<char>, segments: Seq<String>) -> bool {
    ends(path, ".dds"@) && !excluded(path, segments) && !mipmap_level(stem(path))
}

fn is_excluded(path: &str, segments: &Vec<String>) -> (r: bool)
    ensures
        r == excluded(path@, segments@),
{
    if segments.len() == 0 {
        return contains(path, "/hud/") || contains(path, "/icons2d/") || contains(path, "/icons/") || contains(
            path,
            "/spells/icons",
        ) || contains(path, "/loadouts/") || contains(path, "/summonericons");
    }
    let mut i: usize = 0;
    while i < segments.len()
        invariant
            segments@.len() > 0,
            i <= segments@.len(),
            forall|j: int| 0 <= j < i ==> !holds(path@, lowered((#[trigger] segments@[j])@)),
        decreases segments@.len() - i,
    {
        let s = to_lower(segments[i].as_str());
        if contains(path, s.as_str()) {
            return true;
        }
        i = i + 1;
    }
    false
}

/// The normalized paths of the loose textures that count, in order.
pub open spec fn candidates(files: Seq<Seq<char>>, segments: Seq<String>) -> Seq<Seq<char>>
    decreases files.len(),
{
    if files.len() == 0 {
        Seq::empty()
    } else {
        let before = candidates(files.drop_last(), segments);
        if counted(normal(files.last()), segments) {
            before.push(normal(files.last()))
        } else {
            before
        }
    }
}

/// The `.tex` beside a `.dds`.
pub open spec fn tex_twin(dds: Seq<char>) -> Seq<char> {
    dds.subrange(0, dds.len() - 4) + ".tex"@
}

/// The archive ships this normalized path.
pub open spec fn shipped(files: Seq<Seq<char>>, path: Seq<char>) -> bool {
    exists|i: int| 0 <= i < files.len() && normal(#[trigger] files[i]) == path
}

/// A loose texture will load: the mod ships its `.tex`, or a BIN points at it, or at
/// its `.tex` where that exists.
pub open spec fn bound<R: NameSet, S: NameSet>(dds: Seq<char>, files: Seq<Seq<char>>, references: R, resolves: S) -> bool {
    let twin = tex_twin(dds);
    shipped(files, twin) || references.holds(dds) || (references.holds(twin) && resolves.holds(twin))
}

/// How many of the textures will not load.
pub open spec fn lost_of<R: NameSet, S: NameSet>(
    ds: Seq<Seq<char>>,
    files: Seq<Seq<char>>,
    references: R,
    resolves: S,
) -> nat
    decreases ds.len(),
{
    if ds.len() == 0 {
        0
    } else {
        lost_of(ds.drop_last(), files, references, resolves) + (if bound(ds.last(), files, references, resolves) {
            0nat
        } else {
            1nat
        })
    }
}

/// How many of the textures will not load but exist as `.tex`.
pub open spec fn convertible_of<R: NameSet, S: NameSet>(
    ds: Seq<Seq<char>>,
    files: Seq<Seq<char>>,
    references: R,
    resolves: S,
) -> nat
    decreases ds.len(),
{
    if ds.len() == 0 {
        0
    } else {
        convertible_of(ds.drop_last(), files, references, resolves) + (if !bound(
            ds.last(),
            files,
            references,
            resolves,
        ) && resolves.holds(tex_twin(ds.last())) {
            1nat
        } else {
            0nat
        })
    }
}

fn ships_path(files: &Vec<String>, path: &str) -> (r: bool)
    ensures
        r == shipped(texts(files@), path@),
{
    let ghost all = texts(files@);
    let mut i: usize = 0;
    while i < files.len()
        invariant
            all == texts(files@),
            i <= files@.len(),
            forall|j: int| 0 <= j < i ==> normal(#[trigger] all[j]) != path@,
        decreases files@.len() - i,
    {
        assert(all[i as int] == files@[i as int]@);
        let n = normalize(files[i].as_str());
        if crate::text::same(n.as_str(), path) {
            return true;
        }
        i = i + 1;
    }
    false
}

/// Measure a mod's loose textures.
///
/// `None` when the mod defines a skin, when there are fewer than `min_textures` that
/// count, or when the share of lost ones does not exceed `threshold` parts per million. The
/// share of no textures at all is nothing.
pub fn evaluate<R: NameSet, S: NameSet>(
    files: &Vec<String>,
    defines_skin: bool,
    references: &R,
    resolves: &S,
    excluded_segments: &Vec<String>,
    min_textures: usize,
    threshold: u32,
) -> (r: Option<LooseTextureVerdict>)
    ensures
        ({
            let fs = texts(files@);
            let ds = candidates(fs, excluded_segments@);
            let lost = lost_of(ds, fs, *references, *resolves);
            &&& r is Some <==> !defines_skin && ds.len() >= min_textures && exceeds(lost, ds.len(), threshold)
            &&& r matches Some(v) ==> v.lost == lost && v.total == ds.len() && v.convertible == convertible_of(
                ds,
                fs,
                *references,
                *resolves,
            )
        }),
{
    if defines_skin {
        return None;
    }
    let ghost fs = texts(files@);
    let mut found: Vec<String> = Vec::new();
    let mut i: usize = 0;
    assert(texts(found@) =~= candidates(fs.take(0), excluded_segments@));
    while i < files.len()
        invariant
            fs == texts(files@),
            i <= files@.len(),
            texts(found@) == candidates(fs.take(i as int), excluded_segments@),
            forall|j: int| 0 <= j < found@.len() ==> ends((#[trigger] found@[j])@, ".dds"@),
        decreases files@.len() - i,
    {
        proof {
            lemma_take_next(fs, i as int);
        }
        let path = normalize(files[i].as_str());
        if ends_with(path.as_str(), ".dds") && !is_excluded(path.as_str(), excluded_segments) && !is_mipmap_level(
            stem_of(path.as_str()).as_str(),
        ) {
            let ghost o = found@;
            found.push(path);
            proof {
                lemma_texts_push(o, found@.last());
                assert(found@ =~= o.push(found@.last()));
            }
        }
        i = i + 1;
    }
    assert(fs.take(i as int) =~= fs);
    let ghost ds = texts(found@);
    if found.len() < min_textures {
        return None;
    }
    let mut lost: usize = 0;
    let mut convertible: usize = 0;
    let mut k: usize = 0;
    while k < found.len()
        invariant
            fs == texts(files@),
            ds == texts(found@),
            forall|j: int| 0 <= j < found@.len() ==> ends((#[trigger] found@[j])@, ".dds"@),
            k <= found@.len(),
            lost <= k,
            convertible <= k,
            lost == lost_of(ds.take(k as int), fs, *references, *resolves),
            convertible == convertible_of(ds.take(k as int), fs, *references, *resolves),
        decreases found@.len() - k,
    {
        proof {
            lemma_take_next(ds, k as int);
            assert(ends(found@[k as int]@, ".dds"@));
            reveal_strlit(".dds");
        }
        let dds = found[k].as_str();
        let n = dds.unicode_len();
        let head = slice(dds, 0, n - 4);
        let twin = cat(head.as_str(), ".tex");
        assert(twin@ == tex_twin(dds@));
        let is_bound = ships_path(files, twin.as_str()) || references.contains(dds) || (references.contains(
            twin.as_str(),
        ) && resolves.contains(twin.as_str()));
        if !is_bound {
            lost = lost + 1;
            if resolves.contains(twin.as_str()) {
                convertible = convertible + 1;
            }
        }
        k = k + 1;
    }
    assert(ds.take(k as int) =~= ds);
    let total = found.len();
    if share_exceeds(lost, total, threshold) {
        Some(LooseTextureVerdict { lost, total, convertible })
    } else {
        None
    }
}

/// A mod that defines its own skin is never judged by its loose textures, and no more
/// textures are lost than were counted.
pub proof fn law_lost_at_most_all<R: NameSet, S: NameSet>(
    ds: Seq<Seq<char>>,
    files: Seq<Seq<char>>,
    references: R,
    resolves: S,
)
    ensures
        lost_of(ds, files, references, resolves) <= ds.len(),
        convertible_of(ds, files, references, resolves) <= lost_of(ds, files, references, resolves),
    decreases ds.len(),
{
    if ds.len() > 0 {
        law_lost_at_most_all(ds.drop_last(), files, references, resolves);
    }
}

/// The textures that count are the `.dds` files whose path has none of the excluded parts
/// and whose name is not that of a mipmap level.
pub proof fn law_loose_textures_are_the_old_ones(files: Seq<Seq<char>>, segments: Seq<String>, p: Seq<char>)
    requires
        segments.len() > 0,
    ensures
        candidates(files, segments).contains(p) <==> (exists|i: int| 0 <= i < files.len() && normal(#[trigger] files[i]) == p) && ends(
            p,
            ".dds"@,
        ) && (forall|k: int| 0 <= k < segments.len() ==> !holds(p, lowered((#[trigger] segments[k])@))) && !mipmap_level(stem(p)),
    decreases files.len(),
{
    if files.len() > 0 {
        let head = files.drop_last();
        law_loose_textures_are_the_old_ones(head, segments, p);
        lemma_push_contains(candidates(head, segments), normal(files.last()), p);
        assert(files[files.len() - 1] == files.last());
        if exists|i: int| 0 <= i < head.len() && normal(#[trigger] head[i]) == p {
            let i = choose|i: int| 0 <= i < head.len() && normal(#[trigger] head[i]) == p;
            assert(normal(files[i]) == p);
        }
        if exists|i: int| 0 <= i < files.len() && normal(#[trigger] files[i]) == p {
            let i = choose|i: int| 0 <= i < files.len() && normal(#[trigger] files[i]) == p;
            if i < head.len() {
                assert(normal(head[i]) == p);
            }
        }
    }
}

/// A texture is not lost where the mod ships the `.tex` file of its stem, where something
/// refers to it, or where something refers to that `.tex` file and it is there.
pub proof fn law_bound_textures_are_not_lost<R: NameSet, S: NameSet>(
    base: Seq<char>,
    files: Seq<Seq<char>>,
    references: R,
    resolves: S,
)
    ensures
        ({
            let dds = base + ".dds"@;
            let tex = base + ".tex"@;
            let lost = lost_of(seq![dds], files, references, resolves);
            let convertible = convertible_of(seq![dds], files, references, resolves);
            let ships_tex = exists|i: int| 0 <= i < files.len() && normal(#[trigger] files[i]) == tex;
            &&& ships_tex || references.holds(dds) || (references.holds(tex) && resolves.holds(tex)) ==> lost == 0
            &&& !ships_tex && !references.holds(dds) && !(references.holds(tex) && resolves.holds(tex)) ==> lost == 1
            &&& convertible == 1 <==> lost == 1 && resolves.holds(tex)
        }),
{
    reveal_strlit(".dds");
    let dds = base + ".dds"@;
    assert(dds.subrange(0, dds.len() - 4) =~= base);
    let ds = seq![dds];
    assert(ds.drop_last() =~= Seq::<Seq<char>>::empty());
    assert(ds.last() == dds);
    reveal_with_fuel(lost_of, 2);
    reveal_with_fuel(convertible_of, 2);
}

/// The counts are sums over the textures.
pub proof fn law_lost_textures_add_up<R: NameSet, S: NameSet>(
    a: Seq<Seq<char>>,
    b: Seq<Seq<char>>,
    files: Seq<Seq<char>>,
    references: R,
    resolves: S,
)
    ensures
        lost_of(a + b, files, references, resolves) == lost_of(a, files, references, resolves) + lost_of(b, files, references, resolves),
        convertible_of(a + b, files, references, resolves) == convertible_of(a, files, references, resolves) + convertible_of(
            b,
            files,
            references,
            resolves,
        ),
    decreases b.len(),
{
    if b.len() > 0 {
        law_lost_textures_add_up(a, b.drop_last(), files, references, resolves);
        assert((a + b).drop_last() =~= a + b.drop_last());
        assert((a + b).last() == b.last());
    } else {
        assert(a + b =~= a);
    }
}

} // verus!
