//! How much of a champion's ability effects actually exists.
//!
//! Only gameplay effects count: those of an ability slot that are the projectile. Effects
//! of game modes that no longer run, audio cues and other champions' effects are left
//! out. One dead projectile warns on its own.

use vstd::prelude::*;
use vstd::string::*;
use crate::check::asset_ratio::{describe_share, percent_of, percent_share, reaches, share_reaches, share_text, tier_reason, RatioTier};
use crate::config::VfxRatioConfig;
use crate::diagnostic::{finding, Diagnostic, Finding, ReasonCatalog};
use crate::text::{
    after_last, ascii_lowered, begins, cat, chars, contains, distinct, find, holds, lemma_pieces_head, lemma_position, lemma_push_contains, lemma_take_next, occurs_at, pieces, position,
    push_distinct, same, slice, split, starts_with, tail_after, texts, to_ascii_lower,
};
use crate::traits::NameSet;

verus! {

/// What a referenced effect is, for the purpose of the ratio.
#[derive(Clone, Copy, Debug, PartialEq, Eq, Structural)]
pub enum Kind {
    /// A gameplay effect: counted.
    Core,
    /// Real but not gameplay: not counted.
    Cosmetic,
    /// Not the mod's effect, or not visual at all: not counted.
    Ignore,
}

/// Marker lists that decide how an effect is classified.
pub struct VfxMarkers<'a> {
    /// Game modes no live queue renders.
    pub legacy: &'a Vec<String>,
    /// Audio cues, which are not visual.
    pub audio: &'a Vec<String>,
    /// Non-gameplay effects: recalls, idles, deaths, emotes.
    pub cosmetic: &'a Vec<String>,
    /// Helper overlays: markers, timers, range rings.
    pub subhelper: &'a Vec<String>,
}

/// What an effect name says behind the champion and the skin: from its second underscore
/// on, or all of it where it has fewer.
pub open spec fn ability_tail(leaf: Seq<char>) -> Seq<char> {
    match position(leaf, "_"@) {
        Some(i) => {
            let rest = leaf.skip(i + 1);
            match position(rest, "_"@) {
                Some(j) => "_"@ + rest.skip(j + 1),
                None => leaf,
            }
        },
        None => leaf,
    }
}

/// A slot name ends before `rest`: there is nothing, an underscore or a digit.
pub open spec fn slot_ends(rest: Seq<char>) -> bool {
    rest.len() == 0 || rest[0] == '_' || ('0' <= rest[0] && rest[0] <= '9')
}

/// The text begins with this slot name, which ends there.
pub open spec fn names_slot(s: Seq<char>, slot: Seq<char>) -> bool {
    begins(s, slot) && slot_ends(s.skip(slot.len() as int))
}

/// The text begins with the name of an ability slot.
pub open spec fn begins_with_slot(s: Seq<char>) -> bool {
    names_slot(s, "q"@) || names_slot(s, "w"@) || names_slot(s, "e"@) || names_slot(s, "r"@) || names_slot(s, "p"@)
        || names_slot(s, "ba"@) || names_slot(s, "passive"@) || names_slot(s, "basicattack"@)
}

/// The name is that of an effect of an ability slot.
pub open spec fn ability_effect(leaf: Seq<char>) -> bool {
    let tail = ability_tail(ascii_lowered(leaf));
    exists|i: int| 0 <= i < tail.len() && tail[i] == '_' && begins_with_slot(#[trigger] tail.skip(i + 1))
}

fn is_slot(s: &str, slot: &str) -> (r: bool)
    ensures
        r == names_slot(s@, slot@),
{
    if !starts_with(s, slot) {
        return false;
    }
    let k = slot.unicode_len();
    let n = s.unicode_len();
    if k == n {
        return true;
    }
    let c = s.get_char(k);
    assert(s@.skip(k as int)[0] == c);
    c == '_' || ('0' <= c && c <= '9')
}

fn is_slot_start(s: &str) -> (r: bool)
    ensures
        r == begins_with_slot(s@),
{
    is_slot(s, "q") || is_slot(s, "w") || is_slot(s, "e") || is_slot(s, "r") || is_slot(s, "p") || is_slot(s, "ba")
        || is_slot(s, "passive") || is_slot(s, "basicattack")
}

fn tail_of(leaf: &str) -> (r: String)
    ensures
        r@ == ability_tail(leaf@),
{
    proof {
        reveal_strlit("_");
    }
    match find(leaf, "_") {
        Some(i) => {
            let n = leaf.unicode_len();
            let rest = slice(leaf, i + 1, n);
            assert(rest@ =~= leaf@.skip(i + 1));
            match find(rest.as_str(), "_") {
                Some(j) => {
                    let m = rest.as_str().unicode_len();
                    let end = slice(rest.as_str(), j + 1, m);
                    assert(end@ =~= rest@.skip(j + 1));
                    cat("_", end.as_str())
                },
                None => leaf.to_owned(),
            }
        },
        None => leaf.to_owned(),
    }
}

/// Whether a leaf names an ability slot, behind the champion and the skin.
pub fn is_ability_effect(leaf: &str) -> (r: bool)
    ensures
        r == ability_effect(leaf@),
{
    let lower = to_ascii_lower(leaf);
    let tail = tail_of(lower.as_str());
    let v = chars(tail.as_str());
    let n = v.len();
    let mut i: usize = 0;
    while i < n
        invariant
            v@ == tail@,
            n == v@.len(),
            tail@ == ability_tail(ascii_lowered(leaf@)),
            i <= n,
            forall|j: int| 0 <= j < i && tail@[j] == '_' ==> !begins_with_slot(#[trigger] tail@.skip(j + 1)),
        decreases n - i,
    {
        if v[i] == '_' {
            let rest = slice(tail.as_str(), i + 1, n);
            assert(rest@ =~= tail@.skip(i + 1));
            if is_slot_start(rest.as_str()) {
                assert(begins_with_slot(tail@.skip(i + 1)));
                return true;
            }
        }
        i = i + 1;
    }
    false
}

/// The name is that of a projectile.
pub open spec fn projectile(leaf: Seq<char>) -> bool {
    holds(ascii_lowered(leaf), "_mis"@)
}

/// Whether a leaf is the projectile.
pub fn is_projectile(leaf: &str) -> (r: bool)
    ensures
        r == projectile(leaf@),
{
    let lower = to_ascii_lower(leaf);
    contains(lower.as_str(), "_mis")
}

/// The text contains one of the markers.
pub open spec fn marked(s: Seq<char>, markers: Seq<String>) -> bool {
    exists|i: int| 0 <= i < markers.len() && holds(s, (#[trigger] markers[i])@)
}

fn is_marked(s: &str, markers: &Vec<String>) -> (r: bool)
    ensures
        r == marked(s@, markers@),
{
    let mut i: usize = 0;
    while i < markers.len()
        invariant
            i <= markers@.len(),
            forall|j: int| 0 <= j < i ==> !holds(s@, (#[trigger] markers@[j])@),
        decreases markers@.len() - i,
    {
        if contains(s, markers[i].as_str()) {
            return true;
        }
        i = i + 1;
    }
    false
}

/// The effect belongs to another champion.
pub open spec fn of_another(lower: Seq<char>, champion: Seq<char>) -> bool {
    match position(lower, "characters/"@) {
        Some(i) => {
            let owner = pieces(lower.skip(i + "characters/"@.len()), '/')[0];
            owner.len() > 0 && owner != champion
        },
        None => false,
    }
}

/// The kind of an effect.
pub open spec fn kind_of(name: Seq<char>, champion: Seq<char>, m: VfxMarkers) -> Kind {
    let lower = ascii_lowered(name);
    let leaf = after_last(lower, '/');
    if marked(lower, m.legacy@) || marked(lower, m.audio@) || of_another(lower, champion) {
        Kind::Ignore
    } else if marked(leaf, m.cosmetic@) || marked(leaf, m.subhelper@) {
        Kind::Cosmetic
    } else if ability_effect(leaf) && projectile(leaf) {
        Kind::Core
    } else {
        Kind::Cosmetic
    }
}

fn is_of_another(lower: &str, champion: &str) -> (r: bool)
    ensures
        r == of_another(lower@, champion@),
{
    match find(lower, "characters/") {
        Some(i) => {
            let n = lower.unicode_len();
            let start: usize = i + "characters/".unicode_len();
            let rest = slice(lower, start, n);
            assert(rest@ =~= lower@.skip(start as int));
            let parts = split(rest.as_str(), '/');
            proof {
                crate::text::lemma_pieces_nonempty(rest@, '/');
                assert(texts(parts@).len() == parts@.len());
                assert(texts(parts@)[0] == parts@[0]@);
            }
            let owner = parts[0].as_str();
            !owner.is_empty() && !same(owner, champion)
        },
        None => false,
    }
}

/// Classify one referenced effect.
pub fn classify(name: &str, champion: &str, markers: &VfxMarkers) -> (r: Kind)
    ensures
        r == kind_of(name@, champion@, *markers),
{
    let lower = to_ascii_lower(name);
    let l = lower.as_str();
    if is_marked(l, markers.legacy) || is_marked(l, markers.audio) {
        return Kind::Ignore;
    }
    if is_of_another(l, champion) {
        return Kind::Ignore;
    }
    let leaf = tail_after(l, '/');
    if is_marked(leaf.as_str(), markers.cosmetic) || is_marked(leaf.as_str(), markers.subhelper) {
        return Kind::Cosmetic;
    }
    if is_ability_effect(leaf.as_str()) && is_projectile(leaf.as_str()) {
        Kind::Core
    } else {
        Kind::Cosmetic
    }
}

/// What the measurement found.
#[derive(Clone, Copy, Debug, PartialEq, Eq, Structural)]
pub struct VfxVerdict {
    /// Gameplay effects referenced.
    pub core_total: usize,
    /// Of those, how many are defined nowhere.
    pub core_dead: usize,
    /// Whether any dead effect is a projectile.
    pub projectile_dead: bool,
}

impl VfxVerdict {
    /// Whole-percent share that is missing, truncated.
    pub fn percent(&self) -> (r: u32)
        ensures
            r == percent_of(self.core_dead as nat, self.core_total as nat),
    {
        percent_share(self.core_dead, self.core_total)
    }

    /// `{dead}/{total} ({percent}%) of ability effects`
    pub fn describe(&self) -> (r: String)
        ensures
            r@ == share_text(self.core_dead as nat, self.core_total as nat) + " of ability effects"@,
    {
        let mut s = describe_share(self.core_dead, self.core_total);
        s.append(" of ability effects");
        s
    }
}

/// The name is that of a gameplay particle.
pub open spec fn core_effect(name: Seq<char>, champion: Seq<char>, m: VfxMarkers) -> bool {
    holds(ascii_lowered(name), "/particles/"@) && kind_of(name, champion, m) == Kind::Core
}

/// The lower-case names of the gameplay particles, in order.
pub open spec fn core_names(refs: Seq<Seq<char>>, champion: Seq<char>, m: VfxMarkers) -> Seq<Seq<char>>
    decreases refs.len(),
{
    if refs.len() == 0 {
        Seq::empty()
    } else {
        let before = core_names(refs.drop_last(), champion, m);
        if core_effect(refs.last(), champion, m) {
            before.push(ascii_lowered(refs.last()))
        } else {
            before
        }
    }
}

/// The lower-case names of the gameplay particles that are not defined, in order.
pub open spec fn dead_names<S: NameSet>(refs: Seq<Seq<char>>, champion: Seq<char>, m: VfxMarkers, defined: S) -> Seq<Seq<char>>
    decreases refs.len(),
{
    if refs.len() == 0 {
        Seq::empty()
    } else {
        let before = dead_names(refs.drop_last(), champion, m, defined);
        if core_effect(refs.last(), champion, m) && !defined.holds(refs.last()) {
            before.push(ascii_lowered(refs.last()))
        } else {
            before
        }
    }
}

/// Some of the names is that of a projectile.
pub open spec fn has_projectile(names: Seq<Seq<char>>) -> bool {
    exists|i: int| 0 <= i < names.len() && projectile(after_last(#[trigger] names[i], '/'))
}

/// Count referenced gameplay effects and how many are missing, each name once.
pub fn measure<S: NameSet>(referenced: &Vec<String>, champion: &str, markers: &VfxMarkers, is_defined: &S) -> (r: VfxVerdict)
    ensures
        ({
            let refs = texts(referenced@);
            let dead = dead_names(refs, champion@, *markers, *is_defined);
            &&& r.core_total == distinct(core_names(refs, champion@, *markers)).len()
            &&& r.core_dead == distinct(dead).len()
            &&& r.projectile_dead == has_projectile(dead)
        }),
{
    let ghost refs = texts(referenced@);
    let mut core: Vec<String> = Vec::new();
    let mut dead: Vec<String> = Vec::new();
    let mut projectile_dead = false;
    let mut i: usize = 0;
    assert(texts(core@) =~= distinct(core_names(refs.take(0), champion@, *markers)));
    assert(texts(dead@) =~= distinct(dead_names(refs.take(0), champion@, *markers, *is_defined)));
    while i < referenced.len()
        invariant
            refs == texts(referenced@),
            i <= referenced@.len(),
            texts(core@) == distinct(core_names(refs.take(i as int), champion@, *markers)),
            texts(dead@) == distinct(dead_names(refs.take(i as int), champion@, *markers, *is_defined)),
            projectile_dead == has_projectile(dead_names(refs.take(i as int), champion@, *markers, *is_defined)),
        decreases referenced@.len() - i,
    {
        proof {
            lemma_take_next(refs, i as int);
            assert(refs[i as int] == referenced@[i as int]@);
        }
        let name = referenced[i].as_str();
        let lower = to_ascii_lower(name);
        let ghost c = core_names(refs.take(i as int), champion@, *markers);
        let ghost d = dead_names(refs.take(i as int), champion@, *markers, *is_defined);
        if contains(lower.as_str(), "/particles/") && classify(name, champion, markers) == Kind::Core {
            proof {
                assert(c.push(lower@).drop_last() =~= c);
                assert(d.push(lower@).drop_last() =~= d);
            }
            push_distinct(&mut core, lower.clone());
            if !is_defined.contains(name) {
                let leaf = tail_after(lower.as_str(), '/');
                let hit = is_projectile(leaf.as_str());
                proof {
                    let now = d.push(lower@);
                    if has_projectile(d) {
                        let k = choose|k: int| 0 <= k < d.len() && projectile(after_last(#[trigger] d[k], '/'));
                        assert(projectile(after_last(now[k], '/')));
                    }
                    if hit {
                        assert(projectile(after_last(now[d.len() as int], '/')));
                    }
                    if has_projectile(now) && !hit {
                        let k = choose|k: int| 0 <= k < now.len() && projectile(after_last(#[trigger] now[k], '/'));
                        assert(k < d.len());
                        assert(projectile(after_last(d[k], '/')));
                    }
                }
                if hit {
                    projectile_dead = true;
                }
                push_distinct(&mut dead, lower);
            }
        }
        i = i + 1;
    }
    assert(refs.take(i as int) =~= refs);
    assert(texts(core@).len() == core@.len());
    assert(texts(dead@).len() == dead@.len());
    VfxVerdict { core_total: core.len(), core_dead: dead.len(), projectile_dead }
}

/// The tier of a measurement: both levels are reached, not exceeded, and a dead
/// projectile warns on its own.
pub open spec fn vfx_tier(v: VfxVerdict, warn_at: u32, fail_at: u32) -> Option<RatioTier> {
    if v.core_total == 0 {
        None
    } else if reaches(v.core_dead as nat, v.core_total as nat, fail_at) {
        Some(RatioTier::Fail)
    } else if reaches(v.core_dead as nat, v.core_total as nat, warn_at) || v.projectile_dead {
        Some(RatioTier::Warn)
    } else {
        None
    }
}

/// Which tier a measurement lands in, if any. The levels are in parts per million.
pub fn tier(verdict: &VfxVerdict, warn_at: u32, fail_at: u32) -> (r: Option<RatioTier>)
    ensures
        r == vfx_tier(*verdict, warn_at, fail_at),
{
    if verdict.core_total == 0 {
        return None;
    }
    if share_reaches(verdict.core_dead, verdict.core_total, fail_at) {
        return Some(RatioTier::Fail);
    }
    if share_reaches(verdict.core_dead, verdict.core_total, warn_at) || verdict.projectile_dead {
        return Some(RatioTier::Warn);
    }
    None
}

/// What a verdict is reported as.
pub open spec fn vfx_finding(cfg: VfxRatioConfig, catalog: ReasonCatalog, v: VfxVerdict) -> Option<Finding> {
    match vfx_tier(v, cfg.warn_at, cfg.fail_at) {
        Some(t) => match tier_reason(t, cfg.warn_reason, cfg.fail_reason) {
            Some(r) => {
                let text = share_text(v.core_dead as nat, v.core_total as nat) + " of ability effects"@;
                Some(
                    Finding {
                        detail: Some(
                            if v.projectile_dead && t == RatioTier::Warn {
                                text + ", including a missile"@
                            } else {
                                text
                            },
                        ),
                        ..finding(catalog, r, "vfx_ratio"@)
                    },
                )
            },
            None => None,
        },
        None => None,
    }
}

/// The finding about a verdict, if there is one.
pub fn report_verdict(cfg: &VfxRatioConfig, catalog: &ReasonCatalog, verdict: &VfxVerdict) -> (r: Option<Diagnostic>)
    ensures
        r is Some <==> vfx_finding(*cfg, *catalog, *verdict) is Some,
        r matches Some(d) ==> vfx_finding(*cfg, *catalog, *verdict) == Some(d@),
{
    let t = match tier(verdict, cfg.warn_at, cfg.fail_at) {
        Some(t) => t,
        None => {
            return None;
        },
    };
    let reason = match t {
        RatioTier::Fail => &cfg.fail_reason,
        RatioTier::Warn => &cfg.warn_reason,
    };
    match reason {
        Some(r) => {
            let mut detail = verdict.describe();
            if verdict.projectile_dead && t == RatioTier::Warn {
                detail.append(", including a missile");
            }
            Some(Diagnostic::new(catalog, r.as_str(), "vfx_ratio").with_detail(detail.as_str()))
        },
        None => None,
    }
}

/// Run the ability-effect measurement over one mod of a champion. At most one finding.
pub fn run<S: NameSet>(
    cfg: &VfxRatioConfig,
    catalog: &ReasonCatalog,
    references: &Vec<String>,
    champion: &str,
    is_defined: &S,
) -> (r: Option<Diagnostic>)
    ensures
        !cfg.enabled || champion@.len() == 0 ==> r is None,
        cfg.enabled && champion@.len() > 0 ==> exists|v: VfxVerdict| #[trigger]
            measured(v, texts(references@), champion@, *cfg, *is_defined) && (r is Some <==> vfx_finding(
                *cfg,
                *catalog,
                v,
            ) is Some) && (r matches Some(d) ==> vfx_finding(*cfg, *catalog, v) == Some(d@)),
{
    if !cfg.enabled || champion.is_empty() {
        return None;
    }
    let markers = VfxMarkers {
        legacy: &cfg.legacy_markers,
        audio: &cfg.audio_markers,
        cosmetic: &cfg.cosmetic_markers,
        subhelper: &cfg.subhelper_markers,
    };
    let verdict = measure(references, champion, &markers, is_defined);
    assert(measured(verdict, texts(references@), champion@, *cfg, *is_defined));
    report_verdict(cfg, catalog, &verdict)
}

/// The verdict is that of the references under the markers of a configuration.
pub open spec fn measured<S: NameSet>(
    v: VfxVerdict,
    refs: Seq<Seq<char>>,
    champion: Seq<char>,
    cfg: VfxRatioConfig,
    defined: S,
) -> bool {
    let m = VfxMarkers {
        legacy: &cfg.legacy_markers,
        audio: &cfg.audio_markers,
        cosmetic: &cfg.cosmetic_markers,
        subhelper: &cfg.subhelper_markers,
    };
    let dead = dead_names(refs, champion, m, defined);
    &&& v.core_total == distinct(core_names(refs, champion, m)).len()
    &&& v.core_dead == distinct(dead).len()
    &&& v.projectile_dead == has_projectile(dead)
}

/// A dead projectile is reported whatever the share.
pub proof fn law_dead_projectile_warns(v: VfxVerdict, warn_at: u32, fail_at: u32)
    requires
        v.core_total > 0,
        v.projectile_dead,
    ensures
        vfx_tier(v, warn_at, fail_at) is Some,
{
}

/// An effect counts only if it is the projectile of an ability slot.
pub proof fn law_only_projectiles_count(name: Seq<char>, champion: Seq<char>, m: VfxMarkers)
    requires
        core_effect(name, champion, m),
    ensures
        projectile(after_last(ascii_lowered(name), '/')),
        ability_effect(after_last(ascii_lowered(name), '/')),
{
}

/// The name of an ability's effect has the slot behind the champion's and the skin's parts:
/// as a word of its own, or with a number behind it.
pub proof fn law_ability_slots_are_found(champ: Seq<char>, skin: Seq<char>, slot: Seq<char>, rest: Seq<char>)
    requires
        !champ.contains('_'),
        !skin.contains('_'),
        slot == "q"@ || slot == "w"@ || slot == "e"@ || slot == "r"@ || slot == "p"@ || slot == "ba"@ || slot == "passive"@ || slot
            == "basicattack"@,
        rest.len() == 0 || rest[0] == '_' || ('0' <= rest[0] && rest[0] <= '9'),
        ascii_lowered(champ + "_"@ + skin + "_"@ + slot + rest) == champ + "_"@ + skin + "_"@ + slot + rest,
    ensures
        ability_effect(champ + "_"@ + skin + "_"@ + slot + rest),
{
    reveal_strlit("_");
    let leaf_name = champ + "_"@ + skin + "_"@ + slot + rest;
    let n = champ.len() as int;
    lemma_mark(champ, skin + "_"@ + slot + rest);
    assert(leaf_name =~= champ + "_"@ + (skin + "_"@ + slot + rest));
    let after = leaf_name.skip(n + 1);
    assert(after =~= skin + "_"@ + (slot + rest));
    lemma_mark(skin, slot + rest);
    let m = skin.len() as int;
    assert(after.skip(m + 1) =~= slot + rest);
    let tail = ability_tail(leaf_name);
    assert(tail == "_"@ + (slot + rest));
    assert(tail[0] == '_');
    let s = tail.skip(1);
    assert(s =~= slot + rest);
    assert(s.subrange(0, slot.len() as int) =~= slot);
    assert(s.skip(slot.len() as int) =~= rest);
    assert(begins_with_slot(tail.skip(0int + 1)));
}

proof fn lemma_mark(a: Seq<char>, b: Seq<char>)
    requires
        !a.contains('_'),
    ensures
        position(a + "_"@ + b, "_"@) == Some(a.len() as int),
{
    reveal_strlit("_");
    let s = a + "_"@ + b;
    let n = a.len() as int;
    assert(s.subrange(n, n + 1) =~= "_"@);
    assert forall|j: int| 0 <= j < n implies !occurs_at(s, "_"@, j) by {
        if occurs_at(s, "_"@, j) {
            assert(s.subrange(j, j + 1)[0] == '_');
            assert(a.contains(a[j]));
        }
    }
    lemma_position(s, "_"@, n);
}

/// A missile of an ability counts as a core effect, in a path that names no other champion
/// and bears none of the marks of what does not count; a mark of a mode that is not played
/// or of a sound takes an effect out, and one of a pose or a helper makes it cosmetic.
pub proof fn law_effects_are_classified(name: Seq<char>, champion: Seq<char>, m: VfxMarkers)
    ensures
        ({
            let lower = ascii_lowered(name);
            let leaf = after_last(lower, '/');
            let k = kind_of(name, champion, m);
            &&& (exists|i: int| 0 <= i < m.legacy@.len() && holds(lower, (#[trigger] m.legacy@[i])@)) ==> k == Kind::Ignore
            &&& (exists|i: int| 0 <= i < m.audio@.len() && holds(lower, (#[trigger] m.audio@[i])@)) ==> k == Kind::Ignore
            &&& (exists|i: int| 0 <= i < m.cosmetic@.len() && holds(leaf, (#[trigger] m.cosmetic@[i])@)) ==> k != Kind::Core
            &&& (exists|i: int| 0 <= i < m.subhelper@.len() && holds(leaf, (#[trigger] m.subhelper@[i])@)) ==> k != Kind::Core
            &&& !holds(ascii_lowered(leaf), "_mis"@) ==> k != Kind::Core
            &&& !marked(lower, m.legacy@) && !marked(lower, m.audio@) && !of_another(lower, champion) && !marked(leaf, m.cosmetic@)
                && !marked(leaf, m.subhelper@) && ability_effect(leaf) && holds(ascii_lowered(leaf), "_mis"@) ==> k == Kind::Core
        }),
{
}

/// An effect in another champion's folder is not the mod's.
pub proof fn law_effects_of_others_are_ignored(prefix: Seq<char>, owner: Seq<char>, rest: Seq<char>, champion: Seq<char>, m: VfxMarkers)
    requires
        position(ascii_lowered(prefix + "characters/"@ + owner + "/"@ + rest), "characters/"@) == Some(prefix.len() as int),
        ascii_lowered(prefix + "characters/"@ + owner + "/"@ + rest) == prefix + "characters/"@ + owner + "/"@ + rest,
        !owner.contains('/'),
        owner.len() > 0,
        owner != champion,
    ensures
        kind_of(prefix + "characters/"@ + owner + "/"@ + rest, champion, m) == Kind::Ignore,
{
    reveal_strlit("/");
    let path = prefix + "characters/"@ + owner + "/"@ + rest;
    let below = path.skip((prefix.len() + "characters/"@.len()) as int);
    assert(below =~= owner + seq!['/'] + rest);
    lemma_pieces_head(owner, rest, '/');
}

/// The names that count are those of the core effects among the particles, in lower case,
/// and the dead ones among them are those that are defined nowhere.
pub proof fn law_core_names_are_those_of_core_effects<S: NameSet>(
    refs: Seq<Seq<char>>,
    champion: Seq<char>,
    m: VfxMarkers,
    defined: S,
    n: Seq<char>,
)
    ensures
        core_names(refs, champion, m).contains(n) <==> exists|i: int|
            0 <= i < refs.len() && ascii_lowered(#[trigger] refs[i]) == n && holds(n, "/particles/"@) && kind_of(refs[i], champion, m)
                == Kind::Core,
        dead_names(refs, champion, m, defined).contains(n) <==> exists|i: int|
            0 <= i < refs.len() && ascii_lowered(#[trigger] refs[i]) == n && holds(n, "/particles/"@) && kind_of(refs[i], champion, m)
                == Kind::Core && !defined.holds(refs[i]),
    decreases refs.len(),
{
    if refs.len() > 0 {
        let head = refs.drop_last();
        law_core_names_are_those_of_core_effects(head, champion, m, defined, n);
        lemma_push_contains(core_names(head, champion, m), ascii_lowered(refs.last()), n);
        lemma_push_contains(dead_names(head, champion, m, defined), ascii_lowered(refs.last()), n);
        assert(refs[refs.len() - 1] == refs.last());
        assert(forall|i: int| 0 <= i < head.len() ==> #[trigger] head[i] == refs[i]);
        assert(forall|i: int| 0 <= i < head.len() ==> head[i] == #[trigger] refs[i]);
    }
}

/// Where an ability's effects are counted, the check fails from its level on and warns from
/// the lower one on.
pub proof fn law_dead_effects_fail_or_warn(v: VfxVerdict, warn_at: u32, fail_at: u32)
    ensures
        v.core_total == 0 ==> vfx_tier(v, warn_at, fail_at) is None,
        v.core_total > 0 && v.core_dead * 1_000_000 >= v.core_total * fail_at ==> vfx_tier(v, warn_at, fail_at) == Some(RatioTier::Fail),
        v.core_total > 0 && v.core_dead * 1_000_000 < v.core_total * fail_at && v.core_dead * 1_000_000 >= v.core_total * warn_at
            ==> vfx_tier(v, warn_at, fail_at) == Some(RatioTier::Warn),
        v.core_dead * 1_000_000 < v.core_total * fail_at && v.core_dead * 1_000_000 < v.core_total * warn_at && !v.projectile_dead
            ==> vfx_tier(v, warn_at, fail_at) is None,
{
}

/// A verdict is reported with the reason of its tier, and one of no tier not at all.
pub proof fn law_dead_effects_are_reported(cfg: VfxRatioConfig, catalog: ReasonCatalog, v: VfxVerdict)
    ensures
        v.core_total == 0 ==> vfx_finding(cfg, catalog, v) is None,
        v.core_total > 0 && v.core_dead * 1_000_000 >= v.core_total * cfg.fail_at && cfg.fail_reason is Some ==> vfx_finding(
            cfg,
            catalog,
            v,
        ) is Some && vfx_finding(cfg, catalog, v)->0.reason == cfg.fail_reason->0@,
        v.core_total > 0 && v.core_dead * 1_000_000 < v.core_total * cfg.fail_at && v.projectile_dead && cfg.warn_reason is Some
            ==> vfx_finding(cfg, catalog, v) is Some && vfx_finding(cfg, catalog, v)->0.reason == cfg.warn_reason->0@,
{
}

} // verus!
