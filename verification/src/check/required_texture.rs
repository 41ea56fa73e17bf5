//! Textures that a render pass binds without checking: a missing one stops the map from
//! loading. They are told by the field that holds the path, and exist in map data only.

use vstd::prelude::*;
use vstd::string::*;
use crate::bin::{objects, BinTree};
use crate::config::RequiredTextureConfig;
use crate::diagnostic::{finding, findings, Diagnostic, Finding, ReasonCatalog};
use crate::strings::{fnv1a_hash, name_hash};
use crate::text::{
    after_last, ascii_lowered, begins, contains, ends, ends_with, holds, is_listed, lemma_listed, lemma_push_contains, lemma_take_next, replace_char,
    starts_with, swapped, tail_after, texts, to_ascii_lower,
};
use crate::traits::NameSet;
use crate::walk::{field_texts, string_fields, string_fields_in_objects};

verus! {

/// A field whose texture a render pass binds without a fallback.
#[derive(Debug)]
pub struct RequiredTextureField {
    /// FNV-1a of the lowercased field name.
    pub field_hash: u32,
    pub reason: String,
}

/// The hashes and reasons of a list of fields.
pub open spec fn required_view(v: Seq<RequiredTextureField>) -> Seq<(u32, Seq<char>)> {
    v.map_values(|f: RequiredTextureField| (f.field_hash, f.reason@))
}

/// The fields that a configuration asks for: those enabled and with a reason.
pub open spec fn required_of(entries: Seq<RequiredTextureConfig>) -> Seq<(u32, Seq<char>)>
    decreases entries.len(),
{
    if entries.len() == 0 {
        Seq::empty()
    } else {
        let before = required_of(entries.drop_last());
        let e = entries.last();
        match e.reason {
            Some(r) => if e.enabled {
                before.push((name_hash(ascii_lowered(e.field@)), r@))
            } else {
                before
            },
            None => before,
        }
    }
}

impl RequiredTextureField {
    /// Build the runtime list from config, hashing each field name.
    pub fn from_config(entries: &Vec<RequiredTextureConfig>) -> (r: Vec<RequiredTextureField>)
        ensures
            required_view(r@) == required_of(entries@),
    {
        let mut out: Vec<RequiredTextureField> = Vec::new();
        let mut i: usize = 0;
        assert(required_view(out@) =~= required_of(entries@.take(0)));
        while i < entries.len()
            invariant
                i <= entries@.len(),
                required_view(out@) == required_of(entries@.take(i as int)),
            decreases entries@.len() - i,
        {
            proof {
                lemma_take_next(entries@, i as int);
            }
            let e = &entries[i];
            if e.enabled {
                if let Some(reason) = &e.reason {
                    let lower = to_ascii_lower(e.field.as_str());
                    let ghost o = out@;
                    let f = RequiredTextureField { field_hash: fnv1a_hash(lower.as_str()), reason: reason.clone() };
                    out.push(f);
                    assert(required_view(out@) =~= required_view(o).push((f.field_hash, f.reason@)));
                }
            }
            i = i + 1;
        }
        assert(entries@.take(i as int) =~= entries@);
        out
    }
}

/// The path is map content.
pub open spec fn map_path(path: Seq<char>) -> bool {
    let lower = swapped(ascii_lowered(path), '\\', '/');
    holds(lower, "/maps/"@) || begins(lower, "maps/"@)
}

/// Whether this mod is a map mod: one of its files is map content.
pub fn is_map_mod(paths: &Vec<String>) -> (r: bool)
    ensures
        r == exists|i: int| 0 <= i < paths@.len() && map_path((#[trigger] paths@[i])@),
{
    let mut i: usize = 0;
    while i < paths.len()
        invariant
            i <= paths@.len(),
            forall|j: int| 0 <= j < i ==> !map_path((#[trigger] paths@[j])@),
        decreases paths@.len() - i,
    {
        let a = to_ascii_lower(paths[i].as_str());
        let lower = replace_char(a.as_str(), '\\', '/');
        if contains(lower.as_str(), "/maps/") || starts_with(lower.as_str(), "maps/") {
            assert(map_path(paths@[i as int]@));
            return true;
        }
        i = i + 1;
    }
    false
}

/// The value is the path of a texture.
pub open spec fn texture_value(value: Seq<char>) -> bool {
    let lower = ascii_lowered(value);
    ends(lower, ".dds"@) || ends(lower, ".tex"@)
}

/// Whether a value is a texture path worth resolving.
pub fn is_texture_path(value: &str) -> (r: bool)
    ensures
        r == texture_value(value@),
{
    let lower = to_ascii_lower(value);
    ends_with(lower.as_str(), ".dds") || ends_with(lower.as_str(), ".tex")
}

/// `i` is the first field with this hash.
pub open spec fn first_field(fs: Seq<(u32, Seq<char>)>, hash: u32, i: int) -> bool {
    0 <= i < fs.len() && fs[i].0 == hash && forall|j: int| 0 <= j < i ==> (#[trigger] fs[j]).0 != hash
}

/// The reason of the first field with this hash.
pub open spec fn field_reason(fs: Seq<(u32, Seq<char>)>, hash: u32) -> Option<Seq<char>> {
    if exists|i: int| first_field(fs, hash, i) {
        Some(fs[choose|i: int| first_field(fs, hash, i)].1)
    } else {
        None
    }
}

fn find_field<'a>(fields: &'a Vec<RequiredTextureField>, hash: u32) -> (r: Option<&'a RequiredTextureField>)
    ensures
        r is Some <==> field_reason(required_view(fields@), hash) is Some,
        r matches Some(f) ==> field_reason(required_view(fields@), hash) == Some(f.reason@),
{
    let ghost fs = required_view(fields@);
    let mut i: usize = 0;
    while i < fields.len()
        invariant
            fs == required_view(fields@),
            i <= fields@.len(),
            forall|j: int| 0 <= j < i ==> (#[trigger] fs[j]).0 != hash,
        decreases fields@.len() - i,
    {
        assert(fs[i as int].0 == fields@[i as int].field_hash);
        if fields[i].field_hash == hash {
            assert(first_field(fs, hash, i as int));
            let ghost k = choose|k: int| first_field(fs, hash, k);
            assert(first_field(fs, hash, k));
            assert(k == i) by {
                if k < i {
                    assert(fs[k].0 != hash);
                }
                if k > i {
                    assert(fs[i as int].0 != hash);
                }
            }
            return Some(&fields[i]);
        }
        i = i + 1;
    }
    assert(forall|k: int| !first_field(fs, hash, k));
    None
}

/// The texture paths among `ss` that are stored under a required field.
pub open spec fn required_paths(ss: Seq<(u32, Seq<char>)>, fs: Seq<(u32, Seq<char>)>) -> Seq<(Seq<char>, u32)>
    decreases ss.len(),
{
    if ss.len() == 0 {
        Seq::empty()
    } else {
        let before = required_paths(ss.drop_last(), fs);
        let (hash, value) = ss.last();
        if field_reason(fs, hash) is Some && texture_value(value) {
            before.push((value, hash))
        } else {
            before
        }
    }
}

/// The contents of a list of paths with their fields.
pub open spec fn path_fields(v: Seq<(&str, u32)>) -> Seq<(Seq<char>, u32)> {
    v.map_values(|e: (&str, u32)| (e.0@, e.1))
}

/// Every required texture path that a BIN names, with its field.
pub fn collect<'a>(tree: &'a BinTree, fields: &Vec<RequiredTextureField>) -> (r: Vec<(&'a str, u32)>)
    ensures
        path_fields(r@) == required_paths(string_fields_in_objects(objects(tree.objects)), required_view(fields@)),
{
    let ghost fs = required_view(fields@);
    let found = string_fields(tree);
    let ghost ss = field_texts(found@);
    let mut out: Vec<(&'a str, u32)> = Vec::new();
    let mut i: usize = 0;
    assert(path_fields(out@) =~= required_paths(ss.take(0), fs));
    while i < found.len()
        invariant
            fs == required_view(fields@),
            ss == field_texts(found@),
            i <= found@.len(),
            path_fields(out@) == required_paths(ss.take(i as int), fs),
        decreases found@.len() - i,
    {
        proof {
            lemma_take_next(ss, i as int);
        }
        let (hash, value) = found[i];
        assert(ss[i as int] == (hash, value@));
        if find_field(fields, hash).is_some() && is_texture_path(value) {
            let ghost o = out@;
            out.push((value, hash));
            assert(path_fields(out@) =~= path_fields(o).push((value@, hash)));
        }
        i = i + 1;
    }
    assert(ss.take(i as int) =~= ss);
    out
}

/// What has been seen and found so far.
pub struct RequiredState {
    pub seen: Seq<Seq<char>>,
    pub found: Seq<Finding>,
}

/// The part of a path behind its last separator of either kind.
pub open spec fn leaf(path: Seq<char>) -> Seq<char> {
    after_last(after_last(path, '/'), '\\')
}

/// The step for one path: the first time that it comes up, in any case, it is reported
/// if it resolves nowhere.
pub open spec fn required_step<S: NameSet>(
    st: RequiredState,
    e: (Seq<char>, u32),
    fs: Seq<(u32, Seq<char>)>,
    catalog: ReasonCatalog,
    resolves: S,
) -> RequiredState {
    let lower = ascii_lowered(e.0);
    if st.seen.contains(lower) {
        st
    } else {
        RequiredState {
            seen: st.seen.push(lower),
            found: match field_reason(fs, e.1) {
                Some(r) => if resolves.holds(e.0) {
                    st.found
                } else {
                    st.found.push(
                        Finding { detail: Some(leaf(e.0)), ..finding(catalog, r, "required_texture"@) },
                    )
                },
                None => st.found,
            },
        }
    }
}

/// The steps for the paths of one BIN.
pub open spec fn required_steps<S: NameSet>(
    st: RequiredState,
    es: Seq<(Seq<char>, u32)>,
    fs: Seq<(u32, Seq<char>)>,
    catalog: ReasonCatalog,
    resolves: S,
) -> RequiredState
    decreases es.len(),
{
    if es.len() == 0 {
        st
    } else {
        required_step(required_steps(st, es.drop_last(), fs, catalog, resolves), es.last(), fs, catalog, resolves)
    }
}

/// The steps for the BINs in order.
pub open spec fn required_run<S: NameSet>(
    bins: Seq<BinTree>,
    fs: Seq<(u32, Seq<char>)>,
    catalog: ReasonCatalog,
    resolves: S,
) -> RequiredState
    decreases bins.len(),
{
    if bins.len() == 0 {
        RequiredState { seen: Seq::empty(), found: Seq::empty() }
    } else {
        required_steps(
            required_run(bins.drop_last(), fs, catalog, resolves),
            required_paths(string_fields_in_objects(objects(bins.last().objects)), fs),
            fs,
            catalog,
            resolves,
        )
    }
}

/// Report every required texture that resolves nowhere, each once.
pub fn run<S: NameSet>(
    fields: &Vec<RequiredTextureField>,
    catalog: &ReasonCatalog,
    bins: &Vec<BinTree>,
    resolves: &S,
) -> (r: Vec<Diagnostic>)
    ensures
        findings(r@) == required_run(bins@, required_view(fields@), *catalog, *resolves).found,
{
    let ghost fs = required_view(fields@);
    let mut seen: Vec<String> = Vec::new();
    let mut out: Vec<Diagnostic> = Vec::new();
    let mut b: usize = 0;
    assert(texts(seen@) =~= Seq::empty());
    assert(findings(out@) =~= Seq::empty());
    while b < bins.len()
        invariant
            fs == required_view(fields@),
            b <= bins@.len(),
            required_run(bins@.take(b as int), fs, *catalog, *resolves) == (RequiredState {
                seen: texts(seen@),
                found: findings(out@),
            }),
        decreases bins@.len() - b,
    {
        proof {
            lemma_take_next(bins@, b as int);
        }
        let ghost st = RequiredState { seen: texts(seen@), found: findings(out@) };
        let found = collect(&bins[b], fields);
        let ghost es = path_fields(found@);
        let mut i: usize = 0;
        while i < found.len()
            invariant
                fs == required_view(fields@),
                es == path_fields(found@),
                i <= found@.len(),
                required_steps(st, es.take(i as int), fs, *catalog, *resolves) == (RequiredState {
                    seen: texts(seen@),
                    found: findings(out@),
                }),
            decreases found@.len() - i,
        {
            proof {
                lemma_take_next(es, i as int);
            }
            let (path, hash) = found[i];
            assert(es[i as int] == (path@, hash));
            let lower = to_ascii_lower(path);
            proof {
                lemma_listed(seen@, lower@);
            }
            if !is_listed(&seen, lower.as_str()) {
                let ghost s0 = seen@;
                seen.push(lower);
                assert(texts(seen@) =~= texts(s0).push(ascii_lowered(path@)));
                if !resolves.contains(path) {
                    if let Some(field) = find_field(fields, hash) {
                        let a = tail_after(path, '/');
                        let name = tail_after(a.as_str(), '\\');
                        let d = Diagnostic::new(catalog, field.reason.as_str(), "required_texture").with_detail(
                            name.as_str(),
                        );
                        let ghost o = out@;
                        out.push(d);
                        assert(findings(out@) =~= findings(o).push(d@));
                    }
                }
            }
            i = i + 1;
        }
        assert(es.take(i as int) =~= es);
        b = b + 1;
    }
    assert(bins@.take(b as int) =~= bins@);
    out
}

/// The fields that must have a texture are those of the enabled entries with a reason.
pub proof fn law_required_fields_are_the_enabled_ones(entries: Seq<RequiredTextureConfig>, hash: u32, reason: Seq<char>)
    ensures
        required_of(entries).contains((hash, reason)) <==> exists|i: int|
            0 <= i < entries.len() && (#[trigger] entries[i]).enabled && entries[i].reason is Some && entries[i].reason->0@ == reason
                && name_hash(ascii_lowered(entries[i].field@)) == hash,
    decreases entries.len(),
{
    if entries.len() > 0 {
        let head = entries.drop_last();
        law_required_fields_are_the_enabled_ones(head, hash, reason);
        let e = entries.last();
        assert(entries[entries.len() - 1] == e);
        if let Some(r) = e.reason {
            lemma_push_contains(required_of(head), (name_hash(ascii_lowered(e.field@)), r@), (hash, reason));
        }
        if exists|i: int|
            0 <= i < entries.len() && (#[trigger] entries[i]).enabled && entries[i].reason is Some && entries[i].reason->0@ == reason
                && name_hash(ascii_lowered(entries[i].field@)) == hash {
            let i = choose|i: int|
                0 <= i < entries.len() && (#[trigger] entries[i]).enabled && entries[i].reason is Some && entries[i].reason->0@ == reason
                    && name_hash(ascii_lowered(entries[i].field@)) == hash;
            if i < head.len() {
                assert(head[i] == entries[i]);
            }
        }
    }
}

/// The paths that are looked up are the texture paths in those fields.
pub proof fn law_required_paths_are_textures(ss: Seq<(u32, Seq<char>)>, fs: Seq<(u32, Seq<char>)>, value: Seq<char>, hash: u32)
    ensures
        required_paths(ss, fs).contains((value, hash)) <==> ss.contains((hash, value)) && (exists|i: int|
            0 <= i < fs.len() && (#[trigger] fs[i]).0 == hash) && (ends(ascii_lowered(value), ".dds"@) || ends(
            ascii_lowered(value),
            ".tex"@,
        )),
    decreases ss.len(),
{
    lemma_field_reason(fs, hash);
    if ss.len() > 0 {
        let head = ss.drop_last();
        law_required_paths_are_textures(head, fs, value, hash);
        assert(head.push(ss.last()) =~= ss);
        lemma_push_contains(head, ss.last(), (hash, value));
        lemma_push_contains(required_paths(head, fs), (ss.last().1, ss.last().0), (value, hash));
        lemma_field_reason(fs, ss.last().0);
    }
}

proof fn lemma_field_reason(fs: Seq<(u32, Seq<char>)>, hash: u32)
    ensures
        field_reason(fs, hash) is Some <==> exists|i: int| 0 <= i < fs.len() && (#[trigger] fs[i]).0 == hash,
        field_reason(fs, hash) matches Some(r) ==> fs.contains((hash, r)),
{
    if exists|i: int| 0 <= i < fs.len() && (#[trigger] fs[i]).0 == hash {
        let i = choose|i: int| 0 <= i < fs.len() && (#[trigger] fs[i]).0 == hash;
        lemma_first_field(fs, hash, i);
    }
    if exists|i: int| first_field(fs, hash, i) {
        let k = choose|i: int| first_field(fs, hash, i);
        assert(fs[k] == (hash, fs[k].1));
    }
}

proof fn lemma_first_field(fs: Seq<(u32, Seq<char>)>, hash: u32, i: int)
    requires
        0 <= i < fs.len(),
        fs[i].0 == hash,
    ensures
        exists|k: int| first_field(fs, hash, k),
    decreases i,
{
    if exists|j: int| 0 <= j < i && (#[trigger] fs[j]).0 == hash {
        let j = choose|j: int| 0 <= j < i && (#[trigger] fs[j]).0 == hash;
        lemma_first_field(fs, hash, j);
    } else {
        assert(first_field(fs, hash, i));
    }
}

/// A finding for this reason is among the findings.
pub open spec fn reported_for(found: Seq<Finding>, reason: Seq<char>, detail: Seq<char>) -> bool {
    exists|n: int| 0 <= n < found.len() && (#[trigger] found[n]).reason == reason && found[n].detail == Some(detail)
}

/// A texture that is needed and that is nowhere to be found is reported, with the reason of
/// its field and the name of its file.
pub proof fn law_absent_required_textures_are_reported<S: NameSet>(
    st: RequiredState,
    es: Seq<(Seq<char>, u32)>,
    fs: Seq<(u32, Seq<char>)>,
    catalog: ReasonCatalog,
    resolves: S,
    k: int,
    reason: Seq<char>,
)
    requires
        0 <= k < es.len(),
        !st.seen.contains(ascii_lowered(es[k].0)),
        forall|j: int| 0 <= j < k ==> ascii_lowered((#[trigger] es[j]).0) != ascii_lowered(es[k].0),
        field_reason(fs, es[k].1) == Some(reason),
        !resolves.holds(es[k].0),
    ensures
        reported_for(required_steps(st, es, fs, catalog, resolves).found, reason, leaf(es[k].0)),
    decreases es.len(),
{
    let head = es.drop_last();
    let before = required_steps(st, head, fs, catalog, resolves);
    let now = required_steps(st, es, fs, catalog, resolves);
    if k < head.len() {
        assert(forall|j: int| 0 <= j < head.len() ==> #[trigger] head[j] == es[j]);
        assert(head[k] == es[k]);
        law_absent_required_textures_are_reported(st, head, fs, catalog, resolves, k, reason);
        let n = choose|n: int|
            0 <= n < before.found.len() && (#[trigger] before.found[n]).reason == reason && before.found[n].detail == Some(leaf(es[k].0));
        assert(now.found[n] == before.found[n]);
    } else {
        lemma_seen(st, head, fs, catalog, resolves, ascii_lowered(es[k].0));
        if before.seen.contains(ascii_lowered(es[k].0)) {
            let j = choose|j: int| 0 <= j < head.len() && ascii_lowered((#[trigger] head[j]).0) == ascii_lowered(es[k].0);
            assert(head[j] == es[j]);
        }
        assert(now.found[before.found.len() as int].reason == reason);
    }
}

proof fn lemma_seen<S: NameSet>(
    st: RequiredState,
    es: Seq<(Seq<char>, u32)>,
    fs: Seq<(u32, Seq<char>)>,
    catalog: ReasonCatalog,
    resolves: S,
    p: Seq<char>,
)
    ensures
        required_steps(st, es, fs, catalog, resolves).seen.contains(p) ==> st.seen.contains(p) || exists|j: int|
            0 <= j < es.len() && ascii_lowered((#[trigger] es[j]).0) == p,
    decreases es.len(),
{
    if es.len() > 0 {
        let head = es.drop_last();
        let before = required_steps(st, head, fs, catalog, resolves);
        lemma_seen(st, head, fs, catalog, resolves, p);
        lemma_push_contains(before.seen, ascii_lowered(es.last().0), p);
        assert(es[es.len() - 1] == es.last());
        if exists|j: int| 0 <= j < head.len() && ascii_lowered((#[trigger] head[j]).0) == p {
            let j = choose|j: int| 0 <= j < head.len() && ascii_lowered((#[trigger] head[j]).0) == p;
            assert(ascii_lowered(es[j].0) == p);
        }
    }
}

/// Where every needed texture is found nothing is reported.
pub proof fn law_found_textures_are_not_reported<S: NameSet>(
    st: RequiredState,
    es: Seq<(Seq<char>, u32)>,
    fs: Seq<(u32, Seq<char>)>,
    catalog: ReasonCatalog,
    resolves: S,
)
    requires
        forall|j: int| 0 <= j < es.len() ==> resolves.holds((#[trigger] es[j]).0),
    ensures
        required_steps(st, es, fs, catalog, resolves).found == st.found,
    decreases es.len(),
{
    if es.len() > 0 {
        let head = es.drop_last();
        assert(forall|j: int| 0 <= j < head.len() ==> #[trigger] head[j] == es[j]);
        law_found_textures_are_not_reported(st, head, fs, catalog, resolves);
        assert(resolves.holds(es[es.len() - 1].0));
    }
}

} // verus!
