//! Animation clips that are dead on paper but never load: those that a mesh particle
//! plays on its own mesh, and those reached only through an animation graph that
//! nothing links.

use vstd::prelude::*;
use vstd::string::*;
use crate::bin::{
    field_keys, fields, lemma_field_keys, lemma_no_slot, object, objects, slot, val, vals, BinProperty, BinTree, Field, Object, OrderedMap,
    PropertyValue, Val,
};
use crate::detect::rules::{contains_hash, list_items};
use crate::links::{links_in_fields, links_of_properties, structs_in_fields, structs_of_properties, tables_of, Tables};
use crate::text::{
    ascii_lowered, ends, ends_with, is_listed, lemma_listed, lemma_take_next, replace_char, same, swapped, texts, to_ascii_lower,
};
use crate::walk::{properties_strings, str_texts, string_refs, strings_in_fields, strings_in_objects};

verus! {

/// `AnimationGraphData`. A skin loads only the graph it links.
pub const ANIMATION_GRAPH_DATA: u32 = 0xf5fb_07c7;

/// `VfxMeshDefinitionData`. Holds a mesh, its skeleton, and the animation to play on it.
pub const VFX_MESH_DEFINITION_DATA: u32 = 0x6a88_780b;

/// `mMeshName`, the `.skn`.
pub const FIELD_MESH_NAME: u32 = 0x8c41_a32e;

/// `mMeshSkeletonName`, the `.skl`.
pub const FIELD_MESH_SKELETON: u32 = 0x9059_5a15;

/// `mAnimationName`, a single `.anm`.
pub const FIELD_ANIMATION_NAME: u32 = 0xfbd1_6fb5;

/// `mAnimationVariants`, a list of `.anm`.
pub const FIELD_ANIMATION_VARIANTS: u32 = 0x147f_071c;

/// `mAnimationNames`, a list of `.anm`.
pub const FIELD_ANIMATION_NAMES: u32 = 0x30b2_f4b2;

/// The form in which animation paths are compared.
pub open spec fn clip_form(path: Seq<char>) -> Seq<char> {
    swapped(ascii_lowered(path), '\\', '/')
}

/// Compare form for an animation path: lowercased, forward slashes.
pub fn normalize(path: &str) -> (r: String)
    ensures
        r@ == clip_form(path@),
{
    let lower = to_ascii_lower(path);
    replace_char(lower.as_str(), '\\', '/')
}

/// The text is the path of an animation clip.
pub open spec fn anm(s: Seq<char>) -> bool {
    ends(ascii_lowered(s), ".anm"@)
}

fn is_anm(value: &str) -> (r: bool)
    ensures
        r == anm(value@),
{
    let lower = to_ascii_lower(value);
    ends_with(lower.as_str(), ".anm")
}

/// The text filed under a key, where it is one.
pub open spec fn text_under(fs: Seq<Field>, key: u32) -> Option<Seq<char>> {
    match slot(field_keys(fs), key) {
        Some(k) => match fs[k].value {
            Val::Text(s) => Some(s),
            _ => None,
        },
        None => None,
    }
}

/// A text with this extension is filed under a key.
pub open spec fn has_extension(fs: Seq<Field>, key: u32, ext: Seq<char>) -> bool {
    match text_under(fs, key) {
        Some(s) => ends(ascii_lowered(s), ext),
        None => false,
    }
}

/// A list of texts under a key holds the clip.
pub open spec fn list_names(fs: Seq<Field>, key: u32, clip: Seq<char>) -> bool {
    match slot(field_keys(fs), key) {
        Some(k) => match list_items(fs[k].value) {
            Some(items) => exists|i: int| 0 <= i < items.len() && is_clip(#[trigger] items[i], clip),
            None => false,
        },
        None => false,
    }
}

/// The value is the path of the clip.
pub open spec fn is_clip(v: Val, clip: Seq<char>) -> bool {
    match v {
        Val::Text(s) => anm(s) && clip_form(s) == clip,
        _ => false,
    }
}

/// A mesh definition that names both a mesh and a skeleton plays the clip.
pub open spec fn mesh_plays(fs: Seq<Field>, clip: Seq<char>) -> bool {
    &&& has_extension(fs, FIELD_MESH_NAME, ".skn"@)
    &&& has_extension(fs, FIELD_MESH_SKELETON, ".skl"@)
    &&& (match text_under(fs, FIELD_ANIMATION_NAME) {
        Some(s) => anm(s) && clip_form(s) == clip,
        None => false,
    }) || list_names(fs, FIELD_ANIMATION_VARIANTS, clip) || list_names(fs, FIELD_ANIMATION_NAMES, clip)
}

/// The mesh definitions in an entry: itself, where it is one, and those nested in it.
pub open spec fn mesh_definitions(o: Object) -> Seq<Seq<Field>> {
    (if o.class == VFX_MESH_DEFINITION_DATA {
        seq![o.fields]
    } else {
        Seq::empty()
    }) + structs_in_fields(VFX_MESH_DEFINITION_DATA, o.fields)
}

/// Some mesh definition of the list plays the clip.
pub open spec fn some_mesh_plays(defs: Seq<Seq<Field>>, clip: Seq<char>) -> bool {
    exists|i: int| 0 <= i < defs.len() && mesh_plays(#[trigger] defs[i], clip)
}

/// Some mesh particle of the file plays the clip on its own mesh.
pub open spec fn mesh_clip(os: Seq<Object>, clip: Seq<char>) -> bool {
    exists|i: int| 0 <= i < os.len() && some_mesh_plays(mesh_definitions(#[trigger] os[i]), clip)
}

fn text_at(props: &OrderedMap<BinProperty>, key: u32) -> (r: Option<&String>)
    ensures
        r is Some <==> text_under(fields(*props), key) is Some,
        r matches Some(s) ==> text_under(fields(*props), key) == Some(s@),
{
    proof {
        lemma_field_keys(*props);
    }
    match props.find(key) {
        Some(k) => match &props.entries[k].1.value {
            PropertyValue::String(s) => Some(s),
            _ => None,
        },
        None => None,
    }
}

fn has_ext(props: &OrderedMap<BinProperty>, key: u32, ext: &str) -> (r: bool)
    ensures
        r == has_extension(fields(*props), key, ext@),
{
    match text_at(props, key) {
        Some(s) => {
            let lower = to_ascii_lower(s.as_str());
            ends_with(lower.as_str(), ext)
        },
        None => false,
    }
}

fn names_in_list(props: &OrderedMap<BinProperty>, key: u32, clip: &str) -> (r: bool)
    ensures
        r == list_names(fields(*props), key, clip@),
{
    proof {
        lemma_field_keys(*props);
    }
    let k = match props.find(key) {
        Some(k) => k,
        None => {
            return false;
        },
    };
    let items = match &props.entries[k].1.value {
        PropertyValue::Container(items) => items,
        PropertyValue::UnorderedContainer(items) => items,
        _ => {
            return false;
        },
    };
    let ghost models = vals(*items);
    assert(list_items(fields(*props)[k as int].value) == Some(models));
    let mut i: usize = 0;
    while i < items.len()
        invariant
            models == vals(*items),
            i <= items@.len(),
            forall|j: int| 0 <= j < i ==> !is_clip(#[trigger] models[j], clip@),
            list_names(fields(*props), key, clip@) == exists|j: int|
                0 <= j < models.len() && is_clip(#[trigger] models[j], clip@),
        decreases items@.len() - i,
    {
        assert(models[i as int] == val(items@[i as int]));
        if let PropertyValue::String(s) = &items[i] {
            if is_anm(s.as_str()) {
                let form = normalize(s.as_str());
                if same(form.as_str(), clip) {
                    assert(is_clip(models[i as int], clip@));
                    return true;
                }
            }
        }
        i = i + 1;
    }
    false
}

fn plays_on_mesh(props: &OrderedMap<BinProperty>, clip: &str) -> (r: bool)
    ensures
        r == mesh_plays(fields(*props), clip@),
{
    if !has_ext(props, FIELD_MESH_NAME, ".skn") || !has_ext(props, FIELD_MESH_SKELETON, ".skl") {
        return false;
    }
    if let Some(s) = text_at(props, FIELD_ANIMATION_NAME) {
        if is_anm(s.as_str()) {
            let form = normalize(s.as_str());
            if same(form.as_str(), clip) {
                return true;
            }
        }
    }
    names_in_list(props, FIELD_ANIMATION_VARIANTS, clip) || names_in_list(props, FIELD_ANIMATION_NAMES, clip)
}

/// Whether some mesh particle plays the clip (in compare form) on its own mesh.
pub fn is_mesh_animation(tree: &BinTree, clip: &str) -> (r: bool)
    ensures
        r == mesh_clip(objects(tree.objects), clip@),
{
    let ghost os = objects(tree.objects);
    let mut i: usize = 0;
    while i < tree.objects.entries.len()
        invariant
            os == objects(tree.objects),
            i <= tree.objects.entries@.len(),
            forall|j: int| 0 <= j < i ==> !some_mesh_plays(mesh_definitions(#[trigger] os[j]), clip@),
        decreases tree.objects.entries@.len() - i,
    {
        let o = &tree.objects.entries[i].1;
        let ghost this = os[i as int];
        assert(this == object(tree.objects.entries@[i as int].0, *o));
        let ghost defs = mesh_definitions(this);
        let ghost inner = structs_in_fields(VFX_MESH_DEFINITION_DATA, this.fields);
        let ghost skip: int = if this.class == VFX_MESH_DEFINITION_DATA { 1 } else { 0 };
        assert(forall|j: int| 0 <= j < inner.len() ==> defs[j + skip] == inner[j]);
        if o.class_hash.0 == VFX_MESH_DEFINITION_DATA {
            assert(defs[0] == this.fields);
            if plays_on_mesh(&o.properties, clip) {
                assert(some_mesh_plays(mesh_definitions(os[i as int]), clip@));
                return true;
            }
        }
        let found = structs_of_properties(VFX_MESH_DEFINITION_DATA, &o.properties);
        let mut k: usize = 0;
        while k < found.len()
            invariant
                os == objects(tree.objects),
                i < os.len(),
                this == os[i as int],
                defs == mesh_definitions(this),
                inner == tables_of(found@),
                inner.len() + skip == defs.len(),
                0 <= skip,
                forall|j: int| 0 <= j < inner.len() ==> defs[j + skip] == inner[j],
                k <= found@.len(),
                forall|j: int| 0 <= j < k ==> !mesh_plays(#[trigger] inner[j], clip@),
            decreases found@.len() - k,
        {
            assert(inner[k as int] == fields(*found@[k as int]));
            if plays_on_mesh(found[k], clip) {
                assert(mesh_plays(defs[k + skip], clip@));
                assert(some_mesh_plays(mesh_definitions(os[i as int]), clip@));
                return true;
            }
            k = k + 1;
        }
        assert(!some_mesh_plays(defs, clip@)) by {
            if some_mesh_plays(defs, clip@) {
                let j = choose|j: int| 0 <= j < defs.len() && mesh_plays(#[trigger] defs[j], clip@);
                if j >= skip {
                    assert(inner[j - skip] == defs[j]);
                }
            }
        }
        i = i + 1;
    }
    false
}

/// `i` is the entry that stands for the graph of its path hash: the last one.
pub open spec fn is_graph(os: Seq<Object>, i: int) -> bool {
    0 <= i < os.len() && os[i].class == ANIMATION_GRAPH_DATA && forall|j: int|
        i < j < os.len() && (#[trigger] os[j]).class == ANIMATION_GRAPH_DATA ==> os[j].path != os[i].path
}

/// A property of the file links to this key.
pub open spec fn linked_in_file(os: Seq<Object>, key: u32) -> bool {
    exists|i: int| 0 <= i < os.len() && links_in_fields(Tables::Both, (#[trigger] os[i]).fields).contains(key)
}

/// The entry names the clip.
pub open spec fn names_clip(o: Object, clip: Seq<char>) -> bool {
    let ss = strings_in_fields(o.fields);
    exists|i: int| 0 <= i < ss.len() && anm(#[trigger] ss[i]) && clip_form(ss[i]) == clip
}

/// There are two graphs or more, and something links one of them: only then is it
/// known which graphs are live.
pub open spec fn graphs_decidable(os: Seq<Object>) -> bool {
    &&& exists|i: int, j: int| #[trigger] is_graph(os, i) && #[trigger] is_graph(os, j) && i != j
    &&& exists|i: int| #[trigger] is_graph(os, i) && linked_in_file(os, os[i].path)
}

/// The clip is named by a graph that nothing links, and by no graph that is linked.
pub open spec fn orphan_clip(os: Seq<Object>, clip: Seq<char>) -> bool {
    &&& graphs_decidable(os)
    &&& exists|i: int| #[trigger] is_graph(os, i) && !linked_in_file(os, os[i].path) && names_clip(os[i], clip)
    &&& forall|i: int| #[trigger] is_graph(os, i) && linked_in_file(os, os[i].path) ==> !names_clip(os[i], clip)
}

/// The clip never loads as the mod is used.
pub open spec fn never_loads(os: Seq<Object>, clip: Seq<char>) -> bool {
    mesh_clip(os, clip) || orphan_clip(os, clip)
}

fn is_graph_at(tree: &BinTree, i: usize) -> (r: bool)
    requires
        i < tree.objects.entries@.len(),
    ensures
        r == is_graph(objects(tree.objects), i as int),
{
    let ghost os = objects(tree.objects);
    assert(os[i as int] == object(tree.objects.entries@[i as int].0, tree.objects.entries@[i as int].1));
    if tree.objects.entries[i].1.class_hash.0 != ANIMATION_GRAPH_DATA {
        return false;
    }
    let path = tree.objects.entries[i].1.path_hash.0;
    let len = tree.objects.entries.len();
    let mut j: usize = i + 1;
    while j < tree.objects.entries.len()
        invariant
            os == objects(tree.objects),
            i < j <= tree.objects.entries@.len(),
            path == os[i as int].path,
            forall|k: int| i < k < j && (#[trigger] os[k]).class == ANIMATION_GRAPH_DATA ==> os[k].path != path,
        decreases tree.objects.entries@.len() - j,
    {
        let o = &tree.objects.entries[j].1;
        assert(os[j as int] == object(tree.objects.entries@[j as int].0, *o));
        if o.class_hash.0 == ANIMATION_GRAPH_DATA && o.path_hash.0 == path {
            return false;
        }
        j = j + 1;
    }
    true
}

fn is_linked(tree: &BinTree, key: u32) -> (r: bool)
    ensures
        r == linked_in_file(objects(tree.objects), key),
{
    let ghost os = objects(tree.objects);
    let mut i: usize = 0;
    while i < tree.objects.entries.len()
        invariant
            os == objects(tree.objects),
            i <= tree.objects.entries@.len(),
            forall|j: int| 0 <= j < i ==> !links_in_fields(Tables::Both, (#[trigger] os[j]).fields).contains(key),
        decreases tree.objects.entries@.len() - i,
    {
        let o = &tree.objects.entries[i].1;
        assert(os[i as int] == object(tree.objects.entries@[i as int].0, *o));
        let links = links_of_properties(Tables::Both, &o.properties);
        if contains_hash(&links, key) {
            return true;
        }
        i = i + 1;
    }
    false
}

fn entry_names_clip(props: &OrderedMap<BinProperty>, clip: &str) -> (r: bool)
    ensures
        forall|o: Object| o.fields == fields(*props) ==> r == #[trigger] names_clip(o, clip@),
{
    let refs = properties_strings(props);
    let ghost ss = strings_in_fields(fields(*props));
    let mut i: usize = 0;
    while i < refs.len()
        invariant
            ss == strings_in_fields(fields(*props)),
            ss == str_texts(refs@),
            i <= refs@.len(),
            forall|j: int| 0 <= j < i ==> !(anm(#[trigger] ss[j]) && clip_form(ss[j]) == clip@),
        decreases refs@.len() - i,
    {
        assert(ss[i as int] == refs@[i as int]@);
        if is_anm(refs[i]) {
            let form = normalize(refs[i]);
            if same(form.as_str(), clip) {
                assert(anm(ss[i as int]) && clip_form(ss[i as int]) == clip@);
                return true;
            }
        }
        i = i + 1;
    }
    false
}

/// `gs` lists the graphs of the file, each once, in order.
pub open spec fn lists_graphs(os: Seq<Object>, gs: Seq<usize>) -> bool {
    &&& forall|k: int| 0 <= k < gs.len() ==> is_graph(os, #[trigger] gs[k] as int)
    &&& forall|j: int| #[trigger] is_graph(os, j) ==> exists|k: int| 0 <= k < gs.len() && #[trigger] gs[k] as int == j
    &&& forall|a: int, b: int| 0 <= a < b < gs.len() ==> gs[a] < gs[b]
}

fn find_graphs(tree: &BinTree) -> (r: Vec<usize>)
    ensures
        lists_graphs(objects(tree.objects), r@),
{
    let ghost os = objects(tree.objects);
    let mut graphs: Vec<usize> = Vec::new();
    let mut i: usize = 0;
    while i < tree.objects.entries.len()
        invariant
            os == objects(tree.objects),
            i <= tree.objects.entries@.len(),
            forall|k: int| 0 <= k < graphs@.len() ==> is_graph(os, #[trigger] graphs@[k] as int) && graphs@[k] < i,
            forall|j: int| 0 <= j < i && #[trigger] is_graph(os, j) ==> exists|k: int|
                0 <= k < graphs@.len() && #[trigger] graphs@[k] as int == j,
            forall|a: int, b: int| 0 <= a < b < graphs@.len() ==> graphs@[a] < graphs@[b],
        decreases tree.objects.entries@.len() - i,
    {
        if is_graph_at(tree, i) {
            let ghost g = graphs@;
            graphs.push(i);
            assert forall|j: int| 0 <= j < i + 1 && #[trigger] is_graph(os, j) implies exists|k: int|
                0 <= k < graphs@.len() && #[trigger] graphs@[k] as int == j by {
                if j < i {
                    let k = choose|k: int| 0 <= k < g.len() && #[trigger] g[k] as int == j;
                    assert(graphs@[k] as int == j);
                } else {
                    assert(graphs@[graphs@.len() - 1] as int == j);
                }
            }
        }
        i = i + 1;
    }
    graphs
}

/// One of the first `n` graphs is linked.
pub open spec fn some_linked(os: Seq<Object>, gs: Seq<usize>, n: int) -> bool {
    exists|k: int| 0 <= k < n && linked_in_file(os, os[#[trigger] gs[k] as int].path)
}

/// One of the first `n` graphs names the clip, and is linked or not as said.
pub open spec fn some_names(os: Seq<Object>, gs: Seq<usize>, n: int, clip: Seq<char>, linked: bool) -> bool {
    exists|k: int|
        0 <= k < n && linked_in_file(os, os[#[trigger] gs[k] as int].path) == linked && names_clip(
            os[gs[k] as int],
            clip,
        )
}

proof fn lemma_orphan_by_list(os: Seq<Object>, gs: Seq<usize>, clip: Seq<char>)
    requires
        lists_graphs(os, gs),
    ensures
        orphan_clip(os, clip) <==> gs.len() >= 2 && some_linked(os, gs, gs.len() as int) && some_names(
            os,
            gs,
            gs.len() as int,
            clip,
            false,
        ) && !some_names(os, gs, gs.len() as int, clip, true),
{
    let n = gs.len() as int;
    if orphan_clip(os, clip) {
        let (a, b) = choose|a: int, b: int| #[trigger] is_graph(os, a) && #[trigger] is_graph(os, b) && a != b;
        let ka = choose|k: int| 0 <= k < gs.len() && #[trigger] gs[k] as int == a;
        let kb = choose|k: int| 0 <= k < gs.len() && #[trigger] gs[k] as int == b;
        assert(ka != kb);
        let j = choose|j: int| #[trigger] is_graph(os, j) && linked_in_file(os, os[j].path);
        let kj = choose|k: int| 0 <= k < gs.len() && #[trigger] gs[k] as int == j;
        assert(linked_in_file(os, os[gs[kj] as int].path));
        let m = choose|m: int| #[trigger] is_graph(os, m) && !linked_in_file(os, os[m].path) && names_clip(os[m], clip);
        let km = choose|k: int| 0 <= k < gs.len() && #[trigger] gs[k] as int == m;
        assert(!linked_in_file(os, os[gs[km] as int].path) && names_clip(os[gs[km] as int], clip));
        if some_names(os, gs, n, clip, true) {
            let k = choose|k: int|
                0 <= k < n && linked_in_file(os, os[#[trigger] gs[k] as int].path) == true && names_clip(
                    os[gs[k] as int],
                    clip,
                );
            assert(is_graph(os, gs[k] as int));
        }
    }
    if gs.len() >= 2 && some_linked(os, gs, n) && some_names(os, gs, n, clip, false) && !some_names(os, gs, n, clip, true) {
        assert(is_graph(os, gs[0] as int) && is_graph(os, gs[1] as int) && gs[0] < gs[1]);
        let k = choose|k: int| 0 <= k < n && linked_in_file(os, os[#[trigger] gs[k] as int].path);
        assert(is_graph(os, gs[k] as int));
        let m = choose|m: int|
            0 <= m < n && linked_in_file(os, os[#[trigger] gs[m] as int].path) == false && names_clip(
                os[gs[m] as int],
                clip,
            );
        assert(is_graph(os, gs[m] as int));
        assert forall|j: int| #[trigger] is_graph(os, j) && linked_in_file(os, os[j].path) implies !names_clip(os[j], clip) by {
            let kj = choose|k: int| 0 <= k < gs.len() && #[trigger] gs[k] as int == j;
            assert(linked_in_file(os, os[gs[kj] as int].path));
        }
    }
}

/// Whether the clip (in compare form) is named only by graphs that nothing links.
pub fn is_unlinked_graph_animation(tree: &BinTree, clip: &str) -> (r: bool)
    ensures
        r == orphan_clip(objects(tree.objects), clip@),
{
    let ghost os = objects(tree.objects);
    let graphs = find_graphs(tree);
    proof {
        lemma_orphan_by_list(os, graphs@, clip@);
    }
    if graphs.len() < 2 {
        return false;
    }
    let mut any_linked = false;
    let mut orphaned = false;
    let mut live = false;
    let mut g: usize = 0;
    while g < graphs.len()
        invariant
            os == objects(tree.objects),
            lists_graphs(os, graphs@),
            g <= graphs@.len(),
            any_linked == some_linked(os, graphs@, g as int),
            orphaned == some_names(os, graphs@, g as int, clip@, false),
            live == some_names(os, graphs@, g as int, clip@, true),
        decreases graphs@.len() - g,
    {
        let at = graphs[g];
        assert(is_graph(os, graphs@[g as int] as int));
        let o = &tree.objects.entries[at].1;
        assert(os[at as int] == object(tree.objects.entries@[at as int].0, *o));
        let linked = is_linked(tree, o.path_hash.0);
        let names = entry_names_clip(&o.properties, clip);
        assert(names == names_clip(os[at as int], clip@));
        if linked {
            any_linked = true;
            if names {
                live = true;
            }
        } else if names {
            orphaned = true;
        }
        g = g + 1;
    }
    any_linked && orphaned && !live
}

/// Whether a clip (in compare form) is one that never loads.
pub fn is_never_loaded(tree: &BinTree, clip: &str) -> (r: bool)
    ensures
        r == never_loads(objects(tree.objects), clip@),
{
    is_mesh_animation(tree, clip) || is_unlinked_graph_animation(tree, clip)
}

/// The file names the clip somewhere.
pub open spec fn clip_in_file(os: Seq<Object>, clip: Seq<char>) -> bool {
    let ss = strings_in_objects(os);
    exists|i: int| 0 <= i < ss.len() && anm(#[trigger] ss[i]) && clip_form(ss[i]) == clip
}

/// The clips (in compare form) that the file names, each once.
fn clips_in_file(tree: &BinTree) -> (r: Vec<String>)
    ensures
        texts(r@).no_duplicates(),
        forall|c: Seq<char>| #[trigger] texts(r@).contains(c) <==> clip_in_file(objects(tree.objects), c),
{
    let refs = string_refs(tree);
    let ghost ss = strings_in_objects(objects(tree.objects));
    let mut out: Vec<String> = Vec::new();
    let mut i: usize = 0;
    while i < refs.len()
        invariant
            ss == strings_in_objects(objects(tree.objects)),
            ss == str_texts(refs@),
            i <= refs@.len(),
            texts(out@).no_duplicates(),
            forall|c: Seq<char>| #[trigger] texts(out@).contains(c) <==> exists|j: int|
                0 <= j < i && anm(#[trigger] ss[j]) && clip_form(ss[j]) == c,
        decreases refs@.len() - i,
    {
        assert(ss[i as int] == refs@[i as int]@);
        let ghost before = out@;
        if is_anm(refs[i]) {
            let form = normalize(refs[i]);
            proof {
                lemma_listed(out@, form@);
            }
            if !is_listed(&out, form.as_str()) {
                out.push(form);
                proof {
                    assert(texts(out@) =~= texts(before).push(clip_form(ss[i as int])));
                }
            }
        }
        proof {
            let this = clip_form(ss[i as int]);
            assert forall|c: Seq<char>| #[trigger] texts(out@).contains(c) <==> exists|j: int|
                0 <= j < i + 1 && anm(#[trigger] ss[j]) && clip_form(ss[j]) == c by {
                if texts(before).contains(c) {
                    let k = choose|k: int| 0 <= k < texts(before).len() && texts(before)[k] == c;
                    assert(texts(out@)[k] == c);
                }
                if texts(out@).contains(c) && !texts(before).contains(c) {
                    assert(c == this && anm(ss[i as int]));
                }
                if exists|j: int| 0 <= j < i + 1 && anm(#[trigger] ss[j]) && clip_form(ss[j]) == c {
                    let j = choose|j: int| 0 <= j < i + 1 && anm(#[trigger] ss[j]) && clip_form(ss[j]) == c;
                    if j < i {
                        assert(texts(before).contains(c));
                    } else if !texts(before).contains(c) {
                        assert(texts(out@)[out@.len() - 1] == c);
                    }
                }
            }
        }
        i = i + 1;
    }
    out
}

/// Which clips are looked for.
#[derive(Clone, Copy, Debug, PartialEq, Eq, Structural)]
enum ClipKind {
    Mesh,
    UnlinkedGraph,
    Either,
}

spec fn picks(os: Seq<Object>, kind: ClipKind, clip: Seq<char>) -> bool {
    match kind {
        ClipKind::Mesh => mesh_clip(os, clip),
        ClipKind::UnlinkedGraph => orphan_clip(os, clip),
        ClipKind::Either => never_loads(os, clip),
    }
}

fn pick_clips(tree: &BinTree, kind: ClipKind) -> (r: Vec<String>)
    ensures
        texts(r@).no_duplicates(),
        forall|c: Seq<char>| #[trigger] texts(r@).contains(c) <==> clip_in_file(objects(tree.objects), c) && picks(
            objects(tree.objects),
            kind,
            c,
        ),
{
    let ghost os = objects(tree.objects);
    let all = clips_in_file(tree);
    let ghost names = texts(all@);
    let mut out: Vec<String> = Vec::new();
    let mut i: usize = 0;
    while i < all.len()
        invariant
            os == objects(tree.objects),
            names == texts(all@),
            names.no_duplicates(),
            texts(out@).no_duplicates(),
            i <= all@.len(),
            forall|c: Seq<char>| #[trigger] texts(out@).contains(c) <==> names.take(i as int).contains(c) && picks(os, kind, c),
        decreases all@.len() - i,
    {
        let clip = all[i].as_str();
        assert(names[i as int] == clip@);
        let ghost before = out@;
        let hit = match kind {
            ClipKind::Mesh => is_mesh_animation(tree, clip),
            ClipKind::UnlinkedGraph => is_unlinked_graph_animation(tree, clip),
            ClipKind::Either => is_never_loaded(tree, clip),
        };
        if hit {
            out.push(all[i].clone());
            proof {
                assert(texts(out@) =~= texts(before).push(clip@));
                if texts(before).contains(clip@) {
                    let m = choose|m: int| 0 <= m < i && names.take(i as int)[m] == clip@;
                    assert(names[m] == names[i as int]);
                }
            }
        }
        proof {
            let now = names.take(i + 1);
            lemma_take_next(names, i as int);
            assert forall|c: Seq<char>| #[trigger] texts(out@).contains(c) <==> now.contains(c) && picks(os, kind, c) by {
                if texts(before).contains(c) {
                    let k = choose|k: int| 0 <= k < texts(before).len() && texts(before)[k] == c;
                    assert(texts(out@)[k] == c);
                    let m = choose|m: int| 0 <= m < i && names.take(i as int)[m] == c;
                    assert(now[m] == c);
                }
                if texts(out@).contains(c) && !texts(before).contains(c) {
                    assert(c == clip@);
                    assert(now[i as int] == c);
                }
                if now.contains(c) && picks(os, kind, c) {
                    let m = choose|m: int| 0 <= m < now.len() && now[m] == c;
                    if m < i {
                        assert(names.take(i as int)[m] == c);
                        assert(texts(before).contains(c));
                    } else {
                        assert(texts(out@)[out@.len() - 1] == c);
                    }
                }
            }
        }
        i = i + 1;
    }
    assert(names.take(i as int) =~= names);
    out
}

/// Every clip of the file (in compare form) that a mesh particle plays on its own mesh, each once.
pub fn mesh_animations(tree: &BinTree) -> (r: Vec<String>)
    ensures
        texts(r@).no_duplicates(),
        forall|c: Seq<char>| #[trigger] texts(r@).contains(c) <==> clip_in_file(objects(tree.objects), c) && mesh_clip(
            objects(tree.objects),
            c,
        ),
{
    pick_clips(tree, ClipKind::Mesh)
}

/// Every clip of the file (in compare form) that only graphs name which nothing links, each once.
pub fn unlinked_graph_animations(tree: &BinTree) -> (r: Vec<String>)
    ensures
        texts(r@).no_duplicates(),
        forall|c: Seq<char>| #[trigger] texts(r@).contains(c) <==> clip_in_file(objects(tree.objects), c) && orphan_clip(
            objects(tree.objects),
            c,
        ),
{
    pick_clips(tree, ClipKind::UnlinkedGraph)
}

/// Every clip of the file (in compare form) that is dead on paper but never loads, each once.
pub fn never_loaded(tree: &BinTree) -> (r: Vec<String>)
    ensures
        texts(r@).no_duplicates(),
        forall|c: Seq<char>| #[trigger] texts(r@).contains(c) <==> clip_in_file(objects(tree.objects), c) && never_loads(
            objects(tree.objects),
            c,
        ),
{
    pick_clips(tree, ClipKind::Either)
}

/// A clip that a linked graph names is never taken for an orphan, whatever else names it.
pub proof fn law_live_clips_stay(os: Seq<Object>, clip: Seq<char>, i: int)
    requires
        is_graph(os, i),
        linked_in_file(os, os[i].path),
        names_clip(os[i], clip),
    ensures
        !orphan_clip(os, clip),
{
}

/// Where nothing links any graph, no clip is taken for an orphan.
pub proof fn law_no_guess_without_link(os: Seq<Object>, clip: Seq<char>)
    requires
        forall|i: int| #[trigger] is_graph(os, i) ==> !linked_in_file(os, os[i].path),
    ensures
        !orphan_clip(os, clip),
{
}

/// A clip that only a graph names which the file links to nowhere never loads, where another
/// graph of the file is linked and does not name it.
pub proof fn law_clips_of_unlinked_graphs_never_load(os: Seq<Object>, clip: Seq<char>, a: int, b: int)
    requires
        is_graph(os, a),
        is_graph(os, b),
        linked_in_file(os, os[a].path),
        !linked_in_file(os, os[b].path),
        names_clip(os[b], clip),
        forall|i: int| #[trigger] is_graph(os, i) && linked_in_file(os, os[i].path) ==> !names_clip(os[i], clip),
    ensures
        orphan_clip(os, clip),
        never_loads(os, clip),
{
    assert(a != b);
}

/// An entry names the clips among its strings, in any case and with separators of either
/// kind.
pub proof fn law_entries_name_their_clips(o: Object, s: Seq<char>)
    requires
        strings_in_fields(o.fields).contains(s),
        ends(ascii_lowered(s), ".anm"@),
    ensures
        names_clip(o, swapped(ascii_lowered(s), '\\', '/')),
{
    let ss = strings_in_fields(o.fields);
    let i = choose|i: int| 0 <= i < ss.len() && ss[i] == s;
    assert(anm(ss[i]));
}

/// A table has a text as its first value under a key.
pub open spec fn holds_text(fs: Seq<Field>, key: u32, s: Seq<char>) -> bool {
    exists|k: int|
        0 <= k < fs.len() && (#[trigger] fs[k]).key == key && fs[k].value == Val::Text(s) && forall|j: int|
            0 <= j < k ==> (#[trigger] fs[j]).key != key
}

proof fn lemma_holds_text(fs: Seq<Field>, key: u32, s: Seq<char>)
    requires
        holds_text(fs, key, s),
    ensures
        text_under(fs, key) == Some(s),
{
    let k = choose|k: int|
        0 <= k < fs.len() && (#[trigger] fs[k]).key == key && fs[k].value == Val::Text(s) && forall|j: int|
            0 <= j < k ==> (#[trigger] fs[j]).key != key;
    lemma_no_slot(field_keys(fs), key);
    assert(field_keys(fs)[k] == key);
    let n = slot(field_keys(fs), key)->0;
    if n < k {
        assert(fs[n].key == field_keys(fs)[n]);
    }
    assert(n == k);
}

/// A clip that a mesh of an effect plays, one with a mesh and a skeleton of its own, never
/// loads as one of the character.
pub proof fn law_clips_of_meshes_never_load(
    os: Seq<Object>,
    i: int,
    mesh: Seq<char>,
    skeleton: Seq<char>,
    s: Seq<char>,
)
    requires
        0 <= i < os.len(),
        os[i].class == VFX_MESH_DEFINITION_DATA,
        holds_text(os[i].fields, FIELD_MESH_NAME, mesh),
        ends(ascii_lowered(mesh), ".skn"@),
        holds_text(os[i].fields, FIELD_MESH_SKELETON, skeleton),
        ends(ascii_lowered(skeleton), ".skl"@),
        holds_text(os[i].fields, FIELD_ANIMATION_NAME, s),
        ends(ascii_lowered(s), ".anm"@),
    ensures
        mesh_clip(os, swapped(ascii_lowered(s), '\\', '/')),
        never_loads(os, swapped(ascii_lowered(s), '\\', '/')),
{
    let fs = os[i].fields;
    lemma_holds_text(fs, FIELD_MESH_NAME, mesh);
    lemma_holds_text(fs, FIELD_MESH_SKELETON, skeleton);
    lemma_holds_text(fs, FIELD_ANIMATION_NAME, s);
    let clip = swapped(ascii_lowered(s), '\\', '/');
    assert(mesh_definitions(os[i])[0] == fs);
    assert(mesh_plays(mesh_definitions(os[i])[0], clip));
    assert(some_mesh_plays(mesh_definitions(os[i]), clip));
}

} // verus!
