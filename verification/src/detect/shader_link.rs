//! Dead shader links: materials that link a shader which exists nowhere.
//!
//! Only links under the `shader` property of a `StaticMaterialDef` count; other links
//! legitimately point outside the mod. Without the game's shader set nothing is
//! reported: see [`can_validate`].

use vstd::prelude::*;
use crate::bin::{fields, objects, pairs, val, vals, BinProperty, BinTree, Field, Object, OrderedMap, PropertyValue, Val};
use crate::context::FixContext;
use crate::sorting::{sort_distinct, sorted_distinct};
use crate::text::{lemma_sum_contains, lemma_take_next};
use crate::traits::{GameProvider, HashProvider, WadProvider};

verus! {

/// FNV-1a of `shader`: the property a material links its shader through.
pub const SHADER_PROP_HASH: u32 = 0x355d_5568;

/// FNV-1a of `StaticMaterialDef`: the only class whose `shader` link is a shader link.
pub const STATIC_MATERIAL_DEF: u32 = 0xff9d_3409;

/// The links in a value that is filed under `name`, where the nearest field is that of a material's shader, depth first.
pub open spec fn shaders_in(name: u32, v: Val) -> Seq<u32>
    decreases v,
{
    match v {
        Val::Leaf(p) => match p {
            PropertyValue::Link(h) => if name == SHADER_PROP_HASH && h != 0 { seq![h] } else { Seq::empty() },
            _ => Seq::empty(),
        },
        Val::Text(s) => Seq::empty(),
        Val::Struct(c, fs) => shaders_in_fields(fs),
        Val::Embedded(c, fs) => shaders_in_fields(fs),
        Val::Container(items) => shaders_in_items(name, items),
        Val::UnorderedContainer(items) => shaders_in_items(name, items),
        Val::Present(x) => shaders_in(name, *x),
        Val::Table(entries) => shaders_in_pairs(name, entries),
        Val::Absent => Seq::empty(),
    }
}

/// The links in a value that is filed under `name`, where the nearest field is that of a material's shader, over a list of values.
pub open spec fn shaders_in_items(name: u32, items: Seq<Val>) -> Seq<u32>
    decreases items,
{
    if items.len() == 0 {
        Seq::empty()
    } else {
        shaders_in_items(name, items.drop_last()) + shaders_in(name, items.last())
    }
}

/// The links in a value that is filed under `name`, where the nearest field is that of a material's shader, over a property table.
pub open spec fn shaders_in_fields(fs: Seq<Field>) -> Seq<u32>
    decreases fs,
{
    if fs.len() == 0 {
        Seq::empty()
    } else {
        shaders_in_fields(fs.drop_last()) + shaders_in(fs.last().key, fs.last().value)
    }
}

/// The links in a value that is filed under `name`, where the nearest field is that of a material's shader, over a list of pairs.
pub open spec fn shaders_in_pairs(name: u32, items: Seq<(Val, Val)>) -> Seq<u32>
    decreases items,
{
    if items.len() == 0 {
        Seq::empty()
    } else {
        shaders_in_pairs(name, items.drop_last()) + (shaders_in(name, items.last().1))
    }
}

fn collect_shaders(name: u32, value: &PropertyValue, out: &mut Vec<u32>)
    ensures
        final(out)@ == old(out)@ + shaders_in(name, val(*value)),
    decreases *value,
{
    let ghost before = out@;
    match value {
        PropertyValue::Link(h) => {
            if name == SHADER_PROP_HASH && *h != 0 {
                out.push(*h);
            }
            assert(out@ =~= before + shaders_in(name, val(*value)));
        },
        PropertyValue::Struct(s) => collect_shaders_properties(&s.properties, out),
        PropertyValue::Embedded(s) => collect_shaders_properties(&s.properties, out),
        PropertyValue::Container(items) => collect_shaders_items(name, items, out),
        PropertyValue::UnorderedContainer(items) => collect_shaders_items(name, items, out),
        PropertyValue::Optional(inner) => {
            match &**inner {
                Some(x) => collect_shaders(name, x, out),
                None => {
                    assert(out@ =~= before + shaders_in(name, val(*value)));
                },
            }
        },
        PropertyValue::Table(entries) => collect_shaders_pairs(name, entries, out),
        _ => {
            assert(out@ =~= before + shaders_in(name, val(*value)));
        },
    }
}

fn collect_shaders_items(name: u32, items: &Vec<PropertyValue>, out: &mut Vec<u32>)
    ensures
        final(out)@ == old(out)@ + shaders_in_items(name, vals(*items)),
    decreases *items,
{
    let ghost before = out@;
    let ghost models = vals(*items);
    let mut i: usize = 0;
    assert(before + shaders_in_items(name, models.take(0)) =~= before);
    while i < items.len()
        invariant
            models == vals(*items),
            i <= items@.len(),
            out@ == before + shaders_in_items(name, models.take(i as int)),
        decreases items@.len() - i,
    {
        proof {
            assert(decreases_to!(*items => items@[i as int]));
            lemma_take_next(models, i as int);
        }
        collect_shaders(name, &items[i], out);
        assert(out@ =~= before + shaders_in_items(name, models.take(i + 1)));
        i = i + 1;
    }
    assert(models.take(i as int) =~= models);
}

fn collect_shaders_properties(props: &OrderedMap<BinProperty>, out: &mut Vec<u32>)
    ensures
        final(out)@ == old(out)@ + shaders_in_fields(fields(*props)),
    decreases *props,
{
    let ghost before = out@;
    let ghost models = fields(*props);
    let mut i: usize = 0;
    assert(before + shaders_in_fields(models.take(0)) =~= before);
    while i < props.entries.len()
        invariant
            models == fields(*props),
            i <= props.entries@.len(),
            out@ == before + shaders_in_fields(models.take(i as int)),
        decreases props.entries@.len() - i,
    {
        proof {
            assert(decreases_to!(*props => props.entries@[i as int]));
            lemma_take_next(models, i as int);
        }
        collect_shaders(props.entries[i].0, &props.entries[i].1.value, out);
        assert(out@ =~= before + shaders_in_fields(models.take(i + 1)));
        i = i + 1;
    }
    assert(models.take(i as int) =~= models);
}

fn collect_shaders_pairs(name: u32, items: &Vec<(PropertyValue, PropertyValue)>, out: &mut Vec<u32>)
    ensures
        final(out)@ == old(out)@ + shaders_in_pairs(name, pairs(*items)),
    decreases *items,
{
    let ghost before = out@;
    let ghost models = pairs(*items);
    let mut i: usize = 0;
    assert(before + shaders_in_pairs(name, models.take(0)) =~= before);
    while i < items.len()
        invariant
            models == pairs(*items),
            i <= items@.len(),
            out@ == before + shaders_in_pairs(name, models.take(i as int)),
        decreases items@.len() - i,
    {
        proof {
            assert(decreases_to!(*items => items@[i as int]));
            lemma_take_next(models, i as int);
        }
        collect_shaders(name, &items[i].1, out);
        assert(out@ =~= before + shaders_in_pairs(name, models.take(i + 1)));
        i = i + 1;
    }
    assert(models.take(i as int) =~= models);
}

/// The shader links of the materials among some entries.
pub open spec fn material_shaders(os: Seq<Object>) -> Seq<u32>
    decreases os.len(),
{
    if os.len() == 0 {
        Seq::empty()
    } else {
        let before = material_shaders(os.drop_last());
        if os.last().class == STATIC_MATERIAL_DEF {
            before + shaders_in_fields(os.last().fields)
        } else {
            before
        }
    }
}

fn shader_links(tree: &BinTree) -> (r: Vec<u32>)
    ensures
        r@ == material_shaders(objects(tree.objects)),
{
    let ghost models = objects(tree.objects);
    let mut out: Vec<u32> = Vec::new();
    let mut i: usize = 0;
    assert(out@ =~= material_shaders(models.take(0)));
    while i < tree.objects.entries.len()
        invariant
            models == objects(tree.objects),
            i <= tree.objects.entries@.len(),
            out@ == material_shaders(models.take(i as int)),
        decreases tree.objects.entries@.len() - i,
    {
        proof {
            lemma_take_next(models, i as int);
        }
        let o = &tree.objects.entries[i].1;
        if o.class_hash.0 == STATIC_MATERIAL_DEF {
            collect_shaders_properties(&o.properties, &mut out);
        }
        i = i + 1;
    }
    assert(models.take(i as int) =~= models);
    out
}

/// An entry of the file has this path hash.
pub open spec fn owns(os: Seq<Object>, hash: u32) -> bool {
    exists|i: int| 0 <= i < os.len() && (#[trigger] os[i]).path == hash
}

fn owns_key(tree: &BinTree, hash: u32) -> (r: bool)
    ensures
        r == owns(objects(tree.objects), hash),
{
    let ghost models = objects(tree.objects);
    let mut i: usize = 0;
    while i < tree.objects.entries.len()
        invariant
            models == objects(tree.objects),
            i <= tree.objects.entries@.len(),
            forall|j: int| 0 <= j < i ==> (#[trigger] models[j]).path != hash,
        decreases tree.objects.entries@.len() - i,
    {
        assert(models[i as int].path == tree.objects.entries@[i as int].1.path_hash.0);
        if tree.objects.entries[i].1.path_hash.0 == hash {
            return true;
        }
        i = i + 1;
    }
    false
}

/// A shader link of the file that resolves neither in the game nor in the file.
pub open spec fn dead_shader(os: Seq<Object>, valid: Set<u32>, hash: u32) -> bool {
    material_shaders(os).contains(hash) && !valid.contains(hash) && !owns(os, hash)
}

/// The game's shader set, where it could be read and holds anything.
pub open spec fn known_shaders<G: GameProvider>(game: Option<&G>) -> Option<Set<u32>> {
    match game {
        Some(g) => match g.shader_set() {
            Some(s) => if s.len() == 0 { None } else { Some(s) },
            None => None,
        },
        None => None,
    }
}

/// Shader links that resolve nowhere, in ascending order. Empty when the game's shader
/// set is unavailable.
pub fn dead_links<H: HashProvider, W: WadProvider, G: GameProvider>(ctx: &FixContext<H, W, G>) -> (r: Vec<u32>)
    ensures
        sorted_distinct(r@),
        known_shaders(ctx.game) is None ==> r@.len() == 0,
        known_shaders(ctx.game) matches Some(valid) ==> forall|h: u32| #[trigger] r@.contains(h) <==> dead_shader(
            objects(ctx.tree.objects),
            valid,
            h,
        ),
{
    broadcast use vstd::std_specs::hash::group_hash_axioms;
    let game = match ctx.game {
        Some(g) => g,
        None => {
            return Vec::new();
        },
    };
    let valid = match game.shader_defs() {
        Some(s) => s,
        None => {
            return Vec::new();
        },
    };
    if valid.len() == 0 {
        return Vec::new();
    }
    let links = shader_links(&ctx.tree);
    let ghost os = objects(ctx.tree.objects);
    let mut dead: Vec<u32> = Vec::new();
    let mut i: usize = 0;
    while i < links.len()
        invariant
            os == objects(ctx.tree.objects),
            links@ == material_shaders(os),
            i <= links@.len(),
            forall|h: u32| #[trigger] dead@.contains(h) <==> links@.take(i as int).contains(h) && !valid@.contains(h)
                && !owns(os, h),
        decreases links@.len() - i,
    {
        broadcast use vstd::std_specs::hash::group_hash_axioms;
        let h = links[i];
        let ghost before = dead@;
        let bad = !valid.contains(&h) && !owns_key(&ctx.tree, h);
        if bad {
            dead.push(h);
        }
        proof {
            let now = links@.take(i + 1);
            lemma_take_next(links@, i as int);
            assert forall|x: u32| #[trigger] dead@.contains(x) <==> now.contains(x) && !valid@.contains(x) && !owns(os, x) by {
                if now.contains(x) {
                    let k = choose|k: int| 0 <= k < now.len() && now[k] == x;
                    if k < i {
                        assert(links@.take(i as int)[k] == x);
                    }
                }
                if links@.take(i as int).contains(x) {
                    let k = choose|k: int| 0 <= k < i && links@.take(i as int)[k] == x;
                    assert(now[k] == x);
                }
                if before.contains(x) {
                    let k = choose|k: int| 0 <= k < before.len() && before[k] == x;
                    assert(dead@[k] == x);
                }
                if bad && x == h {
                    assert(dead@[dead@.len() - 1] == h);
                    assert(now[i as int] == h);
                }
                if dead@.contains(x) && !before.contains(x) {
                    assert(x == h);
                }
                if x == h {
                    assert(now[i as int] == h);
                }
            }
        }
        i = i + 1;
    }
    assert(links@.take(i as int) =~= links@);
    sort_distinct(dead)
}

/// Whether the shader set is available at all. `false` means the check cannot run.
pub fn can_validate<H: HashProvider, W: WadProvider, G: GameProvider>(ctx: &FixContext<H, W, G>) -> (r: bool)
    ensures
        r == (known_shaders(ctx.game) is Some),
{
    broadcast use vstd::std_specs::hash::group_hash_axioms;
    match ctx.game {
        Some(g) => match g.shader_defs() {
            Some(s) => s.len() != 0,
            None => false,
        },
        None => false,
    }
}

/// Some shader link resolves nowhere.
pub open spec fn has_dead_shader<G: GameProvider>(os: Seq<Object>, game: Option<&G>) -> bool {
    match known_shaders(game) {
        Some(valid) => exists|h: u32| dead_shader(os, valid, h),
        None => false,
    }
}

/// Boolean verdict for the detection dispatch.
pub fn detect<H: HashProvider, W: WadProvider, G: GameProvider>(ctx: &FixContext<H, W, G>) -> (r: bool)
    ensures
        r == has_dead_shader(objects(ctx.tree.objects), ctx.game),
{
    let dead = dead_links(ctx);
    proof {
        if dead@.len() > 0 {
            assert(dead@.contains(dead@[0]));
        } else if let Some(valid) = known_shaders(ctx.game) {
            assert forall|h: u32| !dead_shader(objects(ctx.tree.objects), valid, h) by {
                assert(!dead@.contains(h));
            }
        }
    }
    dead.len() > 0
}

proof fn lemma_shader_fields(fs: Seq<Field>, i: int, h: u32)
    requires
        0 <= i < fs.len(),
        shaders_in(fs[i].key, fs[i].value).contains(h),
    ensures
        shaders_in_fields(fs).contains(h),
    decreases fs.len(),
{
    lemma_sum_contains(shaders_in_fields(fs.drop_last()), shaders_in(fs.last().key, fs.last().value), h);
    if i < fs.len() - 1 {
        lemma_shader_fields(fs.drop_last(), i, h);
    }
}

proof fn lemma_shader_items(name: u32, items: Seq<Val>, i: int, h: u32)
    requires
        0 <= i < items.len(),
        shaders_in(name, items[i]).contains(h),
    ensures
        shaders_in_items(name, items).contains(h),
    decreases items.len(),
{
    lemma_sum_contains(shaders_in_items(name, items.drop_last()), shaders_in(name, items.last()), h);
    if i < items.len() - 1 {
        lemma_shader_items(name, items.drop_last(), i, h);
    }
}

proof fn lemma_shader_pairs(name: u32, items: Seq<(Val, Val)>, i: int, h: u32)
    requires
        0 <= i < items.len(),
        shaders_in(name, items[i].1).contains(h),
    ensures
        shaders_in_pairs(name, items).contains(h),
    decreases items.len(),
{
    lemma_sum_contains(shaders_in_pairs(name, items.drop_last()), shaders_in(name, items.last().1), h);
    if i < items.len() - 1 {
        lemma_shader_pairs(name, items.drop_last(), i, h);
    }
}

/// A link under the shader property is a shader link unless it is empty, however deep it
/// stands: what is one in a part is one in the whole.
pub proof fn law_no_shader_link_is_overlooked(name: u32, whole: Val, i: int, h: u32)
    ensures
        name == SHADER_PROP_HASH && h != 0 && whole == Val::Leaf(PropertyValue::Link(h)) ==> shaders_in(name, whole).contains(h),
        match whole {
            Val::Container(items) => 0 <= i < items.len() && shaders_in(name, items[i]).contains(h) ==> shaders_in(
                name,
                whole,
            ).contains(h),
            Val::UnorderedContainer(items) => 0 <= i < items.len() && shaders_in(name, items[i]).contains(h) ==> shaders_in(
                name,
                whole,
            ).contains(h),
            Val::Present(x) => shaders_in(name, *x).contains(h) ==> shaders_in(name, whole).contains(h),
            Val::Table(entries) => 0 <= i < entries.len() && shaders_in(name, entries[i].1).contains(h) ==> shaders_in(
                name,
                whole,
            ).contains(h),
            Val::Struct(_, fs) => 0 <= i < fs.len() && shaders_in(fs[i].key, fs[i].value).contains(h) ==> shaders_in(
                name,
                whole,
            ).contains(h),
            Val::Embedded(_, fs) => 0 <= i < fs.len() && shaders_in(fs[i].key, fs[i].value).contains(h) ==> shaders_in(
                name,
                whole,
            ).contains(h),
            _ => true,
        },
{
    if name == SHADER_PROP_HASH && h != 0 && whole == Val::Leaf(PropertyValue::Link(h)) {
        assert(shaders_in(name, whole)[0] == h);
    }
    match whole {
        Val::Container(items) => if 0 <= i < items.len() && shaders_in(name, items[i]).contains(h) {
            lemma_shader_items(name, items, i, h);
        },
        Val::UnorderedContainer(items) => if 0 <= i < items.len() && shaders_in(name, items[i]).contains(h) {
            lemma_shader_items(name, items, i, h);
        },
        Val::Table(entries) => if 0 <= i < entries.len() && shaders_in(name, entries[i].1).contains(h) {
            lemma_shader_pairs(name, entries, i, h);
        },
        Val::Struct(_, fs) => if 0 <= i < fs.len() && shaders_in(fs[i].key, fs[i].value).contains(h) {
            lemma_shader_fields(fs, i, h);
        },
        Val::Embedded(_, fs) => if 0 <= i < fs.len() && shaders_in(fs[i].key, fs[i].value).contains(h) {
            lemma_shader_fields(fs, i, h);
        },
        _ => {},
    }
}

proof fn lemma_material_shaders(os: Seq<Object>, o: int, i: int, h: u32)
    requires
        0 <= o < os.len(),
        os[o].class == STATIC_MATERIAL_DEF,
        0 <= i < os[o].fields.len(),
        shaders_in(os[o].fields[i].key, os[o].fields[i].value).contains(h),
    ensures
        material_shaders(os).contains(h),
    decreases os.len(),
{
    lemma_sum_contains(material_shaders(os.drop_last()), shaders_in_fields(os.last().fields), h);
    if o < os.len() - 1 {
        lemma_material_shaders(os.drop_last(), o, i, h);
    } else {
        lemma_shader_fields(os.last().fields, i, h);
    }
}

/// A shader link of a material is dead exactly where neither the game has such a shader nor
/// the file an entry at that path.
pub proof fn law_dead_shaders_are_the_unknown_ones(os: Seq<Object>, valid: Set<u32>, o: int, i: int, h: u32)
    requires
        0 <= o < os.len(),
        os[o].class == STATIC_MATERIAL_DEF,
        0 <= i < os[o].fields.len(),
        shaders_in(os[o].fields[i].key, os[o].fields[i].value).contains(h),
    ensures
        dead_shader(os, valid, h) <==> !valid.contains(h) && forall|k: int| 0 <= k < os.len() ==> (#[trigger] os[k]).path != h,
{
    lemma_material_shaders(os, o, i, h);
}

} // verus!
