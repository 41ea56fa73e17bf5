//! Renames a field across the BIN tree.
//!
//! On shader samplers the same names stand for a sampler's own name and for the path of
//! the texture bound to it. With `only_asset_paths` a path moves and a name stays, which
//! makes the repair the same however often it runs.
//!
//! A rename never overwrites a field. Where the field that is in the way is renamed later
//! in the session, the rename is made then, so that two renames of which one makes room
//! for the other give the same result whichever comes first.

use vstd::prelude::*;
use vstd::string::*;
use crate::bin::{
    field_keys, fields, lemma_field_keys, lemma_no_slot, object, objects, pairs, put, slot, swap_out, val, vals, BinObject, BinProperty, Field, Object,
    OrderedMap, PropertyValue, Val,
};
use crate::context::{same_surroundings, FixContext};
use crate::text::{ascii_lowered, contains_char, ends, ends_with, lemma_take_next, to_ascii_lower};
use crate::traits::{GameProvider, HashProvider, WadProvider};
use crate::walk::{add_count, capped, rename_property, renamed_one};

verus! {

/// The text names a file: it has a separator of either kind, or an asset extension.
pub open spec fn path_text(s: Seq<char>) -> bool {
    let lower = ascii_lowered(s);
    s.contains('/') || s.contains('\\') || ends(lower, ".dds"@) || ends(lower, ".tex"@) || ends(lower, ".png"@)
        || ends(lower, ".jpg"@) || ends(lower, ".tga"@) || ends(lower, ".dat"@)
}

/// The value names a file rather than a sampler. A hashed reference does.
pub open spec fn asset_value(v: Val) -> bool {
    match v {
        Val::Leaf(PropertyValue::WadHash(_)) => true,
        Val::Text(s) => path_text(s),
        _ => false,
    }
}

/// Whether this value names a file rather than a sampler.
pub fn is_asset_path(value: &PropertyValue) -> (r: bool)
    ensures
        r == asset_value(val(*value)),
{
    match value {
        PropertyValue::WadHash(_) => true,
        PropertyValue::String(s) => {
            let t = s.as_str();
            if contains_char(t, '/') || contains_char(t, '\\') {
                return true;
            }
            let lower = to_ascii_lower(t);
            let l = lower.as_str();
            ends_with(l, ".dds") || ends_with(l, ".tex") || ends_with(l, ".png") || ends_with(l, ".jpg") || ends_with(
                l,
                ".tga",
            ) || ends_with(l, ".dat")
        },
        _ => false,
    }
}

/// Which field is renamed to which, and whether only where its value names a file.
#[derive(Clone, Copy, Debug, PartialEq, Eq, Structural)]
pub struct Rename {
    pub from: u32,
    pub to: u32,
    pub only_asset_paths: bool,
}

/// A property table qualifies: it has the one field, with a value that may move, and
/// not the other.
pub open spec fn qualifies(fs: Seq<Field>, r: Rename) -> bool {
    match slot(field_keys(fs), r.from) {
        Some(k) => (!r.only_asset_paths || asset_value(fs[k].value)) && slot(field_keys(fs), r.to) is None,
        None => false,
    }
}

/// A property table with the field renamed, where it qualifies.
pub open spec fn renamed_here(fs: Seq<Field>, r: Rename) -> Seq<Field> {
    if qualifies(fs, r) {
        renamed_one(fs, r.from, r.to)
    } else {
        fs
    }
}

/// A value with the field renamed in every property table inside it.
pub open spec fn renamed_in(v: Val, r: Rename) -> Val
    decreases v,
{
    match v {
        Val::Struct(c, fs) => Val::Struct(c, renamed_here(renamed_below(fs, r), r)),
        Val::Embedded(c, fs) => Val::Embedded(c, renamed_here(renamed_below(fs, r), r)),
        Val::Container(items) => Val::Container(renamed_in_items(items, r)),
        Val::UnorderedContainer(items) => Val::UnorderedContainer(renamed_in_items(items, r)),
        Val::Present(x) => Val::Present(Box::new(renamed_in(*x, r))),
        Val::Table(entries) => Val::Table(renamed_in_pairs(entries, r)),
        _ => v,
    }
}

/// A list of values with the field renamed inside.
pub open spec fn renamed_in_items(items: Seq<Val>, r: Rename) -> Seq<Val>
    decreases items,
{
    if items.len() == 0 {
        Seq::empty()
    } else {
        renamed_in_items(items.drop_last(), r).push(renamed_in(items.last(), r))
    }
}

/// A list of pairs with the field renamed inside the values.
pub open spec fn renamed_in_pairs(items: Seq<(Val, Val)>, r: Rename) -> Seq<(Val, Val)>
    decreases items,
{
    if items.len() == 0 {
        Seq::empty()
    } else {
        renamed_in_pairs(items.drop_last(), r).push((items.last().0, renamed_in(items.last().1, r)))
    }
}

/// A property table with the field renamed inside its values.
pub open spec fn renamed_below(fs: Seq<Field>, r: Rename) -> Seq<Field>
    decreases fs,
{
    if fs.len() == 0 {
        Seq::empty()
    } else {
        let x = fs.last();
        renamed_below(fs.drop_last(), r).push(Field { key: x.key, name: x.name, value: renamed_in(x.value, r) })
    }
}

/// The number of renames inside a value.
pub open spec fn renames_in(v: Val, r: Rename) -> nat
    decreases v,
{
    match v {
        Val::Struct(c, fs) => renames_below(fs, r) + (if qualifies(renamed_below(fs, r), r) { 1nat } else { 0nat }),
        Val::Embedded(c, fs) => renames_below(fs, r) + (if qualifies(renamed_below(fs, r), r) { 1nat } else { 0nat }),
        Val::Container(items) => renames_in_items(items, r),
        Val::UnorderedContainer(items) => renames_in_items(items, r),
        Val::Present(x) => renames_in(*x, r),
        Val::Table(entries) => renames_in_pairs(entries, r),
        _ => 0,
    }
}

/// The number of renames inside a list of values.
pub open spec fn renames_in_items(items: Seq<Val>, r: Rename) -> nat
    decreases items,
{
    if items.len() == 0 {
        0
    } else {
        renames_in_items(items.drop_last(), r) + renames_in(items.last(), r)
    }
}

/// The number of renames inside the values of a list of pairs.
pub open spec fn renames_in_pairs(items: Seq<(Val, Val)>, r: Rename) -> nat
    decreases items,
{
    if items.len() == 0 {
        0
    } else {
        renames_in_pairs(items.drop_last(), r) + renames_in(items.last().1, r)
    }
}

/// The number of renames inside the values of a property table.
pub open spec fn renames_below(fs: Seq<Field>, r: Rename) -> nat
    decreases fs,
{
    if fs.len() == 0 {
        0
    } else {
        renames_below(fs.drop_last(), r) + renames_in(fs.last().value, r)
    }
}

fn rename_in_value(value: &mut PropertyValue, r: Rename) -> (n: u32)
    ensures
        val(*final(value)) == renamed_in(val(*old(value)), r),
        n == capped(renames_in(val(*old(value)), r)),
    decreases *old(value),
{
    match value {
        PropertyValue::Struct(s) => rename_in_properties(&mut s.properties, r),
        PropertyValue::Embedded(s) => rename_in_properties(&mut s.properties, r),
        PropertyValue::Container(items) => rename_in_items(items, r),
        PropertyValue::UnorderedContainer(items) => rename_in_items(items, r),
        PropertyValue::Optional(inner) => {
            if (**inner).is_none() {
                0
            } else {
                match &mut **inner {
                    Some(x) => rename_in_value(x, r),
                    None => 0,
                }
            }
        },
        PropertyValue::Table(entries) => rename_in_pairs(entries, r),
        _ => 0,
    }
}

fn rename_in_items(items: &mut Vec<PropertyValue>, r: Rename) -> (n: u32)
    ensures
        vals(*final(items)) == renamed_in_items(vals(*old(items)), r),
        n == capped(renames_in_items(vals(*old(items)), r)),
    decreases *old(items),
{
    let ghost before = *items;
    let ghost models = vals(before);
    let mut n: u32 = 0;
    let mut i: usize = 0;
    let len = items.len();
    while i < len
        invariant
            before == *old(items),
            models == vals(before),
            len == before@.len(),
            items@.len() == len,
            i <= len,
            forall|j: int| i <= j < len ==> items@[j] == before@[j],
            renamed_in_items(models.take(i as int), r).len() == i,
            forall|j: int| 0 <= j < i ==> val(#[trigger] items@[j]) == renamed_in_items(models.take(i as int), r)[j],
            n == capped(renames_in_items(models.take(i as int), r)),
        decreases len - i,
    {
        proof {
            lemma_take_next(models, i as int);
            assert(decreases_to!(before => before@[i as int]));
        }
        let ghost done = renames_in_items(models.take(i as int), r);
        let ghost n0 = n;
        let k = rename_in_value(&mut items[i], r);
        n = add_count(n, k);
        assert(n == capped((done + renames_in(models[i as int], r)) as nat)) by {
            assert(n0 == capped(done));
        }
        i = i + 1;
    }
    assert(models.take(len as int) =~= models);
    assert(vals(*items) =~= renamed_in_items(models, r));
    n
}

fn rename_in_pairs(items: &mut Vec<(PropertyValue, PropertyValue)>, r: Rename) -> (n: u32)
    ensures
        pairs(*final(items)) == renamed_in_pairs(pairs(*old(items)), r),
        n == capped(renames_in_pairs(pairs(*old(items)), r)),
    decreases *old(items),
{
    let ghost before = *items;
    let ghost models = pairs(before);
    let mut n: u32 = 0;
    let mut i: usize = 0;
    let len = items.len();
    while i < len
        invariant
            before == *old(items),
            models == pairs(before),
            len == before@.len(),
            items@.len() == len,
            i <= len,
            forall|j: int| i <= j < len ==> items@[j] == before@[j],
            renamed_in_pairs(models.take(i as int), r).len() == i,
            forall|j: int| 0 <= j < i ==> (val((#[trigger] items@[j]).0), val(items@[j].1)) == renamed_in_pairs(
                models.take(i as int),
                r,
            )[j],
            n == capped(renames_in_pairs(models.take(i as int), r)),
        decreases len - i,
    {
        proof {
            lemma_take_next(models, i as int);
            assert(decreases_to!(before => before@[i as int]));
        }
        let ghost done = renames_in_pairs(models.take(i as int), r);
        let ghost n0 = n;
        let k = rename_in_value(&mut items[i].1, r);
        n = add_count(n, k);
        assert(n == capped((done + renames_in(models[i as int].1, r)) as nat)) by {
            assert(n0 == capped(done));
        }
        i = i + 1;
    }
    assert(models.take(len as int) =~= models);
    assert(pairs(*items) =~= renamed_in_pairs(models, r));
    n
}

fn rename_in_properties(props: &mut OrderedMap<BinProperty>, r: Rename) -> (n: u32)
    ensures
        fields(*final(props)) == renamed_here(renamed_below(fields(*old(props)), r), r),
        n == capped(
            renames_below(fields(*old(props)), r) + (if qualifies(renamed_below(fields(*old(props)), r), r) {
                1nat
            } else {
                0nat
            }),
        ),
    decreases *old(props),
{
    let ghost before = *props;
    let ghost models = fields(before);
    let mut n: u32 = 0;
    let mut i: usize = 0;
    let len = props.entries.len();
    while i < len
        invariant
            before == *old(props),
            models == fields(before),
            len == before.entries@.len(),
            props.entries@.len() == len,
            i <= len,
            forall|j: int| i <= j < len ==> props.entries@[j] == before.entries@[j],
            renamed_below(models.take(i as int), r).len() == i,
            forall|j: int| 0 <= j < i ==> (#[trigger] fields(*props)[j]) == renamed_below(models.take(i as int), r)[j],
            n == capped(renames_below(models.take(i as int), r)),
        decreases len - i,
    {
        proof {
            lemma_take_next(models, i as int);
            assert(decreases_to!(before => before.entries@[i as int]));
        }
        let ghost mid = *props;
        let ghost done = renames_below(models.take(i as int), r);
        let ghost n0 = n;
        let k = rename_in_value(&mut props.entries[i].1.value, r);
        n = add_count(n, k);
        proof {
            assert(n == capped((done + renames_in(models[i as int].value, r)) as nat)) by {
                assert(n0 == capped(done));
            }
            assert forall|j: int| 0 <= j < i implies (#[trigger] fields(*props)[j]) == fields(mid)[j] by {
                assert(props.entries@[j] == mid.entries@[j]);
            }
        }
        i = i + 1;
    }
    assert(models.take(len as int) =~= models);
    let ghost inner = renamed_below(models, r);
    assert(fields(*props) =~= inner);
    proof {
        lemma_field_keys(*props);
        lemma_no_slot(field_keys(inner), r.from);
    }
    let qualified = match props.find(r.from) {
        Some(k) => (!r.only_asset_paths || is_asset_path(&props.entries[k].1.value)) && props.find(r.to).is_none(),
        None => false,
    };
    assert(qualified == qualifies(inner, r));
    if qualified {
        let _ = rename_property(props, r.from, r.to);
        let ghost n0 = n;
        n = add_count(n, 1);
        assert(n == capped((renames_below(models, r) + 1) as nat)) by {
            assert(n0 == capped(renames_below(models, r)));
            assert(1u32 == capped(1nat));
        }
    }
    n
}

/// The entries with the field renamed in every property table.
pub open spec fn renamed_objects(os: Seq<Object>, r: Rename) -> Seq<Object> {
    os.map_values(|o: Object| Object { fields: renamed_here(renamed_below(o.fields, r), r), ..o })
}

/// The number of renames in the entries.
pub open spec fn renames_objects(os: Seq<Object>, r: Rename) -> nat
    decreases os.len(),
{
    if os.len() == 0 {
        0
    } else {
        let fs = os.last().fields;
        renames_objects(os.drop_last(), r) + renames_below(fs, r) + (if qualifies(renamed_below(fs, r), r) {
            1nat
        } else {
            0nat
        })
    }
}

/// What is renamed to what, where the dictionary knows both names and they differ.
pub open spec fn rename_of<H: HashProvider>(hashes: H, from: Seq<char>, to: Seq<char>, only: bool) -> Option<Rename> {
    match (hashes.hash_of_field(from), hashes.hash_of_field(to)) {
        (Some(f), Some(t)) => if f == t { None } else { Some(Rename { from: f, to: t, only_asset_paths: only }) },
        _ => None,
    }
}

/// The entries with each of some renames made, one after the other.
pub open spec fn all_renamed(os: Seq<Object>, list: Seq<Rename>) -> Seq<Object>
    decreases list.len(),
{
    if list.len() == 0 {
        os
    } else {
        renamed_objects(all_renamed(os, list.drop_last()), list.last())
    }
}

/// The number of fields that some renames rename, one after the other.
pub open spec fn all_renames(os: Seq<Object>, list: Seq<Rename>) -> nat
    decreases list.len(),
{
    if list.len() == 0 {
        0
    } else {
        all_renames(os, list.drop_last()) + renames_objects(all_renamed(os, list.drop_last()), list.last())
    }
}

/// The renames of a session, with one more.
pub open spec fn remembered(list: Seq<Rename>, r: Rename) -> Seq<Rename> {
    if list.contains(r) {
        list
    } else {
        list.push(r)
    }
}

/// The entries after a rename in a session that has made others before: these are tried
/// again, since it may have made room for them.
pub open spec fn renamed_next(os: Seq<Object>, earlier: Seq<Rename>, r: Rename) -> Seq<Object> {
    all_renamed(renamed_objects(os, r), earlier)
}

/// The number of fields that a rename and those tried again rename.
pub open spec fn renames_next(os: Seq<Object>, earlier: Seq<Rename>, r: Rename) -> nat {
    renames_objects(os, r) + all_renames(renamed_objects(os, r), earlier)
}

fn rename_everywhere(map: &mut OrderedMap<BinObject>, r: Rename) -> (n: u32)
    ensures
        objects(*final(map)) == renamed_objects(objects(*old(map)), r),
        n == capped(renames_objects(objects(*old(map)), r)),
{
    let ghost before = *map;
    let ghost os = objects(before);
    let ghost want = renamed_objects(os, r);
    let mut n: u32 = 0;
    let mut i: usize = 0;
    let len = map.entries.len();
    while i < len
        invariant
            os == objects(before),
            want == renamed_objects(os, r),
            len == before.entries@.len(),
            map.entries@.len() == len,
            i <= len,
            forall|j: int| i <= j < len ==> map.entries@[j] == before.entries@[j],
            forall|j: int| 0 <= j < i ==> (#[trigger] objects(*map)[j]) == want[j],
            n == capped(renames_objects(os.take(i as int), r)),
        decreases len - i,
    {
        proof {
            lemma_take_next(os, i as int);
        }
        let ghost mid = *map;
        let ghost done = renames_objects(os.take(i as int), r);
        let ghost n0 = n;
        assert(os[i as int] == object(mid.entries@[i as int].0, mid.entries@[i as int].1));
        let k = rename_in_properties(&mut map.entries[i].1.properties, r);
        n = add_count(n, k);
        proof {
            let fs = os[i as int].fields;
            let d: nat = renames_below(fs, r) + (if qualifies(renamed_below(fs, r), r) { 1nat } else { 0nat });
            assert(n0 == capped(done) && k == capped(d));
            assert(n == capped((done + d) as nat));
            assert forall|j: int| 0 <= j < i + 1 implies (#[trigger] objects(*map)[j]) == want[j] by {
                if j < i {
                    assert(map.entries@[j] == mid.entries@[j]);
                    assert(objects(mid)[j] == want[j]);
                }
            }
        }
        i = i + 1;
    }
    assert(os.take(i as int) =~= os);
    assert(objects(*map) =~= want);
    n
}

fn remember(list: &mut Vec<Rename>, r: Rename)
    ensures
        final(list)@ == remembered(old(list)@, r),
{
    let mut i: usize = 0;
    while i < list.len()
        invariant
            i <= list@.len(),
            list@ == old(list)@,
            forall|j: int| 0 <= j < i ==> list@[j] != r,
        decreases list@.len() - i,
    {
        if list[i] == r {
            assert(list@.contains(r));
            return ;
        }
        i = i + 1;
    }
    list.push(r);
}

/// Rename every `from` field to `to`, then try the earlier renames of the session again.
/// Returns the number of fields renamed.
///
/// A field is never renamed onto one that is there already.
pub fn apply<H: HashProvider, W: WadProvider, G: GameProvider>(
    ctx: &mut FixContext<H, W, G>,
    from_name: &str,
    to_name: &str,
    only_asset_paths: bool,
) -> (n: u32)
    ensures
        match rename_of(*old(ctx).hashes, from_name@, to_name@, only_asset_paths) {
            Some(r) => {
                let os = objects(old(ctx).tree.objects);
                let earlier = old(ctx).renames@;
                &&& objects(final(ctx).tree.objects) == renamed_next(os, earlier, r)
                &&& n == capped(renames_next(os, earlier, r))
                &&& final(ctx).renames@ == remembered(earlier, r)
            },
            None => final(ctx).tree == old(ctx).tree && final(ctx).renames == old(ctx).renames && n == 0,
        },
        final(ctx).tree.linked == old(ctx).tree.linked,
        final(ctx).tree.trailer_files == old(ctx).tree.trailer_files,
        final(ctx).tree.trailing == old(ctx).tree.trailing,
        same_surroundings(*final(ctx), *old(ctx)),
        final(ctx).files_to_remove == old(ctx).files_to_remove,
        final(ctx).additional_bins == old(ctx).additional_bins,
{
    let from = match ctx.hashes.field_hash(from_name) {
        Some(h) => h.0,
        None => {
            return 0;
        },
    };
    let to = match ctx.hashes.field_hash(to_name) {
        Some(h) => h.0,
        None => {
            return 0;
        },
    };
    if from == to {
        return 0;
    }
    let r = Rename { from, to, only_asset_paths };
    let ghost os = objects(ctx.tree.objects);
    let ghost once = renamed_objects(os, r);
    let ghost earlier = ctx.renames@;
    let mut n: u32 = rename_everywhere(&mut ctx.tree.objects, r);
    let mut i: usize = 0;
    while i < ctx.renames.len()
        invariant
            once == renamed_objects(os, r),
            earlier == old(ctx).renames@,
            ctx.renames == old(ctx).renames,
            ctx.tree.linked == old(ctx).tree.linked,
            ctx.tree.trailer_files == old(ctx).tree.trailer_files,
            ctx.tree.trailing == old(ctx).tree.trailing,
            same_surroundings(*ctx, *old(ctx)),
            ctx.files_to_remove == old(ctx).files_to_remove,
            ctx.additional_bins == old(ctx).additional_bins,
            i <= earlier.len(),
            objects(ctx.tree.objects) == all_renamed(once, earlier.take(i as int)),
            n == capped(renames_objects(os, r) + all_renames(once, earlier.take(i as int))),
        decreases earlier.len() - i,
    {
        proof {
            lemma_take_next(earlier, i as int);
        }
        let ghost done: nat = renames_objects(os, r) + all_renames(once, earlier.take(i as int));
        let ghost more = renames_objects(objects(ctx.tree.objects), earlier[i as int]);
        let ghost n0 = n;
        let other = ctx.renames[i];
        let k = rename_everywhere(&mut ctx.tree.objects, other);
        n = add_count(n, k);
        assert(n == capped((done + more) as nat)) by {
            assert(n0 == capped(done) && k == capped(more));
        }
        i = i + 1;
    }
    assert(earlier.take(i as int) =~= earlier);
    remember(&mut ctx.renames, r);
    n
}

/// No property table inside a value has a key twice.
pub open spec fn keys_distinct(v: Val) -> bool
    decreases v,
{
    match v {
        Val::Struct(_, fs) => field_keys(fs).no_duplicates() && keys_distinct_below(fs),
        Val::Embedded(_, fs) => field_keys(fs).no_duplicates() && keys_distinct_below(fs),
        Val::Container(items) => keys_distinct_items(items),
        Val::UnorderedContainer(items) => keys_distinct_items(items),
        Val::Present(x) => keys_distinct(*x),
        Val::Table(entries) => keys_distinct_pairs(entries),
        _ => true,
    }
}

/// No property table inside a list of values has a key twice.
pub open spec fn keys_distinct_items(items: Seq<Val>) -> bool
    decreases items,
{
    items.len() == 0 || (keys_distinct_items(items.drop_last()) && keys_distinct(items.last()))
}

/// No property table inside the values of a list of pairs has a key twice.
pub open spec fn keys_distinct_pairs(items: Seq<(Val, Val)>) -> bool
    decreases items,
{
    items.len() == 0 || (keys_distinct_pairs(items.drop_last()) && keys_distinct(items.last().1))
}

/// No property table inside the values of a property table has a key twice.
pub open spec fn keys_distinct_below(fs: Seq<Field>) -> bool
    decreases fs,
{
    fs.len() == 0 || (keys_distinct_below(fs.drop_last()) && keys_distinct(fs.last().value))
}

/// The values of a property table stay as they are under the rename.
spec fn settled_below(fs: Seq<Field>, r: Rename) -> bool {
    forall|i: int| 0 <= i < fs.len() ==> renamed_in((#[trigger] fs[i]).value, r) == fs[i].value
}

proof fn lemma_below_shape(fs: Seq<Field>, r: Rename)
    ensures
        renamed_below(fs, r).len() == fs.len(),
        forall|i: int| 0 <= i < fs.len() ==> (#[trigger] renamed_below(fs, r)[i]) == (Field {
            key: fs[i].key,
            name: fs[i].name,
            value: renamed_in(fs[i].value, r),
        }),
    decreases fs.len(),
{
    if fs.len() > 0 {
        lemma_below_shape(fs.drop_last(), r);
    }
}

proof fn lemma_settled_below(fs: Seq<Field>, r: Rename)
    requires
        settled_below(fs, r),
    ensures
        renamed_below(fs, r) == fs,
{
    lemma_below_shape(fs, r);
    assert(renamed_below(fs, r) =~= fs);
}

/// Renaming a table whose values are settled settles the whole table.
proof fn lemma_here_settles(fs: Seq<Field>, r: Rename)
    requires
        settled_below(fs, r),
        field_keys(fs).no_duplicates(),
        r.from != r.to,
    ensures
        ({
            let once = renamed_here(fs, r);
            renamed_here(renamed_below(once, r), r) == once
        }),
{
    let once = renamed_here(fs, r);
    let keys = field_keys(fs);
    lemma_no_slot(keys, r.from);
    lemma_no_slot(keys, r.to);
    if qualifies(fs, r) {
        let k = slot(keys, r.from)->0;
        let rest = swap_out(fs, k);
        lemma_no_slot(field_keys(rest), r.to);
        assert(!field_keys(rest).contains(r.to)) by {
            if field_keys(rest).contains(r.to) {
                let i = choose|i: int| 0 <= i < rest.len() && field_keys(rest)[i] == r.to;
                let j = if i == k { fs.len() - 1 } else { i };
                assert(keys[j] == r.to);
            }
        }
        assert(once == rest.push(Field { key: r.to, name: r.to, value: fs[k].value }));
        assert(settled_below(once, r)) by {
            assert forall|i: int| 0 <= i < once.len() implies renamed_in((#[trigger] once[i]).value, r) == once[i].value by {
                let j = if i == once.len() - 1 { k } else if i == k { fs.len() - 1 } else { i };
                assert(once[i].value == fs[j].value);
                assert(renamed_in(fs[j].value, r) == fs[j].value);
            }
        }
        lemma_settled_below(once, r);
        let ok = field_keys(once);
        lemma_no_slot(ok, r.from);
        assert(!ok.contains(r.from)) by {
            if ok.contains(r.from) {
                let i = choose|i: int| 0 <= i < once.len() && ok[i] == r.from;
                assert(i < once.len() - 1);
                let j = if i == k { fs.len() - 1 } else { i };
                assert(keys[j] == r.from && keys[k] == r.from);
                assert(j == k);
            }
        }
    } else {
        lemma_settled_below(fs, r);
    }
}

proof fn lemma_rename_settles(v: Val, r: Rename)
    requires
        keys_distinct(v),
        r.from != r.to,
    ensures
        renamed_in(renamed_in(v, r), r) == renamed_in(v, r),
    decreases v, 0nat,
{
    match v {
        Val::Struct(c, fs) => lemma_rename_settles_fields(fs, r),
        Val::Embedded(c, fs) => lemma_rename_settles_fields(fs, r),
        Val::Container(items) => lemma_rename_settles_items(items, r),
        Val::UnorderedContainer(items) => lemma_rename_settles_items(items, r),
        Val::Present(x) => lemma_rename_settles(*x, r),
        Val::Table(entries) => lemma_rename_settles_pairs(entries, r),
        _ => {},
    }
}

proof fn lemma_rename_settles_items(items: Seq<Val>, r: Rename)
    requires
        keys_distinct_items(items),
        r.from != r.to,
    ensures
        renamed_in_items(renamed_in_items(items, r), r) == renamed_in_items(items, r),
    decreases items, 0nat,
{
    if items.len() > 0 {
        lemma_rename_settles_items(items.drop_last(), r);
        lemma_rename_settles(items.last(), r);
        let once = renamed_in_items(items, r);
        assert(once.drop_last() =~= renamed_in_items(items.drop_last(), r));
    }
}

proof fn lemma_rename_settles_pairs(items: Seq<(Val, Val)>, r: Rename)
    requires
        keys_distinct_pairs(items),
        r.from != r.to,
    ensures
        renamed_in_pairs(renamed_in_pairs(items, r), r) == renamed_in_pairs(items, r),
    decreases items, 0nat,
{
    if items.len() > 0 {
        lemma_rename_settles_pairs(items.drop_last(), r);
        lemma_rename_settles(items.last().1, r);
        let once = renamed_in_pairs(items, r);
        assert(once.drop_last() =~= renamed_in_pairs(items.drop_last(), r));
    }
}

proof fn lemma_rename_settles_below(fs: Seq<Field>, r: Rename)
    requires
        keys_distinct_below(fs),
        r.from != r.to,
    ensures
        settled_below(renamed_below(fs, r), r),
    decreases fs, 0nat,
{
    if fs.len() > 0 {
        lemma_rename_settles_below(fs.drop_last(), r);
        lemma_rename_settles(fs.last().value, r);
        lemma_below_shape(fs, r);
        lemma_below_shape(fs.drop_last(), r);
        let once = renamed_below(fs, r);
        let head = renamed_below(fs.drop_last(), r);
        assert forall|i: int| 0 <= i < once.len() implies renamed_in((#[trigger] once[i]).value, r) == once[i].value by {
            if i < head.len() {
                assert(once[i] == head[i]);
            }
        }
    }
}

proof fn lemma_rename_settles_fields(fs: Seq<Field>, r: Rename)
    requires
        field_keys(fs).no_duplicates(),
        keys_distinct_below(fs),
        r.from != r.to,
    ensures
        ({
            let once = renamed_here(renamed_below(fs, r), r);
            renamed_here(renamed_below(once, r), r) == once
        }),
    decreases fs, 1nat,
{
    let inner = renamed_below(fs, r);
    lemma_rename_settles_below(fs, r);
    lemma_below_shape(fs, r);
    assert(field_keys(inner) =~= field_keys(fs));
    lemma_here_settles(inner, r);
}

/// Repairing twice is the same as repairing once: a second rename changes nothing, in
/// a file in which no property table has a key twice.
pub proof fn law_rename_repeats(os: Seq<Object>, r: Rename)
    requires
        entries_distinct(os),
        r.from != r.to,
    ensures
        renamed_objects(renamed_objects(os, r), r) == renamed_objects(os, r),
{
    let once = renamed_objects(os, r);
    let twice = renamed_objects(once, r);
    assert forall|i: int| 0 <= i < os.len() implies twice[i] == once[i] by {
        assert(field_keys(os[i].fields).no_duplicates());
        lemma_rename_settles_fields(os[i].fields, r);
    }
    assert(twice =~= once);
}

/// A rename never overwrites a property: a table keeps as many as it has.
pub proof fn law_rename_keeps_every_property(fs: Seq<Field>, r: Rename)
    ensures
        renamed_here(fs, r).len() == fs.len(),
{
    if qualifies(fs, r) {
        let keys = field_keys(fs);
        lemma_no_slot(keys, r.from);
        lemma_no_slot(keys, r.to);
        let k = slot(keys, r.from)->0;
        let rest = swap_out(fs, k);
        lemma_no_slot(field_keys(rest), r.to);
        if field_keys(rest).contains(r.to) {
            let i = choose|i: int| 0 <= i < rest.len() && field_keys(rest)[i] == r.to;
            let j = if i == k { fs.len() - 1 } else { i };
            assert(keys[j] == r.to);
        }
    }
}

/// The value of the property filed under `key`.
spec fn held(fs: Seq<Field>, key: u32) -> Option<Val> {
    match slot(field_keys(fs), key) {
        Some(k) => Some(fs[k].value),
        None => None,
    }
}

proof fn lemma_held(fs: Seq<Field>, i: int)
    requires
        field_keys(fs).no_duplicates(),
        0 <= i < fs.len(),
    ensures
        held(fs, fs[i].key) == Some(fs[i].value),
{
    let keys = field_keys(fs);
    assert(keys[i] == fs[i].key);
    assert(keys.contains(fs[i].key));
    lemma_no_slot(keys, fs[i].key);
}

proof fn lemma_not_held(fs: Seq<Field>, key: u32)
    requires
        !field_keys(fs).contains(key),
    ensures
        held(fs, key) is None,
{
    lemma_no_slot(field_keys(fs), key);
}

/// What a rename does to a table that qualifies, key by key.
proof fn lemma_here_held(fs: Seq<Field>, r: Rename)
    requires
        field_keys(fs).no_duplicates(),
        r.from != r.to,
        qualifies(fs, r),
    ensures
        field_keys(renamed_here(fs, r)).no_duplicates(),
        held(renamed_here(fs, r), r.to) == held(fs, r.from),
        held(renamed_here(fs, r), r.from) is None,
        forall|key: u32| key != r.from && key != r.to ==> #[trigger] held(renamed_here(fs, r), key) == held(fs, key),
{
    let once = renamed_here(fs, r);
    let keys = field_keys(fs);
    lemma_no_slot(keys, r.from);
    lemma_no_slot(keys, r.to);
    let k = slot(keys, r.from)->0;
    let rest = swap_out(fs, k);
    lemma_no_slot(field_keys(rest), r.to);
    assert(!field_keys(rest).contains(r.to)) by {
        if field_keys(rest).contains(r.to) {
            let i = choose|i: int| 0 <= i < rest.len() && field_keys(rest)[i] == r.to;
            let j = if i == k { fs.len() - 1 } else { i };
            assert(keys[j] == r.to);
        }
    }
    assert(once == rest.push(Field { key: r.to, name: r.to, value: fs[k].value }));
    let after = field_keys(once);
    // Where each property of the new table stood.
    let source = |i: int| if i == once.len() - 1 { k } else if i == k { fs.len() - 1 } else { i };
    assert(after.no_duplicates()) by {
        assert forall|i: int, j: int| 0 <= i < j < after.len() implies after[i] != after[j] by {
            if j < after.len() - 1 {
                assert(keys[source(i)] == after[i] && keys[source(j)] == after[j]);
            } else {
                assert(after[i] == field_keys(rest)[i]);
            }
        }
    }
    lemma_held(once, once.len() - 1);
    lemma_held(fs, k);
    assert(!after.contains(r.from)) by {
        if after.contains(r.from) {
            let i = choose|i: int| 0 <= i < after.len() && after[i] == r.from;
            assert(i < after.len() - 1);
            assert(keys[source(i)] == r.from && keys[k] == r.from);
        }
    }
    lemma_not_held(once, r.from);
    assert forall|key: u32| key != r.from && key != r.to implies #[trigger] held(once, key) == held(fs, key) by {
        if after.contains(key) {
            let i = choose|i: int| 0 <= i < after.len() && after[i] == key;
            assert(once[i].key == key && i < once.len() - 1);
            assert(fs[source(i)] == once[i]);
            lemma_held(once, i);
            lemma_held(fs, source(i));
        } else {
            lemma_not_held(once, key);
            if keys.contains(key) {
                let i = choose|i: int| 0 <= i < keys.len() && keys[i] == key;
                let j = if i == fs.len() - 1 { k } else { i };
                assert(i != k);
                assert(after[j] == key);
            }
            lemma_not_held(fs, key);
        }
    }
}

/// The one rename makes room for the other: it renames away the field that the other
/// renames to, and not onto the one that the other renames.
pub open spec fn makes_room(first: Rename, second: Rename) -> bool {
    first.from == second.to && first.to != second.from && first.from != first.to && second.from != second.to
}

proof fn lemma_orders_meet_here(fs: Seq<Field>, a: Rename, b: Rename)
    requires
        field_keys(fs).no_duplicates(),
        makes_room(a, b),
    ensures
        renamed_here(renamed_here(renamed_here(fs, a), b), a) == renamed_here(renamed_here(renamed_here(fs, b), a), b),
{
    if qualifies(fs, a) {
        let x = renamed_here(fs, a);
        lemma_here_held(fs, a);
        assert(held(fs, b.to) is Some);
        assert(!qualifies(fs, b));
        assert(held(x, a.to) is Some);
        if qualifies(x, b) {
            lemma_here_held(x, b);
        }
        assert(held(renamed_here(x, b), a.to) is Some);
        assert(!qualifies(renamed_here(x, b), a));
    } else if qualifies(fs, b) {
        let y = renamed_here(fs, b);
        lemma_here_held(fs, b);
        assert(held(y, b.from) is None);
        if qualifies(y, a) {
            lemma_here_held(y, a);
        }
        assert(held(renamed_here(y, a), b.from) is None);
        assert(!qualifies(renamed_here(y, a), b));
    }
}

proof fn lemma_below_keys(fs: Seq<Field>, r: Rename)
    ensures
        field_keys(renamed_below(fs, r)) == field_keys(fs),
{
    lemma_below_shape(fs, r);
    assert(field_keys(renamed_below(fs, r)) =~= field_keys(fs));
}

/// Renaming inside the values and renaming in the table itself do not disturb each other.
proof fn lemma_here_and_below(fs: Seq<Field>, inside: Rename, here: Rename)
    requires
        field_keys(fs).no_duplicates(),
    ensures
        renamed_here(renamed_below(fs, inside), here) == renamed_below(renamed_here(fs, here), inside),
{
    let inner = renamed_below(fs, inside);
    let keys = field_keys(fs);
    lemma_below_keys(fs, inside);
    lemma_below_shape(fs, inside);
    lemma_no_slot(keys, here.from);
    lemma_no_slot(keys, here.to);
    if slot(keys, here.from) is Some {
        let k = slot(keys, here.from)->0;
        assert(inner[k].value == renamed_in(fs[k].value, inside));
        assert(asset_value(inner[k].value) == asset_value(fs[k].value));
    }
    assert(qualifies(inner, here) == qualifies(fs, here));
    if qualifies(fs, here) {
        let k = slot(keys, here.from)->0;
        let once = renamed_here(fs, here);
        lemma_below_shape(once, inside);
        let rest = swap_out(fs, k);
        let other = swap_out(inner, k);
        assert(field_keys(other) =~= field_keys(rest));
        lemma_no_slot(field_keys(rest), here.to);
        assert(!field_keys(rest).contains(here.to)) by {
            if field_keys(rest).contains(here.to) {
                let i = choose|i: int| 0 <= i < rest.len() && field_keys(rest)[i] == here.to;
                let j = if i == k { fs.len() - 1 } else { i };
                assert(keys[j] == here.to);
            }
        }
        assert(once == rest.push(Field { key: here.to, name: here.to, value: fs[k].value }));
        assert(renamed_here(inner, here) == other.push(Field { key: here.to, name: here.to, value: inner[k].value }));
        assert(renamed_here(inner, here) =~= renamed_below(once, inside));
    }
}

/// A whole property table under a rename.
spec fn renamed_table(fs: Seq<Field>, r: Rename) -> Seq<Field> {
    renamed_here(renamed_below(fs, r), r)
}

proof fn lemma_here_stays_distinct(fs: Seq<Field>, r: Rename)
    requires
        field_keys(fs).no_duplicates(),
        r.from != r.to,
    ensures
        field_keys(renamed_here(fs, r)).no_duplicates(),
{
    if qualifies(fs, r) {
        lemma_here_held(fs, r);
    }
}

proof fn lemma_orders_meet_table(fs: Seq<Field>, a: Rename, b: Rename)
    requires
        field_keys(fs).no_duplicates(),
        makes_room(a, b),
        renamed_below(renamed_below(renamed_below(fs, a), b), a) == renamed_below(renamed_below(renamed_below(fs, b), a), b),
    ensures
        renamed_table(renamed_table(renamed_table(fs, a), b), a) == renamed_table(renamed_table(renamed_table(fs, b), a), b),
{
    lemma_table_chain(fs, a, b);
    lemma_table_chain(fs, b, a);
    lemma_below_keys(fs, a);
    lemma_below_keys(renamed_below(fs, a), b);
    lemma_below_keys(renamed_below(renamed_below(fs, a), b), a);
    lemma_orders_meet_here(renamed_below(renamed_below(renamed_below(fs, a), b), a), a, b);
}

/// Three renames of a table: first inside its values, then in the table itself.
proof fn lemma_table_chain(fs: Seq<Field>, a: Rename, b: Rename)
    requires
        field_keys(fs).no_duplicates(),
        a.from != a.to,
        b.from != b.to,
    ensures
        renamed_table(renamed_table(renamed_table(fs, a), b), a) == renamed_here(
            renamed_here(renamed_here(renamed_below(renamed_below(renamed_below(fs, a), b), a), a), b),
            a,
        ),
{
    let f1 = renamed_below(fs, a);
    let f2 = renamed_below(f1, b);
    lemma_below_keys(fs, a);
    lemma_below_keys(f1, b);
    lemma_here_and_below(f1, b, a);
    lemma_here_and_below(f2, a, a);
    lemma_here_stays_distinct(f2, a);
    lemma_here_and_below(renamed_here(f2, a), a, b);
}

proof fn lemma_orders_meet(v: Val, a: Rename, b: Rename)
    requires
        keys_distinct(v),
        makes_room(a, b),
    ensures
        renamed_in(renamed_in(renamed_in(v, a), b), a) == renamed_in(renamed_in(renamed_in(v, b), a), b),
    decreases v, 0nat,
{
    match v {
        Val::Struct(c, fs) => {
            lemma_orders_meet_below(fs, a, b);
            lemma_orders_meet_table(fs, a, b);
        },
        Val::Embedded(c, fs) => {
            lemma_orders_meet_below(fs, a, b);
            lemma_orders_meet_table(fs, a, b);
        },
        Val::Container(items) => lemma_orders_meet_items(items, a, b),
        Val::UnorderedContainer(items) => lemma_orders_meet_items(items, a, b),
        Val::Present(x) => lemma_orders_meet(*x, a, b),
        Val::Table(entries) => lemma_orders_meet_pairs(entries, a, b),
        _ => {},
    }
}

proof fn lemma_orders_meet_items(items: Seq<Val>, a: Rename, b: Rename)
    requires
        keys_distinct_items(items),
        makes_room(a, b),
    ensures
        renamed_in_items(renamed_in_items(renamed_in_items(items, a), b), a) == renamed_in_items(
            renamed_in_items(renamed_in_items(items, b), a),
            b,
        ),
    decreases items, 0nat,
{
    if items.len() > 0 {
        let head = items.drop_last();
        lemma_orders_meet_items(head, a, b);
        lemma_orders_meet(items.last(), a, b);
        assert(renamed_in_items(items, a).drop_last() =~= renamed_in_items(head, a));
        assert(renamed_in_items(items, b).drop_last() =~= renamed_in_items(head, b));
        assert(renamed_in_items(renamed_in_items(items, a), b).drop_last() =~= renamed_in_items(renamed_in_items(head, a), b));
        assert(renamed_in_items(renamed_in_items(items, b), a).drop_last() =~= renamed_in_items(renamed_in_items(head, b), a));
    }
}

proof fn lemma_orders_meet_pairs(items: Seq<(Val, Val)>, a: Rename, b: Rename)
    requires
        keys_distinct_pairs(items),
        makes_room(a, b),
    ensures
        renamed_in_pairs(renamed_in_pairs(renamed_in_pairs(items, a), b), a) == renamed_in_pairs(
            renamed_in_pairs(renamed_in_pairs(items, b), a),
            b,
        ),
    decreases items, 0nat,
{
    if items.len() > 0 {
        let head = items.drop_last();
        lemma_orders_meet_pairs(head, a, b);
        lemma_orders_meet(items.last().1, a, b);
        assert(renamed_in_pairs(items, a).drop_last() =~= renamed_in_pairs(head, a));
        assert(renamed_in_pairs(items, b).drop_last() =~= renamed_in_pairs(head, b));
        assert(renamed_in_pairs(renamed_in_pairs(items, a), b).drop_last() =~= renamed_in_pairs(renamed_in_pairs(head, a), b));
        assert(renamed_in_pairs(renamed_in_pairs(items, b), a).drop_last() =~= renamed_in_pairs(renamed_in_pairs(head, b), a));
    }
}

proof fn lemma_orders_meet_below(fs: Seq<Field>, a: Rename, b: Rename)
    requires
        keys_distinct_below(fs),
        makes_room(a, b),
    ensures
        renamed_below(renamed_below(renamed_below(fs, a), b), a) == renamed_below(renamed_below(renamed_below(fs, b), a), b),
    decreases fs, 0nat,
{
    if fs.len() > 0 {
        let head = fs.drop_last();
        lemma_orders_meet_below(head, a, b);
        lemma_orders_meet(fs.last().value, a, b);
        assert(renamed_below(fs, a).drop_last() =~= renamed_below(head, a));
        assert(renamed_below(fs, b).drop_last() =~= renamed_below(head, b));
        assert(renamed_below(renamed_below(fs, a), b).drop_last() =~= renamed_below(renamed_below(head, a), b));
        assert(renamed_below(renamed_below(fs, b), a).drop_last() =~= renamed_below(renamed_below(head, b), a));
    }
}

proof fn lemma_distinct_each(fs: Seq<Field>)
    ensures
        keys_distinct_below(fs) <==> forall|i: int| 0 <= i < fs.len() ==> keys_distinct((#[trigger] fs[i]).value),
    decreases fs.len(),
{
    if fs.len() > 0 {
        let head = fs.drop_last();
        lemma_distinct_each(head);
        assert(fs[fs.len() - 1] == fs.last());
        if keys_distinct_below(fs) {
            assert forall|i: int| 0 <= i < fs.len() implies keys_distinct((#[trigger] fs[i]).value) by {
                if i < head.len() {
                    assert(head[i] == fs[i]);
                }
            }
        }
        if forall|i: int| 0 <= i < fs.len() ==> keys_distinct((#[trigger] fs[i]).value) {
            assert forall|i: int| 0 <= i < head.len() implies keys_distinct((#[trigger] head[i]).value) by {
                assert(head[i] == fs[i]);
            }
        }
    }
}

proof fn lemma_stays_distinct(v: Val, r: Rename)
    requires
        keys_distinct(v),
        r.from != r.to,
    ensures
        keys_distinct(renamed_in(v, r)),
    decreases v, 0nat,
{
    match v {
        Val::Struct(c, fs) => lemma_stays_distinct_table(fs, r),
        Val::Embedded(c, fs) => lemma_stays_distinct_table(fs, r),
        Val::Container(items) => lemma_stays_distinct_items(items, r),
        Val::UnorderedContainer(items) => lemma_stays_distinct_items(items, r),
        Val::Present(x) => lemma_stays_distinct(*x, r),
        Val::Table(entries) => lemma_stays_distinct_pairs(entries, r),
        _ => {},
    }
}

proof fn lemma_stays_distinct_items(items: Seq<Val>, r: Rename)
    requires
        keys_distinct_items(items),
        r.from != r.to,
    ensures
        keys_distinct_items(renamed_in_items(items, r)),
    decreases items, 0nat,
{
    if items.len() > 0 {
        lemma_stays_distinct_items(items.drop_last(), r);
        lemma_stays_distinct(items.last(), r);
        assert(renamed_in_items(items, r).drop_last() =~= renamed_in_items(items.drop_last(), r));
    }
}

proof fn lemma_stays_distinct_pairs(items: Seq<(Val, Val)>, r: Rename)
    requires
        keys_distinct_pairs(items),
        r.from != r.to,
    ensures
        keys_distinct_pairs(renamed_in_pairs(items, r)),
    decreases items, 0nat,
{
    if items.len() > 0 {
        lemma_stays_distinct_pairs(items.drop_last(), r);
        lemma_stays_distinct(items.last().1, r);
        assert(renamed_in_pairs(items, r).drop_last() =~= renamed_in_pairs(items.drop_last(), r));
    }
}

proof fn lemma_stays_distinct_below(fs: Seq<Field>, r: Rename)
    requires
        keys_distinct_below(fs),
        r.from != r.to,
    ensures
        keys_distinct_below(renamed_below(fs, r)),
    decreases fs, 0nat,
{
    if fs.len() > 0 {
        lemma_stays_distinct_below(fs.drop_last(), r);
        lemma_stays_distinct(fs.last().value, r);
        assert(renamed_below(fs, r).drop_last() =~= renamed_below(fs.drop_last(), r));
    }
}

proof fn lemma_stays_distinct_table(fs: Seq<Field>, r: Rename)
    requires
        field_keys(fs).no_duplicates(),
        keys_distinct_below(fs),
        r.from != r.to,
    ensures
        field_keys(renamed_table(fs, r)).no_duplicates(),
        keys_distinct_below(renamed_table(fs, r)),
    decreases fs, 1nat,
{
    let inner = renamed_below(fs, r);
    let once = renamed_here(inner, r);
    lemma_stays_distinct_below(fs, r);
    lemma_below_keys(fs, r);
    lemma_here_stays_distinct(inner, r);
    lemma_distinct_each(inner);
    lemma_distinct_each(once);
    if qualifies(inner, r) {
        let keys = field_keys(inner);
        lemma_no_slot(keys, r.from);
        lemma_no_slot(keys, r.to);
        let k = slot(keys, r.from)->0;
        law_rename_keeps_every_property(inner, r);
        let rest = swap_out(inner, k);
        assert(once == put(rest, slot(field_keys(rest), r.to), Field { key: r.to, name: r.to, value: inner[k].value }));
        lemma_no_slot(field_keys(rest), r.to);
        assert forall|i: int| 0 <= i < once.len() implies keys_distinct((#[trigger] once[i]).value) by {
            let j = if i == once.len() - 1 { k } else if i == k { inner.len() - 1 } else { i };
            assert(once[i].value == inner[j].value);
        }
    }
}

/// No property table of the entries has a key twice.
pub open spec fn entries_distinct(os: Seq<Object>) -> bool {
    forall|i: int|
        0 <= i < os.len() ==> field_keys((#[trigger] os[i]).fields).no_duplicates() && keys_distinct_below(os[i].fields)
}

proof fn lemma_stays_distinct_objects(os: Seq<Object>, r: Rename)
    requires
        entries_distinct(os),
        r.from != r.to,
    ensures
        entries_distinct(renamed_objects(os, r)),
{
    let once = renamed_objects(os, r);
    assert forall|i: int| 0 <= i < once.len() implies field_keys((#[trigger] once[i]).fields).no_duplicates()
        && keys_distinct_below(once[i].fields) by {
        assert(field_keys(os[i].fields).no_duplicates());
        lemma_stays_distinct_table(os[i].fields, r);
    }
}

/// The renames that a session remembers once the rules have fired.
pub open spec fn session_renames(fired: Seq<Rename>) -> Seq<Rename>
    decreases fired.len(),
{
    if fired.len() == 0 {
        Seq::empty()
    } else {
        remembered(session_renames(fired.drop_last()), fired.last())
    }
}

/// The entries after a session in which these rules have fired, one after the other.
pub open spec fn session_renamed(os: Seq<Object>, fired: Seq<Rename>) -> Seq<Object>
    decreases fired.len(),
{
    if fired.len() == 0 {
        os
    } else {
        renamed_next(session_renamed(os, fired.drop_last()), session_renames(fired.drop_last()), fired.last())
    }
}

proof fn lemma_session_of_two(os: Seq<Object>, a: Rename, b: Rename)
    requires
        a != b,
    ensures
        session_renames(seq![a, b]) == seq![a, b],
        session_renamed(os, seq![a, b]) == renamed_objects(renamed_objects(renamed_objects(os, a), b), a),
{
    let one = seq![a];
    let two = seq![a, b];
    assert(two.drop_last() =~= one);
    assert(one.drop_last() =~= Seq::empty());
    assert(session_renames(Seq::empty()) =~= Seq::empty());
    assert(session_renames(one) =~= one);
    assert(all_renamed(renamed_objects(os, a), Seq::empty()) == renamed_objects(os, a));
    assert(session_renamed(os, Seq::empty()) == os);
    assert(session_renamed(os, one) == renamed_next(os, Seq::empty(), a));
    let x = renamed_objects(renamed_objects(os, a), b);
    assert(all_renamed(x, Seq::empty()) == x);
    assert(all_renamed(x, one) == renamed_objects(x, a));
    assert(!one.contains(b));
    assert(session_renames(two) =~= two);
}

/// Two renames of which one makes room for the other give the same entries whichever of
/// them fires first.
pub proof fn law_rename_order_is_free(os: Seq<Object>, a: Rename, b: Rename)
    requires
        entries_distinct(os),
        makes_room(a, b),
    ensures
        session_renamed(os, seq![a, b]) == session_renamed(os, seq![b, a]),
{
    lemma_session_of_two(os, a, b);
    lemma_session_of_two(os, b, a);
    let x = session_renamed(os, seq![a, b]);
    let y = session_renamed(os, seq![b, a]);
    assert forall|i: int| 0 <= i < os.len() implies x[i] == y[i] by {
        assert(field_keys(os[i].fields).no_duplicates());
        lemma_orders_meet_below(os[i].fields, a, b);
        lemma_orders_meet_table(os[i].fields, a, b);
    }
    assert(x =~= y);
}

/// Once two renames of which one makes room for the other have fired, in either order,
/// firing them again changes nothing, in this session or in another.
pub proof fn law_rename_pair_repeats(os: Seq<Object>, a: Rename, b: Rename)
    requires
        entries_distinct(os),
        makes_room(a, b) || makes_room(b, a),
    ensures
        renamed_objects(session_renamed(os, seq![a, b]), a) == session_renamed(os, seq![a, b]),
        renamed_objects(session_renamed(os, seq![a, b]), b) == session_renamed(os, seq![a, b]),
        session_renamed(session_renamed(os, seq![a, b]), seq![a, b]) == session_renamed(os, seq![a, b]),
        session_renamed(os, seq![a, b, a, b]) == session_renamed(os, seq![a, b]),
{
    let x = session_renamed(os, seq![a, b]);
    lemma_session_of_two(os, a, b);
    lemma_session_of_two(os, b, a);
    if makes_room(a, b) {
        law_rename_order_is_free(os, a, b);
    } else {
        law_rename_order_is_free(os, b, a);
    }
    let oa = renamed_objects(os, a);
    let ob = renamed_objects(os, b);
    lemma_stays_distinct_objects(os, a);
    lemma_stays_distinct_objects(os, b);
    lemma_stays_distinct_objects(oa, b);
    lemma_stays_distinct_objects(ob, a);
    law_rename_repeats(renamed_objects(oa, b), a);
    law_rename_repeats(renamed_objects(ob, a), b);
    lemma_session_of_two(x, a, b);
    let two = seq![a, b];
    let three = seq![a, b, a];
    let four = seq![a, b, a, b];
    assert(four.drop_last() =~= three);
    assert(three.drop_last() =~= two);
    assert(two[0] == a && two[1] == b);
    assert(two.contains(a) && two.contains(b));
    assert(session_renames(three) == two);
    assert(two.drop_last() =~= seq![a]);
    assert(seq![a].drop_last() =~= Seq::<Rename>::empty());
    assert(all_renamed(x, Seq::empty()) == x);
    assert(all_renamed(x, seq![a]) == x);
    assert(all_renamed(x, two) == x);
    assert(session_renamed(os, three) == renamed_next(x, two, a));
    assert(session_renamed(os, four) == renamed_next(x, two, b));
}

/// A table holds a value under a key.
pub open spec fn files(fs: Seq<Field>, key: u32, v: Val) -> bool {
    exists|i: int| 0 <= i < fs.len() && (#[trigger] fs[i]).key == key && fs[i].value == v
}

/// The value names a file: a file's hash, or a text with a separator or the extension of an
/// asset.
pub open spec fn names_file(v: Val) -> bool {
    match v {
        Val::Leaf(PropertyValue::WadHash(_)) => true,
        Val::Text(s) => s.contains('/') || s.contains('\\') || ends(ascii_lowered(s), ".dds"@) || ends(ascii_lowered(s), ".tex"@)
            || ends(ascii_lowered(s), ".png"@) || ends(ascii_lowered(s), ".jpg"@) || ends(ascii_lowered(s), ".tga"@) || ends(
            ascii_lowered(s),
            ".dat"@,
        ),
        _ => false,
    }
}

/// In every entry the value under the old key is found under the new one, where none stood
/// there and it names a file, if only those count; the old key is gone then, and what stood
/// under other keys is found there still. Values themselves are renamed within.
pub proof fn law_old_field_takes_the_new_key(os: Seq<Object>, r: Rename, j: int, i: int, k: int)
    requires
        0 <= j < os.len(),
        r.from != r.to,
        field_keys(os[j].fields).no_duplicates(),
        0 <= i < os[j].fields.len(),
        os[j].fields[i].key == r.from,
        r.only_asset_paths ==> names_file(os[j].fields[i].value),
        forall|n: int| 0 <= n < os[j].fields.len() ==> (#[trigger] os[j].fields[n]).key != r.to,
    ensures
        renamed_objects(os, r).len() == os.len(),
        files(renamed_objects(os, r)[j].fields, r.to, renamed_in(os[j].fields[i].value, r)),
        0 <= k < os[j].fields.len() && k != i ==> files(
            renamed_objects(os, r)[j].fields,
            os[j].fields[k].key,
            renamed_in(os[j].fields[k].value, r),
        ),
        forall|n: int|
            0 <= n < renamed_objects(os, r)[j].fields.len() ==> (#[trigger] renamed_objects(os, r)[j].fields[n]).key != r.from,
{
    let fs = os[j].fields;
    let below = renamed_below(fs, r);
    lemma_below_shape(fs, r);
    let keys = field_keys(below);
    assert(keys =~= field_keys(fs));
    lemma_no_slot(keys, r.from);
    lemma_no_slot(keys, r.to);
    assert(keys[i] == r.from);
    assert(slot(keys, r.from) == Some(i));
    assert(!keys.contains(r.to)) by {
        if keys.contains(r.to) {
            let n = choose|n: int| 0 <= n < keys.len() && keys[n] == r.to;
            assert(fs[n].key == r.to);
        }
    }
    let rest = swap_out(below, i);
    let out = renamed_objects(os, r)[j].fields;
    assert(out == renamed_here(below, r));
    assert(qualifies(below, r));
    lemma_no_slot(field_keys(rest), r.to);
    assert(!field_keys(rest).contains(r.to)) by {
        if field_keys(rest).contains(r.to) {
            let n = choose|n: int| 0 <= n < rest.len() && field_keys(rest)[n] == r.to;
            if n == i {
                assert(keys[keys.len() - 1] == r.to);
            } else {
                assert(keys[n] == r.to);
            }
        }
    }
    assert(out == rest.push(Field { key: r.to, name: r.to, value: below[i].value }));
    assert(out[rest.len() as int].key == r.to);
    if 0 <= k < below.len() && k != i {
        if k == below.len() - 1 {
            assert(out[i] == below[k]);
        } else {
            assert(out[k] == below[k]);
        }
    }
    assert forall|n: int| 0 <= n < out.len() implies (#[trigger] out[n]).key != r.from by {
        if n < rest.len() {
            if n == i {
                assert(keys[keys.len() - 1] != keys[i]);
            } else {
                assert(keys[n] != keys[i]);
            }
        }
    }
}

/// Where the new key is taken, or the old one is not there, or its value names no file and
/// only those count, an entry keeps its keys in their places.
pub proof fn law_renames_never_overwrite(os: Seq<Object>, r: Rename, j: int)
    requires
        0 <= j < os.len(),
        (exists|n: int| 0 <= n < os[j].fields.len() && (#[trigger] os[j].fields[n]).key == r.to) || (forall|n: int|
            0 <= n < os[j].fields.len() ==> (#[trigger] os[j].fields[n]).key != r.from) || (r.only_asset_paths && forall|n: int|
            0 <= n < os[j].fields.len() ==> !names_file((#[trigger] os[j].fields[n]).value)),
    ensures
        field_keys(renamed_objects(os, r)[j].fields) == field_keys(os[j].fields),
{
    let fs = os[j].fields;
    let below = renamed_below(fs, r);
    lemma_below_shape(fs, r);
    let keys = field_keys(below);
    assert(keys =~= field_keys(fs));
    lemma_no_slot(keys, r.from);
    lemma_no_slot(keys, r.to);
    if let Some(k) = slot(keys, r.from) {
        assert(fs[k].key == keys[k]);
        assert(below[k].value == renamed_in(fs[k].value, r));
        if exists|n: int| 0 <= n < fs.len() && (#[trigger] fs[n]).key == r.to {
            let n = choose|n: int| 0 <= n < fs.len() && (#[trigger] fs[n]).key == r.to;
            assert(keys[n] == r.to);
        } else {
            assert(!names_file(fs[k].value));
        }
    }
    assert(!qualifies(below, r));
}

proof fn lemma_renamed_items(items: Seq<Val>, r: Rename)
    ensures
        renamed_in_items(items, r).len() == items.len(),
        forall|i: int| 0 <= i < items.len() ==> #[trigger] renamed_in_items(items, r)[i] == renamed_in(items[i], r),
    decreases items.len(),
{
    if items.len() > 0 {
        lemma_renamed_items(items.drop_last(), r);
    }
}

proof fn lemma_renamed_pairs(items: Seq<(Val, Val)>, r: Rename)
    ensures
        renamed_in_pairs(items, r).len() == items.len(),
        forall|i: int|
            0 <= i < items.len() ==> #[trigger] renamed_in_pairs(items, r)[i] == (items[i].0, renamed_in(items[i].1, r)),
    decreases items.len(),
{
    if items.len() > 0 {
        lemma_renamed_pairs(items.drop_last(), r);
    }
}

/// Renaming reaches every table: it goes down through lists, maps and options in their
/// places, treats a table within a value like that of an entry, and changes nothing else.
pub proof fn law_renames_go_down(v: Val, r: Rename, i: int)
    ensures
        v is Text || v is Leaf || v is Absent ==> renamed_in(v, r) == v,
        v matches Val::Container(items) ==> (0 <= i < items.len() ==> renamed_in(v, r) is Container && renamed_in(
            v,
            r,
        )->Container_0.len() == items.len() && renamed_in(v, r)->Container_0[i] == renamed_in(items[i], r)),
        v matches Val::UnorderedContainer(items) ==> (0 <= i < items.len() ==> renamed_in(v, r) is UnorderedContainer && renamed_in(
            v,
            r,
        )->UnorderedContainer_0.len() == items.len() && renamed_in(v, r)->UnorderedContainer_0[i] == renamed_in(items[i], r)),
        v matches Val::Table(entries) ==> (0 <= i < entries.len() ==> renamed_in(v, r) is Table && renamed_in(v, r)->Table_0[i] == (
            entries[i].0,
            renamed_in(entries[i].1, r),
        )),
        v matches Val::Present(x) ==> renamed_in(v, r) == Val::Present(Box::new(renamed_in(*x, r))),
        v matches Val::Struct(c, fs) ==> forall|o: Object|
            o.fields == fs ==> renamed_in(v, r) == Val::Struct(c, (#[trigger] renamed_objects(seq![o], r))[0].fields),
        v matches Val::Embedded(c, fs) ==> forall|o: Object|
            o.fields == fs ==> renamed_in(v, r) == Val::Embedded(c, (#[trigger] renamed_objects(seq![o], r))[0].fields),
{
    match v {
        Val::Container(items) => lemma_renamed_items(items, r),
        Val::UnorderedContainer(items) => lemma_renamed_items(items, r),
        Val::Table(entries) => lemma_renamed_pairs(entries, r),
        _ => {},
    }
}

/// A rename is made where the dictionary knows both names, for the keys that they stand
/// for, and no rename of a name to itself is.
pub proof fn law_renames_go_by_name<H: HashProvider>(hashes: H, from: Seq<char>, to: Seq<char>, only: bool)
    ensures
        match (hashes.hash_of_field(from), hashes.hash_of_field(to)) {
            (Some(f), Some(t)) => (f != t ==> rename_of(hashes, from, to, only) == Some(Rename { from: f, to: t, only_asset_paths: only }))
                && (f == t ==> rename_of(hashes, from, to, only) is None),
            _ => rename_of(hashes, from, to, only) is None,
        },
{
}

} // verus!
