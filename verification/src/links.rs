//! Links and class instances inside a property tree.

use vstd::prelude::*;
use crate::bin::{fields, pairs, val, vals, BinProperty, Field, OrderedMap, PropertyValue, Val};
use crate::text::{lemma_sum_contains, lemma_take_next};

verus! {

/// What a search does with the key and value pairs of a table.
#[derive(Clone, Copy, Debug, PartialEq, Eq, Structural)]
pub enum Tables {
    /// Passes them by.
    Skip,
    /// Looks into the values.
    Values,
    /// Looks into keys and values.
    Both,
}

/// The link hashes in a value, zero ones among them, depth first.
pub open spec fn links_in(tables: Tables, v: Val) -> Seq<u32>
    decreases v,
{
    match v {
        Val::Leaf(p) => match p {
            PropertyValue::Link(h) => seq![h],
            _ => Seq::empty(),
        },
        Val::Text(s) => Seq::empty(),
        Val::Struct(c, fs) => links_in_fields(tables, fs),
        Val::Embedded(c, fs) => links_in_fields(tables, fs),
        Val::Container(items) => links_in_items(tables, items),
        Val::UnorderedContainer(items) => links_in_items(tables, items),
        Val::Present(x) => links_in(tables, *x),
        Val::Table(entries) => match tables {
            Tables::Skip => Seq::empty(),
            _ => links_in_pairs(tables, entries),
        },
        Val::Absent => Seq::empty(),
    }
}

/// The link hashes in a value, zero ones among them, over a list of values.
pub open spec fn links_in_items(tables: Tables, items: Seq<Val>) -> Seq<u32>
    decreases items,
{
    if items.len() == 0 {
        Seq::empty()
    } else {
        links_in_items(tables, items.drop_last()) + links_in(tables, items.last())
    }
}

/// The link hashes in a value, zero ones among them, over a property table.
pub open spec fn links_in_fields(tables: Tables, fs: Seq<Field>) -> Seq<u32>
    decreases fs,
{
    if fs.len() == 0 {
        Seq::empty()
    } else {
        links_in_fields(tables, fs.drop_last()) + links_in(tables, fs.last().value)
    }
}

/// The link hashes in a value, zero ones among them, over a list of pairs.
pub open spec fn links_in_pairs(tables: Tables, items: Seq<(Val, Val)>) -> Seq<u32>
    decreases items,
{
    if items.len() == 0 {
        Seq::empty()
    } else {
        links_in_pairs(tables, items.drop_last()) + ((if tables == Tables::Both { links_in(tables, items.last().0) } else { Seq::empty() }) + links_in(tables, items.last().1))
    }
}

fn collect_links(tables: Tables, value: &PropertyValue, out: &mut Vec<u32>)
    ensures
        final(out)@ == old(out)@ + links_in(tables, val(*value)),
    decreases *value,
{
    let ghost before = out@;
    match value {
        PropertyValue::Link(h) => {
            out.push(*h);
            assert(out@ =~= before + links_in(tables, val(*value)));
        },
        PropertyValue::Struct(s) => collect_links_properties(tables, &s.properties, out),
        PropertyValue::Embedded(s) => collect_links_properties(tables, &s.properties, out),
        PropertyValue::Container(items) => collect_links_items(tables, items, out),
        PropertyValue::UnorderedContainer(items) => collect_links_items(tables, items, out),
        PropertyValue::Optional(inner) => {
            match &**inner {
                Some(x) => collect_links(tables, x, out),
                None => {
                    assert(out@ =~= before + links_in(tables, val(*value)));
                },
            }
        },
        PropertyValue::Table(entries) => {
            if tables != Tables::Skip {
                collect_links_pairs(tables, entries, out);
            }
            assert(out@ =~= before + links_in(tables, val(*value)));
        },
        _ => {
            assert(out@ =~= before + links_in(tables, val(*value)));
        },
    }
}

fn collect_links_items(tables: Tables, items: &Vec<PropertyValue>, out: &mut Vec<u32>)
    ensures
        final(out)@ == old(out)@ + links_in_items(tables, vals(*items)),
    decreases *items,
{
    let ghost before = out@;
    let ghost models = vals(*items);
    let mut i: usize = 0;
    assert(before + links_in_items(tables, models.take(0)) =~= before);
    while i < items.len()
        invariant
            models == vals(*items),
            i <= items@.len(),
            out@ == before + links_in_items(tables, models.take(i as int)),
        decreases items@.len() - i,
    {
        proof {
            assert(decreases_to!(*items => items@[i as int]));
            lemma_take_next(models, i as int);
        }
        collect_links(tables, &items[i], out);
        assert(out@ =~= before + links_in_items(tables, models.take(i + 1)));
        i = i + 1;
    }
    assert(models.take(i as int) =~= models);
}

fn collect_links_properties(tables: Tables, props: &OrderedMap<BinProperty>, out: &mut Vec<u32>)
    ensures
        final(out)@ == old(out)@ + links_in_fields(tables, fields(*props)),
    decreases *props,
{
    let ghost before = out@;
    let ghost models = fields(*props);
    let mut i: usize = 0;
    assert(before + links_in_fields(tables, models.take(0)) =~= before);
    while i < props.entries.len()
        invariant
            models == fields(*props),
            i <= props.entries@.len(),
            out@ == before + links_in_fields(tables, models.take(i as int)),
        decreases props.entries@.len() - i,
    {
        proof {
            assert(decreases_to!(*props => props.entries@[i as int]));
            lemma_take_next(models, i as int);
        }
        collect_links(tables, &props.entries[i].1.value, out);
        assert(out@ =~= before + links_in_fields(tables, models.take(i + 1)));
        i = i + 1;
    }
    assert(models.take(i as int) =~= models);
}

fn collect_links_pairs(tables: Tables, items: &Vec<(PropertyValue, PropertyValue)>, out: &mut Vec<u32>)
    ensures
        final(out)@ == old(out)@ + links_in_pairs(tables, pairs(*items)),
    decreases *items,
{
    let ghost before = out@;
    let ghost models = pairs(*items);
    let mut i: usize = 0;
    assert(before + links_in_pairs(tables, models.take(0)) =~= before);
    while i < items.len()
        invariant
            models == pairs(*items),
            i <= items@.len(),
            out@ == before + links_in_pairs(tables, models.take(i as int)),
        decreases items@.len() - i,
    {
        proof {
            assert(decreases_to!(*items => items@[i as int]));
            lemma_take_next(models, i as int);
        }
        if tables == Tables::Both {
            collect_links(tables, &items[i].0, out);
        }
        collect_links(tables, &items[i].1, out);
        assert(out@ =~= before + links_in_pairs(tables, models.take(i + 1)));
        i = i + 1;
    }
    assert(models.take(i as int) =~= models);
}

/// The link hashes in a value, in order.
pub fn links_of(tables: Tables, value: &PropertyValue) -> (r: Vec<u32>)
    ensures
        r@ == links_in(tables, val(*value)),
{
    let mut out: Vec<u32> = Vec::new();
    collect_links(tables, value, &mut out);
    assert(out@ =~= links_in(tables, val(*value)));
    out
}

/// The link hashes in a property table, in order.
pub fn links_of_properties(tables: Tables, props: &OrderedMap<BinProperty>) -> (r: Vec<u32>)
    ensures
        r@ == links_in_fields(tables, fields(*props)),
{
    let mut out: Vec<u32> = Vec::new();
    collect_links_properties(tables, props, &mut out);
    assert(out@ =~= links_in_fields(tables, fields(*props)));
    out
}

/// The models of a list of property tables.
pub open spec fn tables_of(v: Seq<&OrderedMap<BinProperty>>) -> Seq<Seq<Field>> {
    v.map_values(|m: &OrderedMap<BinProperty>| fields(*m))
}

/// The property tables of the instances of a class in a value, depth first.
pub open spec fn structs_in(class: u32, v: Val) -> Seq<Seq<Field>>
    decreases v,
{
    match v {
        Val::Leaf(p) => Seq::empty(),
        Val::Text(s) => Seq::empty(),
        Val::Struct(c, fs) => (if c == class { seq![fs] } else { Seq::empty() }) + structs_in_fields(class, fs),
        Val::Embedded(c, fs) => (if c == class { seq![fs] } else { Seq::empty() }) + structs_in_fields(class, fs),
        Val::Container(items) => structs_in_items(class, items),
        Val::UnorderedContainer(items) => structs_in_items(class, items),
        Val::Present(x) => structs_in(class, *x),
        Val::Table(entries) => structs_in_pairs(class, entries),
        Val::Absent => Seq::empty(),
    }
}

/// The property tables of the instances of a class in a value, over a list of values.
pub open spec fn structs_in_items(class: u32, items: Seq<Val>) -> Seq<Seq<Field>>
    decreases items,
{
    if items.len() == 0 {
        Seq::empty()
    } else {
        structs_in_items(class, items.drop_last()) + structs_in(class, items.last())
    }
}

/// The property tables of the instances of a class in a value, over a property table.
pub open spec fn structs_in_fields(class: u32, fs: Seq<Field>) -> Seq<Seq<Field>>
    decreases fs,
{
    if fs.len() == 0 {
        Seq::empty()
    } else {
        structs_in_fields(class, fs.drop_last()) + structs_in(class, fs.last().value)
    }
}

/// The property tables of the instances of a class in a value, over a list of pairs.
pub open spec fn structs_in_pairs(class: u32, items: Seq<(Val, Val)>) -> Seq<Seq<Field>>
    decreases items,
{
    if items.len() == 0 {
        Seq::empty()
    } else {
        structs_in_pairs(class, items.drop_last()) + (structs_in(class, items.last().1))
    }
}

fn collect_structs<'a>(class: u32, value: &'a PropertyValue, out: &mut Vec<&'a OrderedMap<BinProperty>>)
    ensures
        tables_of(final(out)@) == tables_of(old(out)@) + structs_in(class, val(*value)),
    decreases *value,
{
    let ghost before = tables_of(out@);
    match value {
        PropertyValue::Struct(s) => {
            if s.class_hash.0 == class {
                out.push(&s.properties);
            }
            assert(tables_of(out@) =~= before + (if s.class_hash.0 == class { seq![fields(s.properties)] } else { Seq::empty() }));
            collect_structs_properties(class, &s.properties, out);
            assert(tables_of(out@) =~= before + structs_in(class, val(*value)));
        },
        PropertyValue::Embedded(s) => {
            if s.class_hash.0 == class {
                out.push(&s.properties);
            }
            assert(tables_of(out@) =~= before + (if s.class_hash.0 == class { seq![fields(s.properties)] } else { Seq::empty() }));
            collect_structs_properties(class, &s.properties, out);
            assert(tables_of(out@) =~= before + structs_in(class, val(*value)));
        },
        PropertyValue::Container(items) => collect_structs_items(class, items, out),
        PropertyValue::UnorderedContainer(items) => collect_structs_items(class, items, out),
        PropertyValue::Optional(inner) => {
            match &**inner {
                Some(x) => collect_structs(class, x, out),
                None => {
                    assert(tables_of(out@) =~= before + structs_in(class, val(*value)));
                },
            }
        },
        PropertyValue::Table(entries) => collect_structs_pairs(class, entries, out),
        _ => {
            assert(tables_of(out@) =~= before + structs_in(class, val(*value)));
        },
    }
}

fn collect_structs_items<'a>(class: u32, items: &'a Vec<PropertyValue>, out: &mut Vec<&'a OrderedMap<BinProperty>>)
    ensures
        tables_of(final(out)@) == tables_of(old(out)@) + structs_in_items(class, vals(*items)),
    decreases *items,
{
    let ghost before = tables_of(out@);
    let ghost models = vals(*items);
    let mut i: usize = 0;
    assert(before + structs_in_items(class, models.take(0)) =~= before);
    while i < items.len()
        invariant
            models == vals(*items),
            i <= items@.len(),
            tables_of(out@) == before + structs_in_items(class, models.take(i as int)),
        decreases items@.len() - i,
    {
        proof {
            assert(decreases_to!(*items => items@[i as int]));
            lemma_take_next(models, i as int);
        }
        collect_structs(class, &items[i], out);
        assert(tables_of(out@) =~= before + structs_in_items(class, models.take(i + 1)));
        i = i + 1;
    }
    assert(models.take(i as int) =~= models);
}

fn collect_structs_properties<'a>(class: u32, props: &'a OrderedMap<BinProperty>, out: &mut Vec<&'a OrderedMap<BinProperty>>)
    ensures
        tables_of(final(out)@) == tables_of(old(out)@) + structs_in_fields(class, fields(*props)),
    decreases *props,
{
    let ghost before = tables_of(out@);
    let ghost models = fields(*props);
    let mut i: usize = 0;
    assert(before + structs_in_fields(class, models.take(0)) =~= before);
    while i < props.entries.len()
        invariant
            models == fields(*props),
            i <= props.entries@.len(),
            tables_of(out@) == before + structs_in_fields(class, models.take(i as int)),
        decreases props.entries@.len() - i,
    {
        proof {
            assert(decreases_to!(*props => props.entries@[i as int]));
            lemma_take_next(models, i as int);
        }
        collect_structs(class, &props.entries[i].1.value, out);
        assert(tables_of(out@) =~= before + structs_in_fields(class, models.take(i + 1)));
        i = i + 1;
    }
    assert(models.take(i as int) =~= models);
}

fn collect_structs_pairs<'a>(class: u32, items: &'a Vec<(PropertyValue, PropertyValue)>, out: &mut Vec<&'a OrderedMap<BinProperty>>)
    ensures
        tables_of(final(out)@) == tables_of(old(out)@) + structs_in_pairs(class, pairs(*items)),
    decreases *items,
{
    let ghost before = tables_of(out@);
    let ghost models = pairs(*items);
    let mut i: usize = 0;
    assert(before + structs_in_pairs(class, models.take(0)) =~= before);
    while i < items.len()
        invariant
            models == pairs(*items),
            i <= items@.len(),
            tables_of(out@) == before + structs_in_pairs(class, models.take(i as int)),
        decreases items@.len() - i,
    {
        proof {
            assert(decreases_to!(*items => items@[i as int]));
            lemma_take_next(models, i as int);
        }
        collect_structs(class, &items[i].1, out);
        assert(tables_of(out@) =~= before + structs_in_pairs(class, models.take(i + 1)));
        i = i + 1;
    }
    assert(models.take(i as int) =~= models);
}

/// The property tables of the instances of a class inside a property table.
pub fn structs_of_properties<'a>(class: u32, props: &'a OrderedMap<BinProperty>) -> (r: Vec<&'a OrderedMap<BinProperty>>)
    ensures
        tables_of(r@) == structs_in_fields(class, fields(*props)),
{
    let mut out: Vec<&'a OrderedMap<BinProperty>> = Vec::new();
    collect_structs_properties(class, props, &mut out);
    assert(tables_of(out@) =~= structs_in_fields(class, fields(*props)));
    out
}

proof fn lemma_item_link(tables: Tables, items: Seq<Val>, i: int, h: u32)
    requires
        0 <= i < items.len(),
        links_in(tables, items[i]).contains(h),
    ensures
        links_in_items(tables, items).contains(h),
    decreases items.len(),
{
    lemma_sum_contains(links_in_items(tables, items.drop_last()), links_in(tables, items.last()), h);
    if i < items.len() - 1 {
        lemma_item_link(tables, items.drop_last(), i, h);
    }
}

proof fn lemma_field_link(tables: Tables, fs: Seq<Field>, i: int, h: u32)
    requires
        0 <= i < fs.len(),
        links_in(tables, fs[i].value).contains(h),
    ensures
        links_in_fields(tables, fs).contains(h),
    decreases fs.len(),
{
    lemma_sum_contains(links_in_fields(tables, fs.drop_last()), links_in(tables, fs.last().value), h);
    if i < fs.len() - 1 {
        lemma_field_link(tables, fs.drop_last(), i, h);
    }
}

proof fn lemma_pair_link(tables: Tables, items: Seq<(Val, Val)>, i: int, h: u32)
    requires
        0 <= i < items.len(),
        links_in(tables, items[i].1).contains(h) || (tables == Tables::Both && links_in(tables, items[i].0).contains(h)),
    ensures
        links_in_pairs(tables, items).contains(h),
    decreases items.len(),
{
    let k = if tables == Tables::Both { links_in(tables, items.last().0) } else { Seq::empty() };
    let v = links_in(tables, items.last().1);
    lemma_sum_contains(k, v, h);
    lemma_sum_contains(links_in_pairs(tables, items.drop_last()), k + v, h);
    if i < items.len() - 1 {
        lemma_pair_link(tables, items.drop_last(), i, h);
    }
}

/// A link is one of its own, and every link of an item, of the content of an option or of
/// the value of a property is one of the whole; so is every link of the value of a pair
/// unless tables are passed by, and of its key where keys are looked into.
pub proof fn law_no_link_is_overlooked(tables: Tables, whole: Val, i: int, h: u32)
    ensures
        whole == Val::Leaf(PropertyValue::Link(h)) ==> links_in(tables, whole).contains(h),
        match whole {
            Val::Container(items) => 0 <= i < items.len() && links_in(tables, items[i]).contains(h) ==> links_in(tables, whole).contains(
                h,
            ),
            Val::UnorderedContainer(items) => 0 <= i < items.len() && links_in(tables, items[i]).contains(h) ==> links_in(
                tables,
                whole,
            ).contains(h),
            Val::Struct(_, fs) => 0 <= i < fs.len() && links_in(tables, fs[i].value).contains(h) ==> links_in(tables, whole).contains(h),
            Val::Embedded(_, fs) => 0 <= i < fs.len() && links_in(tables, fs[i].value).contains(h) ==> links_in(tables, whole).contains(
                h,
            ),
            Val::Present(x) => links_in(tables, *x).contains(h) ==> links_in(tables, whole).contains(h),
            Val::Table(entries) => {
                &&& 0 <= i < entries.len() && !(tables is Skip) && links_in(tables, entries[i].1).contains(h) ==> links_in(
                    tables,
                    whole,
                ).contains(h)
                &&& 0 <= i < entries.len() && tables is Both && links_in(tables, entries[i].0).contains(h) ==> links_in(
                    tables,
                    whole,
                ).contains(h)
            },
            _ => true,
        },
{
    if whole == Val::Leaf(PropertyValue::Link(h)) {
        assert(links_in(tables, whole)[0] == h);
    }
    match whole {
        Val::Container(items) => if 0 <= i < items.len() && links_in(tables, items[i]).contains(h) {
            lemma_item_link(tables, items, i, h);
        },
        Val::UnorderedContainer(items) => if 0 <= i < items.len() && links_in(tables, items[i]).contains(h) {
            lemma_item_link(tables, items, i, h);
        },
        Val::Struct(_, fs) => if 0 <= i < fs.len() && links_in(tables, fs[i].value).contains(h) {
            lemma_field_link(tables, fs, i, h);
        },
        Val::Embedded(_, fs) => if 0 <= i < fs.len() && links_in(tables, fs[i].value).contains(h) {
            lemma_field_link(tables, fs, i, h);
        },
        Val::Table(entries) => if 0 <= i < entries.len() && !(tables is Skip) && (links_in(tables, entries[i].1).contains(h) || (
        tables is Both && links_in(tables, entries[i].0).contains(h))) {
            lemma_pair_link(tables, entries, i, h);
        },
        _ => {},
    }
}

} // verus!
