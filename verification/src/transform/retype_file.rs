//! Migration of asset paths from text to hashed file references.
//!
//! Matching is per class and field, not per field name alone: a texture path of one
//! class moved while that of another stayed text.

use std::collections::BTreeMap;
use vstd::prelude::*;
use vstd::string::*;
use crate::bin::{fields, object, objects, pairs, trailers, val, vals, BinProperty, BinTree, Field, Object, OrderedMap, PropertyValue, Val};
use crate::config::ClassFieldTarget;
use crate::context::{same_but_tree, FixContext};
use crate::hashing::{path_hash, wad_path_hash};
use crate::strings::{resolve_hash_token, token_hash};
use crate::text::{lemma_push_contains, lemma_sum_contains, lemma_take_next};
use crate::traits::{GameProvider, HashProvider, WadProvider};
use crate::walk::{add_count, capped, str_texts};

verus! {

/// The hash under which a migrated field refers to a file.
pub fn wad_ref_hash(path: &str) -> (r: u64)
    ensures
        r == path_hash(path@),
{
    wad_path_hash(path)
}

/// The class and field that a target is about.
pub open spec fn key_of(t: ClassFieldTarget) -> (u32, u32) {
    (token_hash(t.class@), token_hash(t.field@))
}

/// Resolve one target to the class and field hashes that it is about.
pub fn target_key(target: &ClassFieldTarget) -> (r: (u32, u32))
    ensures
        r == key_of(*target),
{
    (resolve_hash_token(target.class.as_str()), resolve_hash_token(target.field.as_str()))
}

/// The class and field pairs of a list of targets.
pub open spec fn target_keys(ts: Seq<ClassFieldTarget>) -> Seq<(u32, u32)> {
    ts.map_values(|t: ClassFieldTarget| key_of(t))
}

fn resolve_targets(targets: &Vec<ClassFieldTarget>) -> (r: Vec<(u32, u32)>)
    ensures
        r@ == target_keys(targets@),
{
    let mut out: Vec<(u32, u32)> = Vec::new();
    let mut i: usize = 0;
    while i < targets.len()
        invariant
            i <= targets@.len(),
            out@.len() == i,
            forall|j: int| 0 <= j < i ==> out@[j] == #[trigger] target_keys(targets@)[j],
        decreases targets@.len() - i,
    {
        out.push(target_key(&targets[i]));
        i = i + 1;
    }
    assert(out@ =~= target_keys(targets@));
    out
}

fn is_target(keys: &Vec<(u32, u32)>, class: u32, field: u32) -> (r: bool)
    ensures
        r == keys@.contains((class, field)),
{
    let mut i: usize = 0;
    while i < keys.len()
        invariant
            i <= keys@.len(),
            forall|j: int| 0 <= j < i ==> keys@[j] != (class, field),
        decreases keys@.len() - i,
    {
        let k = keys[i];
        if k.0 == class && k.1 == field {
            assert(keys@[i as int] == (class, field));
            return true;
        }
        i = i + 1;
    }
    false
}

/// A value with its own texts turned into file references: the value itself, or what
/// it holds as an option, in a list or as the value of a pair. Class instances are left
/// alone.
pub open spec fn converted(v: Val) -> Val
    decreases v,
{
    match v {
        Val::Text(s) => Val::Leaf(PropertyValue::WadHash(path_hash(s))),
        Val::Present(x) => Val::Present(Box::new(converted(*x))),
        Val::Container(items) => Val::Container(converted_items(items)),
        Val::UnorderedContainer(items) => Val::UnorderedContainer(converted_items(items)),
        Val::Table(entries) => Val::Table(converted_pairs(entries)),
        _ => v,
    }
}

/// A list of values with their own texts turned into file references.
pub open spec fn converted_items(items: Seq<Val>) -> Seq<Val>
    decreases items,
{
    if items.len() == 0 {
        Seq::empty()
    } else {
        converted_items(items.drop_last()).push(converted(items.last()))
    }
}

/// A list of pairs with the texts of the values turned into file references.
pub open spec fn converted_pairs(items: Seq<(Val, Val)>) -> Seq<(Val, Val)>
    decreases items,
{
    if items.len() == 0 {
        Seq::empty()
    } else {
        converted_pairs(items.drop_last()).push((items.last().0, converted(items.last().1)))
    }
}

/// The texts that a conversion turns into file references, in order.
pub open spec fn own_texts(v: Val) -> Seq<Seq<char>>
    decreases v,
{
    match v {
        Val::Text(s) => seq![s],
        Val::Present(x) => own_texts(*x),
        Val::Container(items) => own_texts_items(items),
        Val::UnorderedContainer(items) => own_texts_items(items),
        Val::Table(entries) => own_texts_pairs(entries),
        _ => Seq::empty(),
    }
}

/// The texts of a list of values that a conversion turns into file references.
pub open spec fn own_texts_items(items: Seq<Val>) -> Seq<Seq<char>>
    decreases items,
{
    if items.len() == 0 {
        Seq::empty()
    } else {
        own_texts_items(items.drop_last()) + own_texts(items.last())
    }
}

/// The texts of the values of a list of pairs that a conversion turns into file references.
pub open spec fn own_texts_pairs(items: Seq<(Val, Val)>) -> Seq<Seq<char>>
    decreases items,
{
    if items.len() == 0 {
        Seq::empty()
    } else {
        own_texts_pairs(items.drop_last()) + own_texts(items.last().1)
    }
}

/// The table of file references with the paths `ss` added, in order.
pub open spec fn with_paths(m: Map<u64, Seq<char>>, ss: Seq<Seq<char>>) -> Map<u64, Seq<char>>
    decreases ss.len(),
{
    if ss.len() == 0 {
        m
    } else {
        with_paths(m, ss.drop_last()).insert(path_hash(ss.last()), ss.last())
    }
}

proof fn lemma_with_paths_concat(m: Map<u64, Seq<char>>, a: Seq<Seq<char>>, b: Seq<Seq<char>>)
    ensures
        with_paths(m, a + b) == with_paths(with_paths(m, a), b),
    decreases b.len(),
{
    if b.len() == 0 {
        assert(a + b =~= a);
    } else {
        lemma_with_paths_concat(m, a, b.drop_last());
        assert((a + b).drop_last() =~= a + b.drop_last());
    }
}

/// A value with every target field inside it migrated.
pub open spec fn retyped(v: Val, keys: Seq<(u32, u32)>) -> Val
    decreases v,
{
    match v {
        Val::Struct(c, fs) => Val::Struct(c, retyped_fields(c, fs, keys)),
        Val::Embedded(c, fs) => Val::Embedded(c, retyped_fields(c, fs, keys)),
        Val::Container(items) => Val::Container(retyped_items(items, keys)),
        Val::UnorderedContainer(items) => Val::UnorderedContainer(retyped_items(items, keys)),
        Val::Present(x) => Val::Present(Box::new(retyped(*x, keys))),
        Val::Table(entries) => Val::Table(retyped_pairs(entries, keys)),
        _ => v,
    }
}

/// A list of values with every target field inside migrated.
pub open spec fn retyped_items(items: Seq<Val>, keys: Seq<(u32, u32)>) -> Seq<Val>
    decreases items,
{
    if items.len() == 0 {
        Seq::empty()
    } else {
        retyped_items(items.drop_last(), keys).push(retyped(items.last(), keys))
    }
}

/// A list of pairs with every target field inside the values migrated.
pub open spec fn retyped_pairs(items: Seq<(Val, Val)>, keys: Seq<(u32, u32)>) -> Seq<(Val, Val)>
    decreases items,
{
    if items.len() == 0 {
        Seq::empty()
    } else {
        retyped_pairs(items.drop_last(), keys).push((items.last().0, retyped(items.last().1, keys)))
    }
}

/// The properties of an instance of `class` with every target field migrated.
pub open spec fn retyped_fields(class: u32, fs: Seq<Field>, keys: Seq<(u32, u32)>) -> Seq<Field>
    decreases fs,
{
    if fs.len() == 0 {
        Seq::empty()
    } else {
        let f = fs.last();
        let inner = retyped(f.value, keys);
        retyped_fields(class, fs.drop_last(), keys).push(
            Field {
                key: f.key,
                name: f.name,
                value: if keys.contains((class, f.name)) { converted(inner) } else { inner },
            },
        )
    }
}

/// The texts that the migration of a value turns into file references, in order: of a
/// target field first its own, then those nested in it.
pub open spec fn retype_texts(v: Val, keys: Seq<(u32, u32)>) -> Seq<Seq<char>>
    decreases v,
{
    match v {
        Val::Struct(c, fs) => retype_texts_fields(c, fs, keys),
        Val::Embedded(c, fs) => retype_texts_fields(c, fs, keys),
        Val::Container(items) => retype_texts_items(items, keys),
        Val::UnorderedContainer(items) => retype_texts_items(items, keys),
        Val::Present(x) => retype_texts(*x, keys),
        Val::Table(entries) => retype_texts_pairs(entries, keys),
        _ => Seq::empty(),
    }
}

/// The texts that the migration of a list of values turns into file references.
pub open spec fn retype_texts_items(items: Seq<Val>, keys: Seq<(u32, u32)>) -> Seq<Seq<char>>
    decreases items,
{
    if items.len() == 0 {
        Seq::empty()
    } else {
        retype_texts_items(items.drop_last(), keys) + retype_texts(items.last(), keys)
    }
}

/// The texts that the migration of a list of pairs turns into file references.
pub open spec fn retype_texts_pairs(items: Seq<(Val, Val)>, keys: Seq<(u32, u32)>) -> Seq<Seq<char>>
    decreases items,
{
    if items.len() == 0 {
        Seq::empty()
    } else {
        retype_texts_pairs(items.drop_last(), keys) + retype_texts(items.last().1, keys)
    }
}

/// The texts that the migration of a property table turns into file references.
pub open spec fn retype_texts_fields(class: u32, fs: Seq<Field>, keys: Seq<(u32, u32)>) -> Seq<Seq<char>>
    decreases fs,
{
    if fs.len() == 0 {
        Seq::empty()
    } else {
        let f = fs.last();
        retype_texts_fields(class, fs.drop_last(), keys) + (if keys.contains((class, f.name)) {
            own_texts(f.value)
        } else {
            Seq::empty()
        }) + retype_texts(f.value, keys)
    }
}

/// The entries with every target field migrated.
pub open spec fn retyped_objects(os: Seq<Object>, keys: Seq<(u32, u32)>) -> Seq<Object> {
    os.map_values(|o: Object| Object { fields: retyped_fields(o.class, o.fields, keys), ..o })
}

/// The texts that the migration of the entries turns into file references.
pub open spec fn retype_texts_objects(os: Seq<Object>, keys: Seq<(u32, u32)>) -> Seq<Seq<char>>
    decreases os.len(),
{
    if os.len() == 0 {
        Seq::empty()
    } else {
        retype_texts_objects(os.drop_last(), keys) + retype_texts_fields(os.last().class, os.last().fields, keys)
    }
}

/// Note the own texts of a value among the file references. Returns their number.
fn note_own_texts(value: &PropertyValue, files: &mut BTreeMap<u64, String>) -> (n: u32)
    ensures
        trailers(final(files)@) == with_paths(trailers(old(files)@), own_texts(val(*value))),
        n == capped(own_texts(val(*value)).len()),
    decreases *value,
{
    broadcast use vstd::std_specs::btree::group_btree_axioms;
    match value {
        PropertyValue::String(s) => {
            let ghost before = files@;
            let hash = wad_path_hash(s.as_str());
            files.insert(hash, s.clone());
            proof {
                let one = seq![s@];
                assert(one.drop_last() =~= Seq::empty());
                reveal_with_fuel(with_paths, 2);
                assert(trailers(files@) =~= trailers(before).insert(path_hash(s@), s@));
            }
            1
        },
        PropertyValue::Optional(inner) => {
            match &**inner {
                Some(x) => note_own_texts(x, files),
                None => 0,
            }
        },
        PropertyValue::Container(items) => note_own_texts_items(items, files),
        PropertyValue::UnorderedContainer(items) => note_own_texts_items(items, files),
        PropertyValue::Table(entries) => note_own_texts_pairs(entries, files),
        _ => 0,
    }
}

fn note_own_texts_items(items: &Vec<PropertyValue>, files: &mut BTreeMap<u64, String>) -> (n: u32)
    ensures
        trailers(final(files)@) == with_paths(trailers(old(files)@), own_texts_items(vals(*items))),
        n == capped(own_texts_items(vals(*items)).len()),
    decreases *items,
{
    let ghost m0 = trailers(files@);
    let ghost models = vals(*items);
    let mut n: u32 = 0;
    let mut i: usize = 0;
    while i < items.len()
        invariant
            models == vals(*items),
            i <= items@.len(),
            trailers(files@) == with_paths(m0, own_texts_items(models.take(i as int))),
            n == capped(own_texts_items(models.take(i as int)).len()),
        decreases items@.len() - i,
    {
        proof {
            lemma_take_next(models, i as int);
            assert(decreases_to!(*items => items@[i as int]));
            lemma_with_paths_concat(m0, own_texts_items(models.take(i as int)), own_texts(models[i as int]));
        }
        let ghost done = own_texts_items(models.take(i as int)).len();
        let ghost n0 = n;
        let k = note_own_texts(&items[i], files);
        n = add_count(n, k);
        assert(n == capped((done + own_texts(models[i as int]).len()) as nat)) by {
            assert(n0 == capped(done));
        }
        i = i + 1;
    }
    assert(models.take(i as int) =~= models);
    n
}

fn note_own_texts_pairs(items: &Vec<(PropertyValue, PropertyValue)>, files: &mut BTreeMap<u64, String>) -> (n: u32)
    ensures
        trailers(final(files)@) == with_paths(trailers(old(files)@), own_texts_pairs(pairs(*items))),
        n == capped(own_texts_pairs(pairs(*items)).len()),
    decreases *items,
{
    let ghost m0 = trailers(files@);
    let ghost models = pairs(*items);
    let mut n: u32 = 0;
    let mut i: usize = 0;
    while i < items.len()
        invariant
            models == pairs(*items),
            i <= items@.len(),
            trailers(files@) == with_paths(m0, own_texts_pairs(models.take(i as int))),
            n == capped(own_texts_pairs(models.take(i as int)).len()),
        decreases items@.len() - i,
    {
        proof {
            lemma_take_next(models, i as int);
            assert(decreases_to!(*items => items@[i as int]));
            lemma_with_paths_concat(m0, own_texts_pairs(models.take(i as int)), own_texts(models[i as int].1));
        }
        let ghost done = own_texts_pairs(models.take(i as int)).len();
        let ghost n0 = n;
        let k = note_own_texts(&items[i].1, files);
        n = add_count(n, k);
        assert(n == capped((done + own_texts(models[i as int].1).len()) as nat)) by {
            assert(n0 == capped(done));
        }
        i = i + 1;
    }
    assert(models.take(i as int) =~= models);
    n
}

/// Turn the own texts of a value into file references.
fn convert_in_place(value: &mut PropertyValue)
    ensures
        val(*final(value)) == converted(val(*old(value))),
    decreases *old(value),
{
    let text = match value {
        PropertyValue::String(s) => Some(wad_path_hash(s.as_str())),
        _ => None,
    };
    if let Some(hash) = text {
        *value = PropertyValue::WadHash(hash);
        return;
    }
    match value {
        PropertyValue::Optional(inner) => {
            if (**inner).is_some() {
                match &mut **inner {
                    Some(x) => convert_in_place(x),
                    None => {},
                }
            }
        },
        PropertyValue::Container(items) => convert_items(items),
        PropertyValue::UnorderedContainer(items) => convert_items(items),
        PropertyValue::Table(entries) => convert_pairs(entries),
        _ => {},
    }
}

fn convert_items(items: &mut Vec<PropertyValue>)
    ensures
        vals(*final(items)) == converted_items(vals(*old(items))),
    decreases *old(items),
{
    let ghost before = *items;
    let ghost models = vals(before);
    let mut i: usize = 0;
    let len = items.len();
    while i < len
        invariant
            before == *old(items),
            models == vals(before),
            len == before@.len(),
            items@.len() == len,
            i <= len,
            forall|j: int| i <= j < len ==> items@[j] == before@[j],
            converted_items(models.take(i as int)).len() == i,
            forall|j: int| 0 <= j < i ==> val(#[trigger] items@[j]) == converted_items(models.take(i as int))[j],
        decreases len - i,
    {
        proof {
            lemma_take_next(models, i as int);
            assert(decreases_to!(before => before@[i as int]));
        }
        convert_in_place(&mut items[i]);
        i = i + 1;
    }
    assert(models.take(len as int) =~= models);
    assert(vals(*items) =~= converted_items(models));
}

fn convert_pairs(items: &mut Vec<(PropertyValue, PropertyValue)>)
    ensures
        pairs(*final(items)) == converted_pairs(pairs(*old(items))),
    decreases *old(items),
{
    let ghost before = *items;
    let ghost models = pairs(before);
    let mut i: usize = 0;
    let len = items.len();
    while i < len
        invariant
            before == *old(items),
            models == pairs(before),
            len == before@.len(),
            items@.len() == len,
            i <= len,
            forall|j: int| i <= j < len ==> items@[j] == before@[j],
            converted_pairs(models.take(i as int)).len() == i,
            forall|j: int| 0 <= j < i ==> (val((#[trigger] items@[j]).0), val(items@[j].1)) == converted_pairs(
                models.take(i as int),
            )[j],
        decreases len - i,
    {
        proof {
            lemma_take_next(models, i as int);
            assert(decreases_to!(before => before@[i as int]));
        }
        convert_in_place(&mut items[i].1);
        i = i + 1;
    }
    assert(models.take(len as int) =~= models);
    assert(pairs(*items) =~= converted_pairs(models));
}

fn retype_value(value: &mut PropertyValue, keys: &Vec<(u32, u32)>, files: &mut BTreeMap<u64, String>) -> (n: u32)
    ensures
        val(*final(value)) == retyped(val(*old(value)), keys@),
        trailers(final(files)@) == with_paths(trailers(old(files)@), retype_texts(val(*old(value)), keys@)),
        n == capped(retype_texts(val(*old(value)), keys@).len()),
    decreases *old(value),
{
    match value {
        PropertyValue::Struct(s) => retype_properties(s.class_hash.0, &mut s.properties, keys, files),
        PropertyValue::Embedded(s) => retype_properties(s.class_hash.0, &mut s.properties, keys, files),
        PropertyValue::Container(items) => retype_items(items, keys, files),
        PropertyValue::UnorderedContainer(items) => retype_items(items, keys, files),
        PropertyValue::Optional(inner) => {
            if (**inner).is_none() {
                0
            } else {
                match &mut **inner {
                    Some(x) => retype_value(x, keys, files),
                    None => 0,
                }
            }
        },
        PropertyValue::Table(entries) => retype_pairs(entries, keys, files),
        _ => 0,
    }
}

fn retype_items(items: &mut Vec<PropertyValue>, keys: &Vec<(u32, u32)>, files: &mut BTreeMap<u64, String>) -> (n: u32)
    ensures
        vals(*final(items)) == retyped_items(vals(*old(items)), keys@),
        trailers(final(files)@) == with_paths(trailers(old(files)@), retype_texts_items(vals(*old(items)), keys@)),
        n == capped(retype_texts_items(vals(*old(items)), keys@).len()),
    decreases *old(items),
{
    let ghost m0 = trailers(files@);
    let ghost before = *items;
    let ghost models = vals(before);
    let mut n: u32 = 0;
    let mut i: usize = 0;
    let len = items.len();
    while i < len
        invariant
            before == *old(items),
            models == vals(before),
            len == before@.len(),
            items@.len() == len,
            i <= len,
            forall|j: int| i <= j < len ==> items@[j] == before@[j],
            retyped_items(models.take(i as int), keys@).len() == i,
            forall|j: int| 0 <= j < i ==> val(#[trigger] items@[j]) == retyped_items(models.take(i as int), keys@)[j],
            trailers(files@) == with_paths(m0, retype_texts_items(models.take(i as int), keys@)),
            n == capped(retype_texts_items(models.take(i as int), keys@).len()),
        decreases len - i,
    {
        let ghost done = retype_texts_items(models.take(i as int), keys@);
        proof {
            lemma_take_next(models, i as int);
            assert(decreases_to!(before => before@[i as int]));
            lemma_with_paths_concat(m0, done, retype_texts(models[i as int], keys@));
        }
        let ghost n0 = n;
        let k = retype_value(&mut items[i], keys, files);
        n = add_count(n, k);
        assert(n == capped((done.len() + retype_texts(models[i as int], keys@).len()) as nat)) by {
            assert(n0 == capped(done.len()));
        }
        i = i + 1;
    }
    assert(models.take(len as int) =~= models);
    assert(vals(*items) =~= retyped_items(models, keys@));
    n
}

fn retype_pairs(items: &mut Vec<(PropertyValue, PropertyValue)>, keys: &Vec<(u32, u32)>, files: &mut BTreeMap<u64, String>) -> (n: u32)
    ensures
        pairs(*final(items)) == retyped_pairs(pairs(*old(items)), keys@),
        trailers(final(files)@) == with_paths(trailers(old(files)@), retype_texts_pairs(pairs(*old(items)), keys@)),
        n == capped(retype_texts_pairs(pairs(*old(items)), keys@).len()),
    decreases *old(items),
{
    let ghost m0 = trailers(files@);
    let ghost before = *items;
    let ghost models = pairs(before);
    let mut n: u32 = 0;
    let mut i: usize = 0;
    let len = items.len();
    while i < len
        invariant
            before == *old(items),
            models == pairs(before),
            len == before@.len(),
            items@.len() == len,
            i <= len,
            forall|j: int| i <= j < len ==> items@[j] == before@[j],
            retyped_pairs(models.take(i as int), keys@).len() == i,
            forall|j: int| 0 <= j < i ==> (val((#[trigger] items@[j]).0), val(items@[j].1)) == retyped_pairs(
                models.take(i as int),
                keys@,
            )[j],
            trailers(files@) == with_paths(m0, retype_texts_pairs(models.take(i as int), keys@)),
            n == capped(retype_texts_pairs(models.take(i as int), keys@).len()),
        decreases len - i,
    {
        let ghost done = retype_texts_pairs(models.take(i as int), keys@);
        proof {
            lemma_take_next(models, i as int);
            assert(decreases_to!(before => before@[i as int]));
            lemma_with_paths_concat(m0, done, retype_texts(models[i as int].1, keys@));
        }
        let ghost n0 = n;
        let k = retype_value(&mut items[i].1, keys, files);
        n = add_count(n, k);
        assert(n == capped((done.len() + retype_texts(models[i as int].1, keys@).len()) as nat)) by {
            assert(n0 == capped(done.len()));
        }
        i = i + 1;
    }
    assert(models.take(len as int) =~= models);
    assert(pairs(*items) =~= retyped_pairs(models, keys@));
    n
}

fn retype_properties(
    class: u32,
    props: &mut OrderedMap<BinProperty>,
    keys: &Vec<(u32, u32)>,
    files: &mut BTreeMap<u64, String>,
) -> (n: u32)
    ensures
        fields(*final(props)) == retyped_fields(class, fields(*old(props)), keys@),
        trailers(final(files)@) == with_paths(
            trailers(old(files)@),
            retype_texts_fields(class, fields(*old(props)), keys@),
        ),
        n == capped(retype_texts_fields(class, fields(*old(props)), keys@).len()),
    decreases *old(props),
{
    let ghost m0 = trailers(files@);
    let ghost before = *props;
    let ghost models = fields(before);
    let mut n: u32 = 0;
    let mut i: usize = 0;
    let len = props.entries.len();
    while i < len
        invariant
            before == *old(props),
            models == fields(before),
            len == before.entries@.len(),
            props.entries@.len() == len,
            i <= len,
            forall|j: int| i <= j < len ==> props.entries@[j] == before.entries@[j],
            retyped_fields(class, models.take(i as int), keys@).len() == i,
            forall|j: int| 0 <= j < i ==> (#[trigger] fields(*props)[j]) == retyped_fields(
                class,
                models.take(i as int),
                keys@,
            )[j],
            trailers(files@) == with_paths(m0, retype_texts_fields(class, models.take(i as int), keys@)),
            n == capped(retype_texts_fields(class, models.take(i as int), keys@).len()),
        decreases len - i,
    {
        let ghost done = retype_texts_fields(class, models.take(i as int), keys@);
        let ghost f = models[i as int];
        let ghost own = if keys@.contains((class, f.name)) { own_texts(f.value) } else { Seq::empty() };
        let ghost nested = retype_texts(f.value, keys@);
        proof {
            lemma_take_next(models, i as int);
            assert(decreases_to!(before => before.entries@[i as int]));
            lemma_with_paths_concat(m0, done, own);
            lemma_with_paths_concat(m0, done + own, nested);
            assert(done + Seq::<Seq<char>>::empty() =~= done);
        }
        let ghost mid = *props;
        let ghost n0 = n;
        let hit = is_target(keys, class, props.entries[i].1.name_hash.0);
        if hit {
            let k = note_own_texts(&props.entries[i].1.value, files);
            n = add_count(n, k);
            assert(n == capped((done.len() + own.len()) as nat)) by {
                assert(n0 == capped(done.len()));
            }
        }
        let ghost n1 = n;
        let k = retype_value(&mut props.entries[i].1.value, keys, files);
        if hit {
            convert_in_place(&mut props.entries[i].1.value);
        }
        n = add_count(n, k);
        proof {
            assert(n == capped((done.len() + own.len() + nested.len()) as nat)) by {
                assert(n1 == capped((done.len() + own.len()) as nat));
            }
            assert forall|j: int| 0 <= j < i implies (#[trigger] fields(*props)[j]) == fields(mid)[j] by {
                assert(props.entries@[j] == mid.entries@[j]);
            }
        }
        i = i + 1;
    }
    assert(models.take(len as int) =~= models);
    assert(fields(*props) =~= retyped_fields(class, models, keys@));
    n
}

/// Migrate every target field of a BIN file. Returns the number of texts migrated.
pub fn apply_to_tree(tree: &mut BinTree, targets: &Vec<ClassFieldTarget>) -> (n: u32)
    ensures
        ({
            let keys = target_keys(targets@);
            let os = objects(old(tree).objects);
            &&& objects(final(tree).objects) == retyped_objects(os, keys)
            &&& trailers(final(tree).trailer_files@) == with_paths(
                trailers(old(tree).trailer_files@),
                retype_texts_objects(os, keys),
            )
            &&& n == capped(retype_texts_objects(os, keys).len())
        }),
        final(tree).linked == old(tree).linked,
        final(tree).trailing == old(tree).trailing,
{
    let keys = resolve_targets(targets);
    let ghost m0 = trailers(tree.trailer_files@);
    let ghost before = tree.objects;
    let ghost os = objects(before);
    let ghost want = retyped_objects(os, keys@);
    let mut n: u32 = 0;
    let mut i: usize = 0;
    let len = tree.objects.entries.len();
    while i < len
        invariant
            keys@ == target_keys(targets@),
            os == objects(before),
            want == retyped_objects(os, keys@),
            len == before.entries@.len(),
            tree.objects.entries@.len() == len,
            tree.linked == old(tree).linked,
            tree.trailing == old(tree).trailing,
            i <= len,
            forall|j: int| i <= j < len ==> tree.objects.entries@[j] == before.entries@[j],
            forall|j: int| 0 <= j < i ==> (#[trigger] objects(tree.objects)[j]) == want[j],
            trailers(tree.trailer_files@) == with_paths(m0, retype_texts_objects(os.take(i as int), keys@)),
            n == capped(retype_texts_objects(os.take(i as int), keys@).len()),
        decreases len - i,
    {
        let ghost done = retype_texts_objects(os.take(i as int), keys@);
        let ghost o = os[i as int];
        let ghost more = retype_texts_fields(o.class, o.fields, keys@);
        let ghost mid = tree.objects;
        let ghost n0 = n;
        proof {
            lemma_take_next(os, i as int);
            lemma_with_paths_concat(m0, done, more);
            assert(o == object(mid.entries@[i as int].0, mid.entries@[i as int].1));
        }
        let class = tree.objects.entries[i].1.class_hash.0;
        let k = retype_properties(
            class,
            &mut tree.objects.entries[i].1.properties,
            &keys,
            &mut tree.trailer_files,
        );
        n = add_count(n, k);
        proof {
            assert(n == capped((done.len() + more.len()) as nat)) by {
                assert(n0 == capped(done.len()));
            }
            assert forall|j: int| 0 <= j < i + 1 implies (#[trigger] objects(tree.objects)[j]) == want[j] by {
                if j < i {
                    assert(tree.objects.entries@[j] == mid.entries@[j]);
                    assert(objects(mid)[j] == want[j]);
                }
            }
        }
        i = i + 1;
    }
    assert(os.take(i as int) =~= os);
    assert(objects(tree.objects) =~= want);
    n
}

/// Migrate every target field of the file under repair.
pub fn apply<H: HashProvider, W: WadProvider, G: GameProvider>(
    ctx: &mut FixContext<H, W, G>,
    targets: &Vec<ClassFieldTarget>,
) -> (n: u32)
    ensures
        ({
            let keys = target_keys(targets@);
            let os = objects(old(ctx).tree.objects);
            &&& objects(final(ctx).tree.objects) == retyped_objects(os, keys)
            &&& trailers(final(ctx).tree.trailer_files@) == with_paths(
                trailers(old(ctx).tree.trailer_files@),
                retype_texts_objects(os, keys),
            )
            &&& n == capped(retype_texts_objects(os, keys).len())
        }),
        final(ctx).tree.linked == old(ctx).tree.linked,
        final(ctx).tree.trailing == old(ctx).tree.trailing,
        same_but_tree(*final(ctx), *old(ctx)),
{
    apply_to_tree(&mut ctx.tree, targets)
}

fn collect_own<'a>(value: &'a PropertyValue, out: &mut Vec<&'a str>)
    ensures
        str_texts(final(out)@) == str_texts(old(out)@) + own_texts(val(*value)),
    decreases *value,
{
    let ghost before = str_texts(out@);
    match value {
        PropertyValue::String(s) => {
            out.push(s.as_str());
            assert(str_texts(out@) =~= before + own_texts(val(*value)));
        },
        PropertyValue::Optional(inner) => {
            match &**inner {
                Some(x) => collect_own(x, out),
                None => {
                    assert(str_texts(out@) =~= before + own_texts(val(*value)));
                },
            }
        },
        PropertyValue::Container(items) => collect_own_items(items, out),
        PropertyValue::UnorderedContainer(items) => collect_own_items(items, out),
        PropertyValue::Table(entries) => collect_own_pairs(entries, out),
        _ => {
            assert(str_texts(out@) =~= before + own_texts(val(*value)));
        },
    }
}

fn collect_own_items<'a>(items: &'a Vec<PropertyValue>, out: &mut Vec<&'a str>)
    ensures
        str_texts(final(out)@) == str_texts(old(out)@) + own_texts_items(vals(*items)),
    decreases *items,
{
    let ghost before = str_texts(out@);
    let ghost models = vals(*items);
    let mut i: usize = 0;
    assert(before + own_texts_items(models.take(0)) =~= before);
    while i < items.len()
        invariant
            models == vals(*items),
            i <= items@.len(),
            str_texts(out@) == before + own_texts_items(models.take(i as int)),
        decreases items@.len() - i,
    {
        proof {
            assert(decreases_to!(*items => items@[i as int]));
            lemma_take_next(models, i as int);
        }
        collect_own(&items[i], out);
        assert(str_texts(out@) =~= before + own_texts_items(models.take(i + 1)));
        i = i + 1;
    }
    assert(models.take(i as int) =~= models);
}

fn collect_own_pairs<'a>(items: &'a Vec<(PropertyValue, PropertyValue)>, out: &mut Vec<&'a str>)
    ensures
        str_texts(final(out)@) == str_texts(old(out)@) + own_texts_pairs(pairs(*items)),
    decreases *items,
{
    let ghost before = str_texts(out@);
    let ghost models = pairs(*items);
    let mut i: usize = 0;
    assert(before + own_texts_pairs(models.take(0)) =~= before);
    while i < items.len()
        invariant
            models == pairs(*items),
            i <= items@.len(),
            str_texts(out@) == before + own_texts_pairs(models.take(i as int)),
        decreases items@.len() - i,
    {
        proof {
            assert(decreases_to!(*items => items@[i as int]));
            lemma_take_next(models, i as int);
        }
        collect_own(&items[i].1, out);
        assert(str_texts(out@) =~= before + own_texts_pairs(models.take(i + 1)));
        i = i + 1;
    }
    assert(models.take(i as int) =~= models);
}

/// The first own text of a value.
fn first_string(value: &PropertyValue) -> (r: Option<&str>)
    ensures
        r is Some <==> own_texts(val(*value)).len() > 0,
        r matches Some(s) ==> s@ == own_texts(val(*value))[0],
{
    let mut found: Vec<&str> = Vec::new();
    collect_own(value, &mut found);
    let ghost ss = own_texts(val(*value));
    assert(str_texts(found@) =~= ss);
    if found.len() > 0 {
        assert(str_texts(found@)[0] == found@[0]@);
        Some(found[0])
    } else {
        None
    }
}

/// What of a property table is not migrated: class, field and first text of each.
pub open spec fn field_hit(class: u32, f: Field, keys: Seq<(u32, u32)>) -> Seq<((u32, u32), Seq<char>)> {
    if keys.contains((class, f.name)) && own_texts(f.value).len() > 0 {
        seq![((class, f.name), own_texts(f.value)[0])]
    } else {
        Seq::empty()
    }
}

/// The target fields inside a value that still hold text, each with a sample.
pub open spec fn hits_in(v: Val, keys: Seq<(u32, u32)>) -> Seq<((u32, u32), Seq<char>)>
    decreases v,
{
    match v {
        Val::Struct(c, fs) => hits_in_fields(c, fs, keys),
        Val::Embedded(c, fs) => hits_in_fields(c, fs, keys),
        Val::Container(items) => hits_in_items(items, keys),
        Val::UnorderedContainer(items) => hits_in_items(items, keys),
        Val::Present(x) => hits_in(*x, keys),
        Val::Table(entries) => hits_in_pairs(entries, keys),
        _ => Seq::empty(),
    }
}

/// The target fields inside a list of values that still hold text.
pub open spec fn hits_in_items(items: Seq<Val>, keys: Seq<(u32, u32)>) -> Seq<((u32, u32), Seq<char>)>
    decreases items,
{
    if items.len() == 0 {
        Seq::empty()
    } else {
        hits_in_items(items.drop_last(), keys) + hits_in(items.last(), keys)
    }
}

/// The target fields inside the values of a list of pairs that still hold text.
pub open spec fn hits_in_pairs(items: Seq<(Val, Val)>, keys: Seq<(u32, u32)>) -> Seq<((u32, u32), Seq<char>)>
    decreases items,
{
    if items.len() == 0 {
        Seq::empty()
    } else {
        hits_in_pairs(items.drop_last(), keys) + hits_in(items.last().1, keys)
    }
}

/// The target fields of a property table that still hold text, with those nested in it.
pub open spec fn hits_in_fields(class: u32, fs: Seq<Field>, keys: Seq<(u32, u32)>) -> Seq<((u32, u32), Seq<char>)>
    decreases fs,
{
    if fs.len() == 0 {
        Seq::empty()
    } else {
        hits_in_fields(class, fs.drop_last(), keys) + field_hit(class, fs.last(), keys) + hits_in(fs.last().value, keys)
    }
}

/// The target fields of the entries that still hold text.
pub open spec fn hits_in_objects(os: Seq<Object>, keys: Seq<(u32, u32)>) -> Seq<((u32, u32), Seq<char>)>
    decreases os.len(),
{
    if os.len() == 0 {
        Seq::empty()
    } else {
        hits_in_objects(os.drop_last(), keys) + hits_in_fields(os.last().class, os.last().fields, keys)
    }
}

/// The contents of a list of hits.
pub open spec fn hit_view(v: Seq<((u32, u32), String)>) -> Seq<((u32, u32), Seq<char>)> {
    v.map_values(|e: ((u32, u32), String)| (e.0, e.1@))
}

fn collect_hits(value: &PropertyValue, keys: &Vec<(u32, u32)>, out: &mut Vec<((u32, u32), String)>)
    ensures
        hit_view(final(out)@) == hit_view(old(out)@) + hits_in(val(*value), keys@),
    decreases *value,
{
    let ghost before = hit_view(out@);
    match value {
        PropertyValue::Struct(s) => collect_hits_properties(s.class_hash.0, &s.properties, keys, out),
        PropertyValue::Embedded(s) => collect_hits_properties(s.class_hash.0, &s.properties, keys, out),
        PropertyValue::Container(items) => collect_hits_items(items, keys, out),
        PropertyValue::UnorderedContainer(items) => collect_hits_items(items, keys, out),
        PropertyValue::Optional(inner) => {
            match &**inner {
                Some(x) => collect_hits(x, keys, out),
                None => {
                    assert(hit_view(out@) =~= before + hits_in(val(*value), keys@));
                },
            }
        },
        PropertyValue::Table(entries) => collect_hits_pairs(entries, keys, out),
        _ => {
            assert(hit_view(out@) =~= before + hits_in(val(*value), keys@));
        },
    }
}

fn collect_hits_items(items: &Vec<PropertyValue>, keys: &Vec<(u32, u32)>, out: &mut Vec<((u32, u32), String)>)
    ensures
        hit_view(final(out)@) == hit_view(old(out)@) + hits_in_items(vals(*items), keys@),
    decreases *items,
{
    let ghost before = hit_view(out@);
    let ghost models = vals(*items);
    let mut i: usize = 0;
    assert(before + hits_in_items(models.take(0), keys@) =~= before);
    while i < items.len()
        invariant
            models == vals(*items),
            i <= items@.len(),
            hit_view(out@) == before + hits_in_items(models.take(i as int), keys@),
        decreases items@.len() - i,
    {
        proof {
            assert(decreases_to!(*items => items@[i as int]));
            lemma_take_next(models, i as int);
        }
        collect_hits(&items[i], keys, out);
        assert(hit_view(out@) =~= before + hits_in_items(models.take(i + 1), keys@));
        i = i + 1;
    }
    assert(models.take(i as int) =~= models);
}

fn collect_hits_pairs(items: &Vec<(PropertyValue, PropertyValue)>, keys: &Vec<(u32, u32)>, out: &mut Vec<((u32, u32), String)>)
    ensures
        hit_view(final(out)@) == hit_view(old(out)@) + hits_in_pairs(pairs(*items), keys@),
    decreases *items,
{
    let ghost before = hit_view(out@);
    let ghost models = pairs(*items);
    let mut i: usize = 0;
    assert(before + hits_in_pairs(models.take(0), keys@) =~= before);
    while i < items.len()
        invariant
            models == pairs(*items),
            i <= items@.len(),
            hit_view(out@) == before + hits_in_pairs(models.take(i as int), keys@),
        decreases items@.len() - i,
    {
        proof {
            assert(decreases_to!(*items => items@[i as int]));
            lemma_take_next(models, i as int);
        }
        collect_hits(&items[i].1, keys, out);
        assert(hit_view(out@) =~= before + hits_in_pairs(models.take(i + 1), keys@));
        i = i + 1;
    }
    assert(models.take(i as int) =~= models);
}

fn collect_hits_properties(
    class: u32,
    props: &OrderedMap<BinProperty>,
    keys: &Vec<(u32, u32)>,
    out: &mut Vec<((u32, u32), String)>,
)
    ensures
        hit_view(final(out)@) == hit_view(old(out)@) + hits_in_fields(class, fields(*props), keys@),
    decreases *props,
{
    let ghost before = hit_view(out@);
    let ghost models = fields(*props);
    let mut i: usize = 0;
    assert(before + hits_in_fields(class, models.take(0), keys@) =~= before);
    while i < props.entries.len()
        invariant
            models == fields(*props),
            i <= props.entries@.len(),
            hit_view(out@) == before + hits_in_fields(class, models.take(i as int), keys@),
        decreases props.entries@.len() - i,
    {
        proof {
            assert(decreases_to!(*props => props.entries@[i as int]));
            lemma_take_next(models, i as int);
        }
        let ghost mid = hit_view(out@);
        let ghost f = models[i as int];
        let p = &props.entries[i].1;
        let name = p.name_hash.0;
        if is_target(keys, class, name) {
            if let Some(sample) = first_string(&p.value) {
                out.push(((class, name), sample.to_owned()));
            }
        }
        assert(hit_view(out@) =~= mid + field_hit(class, f, keys@));
        collect_hits(&p.value, keys, out);
        assert(hit_view(out@) =~= before + hits_in_fields(class, models.take(i + 1), keys@));
        i = i + 1;
    }
    assert(models.take(i as int) =~= models);
}

/// The target fields of the file that still hold text, in order, each with a sample.
pub fn detect_hits(tree: &BinTree, targets: &Vec<ClassFieldTarget>) -> (r: Vec<((u32, u32), String)>)
    ensures
        hit_view(r@) == hits_in_objects(objects(tree.objects), target_keys(targets@)),
{
    let keys = resolve_targets(targets);
    let ghost os = objects(tree.objects);
    let mut out: Vec<((u32, u32), String)> = Vec::new();
    let mut i: usize = 0;
    assert(hit_view(out@) =~= hits_in_objects(os.take(0), keys@));
    while i < tree.objects.entries.len()
        invariant
            os == objects(tree.objects),
            i <= tree.objects.entries@.len(),
            hit_view(out@) == hits_in_objects(os.take(i as int), keys@),
        decreases tree.objects.entries@.len() - i,
    {
        proof {
            lemma_take_next(os, i as int);
        }
        let o = &tree.objects.entries[i].1;
        assert(os[i as int] == object(tree.objects.entries@[i as int].0, *o));
        collect_hits_properties(o.class_hash.0, &o.properties, &keys, &mut out);
        i = i + 1;
    }
    assert(os.take(i as int) =~= os);
    out
}

/// `i` is the first hit on a class and field.
pub open spec fn is_first_hit(hits: Seq<((u32, u32), Seq<char>)>, key: (u32, u32), i: int) -> bool {
    0 <= i < hits.len() && hits[i].0 == key && forall|j: int| 0 <= j < i ==> (#[trigger] hits[j]).0 != key
}

/// The sample of the first hit on a class and field.
pub open spec fn first_hit(hits: Seq<((u32, u32), Seq<char>)>, key: (u32, u32)) -> Option<Seq<char>> {
    if exists|i: int| is_first_hit(hits, key, i) {
        Some(hits[choose|i: int| is_first_hit(hits, key, i)].1)
    } else {
        None
    }
}

/// The sample of the first hit on a class and field.
pub fn find_hit(hits: &Vec<((u32, u32), String)>, key: (u32, u32)) -> (r: Option<&String>)
    ensures
        r is Some <==> first_hit(hit_view(hits@), key) is Some,
        r matches Some(s) ==> first_hit(hit_view(hits@), key) == Some(s@),
{
    let ghost h = hit_view(hits@);
    let mut i: usize = 0;
    while i < hits.len()
        invariant
            h == hit_view(hits@),
            i <= hits@.len(),
            forall|j: int| 0 <= j < i ==> (#[trigger] h[j]).0 != key,
        decreases hits@.len() - i,
    {
        let k = hits[i].0;
        assert(h[i as int].0 == k);
        if k.0 == key.0 && k.1 == key.1 {
            assert(is_first_hit(h, key, i as int));
            let ghost m = choose|m: int| is_first_hit(h, key, m);
            assert(is_first_hit(h, key, m));
            assert(m == i) by {
                if m < i {
                    assert(h[m].0 != key);
                }
                if m > i {
                    assert(h[i as int].0 != key);
                }
            }
            return Some(&hits[i].1);
        }
        i = i + 1;
    }
    assert(forall|m: int| !is_first_hit(h, key, m));
    None
}

/// Whether some target field of the file still holds text.
pub fn detect(tree: &BinTree, targets: &Vec<ClassFieldTarget>) -> (r: bool)
    ensures
        r == (hits_in_objects(objects(tree.objects), target_keys(targets@)).len() > 0),
{
    let hits = detect_hits(tree, targets);
    assert(hit_view(hits@).len() == hits@.len());
    hits.len() > 0
}

proof fn lemma_converted_plain(v: Val)
    ensures
        own_texts(converted(v)).len() == 0,
    decreases v,
{
    match v {
        Val::Present(x) => lemma_converted_plain(*x),
        Val::Container(items) => lemma_converted_plain_items(items),
        Val::UnorderedContainer(items) => lemma_converted_plain_items(items),
        Val::Table(entries) => lemma_converted_plain_pairs(entries),
        _ => {},
    }
}

proof fn lemma_converted_plain_items(items: Seq<Val>)
    ensures
        own_texts_items(converted_items(items)).len() == 0,
    decreases items,
{
    if items.len() > 0 {
        lemma_converted_plain_items(items.drop_last());
        lemma_converted_plain(items.last());
        assert(converted_items(items).drop_last() =~= converted_items(items.drop_last()));
    }
}

proof fn lemma_converted_plain_pairs(items: Seq<(Val, Val)>)
    ensures
        own_texts_pairs(converted_pairs(items)).len() == 0,
    decreases items,
{
    if items.len() > 0 {
        lemma_converted_plain_pairs(items.drop_last());
        lemma_converted_plain(items.last().1);
        assert(converted_pairs(items).drop_last() =~= converted_pairs(items.drop_last()));
    }
}

/// Conversion of own texts changes nothing about what is nested in class instances.
proof fn lemma_converted_hits(v: Val, keys: Seq<(u32, u32)>)
    ensures
        hits_in(converted(v), keys) == hits_in(v, keys),
    decreases v,
{
    match v {
        Val::Present(x) => lemma_converted_hits(*x, keys),
        Val::Container(items) => lemma_converted_hits_items(items, keys),
        Val::UnorderedContainer(items) => lemma_converted_hits_items(items, keys),
        Val::Table(entries) => lemma_converted_hits_pairs(entries, keys),
        _ => {},
    }
}

proof fn lemma_converted_hits_items(items: Seq<Val>, keys: Seq<(u32, u32)>)
    ensures
        hits_in_items(converted_items(items), keys) == hits_in_items(items, keys),
    decreases items,
{
    if items.len() > 0 {
        lemma_converted_hits_items(items.drop_last(), keys);
        lemma_converted_hits(items.last(), keys);
        assert(converted_items(items).drop_last() =~= converted_items(items.drop_last()));
    }
}

proof fn lemma_converted_hits_pairs(items: Seq<(Val, Val)>, keys: Seq<(u32, u32)>)
    ensures
        hits_in_pairs(converted_pairs(items), keys) == hits_in_pairs(items, keys),
    decreases items,
{
    if items.len() > 0 {
        lemma_converted_hits_pairs(items.drop_last(), keys);
        lemma_converted_hits(items.last().1, keys);
        assert(converted_pairs(items).drop_last() =~= converted_pairs(items.drop_last()));
    }
}

proof fn lemma_retyped_clean(v: Val, keys: Seq<(u32, u32)>)
    ensures
        hits_in(retyped(v, keys), keys).len() == 0,
    decreases v,
{
    match v {
        Val::Struct(c, fs) => lemma_retyped_clean_fields(c, fs, keys),
        Val::Embedded(c, fs) => lemma_retyped_clean_fields(c, fs, keys),
        Val::Container(items) => lemma_retyped_clean_items(items, keys),
        Val::UnorderedContainer(items) => lemma_retyped_clean_items(items, keys),
        Val::Present(x) => lemma_retyped_clean(*x, keys),
        Val::Table(entries) => lemma_retyped_clean_pairs(entries, keys),
        _ => {},
    }
}

proof fn lemma_retyped_clean_items(items: Seq<Val>, keys: Seq<(u32, u32)>)
    ensures
        hits_in_items(retyped_items(items, keys), keys).len() == 0,
    decreases items,
{
    if items.len() > 0 {
        lemma_retyped_clean_items(items.drop_last(), keys);
        lemma_retyped_clean(items.last(), keys);
        assert(retyped_items(items, keys).drop_last() =~= retyped_items(items.drop_last(), keys));
    }
}

proof fn lemma_retyped_clean_pairs(items: Seq<(Val, Val)>, keys: Seq<(u32, u32)>)
    ensures
        hits_in_pairs(retyped_pairs(items, keys), keys).len() == 0,
    decreases items,
{
    if items.len() > 0 {
        lemma_retyped_clean_pairs(items.drop_last(), keys);
        lemma_retyped_clean(items.last().1, keys);
        assert(retyped_pairs(items, keys).drop_last() =~= retyped_pairs(items.drop_last(), keys));
    }
}

proof fn lemma_retyped_clean_fields(class: u32, fs: Seq<Field>, keys: Seq<(u32, u32)>)
    ensures
        hits_in_fields(class, retyped_fields(class, fs, keys), keys).len() == 0,
    decreases fs,
{
    if fs.len() > 0 {
        lemma_retyped_clean_fields(class, fs.drop_last(), keys);
        let f = fs.last();
        lemma_retyped_clean(f.value, keys);
        let inner = retyped(f.value, keys);
        lemma_converted_plain(inner);
        lemma_converted_hits(inner, keys);
        let out = retyped_fields(class, fs, keys);
        assert(out.drop_last() =~= retyped_fields(class, fs.drop_last(), keys));
    }
}

/// A migrated file holds no text in a target field: the rule that found the defect no
/// longer fires, and a second migration has nothing to do.
pub proof fn law_migration_is_complete(os: Seq<Object>, keys: Seq<(u32, u32)>)
    ensures
        hits_in_objects(retyped_objects(os, keys), keys).len() == 0,
    decreases os.len(),
{
    if os.len() > 0 {
        law_migration_is_complete(os.drop_last(), keys);
        let o = os.last();
        lemma_retyped_clean_fields(o.class, o.fields, keys);
        let out = retyped_objects(os, keys);
        assert(out.drop_last() =~= retyped_objects(os.drop_last(), keys));
    }
}

proof fn lemma_hits_iff_texts(v: Val, keys: Seq<(u32, u32)>)
    ensures
        hits_in(v, keys).len() == 0 <==> retype_texts(v, keys).len() == 0,
    decreases v,
{
    match v {
        Val::Struct(c, fs) => lemma_hits_iff_texts_fields(c, fs, keys),
        Val::Embedded(c, fs) => lemma_hits_iff_texts_fields(c, fs, keys),
        Val::Container(items) => lemma_hits_iff_texts_items(items, keys),
        Val::UnorderedContainer(items) => lemma_hits_iff_texts_items(items, keys),
        Val::Present(x) => lemma_hits_iff_texts(*x, keys),
        Val::Table(entries) => lemma_hits_iff_texts_pairs(entries, keys),
        _ => {},
    }
}

proof fn lemma_hits_iff_texts_items(items: Seq<Val>, keys: Seq<(u32, u32)>)
    ensures
        hits_in_items(items, keys).len() == 0 <==> retype_texts_items(items, keys).len() == 0,
    decreases items,
{
    if items.len() > 0 {
        lemma_hits_iff_texts_items(items.drop_last(), keys);
        lemma_hits_iff_texts(items.last(), keys);
    }
}

proof fn lemma_hits_iff_texts_pairs(items: Seq<(Val, Val)>, keys: Seq<(u32, u32)>)
    ensures
        hits_in_pairs(items, keys).len() == 0 <==> retype_texts_pairs(items, keys).len() == 0,
    decreases items,
{
    if items.len() > 0 {
        lemma_hits_iff_texts_pairs(items.drop_last(), keys);
        lemma_hits_iff_texts(items.last().1, keys);
    }
}

proof fn lemma_hits_iff_texts_fields(class: u32, fs: Seq<Field>, keys: Seq<(u32, u32)>)
    ensures
        hits_in_fields(class, fs, keys).len() == 0 <==> retype_texts_fields(class, fs, keys).len() == 0,
    decreases fs,
{
    if fs.len() > 0 {
        lemma_hits_iff_texts_fields(class, fs.drop_last(), keys);
        lemma_hits_iff_texts(fs.last().value, keys);
    }
}

/// The migration rule fires exactly where the migration changes something.
pub proof fn law_detected_iff_migrated(os: Seq<Object>, keys: Seq<(u32, u32)>)
    ensures
        hits_in_objects(os, keys).len() > 0 <==> retype_texts_objects(os, keys).len() > 0,
    decreases os.len(),
{
    if os.len() > 0 {
        law_detected_iff_migrated(os.drop_last(), keys);
        lemma_hits_iff_texts_fields(os.last().class, os.last().fields, keys);
    }
}

proof fn lemma_retyped_fields_at(class: u32, fs: Seq<Field>, keys: Seq<(u32, u32)>, i: int)
    requires
        0 <= i < fs.len(),
    ensures
        retyped_fields(class, fs, keys).len() == fs.len(),
        retyped_fields(class, fs, keys)[i] == (Field {
            key: fs[i].key,
            name: fs[i].name,
            value: if keys.contains((class, fs[i].name)) {
                converted(retyped(fs[i].value, keys))
            } else {
                retyped(fs[i].value, keys)
            },
        }),
    decreases fs.len(),
{
    let head = fs.drop_last();
    lemma_retyped_len(class, head, keys);
    if i < head.len() {
        assert(head[i] == fs[i]);
        lemma_retyped_fields_at(class, head, keys, i);
    }
}

proof fn lemma_retyped_len(class: u32, fs: Seq<Field>, keys: Seq<(u32, u32)>)
    ensures
        retyped_fields(class, fs, keys).len() == fs.len(),
    decreases fs.len(),
{
    if fs.len() > 0 {
        lemma_retyped_len(class, fs.drop_last(), keys);
    }
}

proof fn lemma_retyped_items_len(items: Seq<Val>, keys: Seq<(u32, u32)>)
    ensures
        retyped_items(items, keys).len() == items.len(),
        forall|i: int| 0 <= i < items.len() ==> #[trigger] retyped_items(items, keys)[i] == retyped(items[i], keys),
    decreases items.len(),
{
    if items.len() > 0 {
        lemma_retyped_items_len(items.drop_last(), keys);
    }
}

proof fn lemma_retyped_pairs_len(items: Seq<(Val, Val)>, keys: Seq<(u32, u32)>)
    ensures
        retyped_pairs(items, keys).len() == items.len(),
        forall|i: int|
            0 <= i < items.len() ==> #[trigger] retyped_pairs(items, keys)[i] == (items[i].0, retyped(items[i].1, keys)),
    decreases items.len(),
{
    if items.len() > 0 {
        lemma_retyped_pairs_len(items.drop_last(), keys);
    }
}

proof fn lemma_converted_items_len(items: Seq<Val>)
    ensures
        converted_items(items).len() == items.len(),
        forall|i: int| 0 <= i < items.len() ==> #[trigger] converted_items(items)[i] == converted(items[i]),
    decreases items.len(),
{
    if items.len() > 0 {
        lemma_converted_items_len(items.drop_last());
    }
}

/// A path in a field that the game moved to hashes becomes the hash of the file, alone or
/// as an item of a list; other fields of the same table, and the keys and the order of all
/// of them, stay.
pub proof fn law_moved_fields_become_hashes(class: u32, fs: Seq<Field>, keys: Seq<(u32, u32)>, i: int)
    requires
        0 <= i < fs.len(),
    ensures
        ({
            let r = retyped_fields(class, fs, keys);
            let moved = keys.contains((class, fs[i].name));
            &&& r.len() == fs.len()
            &&& r[i].key == fs[i].key && r[i].name == fs[i].name
            &&& fs[i].value matches Val::Text(s) ==> r[i].value == (if moved {
                Val::Leaf(PropertyValue::WadHash(path_hash(s)))
            } else {
                fs[i].value
            })
            &&& fs[i].value is Leaf || fs[i].value is Absent ==> r[i].value == fs[i].value
            &&& fs[i].value matches Val::Container(items) ==> (r[i].value is Container && r[i].value->Container_0.len() == items.len()
                && forall|k: int|
                0 <= k < items.len() && (#[trigger] items[k]) is Text ==> r[i].value->Container_0[k] == (if moved {
                    Val::Leaf(PropertyValue::WadHash(path_hash(items[k]->Text_0)))
                } else {
                    items[k]
                }))
            &&& fs[i].value matches Val::UnorderedContainer(items) ==> (r[i].value is UnorderedContainer
                && r[i].value->UnorderedContainer_0.len() == items.len() && forall|k: int|
                0 <= k < items.len() && (#[trigger] items[k]) is Text ==> r[i].value->UnorderedContainer_0[k] == (if moved {
                    Val::Leaf(PropertyValue::WadHash(path_hash(items[k]->Text_0)))
                } else {
                    items[k]
                }))
            &&& fs[i].value matches Val::Present(x) ==> (*x is Text && moved ==> r[i].value == Val::Present(
                Box::new(Val::Leaf(PropertyValue::WadHash(path_hash((*x)->Text_0)))),
            ))
        }),
{
    lemma_retyped_fields_at(class, fs, keys, i);
    reveal_with_fuel(retyped, 3);
    reveal_with_fuel(converted, 3);
    match fs[i].value {
        Val::Container(items) => {
            lemma_retyped_items_len(items, keys);
            lemma_converted_items_len(retyped_items(items, keys));
        },
        Val::UnorderedContainer(items) => {
            lemma_retyped_items_len(items, keys);
            lemma_converted_items_len(retyped_items(items, keys));
        },
        _ => {},
    }
}

/// Tables at any depth are migrated by their own class: what lies in a list, in a map, in
/// an option or in a field of a table is itself migrated in its place.
pub proof fn law_migration_goes_down(part: Val, whole: Val, keys: Seq<(u32, u32)>, i: int)
    ensures
        whole matches Val::Container(items) ==> (0 <= i < items.len() && items[i] == part ==> retyped(whole, keys) is Container
            && retyped(whole, keys)->Container_0[i] == retyped(part, keys)),
        whole matches Val::UnorderedContainer(items) ==> (0 <= i < items.len() && items[i] == part ==> retyped(
            whole,
            keys,
        ) is UnorderedContainer && retyped(whole, keys)->UnorderedContainer_0[i] == retyped(part, keys)),
        whole matches Val::Table(entries) ==> (0 <= i < entries.len() && entries[i].1 == part ==> retyped(whole, keys) is Table
            && retyped(whole, keys)->Table_0[i] == (entries[i].0, retyped(part, keys))),
        whole matches Val::Present(x) ==> (*x == part ==> retyped(whole, keys) == Val::Present(Box::new(retyped(part, keys)))),
        whole matches Val::Struct(c, fs) ==> (0 <= i < fs.len() && fs[i].value == part && (part is Struct || part is Embedded)
            ==> retyped(whole, keys) == Val::Struct(c, retyped_fields(c, fs, keys)) && retyped_fields(c, fs, keys)[i].value
            == retyped(part, keys)),
        whole matches Val::Embedded(c, fs) ==> (0 <= i < fs.len() && fs[i].value == part && (part is Struct || part is Embedded)
            ==> retyped(whole, keys) == Val::Embedded(c, retyped_fields(c, fs, keys)) && retyped_fields(c, fs, keys)[i].value
            == retyped(part, keys)),
{
    match whole {
        Val::Container(items) => lemma_retyped_items_len(items, keys),
        Val::UnorderedContainer(items) => lemma_retyped_items_len(items, keys),
        Val::Table(entries) => lemma_retyped_pairs_len(entries, keys),
        Val::Struct(c, fs) => {
            if 0 <= i < fs.len() {
                lemma_retyped_fields_at(c, fs, keys, i);
            }
        },
        Val::Embedded(c, fs) => {
            if 0 <= i < fs.len() {
                lemma_retyped_fields_at(c, fs, keys, i);
            }
        },
        _ => {},
    }
}

/// The file remembers every path that became a hash: its table of file names has an entry
/// under that hash, with a path of that hash, and loses none.
pub proof fn law_migrated_paths_are_remembered(m: Map<u64, Seq<char>>, ss: Seq<Seq<char>>, s: Seq<char>, h: u64)
    ensures
        ss.contains(s) ==> with_paths(m, ss).dom().contains(path_hash(s)) && path_hash(with_paths(m, ss)[path_hash(s)]) == path_hash(
            s,
        ) && ss.contains(with_paths(m, ss)[path_hash(s)]),
        m.dom().contains(h) ==> with_paths(m, ss).dom().contains(h),
        m.dom().contains(h) && (forall|i: int| 0 <= i < ss.len() ==> path_hash(#[trigger] ss[i]) != h) ==> with_paths(m, ss)[h]
            == m[h],
    decreases ss.len(),
{
    if ss.len() > 0 {
        let head = ss.drop_last();
        law_migrated_paths_are_remembered(m, head, s, h);
        assert(head.push(ss.last()) =~= ss);
        lemma_push_contains(head, ss.last(), s);
        lemma_push_contains(head, ss.last(), ss.last());
        if head.contains(s) {
            lemma_push_contains(head, ss.last(), with_paths(m, head)[path_hash(s)]);
        }
        if forall|i: int| 0 <= i < ss.len() ==> path_hash(#[trigger] ss[i]) != h {
            assert(ss.last() == ss[ss.len() - 1]);
            assert forall|i: int| 0 <= i < head.len() implies path_hash(#[trigger] head[i]) != h by {
                assert(head[i] == ss[i]);
            }
        }
    }
}

proof fn lemma_retype_texts_field(class: u32, fs: Seq<Field>, keys: Seq<(u32, u32)>, i: int, s: Seq<char>)
    requires
        0 <= i < fs.len(),
        fs[i].value == Val::Text(s),
        keys.contains((class, fs[i].name)),
    ensures
        retype_texts_fields(class, fs, keys).contains(s),
    decreases fs.len(),
{
    let head = fs.drop_last();
    let f = fs.last();
    let own = if keys.contains((class, f.name)) { own_texts(f.value) } else { Seq::empty() };
    lemma_sum_contains(retype_texts_fields(class, head, keys), own, s);
    lemma_sum_contains(retype_texts_fields(class, head, keys) + own, retype_texts(f.value, keys), s);
    if i < head.len() {
        assert(head[i] == fs[i]);
        lemma_retype_texts_field(class, head, keys, i, s);
    } else {
        assert(own[0] == s);
    }
}

/// A path in a moved field of an entry counts as one that became a hash.
pub proof fn law_entry_paths_are_migrated(os: Seq<Object>, keys: Seq<(u32, u32)>, j: int, i: int, s: Seq<char>)
    requires
        0 <= j < os.len(),
        0 <= i < os[j].fields.len(),
        os[j].fields[i].value == Val::Text(s),
        keys.contains((os[j].class, os[j].fields[i].name)),
    ensures
        retype_texts_objects(os, keys).contains(s),
        retyped_objects(os, keys).len() == os.len(),
        retyped_objects(os, keys)[j].fields[i].value == Val::Leaf(PropertyValue::WadHash(path_hash(s))),
    decreases os.len(),
{
    let head = os.drop_last();
    law_moved_fields_become_hashes(os[j].class, os[j].fields, keys, i);
    lemma_sum_contains(retype_texts_objects(head, keys), retype_texts_fields(os.last().class, os.last().fields, keys), s);
    if j < head.len() {
        assert(head[j] == os[j]);
        law_entry_paths_are_migrated(head, keys, j, i, s);
    } else {
        lemma_retype_texts_field(os[j].class, os[j].fields, keys, i, s);
    }
}

} // verus!
