//! The detection rules that a BIN tree, the hash dictionary and the mod's archive
//! decide between them.

use std::collections::HashSet;
use vstd::prelude::*;
use vstd::string::*;
use crate::bin::{
    field_keys, fields, lemma_field_keys, lemma_no_slot, object, objects, slot, val, vals, BinObject, BinProperty, BinTree, Field, FieldHash, Object,
    OrderedMap, PropertyValue, StructValue, Val,
};
use crate::config::{DetectionRule, EntryValidationTarget};
use crate::factory::{json_matches, matches_json, JsonValue};
use crate::links::{links_in_fields, links_of_properties, Tables};
use crate::text::{
    ascii_lowered, begins, ends, ends_with, lemma_pieces_plain, lowered, number, parse_number, pieces, same, split, starts_with, texts, to_ascii_lower,
    to_lower, trim_start, trimmed_start,
};
use crate::diagnostic::opt_text;
use crate::traits::{HashProvider, WadProvider};
use crate::walk::{str_texts, string_refs, strings_in_objects};

verus! {

/// A property table lacks a field, or holds it with another value than the expected.
pub open spec fn field_wrong<H: HashProvider>(fs: Seq<Field>, hashes: H, field: Seq<char>, expected: Option<JsonValue>) -> bool {
    match hashes.hash_of_field(field) {
        None => true,
        Some(fh) => match slot(field_keys(fs), fh) {
            None => true,
            Some(k) => match expected {
                Some(e) => !json_matches(fs[k].value, e),
                None => false,
            },
        },
    }
}

/// The property holds an embedded instance of a class.
pub open spec fn embeds(f: Field, class: u32) -> bool {
    match f.value {
        Val::Embedded(c, _) => c == class,
        _ => false,
    }
}

/// The embedded instance that the property holds lacks the field or holds it wrong.
pub open spec fn embed_wrong<H: HashProvider>(f: Field, hashes: H, field: Seq<char>, expected: Option<JsonValue>) -> bool {
    match f.value {
        Val::Embedded(_, fs) => field_wrong(fs, hashes, field, expected),
        _ => false,
    }
}

/// The entry lacks the field: in some embedded instance of `embed_type`, or in the one
/// under `embed_path`, or directly. Where the first is asked for, an entry without any
/// such instance lacks it too. A value that is not the expected one counts as lacking in
/// an embedded instance, and not directly.
pub open spec fn entry_lacks<H: HashProvider>(
    o: Object,
    hashes: H,
    embed_path: Option<Seq<char>>,
    embed_type: Option<Seq<char>>,
    field: Seq<char>,
    expected: Option<JsonValue>,
) -> bool {
    match embed_type {
        Some(et) => match hashes.hash_of_type(et) {
            None => false,
            Some(class) => {
                ||| forall|i: int| 0 <= i < o.fields.len() ==> !embeds(#[trigger] o.fields[i], class)
                ||| exists|i: int|
                    0 <= i < o.fields.len() && embeds(#[trigger] o.fields[i], class) && embed_wrong(
                        o.fields[i],
                        hashes,
                        field,
                        expected,
                    )
            },
        },
        None => match embed_path {
            Some(ep) => match hashes.hash_of_field(ep) {
                None => false,
                Some(eh) => match slot(field_keys(o.fields), eh) {
                    None => false,
                    Some(k) => match o.fields[k].value {
                        Val::Embedded(_, fs) => hashes.hash_of_field(field) is Some && field_wrong(
                            fs,
                            hashes,
                            field,
                            expected,
                        ),
                        _ => false,
                    },
                },
            },
            None => match hashes.hash_of_field(field) {
                Some(fh) => slot(field_keys(o.fields), fh) is None,
                None => false,
            },
        },
    }
}

fn is_field_wrong<H: HashProvider>(props: &OrderedMap<BinProperty>, hashes: &H, field: &str, expected: &Option<JsonValue>) -> (r: bool)
    ensures
        r == field_wrong(fields(*props), *hashes, field@, *expected),
{
    proof {
        lemma_field_keys(*props);
    }
    match hashes.field_hash(field) {
        None => true,
        Some(fh) => match props.find(fh.0) {
            None => true,
            Some(k) => match expected {
                Some(e) => !matches_json(&props.entries[k].1.value, e),
                None => false,
            },
        },
    }
}

#[verifier::loop_isolation(false)]
fn lacks_field<H: HashProvider>(
    o: &BinObject,
    hashes: &H,
    embed_path: &Option<String>,
    embed_type: &Option<String>,
    field: &str,
    expected: &Option<JsonValue>,
) -> (r: bool)
    ensures
        forall|key: u32| r == entry_lacks(
            #[trigger] object(key, *o),
            *hashes,
            opt_text(*embed_path),
            opt_text(*embed_type),
            field@,
            *expected,
        ),
{
    let ghost fs = fields(o.properties);
    match embed_type {
        Some(et) => {
            let class = match hashes.type_hash(et.as_str()) {
                Some(h) => h.0,
                None => {
                    return false;
                },
            };
            let mut found = false;
            let mut wrong = false;
            let mut i: usize = 0;
            while i < o.properties.entries.len()
                invariant
                    fs == fields(o.properties),
                    i <= o.properties.entries@.len(),
                    found == (exists|j: int| 0 <= j < i && embeds(#[trigger] fs[j], class)),
                    wrong == (exists|j: int|
                        0 <= j < i && embeds(#[trigger] fs[j], class) && embed_wrong(fs[j], *hashes, field@, *expected)),
                decreases o.properties.entries@.len() - i,
            {
                let ghost f = fs[i as int];
                assert(f.value == val(o.properties.entries@[i as int].1.value));
                if let PropertyValue::Embedded(s) = &o.properties.entries[i].1.value {
                    if s.class_hash.0 == class {
                        assert(embeds(fs[i as int], class));
                        found = true;
                        if is_field_wrong(&s.properties, hashes, field, expected) {
                            assert(embed_wrong(fs[i as int], *hashes, field@, *expected));
                            wrong = true;
                        }
                    }
                }
                i = i + 1;
            }
            wrong || !found
        },
        None => match embed_path {
            Some(ep) => {
                proof {
                    lemma_field_keys(o.properties);
                }
                match hashes.field_hash(ep.as_str()) {
                    None => false,
                    Some(eh) => match o.properties.find(eh.0) {
                        None => false,
                        Some(k) => match &o.properties.entries[k].1.value {
                            PropertyValue::Embedded(s) => hashes.field_hash(field).is_some() && is_field_wrong(
                                &s.properties,
                                hashes,
                                field,
                                expected,
                            ),
                            _ => false,
                        },
                    },
                }
            },
            None => match hashes.field_hash(field) {
                Some(fh) => {
                    proof {
                        lemma_field_keys(o.properties);
                    }
                    o.properties.find(fh.0).is_none()
                },
                None => false,
            },
        },
    }
}

/// Some entry of the type lacks the field.
pub open spec fn missing_or_wrong_field<H: HashProvider>(
    os: Seq<Object>,
    hashes: H,
    entry_type: Seq<char>,
    embed_path: Option<Seq<char>>,
    embed_type: Option<Seq<char>>,
    field: Seq<char>,
    expected: Option<JsonValue>,
) -> bool {
    hashes.loaded() && match hashes.hash_of_type(entry_type) {
        None => false,
        Some(t) => exists|i: int|
            0 <= i < os.len() && (#[trigger] os[i]).class == t && entry_lacks(
                os[i],
                hashes,
                embed_path,
                embed_type,
                field,
                expected,
            ),
    }
}

#[verifier::loop_isolation(false)]
fn detect_missing_or_wrong_field<H: HashProvider>(
    tree: &BinTree,
    hashes: &H,
    entry_type: &str,
    embed_path: &Option<String>,
    embed_type: &Option<String>,
    field: &str,
    expected_value: &Option<JsonValue>,
) -> (r: bool)
    ensures
        r == missing_or_wrong_field(
            objects(tree.objects),
            *hashes,
            entry_type@,
            opt_text(*embed_path),
            opt_text(*embed_type),
            field@,
            *expected_value,
        ),
{
    if !hashes.is_loaded() {
        return false;
    }
    let class = match hashes.type_hash(entry_type) {
        Some(h) => h.0,
        None => {
            return false;
        },
    };
    let ghost os = objects(tree.objects);
    let mut i: usize = 0;
    while i < tree.objects.entries.len()
        invariant
            os == objects(tree.objects),
            i <= tree.objects.entries@.len(),
            forall|j: int|
                0 <= j < i && (#[trigger] os[j]).class == class ==> !entry_lacks(
                    os[j],
                    *hashes,
                    opt_text(*embed_path),
                    opt_text(*embed_type),
                    field@,
                    *expected_value,
                ),
        decreases tree.objects.entries@.len() - i,
    {
        let o = &tree.objects.entries[i].1;
        assert(os[i as int] == object(tree.objects.entries@[i as int].0, *o));
        if o.class_hash.0 == class && lacks_field(o, hashes, embed_path, embed_type, field, expected_value) {
            return true;
        }
        i = i + 1;
    }
    false
}

/// The dictionary names this field like that, in any case.
pub open spec fn named<H: HashProvider>(hashes: H, key: u32, name: Seq<char>) -> bool {
    match hashes.name_of_field(key) {
        Some(n) => ascii_lowered(n) == ascii_lowered(name),
        None => false,
    }
}

fn is_named<H: HashProvider>(hashes: &H, key: u32, name: &str) -> (r: bool)
    ensures
        r == named(*hashes, key, name@),
{
    match hashes.resolve_field(FieldHash(key)) {
        Some(n) => {
            let a = to_ascii_lower(n);
            let b = to_ascii_lower(name);
            same(a.as_str(), b.as_str())
        },
        None => false,
    }
}

/// A property table has a field at the path.
pub open spec fn path_in_fields<H: HashProvider>(fs: Seq<Field>, parts: Seq<Seq<char>>, hashes: H) -> bool
    decreases fs,
{
    if parts.len() == 0 {
        false
    } else if parts.len() == 1 {
        exists|i: int| 0 <= i < fs.len() && named(hashes, (#[trigger] fs[i]).key, parts[0])
    } else {
        exists|i: int|
            0 <= i < fs.len() && named(hashes, (#[trigger] fs[i]).key, parts[0]) && path_in_value(
                fs[i].value,
                parts.skip(1),
                hashes,
            )
    }
}

/// A value has a field at the path: class instances are entered by field name, lists by
/// a star.
pub open spec fn path_in_value<H: HashProvider>(v: Val, parts: Seq<Seq<char>>, hashes: H) -> bool
    decreases v,
{
    if parts.len() == 0 {
        true
    } else {
        match v {
            Val::Struct(_, fs) => path_in_fields(fs, parts, hashes),
            Val::Embedded(_, fs) => path_in_fields(fs, parts, hashes),
            Val::Container(items) => parts[0] == "*"@ && path_in_items(items, parts.skip(1), hashes),
            Val::UnorderedContainer(items) => parts[0] == "*"@ && path_in_items(items, parts.skip(1), hashes),
            Val::Present(x) => path_in_value(*x, parts, hashes),
            _ => false,
        }
    }
}

/// One of the values of a list has a field at the path.
pub open spec fn path_in_items<H: HashProvider>(items: Seq<Val>, parts: Seq<Seq<char>>, hashes: H) -> bool
    decreases items,
{
    exists|i: int| 0 <= i < items.len() && path_in_value(#[trigger] items[i], parts, hashes)
}

#[verifier::loop_isolation(false)]
fn search_field_path<H: HashProvider>(props: &OrderedMap<BinProperty>, parts: &Vec<String>, from: usize, hashes: &H) -> (r: bool)
    requires
        from <= parts@.len(),
    ensures
        r == path_in_fields(fields(*props), texts(parts@).skip(from as int), *hashes),
    decreases *props,
{
    let ghost fs = fields(*props);
    let ghost rest = texts(parts@).skip(from as int);
    if from == parts.len() {
        return false;
    }
    assert(rest[0] == parts@[from as int]@);
    assert(rest.skip(1) =~= texts(parts@).skip(from + 1));
    let next: usize = from + 1;
    let last = next == parts.len();
    let mut i: usize = 0;
    while i < props.entries.len()
        invariant
            fs == fields(*props),
            rest == texts(parts@).skip(from as int),
            from < parts@.len(),
            rest[0] == parts@[from as int]@,
            rest.skip(1) == texts(parts@).skip(from + 1),
            last == (rest.len() == 1),
            i <= props.entries@.len(),
            forall|j: int|
                0 <= j < i && named(*hashes, (#[trigger] fs[j]).key, rest[0]) ==> !last && !path_in_value(
                    fs[j].value,
                    rest.skip(1),
                    *hashes,
                ),
        decreases props.entries@.len() - i,
    {
        assert(decreases_to!(*props => props.entries@[i as int]));
        assert(fs[i as int].key == props.entries@[i as int].0);
        if is_named(hashes, props.entries[i].0, parts[from].as_str()) {
            if last {
                return true;
            }
            if search_field_in_value(&props.entries[i].1.value, parts, next, hashes) {
                return true;
            }
        }
        i = i + 1;
    }
    false
}

#[verifier::loop_isolation(false)]
fn search_field_in_items<H: HashProvider>(items: &Vec<PropertyValue>, parts: &Vec<String>, from: usize, hashes: &H) -> (r: bool)
    requires
        from <= parts@.len(),
    ensures
        r == path_in_items(vals(*items), texts(parts@).skip(from as int), *hashes),
    decreases *items,
{
    let ghost models = vals(*items);
    let mut i: usize = 0;
    while i < items.len()
        invariant
            models == vals(*items),
            from <= parts@.len(),
            i <= items@.len(),
            forall|j: int|
                0 <= j < i ==> !path_in_value(#[trigger] models[j], texts(parts@).skip(from as int), *hashes),
        decreases items@.len() - i,
    {
        assert(decreases_to!(*items => items@[i as int]));
        assert(models[i as int] == val(items@[i as int]));
        if search_field_in_value(&items[i], parts, from, hashes) {
            return true;
        }
        i = i + 1;
    }
    false
}

fn search_field_in_value<H: HashProvider>(value: &PropertyValue, parts: &Vec<String>, from: usize, hashes: &H) -> (r: bool)
    requires
        from <= parts@.len(),
    ensures
        r == path_in_value(val(*value), texts(parts@).skip(from as int), *hashes),
    decreases *value,
{
    let ghost rest = texts(parts@).skip(from as int);
    if from == parts.len() {
        return true;
    }
    assert(rest.len() == parts@.len() - from);
    assert(rest[0] == parts@[from as int]@);
    assert(rest.skip(1) =~= texts(parts@).skip(from + 1));
    match value {
        PropertyValue::Struct(s) => search_field_path(&s.properties, parts, from, hashes),
        PropertyValue::Embedded(s) => search_field_path(&s.properties, parts, from, hashes),
        PropertyValue::Container(items) => same(parts[from].as_str(), "*") && search_field_in_items(
            items,
            parts,
            from + 1,
            hashes,
        ),
        PropertyValue::UnorderedContainer(items) => same(parts[from].as_str(), "*") && search_field_in_items(
            items,
            parts,
            from + 1,
            hashes,
        ),
        PropertyValue::Optional(inner) => match &**inner {
            Some(x) => search_field_in_value(x, parts, from, hashes),
            None => false,
        },
        _ => false,
    }
}

/// Some entry of the type has a field at the dotted path.
pub open spec fn field_at_path<H: HashProvider>(os: Seq<Object>, hashes: H, entry_type: Seq<char>, path: Seq<char>) -> bool {
    hashes.loaded() && match hashes.hash_of_type(entry_type) {
        None => false,
        Some(t) => exists|i: int|
            0 <= i < os.len() && (#[trigger] os[i]).class == t && path_in_fields(os[i].fields, pieces(path, '.'), hashes),
    }
}

#[verifier::loop_isolation(false)]
fn detect_field_hash_exists<H: HashProvider>(tree: &BinTree, hashes: &H, entry_type: &str, path: &str) -> (r: bool)
    ensures
        r == field_at_path(objects(tree.objects), *hashes, entry_type@, path@),
{
    if !hashes.is_loaded() {
        return false;
    }
    let class = match hashes.type_hash(entry_type) {
        Some(h) => h.0,
        None => {
            return false;
        },
    };
    let parts = split(path, '.');
    assert(texts(parts@).skip(0) =~= pieces(path@, '.'));
    let ghost os = objects(tree.objects);
    let mut i: usize = 0;
    while i < tree.objects.entries.len()
        invariant
            os == objects(tree.objects),
            texts(parts@).skip(0) == pieces(path@, '.'),
            i <= tree.objects.entries@.len(),
            forall|j: int|
                0 <= j < i && (#[trigger] os[j]).class == class ==> !path_in_fields(
                    os[j].fields,
                    pieces(path@, '.'),
                    *hashes,
                ),
        decreases tree.objects.entries@.len() - i,
    {
        let o = &tree.objects.entries[i].1;
        assert(os[i as int] == object(tree.objects.entries@[i as int].0, *o));
        if o.class_hash.0 == class && search_field_path(&o.properties, &parts, 0, hashes) {
            return true;
        }
        i = i + 1;
    }
    false
}

/// `lower` begins with the lower-case form of one of the prefixes.
pub open spec fn has_any_prefix(lower: Seq<char>, prefixes: Seq<String>) -> bool {
    exists|i: int| 0 <= i < prefixes.len() && begins(lower, lowered((#[trigger] prefixes[i])@))
}

/// Whether `lower` begins with the lower-case form of one of the prefixes.
#[verifier::loop_isolation(false)]
pub fn starts_with_any(lower: &str, prefixes: &Vec<String>) -> (r: bool)
    ensures
        r == has_any_prefix(lower@, prefixes@),
{
    let mut i: usize = 0;
    while i < prefixes.len()
        invariant
            i <= prefixes@.len(),
            forall|j: int| 0 <= j < i ==> !begins(lower@, lowered((#[trigger] prefixes@[j])@)),
        decreases prefixes@.len() - i,
    {
        let p = to_lower(prefixes[i].as_str());
        if starts_with(lower, p.as_str()) {
            return true;
        }
        i = i + 1;
    }
    false
}

/// A string with the extension, under one of the prefixes where there are any, names a
/// file that the archive lacks.
pub open spec fn missing_file<W: WadProvider>(s: Seq<char>, wad: W, extension: Seq<char>, prefixes: Seq<String>) -> bool {
    ends(lowered(s), extension) && (prefixes.len() == 0 || has_any_prefix(lowered(s), prefixes)) && !wad.holds_path(s)
}

/// Some string of the file names a file that the archive lacks.
pub open spec fn names_missing_file<W: WadProvider>(os: Seq<Object>, wad: W, extension: Seq<char>, prefixes: Seq<String>) -> bool {
    exists|i: int|
        0 <= i < strings_in_objects(os).len() && missing_file(
            #[trigger] strings_in_objects(os)[i],
            wad,
            extension,
            prefixes,
        )
}

#[verifier::loop_isolation(false)]
fn detect_recursive_extension<W: WadProvider>(tree: &BinTree, wad: &W, extension: &str, path_prefixes: &Vec<String>) -> (r: bool)
    ensures
        r == names_missing_file(objects(tree.objects), *wad, extension@, path_prefixes@),
{
    let refs = string_refs(tree);
    let ghost all = strings_in_objects(objects(tree.objects));
    let mut i: usize = 0;
    while i < refs.len()
        invariant
            all == strings_in_objects(objects(tree.objects)),
            str_texts(refs@) == all,
            i <= refs@.len(),
            forall|j: int| 0 <= j < i ==> !missing_file(#[trigger] all[j], *wad, extension@, path_prefixes@),
        decreases refs@.len() - i,
    {
        let s = refs[i];
        assert(str_texts(refs@)[i as int] == s@);
        let lower = to_lower(s);
        if ends_with(lower.as_str(), extension) && (path_prefixes.len() == 0 || starts_with_any(
            lower.as_str(),
            path_prefixes,
        )) && !wad.has_path(s) {
            assert(missing_file(all[i as int], *wad, extension@, path_prefixes@));
            return true;
        }
        i = i + 1;
    }
    false
}

/// `name` is one of `list`, in any case.
pub open spec fn listed_any_case(list: Seq<String>, name: Seq<char>) -> bool {
    exists|i: int| 0 <= i < list.len() && ascii_lowered((#[trigger] list[i])@) == ascii_lowered(name)
}

/// Whether `name` is one of `list`, in any case.
#[verifier::loop_isolation(false)]
pub fn is_listed_any_case(list: &Vec<String>, name: &str) -> (r: bool)
    ensures
        r == listed_any_case(list@, name@),
{
    let low = to_ascii_lower(name);
    let mut i: usize = 0;
    while i < list.len()
        invariant
            low@ == ascii_lowered(name@),
            i <= list@.len(),
            forall|j: int| 0 <= j < i ==> ascii_lowered((#[trigger] list@[j])@) != ascii_lowered(name@),
        decreases list@.len() - i,
    {
        let x = to_ascii_lower(list[i].as_str());
        if same(x.as_str(), low.as_str()) {
            return true;
        }
        i = i + 1;
    }
    false
}

/// Some entry is of one of the types.
pub open spec fn entry_of_type<H: HashProvider>(os: Seq<Object>, hashes: H, entry_types: Seq<String>) -> bool {
    hashes.loaded() && exists|i: int|
        0 <= i < os.len() && (match hashes.name_of_type((#[trigger] os[i]).class) {
            Some(n) => listed_any_case(entry_types, n),
            None => false,
        })
}

#[verifier::loop_isolation(false)]
fn detect_entry_type_exists<H: HashProvider>(tree: &BinTree, hashes: &H, entry_types: &Vec<String>) -> (r: bool)
    ensures
        r == entry_of_type(objects(tree.objects), *hashes, entry_types@),
{
    if !hashes.is_loaded() {
        return false;
    }
    let ghost os = objects(tree.objects);
    let mut i: usize = 0;
    while i < tree.objects.entries.len()
        invariant
            os == objects(tree.objects),
            i <= tree.objects.entries@.len(),
            forall|j: int|
                0 <= j < i ==> !(match hashes.name_of_type((#[trigger] os[j]).class) {
                    Some(n) => listed_any_case(entry_types@, n),
                    None => false,
                }),
        decreases tree.objects.entries@.len() - i,
    {
        assert(os[i as int].class == tree.objects.entries@[i as int].1.class_hash.0);
        if let Some(name) = hashes.resolve_type(tree.objects.entries[i].1.class_hash) {
            if is_listed_any_case(entry_types, name) {
                return true;
            }
        }
        i = i + 1;
    }
    false
}

/// The hash is that of a shape field of the old format.
pub open spec fn old_shape_field<H: HashProvider>(hashes: H, key: u32) -> bool {
    hashes.hash_of_field("BirthTranslation"@) == Some(key) || hashes.hash_of_field("EmitOffset"@) == Some(key)
        || hashes.hash_of_field("EmitRotationAngles"@) == Some(key) || hashes.hash_of_field("EmitRotationAxes"@)
        == Some(key)
}

/// The properties of a class instance.
pub open spec fn instance_fields(v: Val) -> Option<Seq<Field>> {
    match v {
        Val::Struct(_, fs) => Some(fs),
        Val::Embedded(_, fs) => Some(fs),
        _ => None,
    }
}

/// The items of a list.
pub open spec fn list_items(v: Val) -> Option<Seq<Val>> {
    match v {
        Val::Container(items) => Some(items),
        Val::UnorderedContainer(items) => Some(items),
        _ => None,
    }
}

/// A class instance has a field of the old shape format.
pub open spec fn old_shape<H: HashProvider>(v: Val, hashes: H) -> bool {
    match instance_fields(v) {
        Some(fs) => exists|i: int| 0 <= i < fs.len() && old_shape_field(hashes, (#[trigger] fs[i]).key),
        None => false,
    }
}

/// An emitter has a shape of the old format under the shape field.
pub open spec fn old_emitter<H: HashProvider>(v: Val, hashes: H, shape: u32) -> bool {
    match instance_fields(v) {
        Some(fs) => match slot(field_keys(fs), shape) {
            Some(k) => old_shape(fs[k].value, hashes),
            None => false,
        },
        None => false,
    }
}

/// A property holds a list with an emitter of the old shape format.
pub open spec fn old_emitters<H: HashProvider>(f: Field, hashes: H, shape: u32) -> bool {
    match list_items(f.value) {
        Some(items) => exists|i: int| 0 <= i < items.len() && old_emitter(#[trigger] items[i], hashes, shape),
        None => false,
    }
}

/// Some entry of the type has an emitter with a shape of the old format.
pub open spec fn vfx_shape_old<H: HashProvider>(os: Seq<Object>, hashes: H, entry_type: Seq<char>) -> bool {
    hashes.loaded() && match (hashes.hash_of_type(entry_type), hashes.hash_of_field("Shape"@)) {
        (Some(t), Some(shape)) => exists|i: int, k: int|
            0 <= i < os.len() && os[i].class == t && 0 <= k < os[i].fields.len() && old_emitters(
                #[trigger] os[i].fields[k],
                hashes,
                shape,
            ),
        _ => false,
    }
}

fn is_field<H: HashProvider>(hashes: &H, name: &str, key: u32) -> (r: bool)
    ensures
        r == (hashes.hash_of_field(name@) == Some(key)),
{
    match hashes.field_hash(name) {
        Some(h) => h.0 == key,
        None => false,
    }
}

#[verifier::loop_isolation(false)]
fn has_old_vfx_shape_format<H: HashProvider>(shape: &StructValue, hashes: &H) -> (r: bool)
    ensures
        r == exists|i: int|
            0 <= i < fields(shape.properties).len() && old_shape_field(
                *hashes,
                (#[trigger] fields(shape.properties)[i]).key,
            ),
{
    let ghost fs = fields(shape.properties);
    let mut i: usize = 0;
    while i < shape.properties.entries.len()
        invariant
            fs == fields(shape.properties),
            i <= shape.properties.entries@.len(),
            forall|j: int| 0 <= j < i ==> !old_shape_field(*hashes, (#[trigger] fs[j]).key),
        decreases shape.properties.entries@.len() - i,
    {
        let key = shape.properties.entries[i].0;
        assert(fs[i as int].key == key);
        if is_field(hashes, "BirthTranslation", key) || is_field(hashes, "EmitOffset", key) || is_field(
            hashes,
            "EmitRotationAngles",
            key,
        ) || is_field(hashes, "EmitRotationAxes", key) {
            assert(old_shape_field(*hashes, fs[i as int].key));
            return true;
        }
        i = i + 1;
    }
    false
}

fn is_old_emitter<H: HashProvider>(item: &PropertyValue, hashes: &H, shape: u32) -> (r: bool)
    ensures
        r == old_emitter(val(*item), *hashes, shape),
{
    let emitter = match item {
        PropertyValue::Embedded(e) => e,
        PropertyValue::Struct(e) => e,
        _ => {
            return false;
        },
    };
    proof {
        lemma_field_keys(emitter.properties);
    }
    match emitter.properties.find(shape) {
        Some(k) => match &emitter.properties.entries[k].1.value {
            PropertyValue::Embedded(s) => has_old_vfx_shape_format(s, hashes),
            PropertyValue::Struct(s) => has_old_vfx_shape_format(s, hashes),
            _ => false,
        },
        None => false,
    }
}

#[verifier::loop_isolation(false)]
fn has_old_emitters<H: HashProvider>(value: &PropertyValue, hashes: &H, shape: u32) -> (r: bool)
    ensures
        r == (match list_items(val(*value)) {
            Some(items) => exists|i: int| 0 <= i < items.len() && old_emitter(#[trigger] items[i], *hashes, shape),
            None => false,
        }),
{
    let items = match value {
        PropertyValue::Container(items) => items,
        PropertyValue::UnorderedContainer(items) => items,
        _ => {
            return false;
        },
    };
    let ghost models = vals(*items);
    let mut i: usize = 0;
    while i < items.len()
        invariant
            models == vals(*items),
            i <= items@.len(),
            forall|j: int| 0 <= j < i ==> !old_emitter(#[trigger] models[j], *hashes, shape),
        decreases items@.len() - i,
    {
        assert(models[i as int] == val(items@[i as int]));
        if is_old_emitter(&items[i], hashes, shape) {
            return true;
        }
        i = i + 1;
    }
    false
}

#[verifier::loop_isolation(false)]
fn detect_vfx_shape_needs_fix<H: HashProvider>(tree: &BinTree, hashes: &H, entry_type: &str) -> (r: bool)
    ensures
        r == vfx_shape_old(objects(tree.objects), *hashes, entry_type@),
{
    if !hashes.is_loaded() {
        return false;
    }
    let class = match hashes.type_hash(entry_type) {
        Some(h) => h.0,
        None => {
            return false;
        },
    };
    let shape = match hashes.field_hash("Shape") {
        Some(h) => h.0,
        None => {
            return false;
        },
    };
    let ghost os = objects(tree.objects);
    let mut i: usize = 0;
    while i < tree.objects.entries.len()
        invariant
            os == objects(tree.objects),
            i <= tree.objects.entries@.len(),
            forall|j: int, k: int|
                0 <= j < i && os[j].class == class && 0 <= k < os[j].fields.len() ==> !old_emitters(
                    #[trigger] os[j].fields[k],
                    *hashes,
                    shape,
                ),
        decreases tree.objects.entries@.len() - i,
    {
        let o = &tree.objects.entries[i].1;
        assert(os[i as int] == object(tree.objects.entries@[i as int].0, *o));
        if o.class_hash.0 == class {
            let ghost fs = fields(o.properties);
            let mut k: usize = 0;
            while k < o.properties.entries.len()
                invariant
                    fs == fields(o.properties),
                    i < os.len(),
                    os[i as int].fields == fs,
                    os[i as int].class == class,
                    hashes.loaded(),
                    hashes.hash_of_type(entry_type@) == Some(class),
                    hashes.hash_of_field("Shape"@) == Some(shape),
                    os == objects(tree.objects),
                    k <= o.properties.entries@.len(),
                    forall|m: int| 0 <= m < k ==> !old_emitters(#[trigger] fs[m], *hashes, shape),
                decreases o.properties.entries@.len() - k,
            {
                assert(fs[k as int].value == val(o.properties.entries@[k as int].1.value));
                if has_old_emitters(&o.properties.entries[k].1.value, hashes, shape) {
                    assert(old_emitters(os[i as int].fields[k as int], *hashes, shape));
                    return true;
                }
                k = k + 1;
            }
        }
        i = i + 1;
    }
    false
}

/// Some entry of the type holds a link, not zero, to what is no valid shader.
pub open spec fn links_invalid_shader<H: HashProvider>(os: Seq<Object>, hashes: H, entry_type: Seq<char>, valid: Set<u32>) -> bool {
    hashes.loaded() && match hashes.hash_of_type(entry_type) {
        None => false,
        Some(t) => exists|i: int|
            0 <= i < os.len() && (#[trigger] os[i]).class == t && has_invalid(
                links_in_fields(Tables::Skip, os[i].fields),
                valid,
            ),
    }
}

/// Some link, not zero, leads to none of the valid ones.
pub open spec fn has_invalid(links: Seq<u32>, valid: Set<u32>) -> bool {
    exists|i: int| 0 <= i < links.len() && (#[trigger] links[i]) != 0 && !valid.contains(links[i])
}

/// Detect links of material entries to what is no valid shader.
#[verifier::loop_isolation(false)]
pub fn detect_invalid_shader<H: HashProvider>(tree: &BinTree, hashes: &H, shader_def_type: &str, valid: &HashSet<u32>) -> (r: bool)
    ensures
        r == links_invalid_shader(objects(tree.objects), *hashes, shader_def_type@, valid@),
{
    broadcast use vstd::std_specs::hash::group_hash_axioms;
    if !hashes.is_loaded() {
        return false;
    }
    let class = match hashes.type_hash(shader_def_type) {
        Some(h) => h.0,
        None => {
            return false;
        },
    };
    let ghost os = objects(tree.objects);
    let mut i: usize = 0;
    while i < tree.objects.entries.len()
        invariant
            os == objects(tree.objects),
            i <= tree.objects.entries@.len(),
            forall|j: int|
                0 <= j < i && (#[trigger] os[j]).class == class ==> !has_invalid(
                    links_in_fields(Tables::Skip, os[j].fields),
                    valid@,
                ),
        decreases tree.objects.entries@.len() - i,
    {
        let o = &tree.objects.entries[i].1;
        assert(os[i as int] == object(tree.objects.entries@[i as int].0, *o));
        if o.class_hash.0 == class {
            let links = links_of_properties(Tables::Skip, &o.properties);
            let mut k: usize = 0;
            while k < links.len()
                invariant
                    k <= links@.len(),
                    forall|m: int| 0 <= m < k ==> (#[trigger] links@[m]) == 0 || valid@.contains(links@[m]),
                    hashes.loaded(),
                    hashes.hash_of_type(shader_def_type@) == Some(class),
                    os == objects(tree.objects),
                    i < os.len(),
                    os[i as int].class == class,
                    links@ == links_in_fields(Tables::Skip, os[i as int].fields),
                decreases links@.len() - k,
            {
                if links[k] != 0 && !valid.contains(&links[k]) {
                    assert(has_invalid(links@, valid@));
                    return true;
                }
                k = k + 1;
            }
        }
        i = i + 1;
    }
    false
}

/// The class of a validation target: its hexadecimal hash where one is given, and the
/// hash of its type name otherwise.
pub open spec fn target_type<H: HashProvider>(t: EntryValidationTarget, hashes: H) -> Option<u32> {
    match t.type_hash {
        Some(h) => match number(trimmed_start(h@, "0x"@), 16, u32::MAX as nat) {
            Some(n) => Some(n as u32),
            None => None,
        },
        None => hashes.hash_of_type(t.entry_type@),
    }
}

/// The class of a validation target.
pub fn target_type_of<H: HashProvider>(t: &EntryValidationTarget, hashes: &H) -> (r: Option<u32>)
    ensures
        r == target_type(*t, *hashes),
{
    match &t.type_hash {
        Some(h) => {
            let digits = trim_start(h.as_str(), "0x");
            match parse_number(digits.as_str(), 16, u32::MAX as u64) {
                Some(n) => Some(n as u32),
                None => None,
            }
        },
        None => match hashes.type_hash(t.entry_type.as_str()) {
            Some(h) => Some(h.0),
            None => None,
        },
    }
}

/// An entry of the main type links to this key.
pub open spec fn main_links_to(os: Seq<Object>, main: u32, key: u32) -> bool {
    key != 0 && exists|i: int|
        0 <= i < os.len() && (#[trigger] os[i]).class == main && links_in_fields(Tables::Skip, os[i].fields).contains(
            key,
        )
}

/// An entry of one of the target types is there that no main entry links to, in a file
/// that has a main entry.
pub open spec fn unreferenced_entry<H: HashProvider>(
    os: Seq<Object>,
    hashes: H,
    main_type: Seq<char>,
    targets: Seq<EntryValidationTarget>,
) -> bool {
    hashes.loaded() && match hashes.hash_of_type(main_type) {
        None => false,
        Some(main) => (exists|i: int| 0 <= i < os.len() && (#[trigger] os[i]).class == main) && exists|t: int, i: int|
            0 <= t < targets.len() && 0 <= i < os.len() && target_type(#[trigger] targets[t], hashes) == Some(
                (#[trigger] os[i]).class,
            ) && !main_links_to(os, main, os[i].key),
    }
}

#[verifier::loop_isolation(false)]
fn links_to<H: HashProvider>(tree: &BinTree, hashes: &H, main: u32, key: u32) -> (r: bool)
    ensures
        r == main_links_to(objects(tree.objects), main, key),
{
    if key == 0 {
        return false;
    }
    let ghost os = objects(tree.objects);
    let mut i: usize = 0;
    while i < tree.objects.entries.len()
        invariant
            os == objects(tree.objects),
            i <= tree.objects.entries@.len(),
            forall|j: int|
                0 <= j < i && (#[trigger] os[j]).class == main ==> !links_in_fields(Tables::Skip, os[j].fields).contains(
                    key,
                ),
        decreases tree.objects.entries@.len() - i,
    {
        let o = &tree.objects.entries[i].1;
        assert(os[i as int] == object(tree.objects.entries@[i as int].0, *o));
        if o.class_hash.0 == main {
            let links = links_of_properties(Tables::Skip, &o.properties);
            if contains_hash(&links, key) {
                return true;
            }
        }
        i = i + 1;
    }
    false
}

/// Whether `key` is among `v`.
#[verifier::loop_isolation(false)]
pub fn contains_hash(v: &Vec<u32>, key: u32) -> (r: bool)
    ensures
        r == v@.contains(key),
{
    let mut i: usize = 0;
    while i < v.len()
        invariant
            i <= v@.len(),
            forall|j: int| 0 <= j < i ==> v@[j] != key,
        decreases v@.len() - i,
    {
        if v[i] == key {
            return true;
        }
        i = i + 1;
    }
    false
}

#[verifier::loop_isolation(false)]
fn has_entry_of(tree: &BinTree, class: u32) -> (r: bool)
    ensures
        r == exists|i: int|
            0 <= i < objects(tree.objects).len() && (#[trigger] objects(tree.objects)[i]).class == class,
{
    let ghost os = objects(tree.objects);
    let mut i: usize = 0;
    while i < tree.objects.entries.len()
        invariant
            os == objects(tree.objects),
            i <= tree.objects.entries@.len(),
            forall|j: int| 0 <= j < i ==> (#[trigger] os[j]).class != class,
        decreases tree.objects.entries@.len() - i,
    {
        assert(os[i as int].class == tree.objects.entries@[i as int].1.class_hash.0);
        if tree.objects.entries[i].1.class_hash.0 == class {
            return true;
        }
        i = i + 1;
    }
    false
}

#[verifier::loop_isolation(false)]
fn detect_unreferenced_entries<H: HashProvider>(
    tree: &BinTree,
    hashes: &H,
    main_entry_type: &str,
    targets: &Vec<EntryValidationTarget>,
) -> (r: bool)
    ensures
        r == unreferenced_entry(objects(tree.objects), *hashes, main_entry_type@, targets@),
{
    if !hashes.is_loaded() {
        return false;
    }
    let main = match hashes.type_hash(main_entry_type) {
        Some(h) => h.0,
        None => {
            return false;
        },
    };
    if !has_entry_of(tree, main) {
        return false;
    }
    let ghost os = objects(tree.objects);
    let mut t: usize = 0;
    while t < targets.len()
        invariant
            os == objects(tree.objects),
            t <= targets@.len(),
            forall|a: int, i: int|
                0 <= a < t && 0 <= i < os.len() && target_type(#[trigger] targets@[a], *hashes) == Some(
                    (#[trigger] os[i]).class,
                ) ==> main_links_to(os, main, os[i].key),
            hashes.loaded(),
            hashes.hash_of_type(main_entry_type@) == Some(main),
            exists|i: int| 0 <= i < os.len() && (#[trigger] os[i]).class == main,
        decreases targets@.len() - t,
    {
        if let Some(class) = target_type_of(&targets[t], hashes) {
            let mut i: usize = 0;
            while i < tree.objects.entries.len()
                invariant
                    os == objects(tree.objects),
                    t < targets@.len(),
                    target_type(targets@[t as int], *hashes) == Some(class),
                    i <= tree.objects.entries@.len(),
                    forall|j: int| 0 <= j < i && (#[trigger] os[j]).class == class ==> main_links_to(os, main, os[j].key),
                    hashes.loaded(),
                    hashes.hash_of_type(main_entry_type@) == Some(main),
                    exists|j: int| 0 <= j < os.len() && (#[trigger] os[j]).class == main,
                decreases tree.objects.entries@.len() - i,
            {
                let key = tree.objects.entries[i].0;
                assert(os[i as int] == object(key, tree.objects.entries@[i as int].1));
                if tree.objects.entries[i].1.class_hash.0 == class && !links_to(tree, hashes, main, key) {
                    assert(target_type(targets@[t as int], *hashes) == Some(os[i as int].class));
                    return true;
                }
                i = i + 1;
            }
        }
        t = t + 1;
    }
    false
}

/// The rule finds its defect in the file. Rules that need more than the file, the
/// dictionary and the archive find nothing here.
pub open spec fn rule_fires<H: HashProvider, W: WadProvider>(rule: DetectionRule, os: Seq<Object>, hashes: H, wad: W) -> bool {
    match rule {
        DetectionRule::MissingOrWrongField { entry_type, embed_path, embed_type, field, expected_value } =>
            missing_or_wrong_field(
                os,
                hashes,
                entry_type@,
                opt_text(embed_path),
                opt_text(embed_type),
                field@,
                expected_value,
            ),
        DetectionRule::FieldHashExists { entry_type, path } => field_at_path(os, hashes, entry_type@, path@),
        DetectionRule::StringExtensionNotInWad { entry_type, fields, extension } => names_missing_file(
            os,
            wad,
            extension@,
            Seq::empty(),
        ),
        DetectionRule::RecursiveStringExtensionNotInWad { extension, path_prefixes } => names_missing_file(
            os,
            wad,
            extension@,
            path_prefixes@,
        ),
        DetectionRule::EntryTypeExistsAny { entry_types } => entry_of_type(os, hashes, entry_types@),
        DetectionRule::VfxShapeNeedsFix { entry_type } => vfx_shape_old(os, hashes, entry_type@),
        DetectionRule::UnreferencedEntryOfType { main_entry_type, targets } => unreferenced_entry(
            os,
            hashes,
            main_entry_type@,
            targets@,
        ),
        _ => false,
    }
}

/// Whether the issue of a rule is there, for the rules that need the file, the
/// dictionary and the archive only; the other rules find nothing here.
pub fn detect_issue<H: HashProvider, W: WadProvider>(rule: &DetectionRule, tree: &BinTree, hashes: &H, wad: &W) -> (r: bool)
    ensures
        r == rule_fires(*rule, objects(tree.objects), *hashes, *wad),
{
    match rule {
        DetectionRule::MissingOrWrongField { entry_type, embed_path, embed_type, field, expected_value } =>
            detect_missing_or_wrong_field(
                tree,
                hashes,
                entry_type.as_str(),
                embed_path,
                embed_type,
                field.as_str(),
                expected_value,
            ),
        DetectionRule::FieldHashExists { entry_type, path } => detect_field_hash_exists(
            tree,
            hashes,
            entry_type.as_str(),
            path.as_str(),
        ),
        DetectionRule::StringExtensionNotInWad { entry_type: _, fields: _, extension } => {
            let none: Vec<String> = Vec::new();
            assert(none@ =~= Seq::empty());
            detect_recursive_extension(tree, wad, extension.as_str(), &none)
        },
        DetectionRule::RecursiveStringExtensionNotInWad { extension, path_prefixes } => detect_recursive_extension(
            tree,
            wad,
            extension.as_str(),
            path_prefixes,
        ),
        DetectionRule::EntryTypeExistsAny { entry_types } => detect_entry_type_exists(tree, hashes, entry_types),
        DetectionRule::VfxShapeNeedsFix { entry_type } => detect_vfx_shape_needs_fix(tree, hashes, entry_type.as_str()),
        DetectionRule::UnreferencedEntryOfType { main_entry_type, targets } => detect_unreferenced_entries(
            tree,
            hashes,
            main_entry_type.as_str(),
            targets,
        ),
        _ => false,
    }
}

/// A property table has a field.
pub open spec fn has_field(fs: Seq<Field>, key: u32) -> bool {
    exists|i: int| 0 <= i < fs.len() && (#[trigger] fs[i]).key == key
}

proof fn lemma_has_field(fs: Seq<Field>, key: u32)
    ensures
        has_field(fs, key) <==> slot(field_keys(fs), key) is Some,
        slot(field_keys(fs), key) matches Some(k) ==> 0 <= k < fs.len() && fs[k].key == key,
{
    lemma_no_slot(field_keys(fs), key);
    if has_field(fs, key) {
        let i = choose|i: int| 0 <= i < fs.len() && (#[trigger] fs[i]).key == key;
        assert(field_keys(fs)[i] == key);
    }
    if let Some(k) = slot(field_keys(fs), key) {
        assert(field_keys(fs)[k] == fs[k].key);
    }
}

/// An entry of the type that lacks the field fires the rule on missing fields, and a file
/// in which every such entry has it does not.
pub proof fn law_missing_fields_fire<H: HashProvider, W: WadProvider>(
    rule: DetectionRule,
    os: Seq<Object>,
    hashes: H,
    wad: W,
    class: u32,
    key: u32,
    i: int,
)
    requires
        rule is MissingOrWrongField,
        rule->MissingOrWrongField_embed_path is None,
        rule->MissingOrWrongField_embed_type is None,
        hashes.loaded(),
        hashes.hash_of_type(rule->MissingOrWrongField_entry_type@) == Some(class),
        hashes.hash_of_field(rule->MissingOrWrongField_field@) == Some(key),
    ensures
        0 <= i < os.len() && os[i].class == class && !has_field(os[i].fields, key) ==> rule_fires(rule, os, hashes, wad),
        (forall|j: int| 0 <= j < os.len() && (#[trigger] os[j]).class == class ==> has_field(os[j].fields, key)) ==> !rule_fires(
            rule,
            os,
            hashes,
            wad,
        ),
{
    if 0 <= i < os.len() {
        lemma_has_field(os[i].fields, key);
    }
    assert forall|j: int| 0 <= j < os.len() && (#[trigger] os[j]).class == class && has_field(os[j].fields, key) implies slot(
        field_keys(os[j].fields),
        key,
    ) is Some by {
        lemma_has_field(os[j].fields, key);
    }
}

/// The property embeds an instance of a class, whose properties these are.
pub open spec fn embedded_as(v: Val, class: u32, fs: Seq<Field>) -> bool {
    v == Val::Embedded(class, fs)
}

/// An entry that embeds an instance of the class without the field fires the rule too, and
/// so does one that embeds none; where the value is to be a given one, so does one that
/// embeds an instance whose single such field has another.
pub proof fn law_fields_of_embedded_instances_are_checked<H: HashProvider, W: WadProvider>(
    rule: DetectionRule,
    os: Seq<Object>,
    hashes: H,
    wad: W,
    class: u32,
    inner: u32,
    key: u32,
    i: int,
    k: int,
    fs: Seq<Field>,
)
    requires
        rule is MissingOrWrongField,
        rule->MissingOrWrongField_embed_type is Some,
        hashes.loaded(),
        hashes.hash_of_type(rule->MissingOrWrongField_entry_type@) == Some(class),
        hashes.hash_of_type(rule->MissingOrWrongField_embed_type->0@) == Some(inner),
        hashes.hash_of_field(rule->MissingOrWrongField_field@) == Some(key),
        0 <= i < os.len(),
        os[i].class == class,
    ensures
        (forall|n: int| 0 <= n < os[i].fields.len() ==> !embeds(#[trigger] os[i].fields[n], inner)) ==> rule_fires(rule, os, hashes, wad),
        0 <= k < os[i].fields.len() && embedded_as(os[i].fields[k].value, inner, fs) && !has_field(fs, key) ==> rule_fires(
            rule,
            os,
            hashes,
            wad,
        ),
        rule->MissingOrWrongField_expected_value matches Some(e) ==> (0 <= k < os[i].fields.len() && embedded_as(
            os[i].fields[k].value,
            inner,
            fs,
        ) && (forall|n: int| 0 <= n < fs.len() && (#[trigger] fs[n]).key == key ==> !json_matches(fs[n].value, e)) ==> rule_fires(
            rule,
            os,
            hashes,
            wad,
        )),
{
    lemma_has_field(fs, key);
    if 0 <= k < os[i].fields.len() && embedded_as(os[i].fields[k].value, inner, fs) {
        assert(embeds(os[i].fields[k], inner));
    }
}

/// A file all of whose entries of the type embed only instances that have the field, with
/// the expected value where there is one, and at least one, does not fire the rule.
pub proof fn law_right_embedded_fields_do_not_fire<H: HashProvider, W: WadProvider>(
    rule: DetectionRule,
    os: Seq<Object>,
    hashes: H,
    wad: W,
    class: u32,
    inner: u32,
    key: u32,
)
    requires
        rule is MissingOrWrongField,
        rule->MissingOrWrongField_embed_type is Some,
        hashes.hash_of_type(rule->MissingOrWrongField_entry_type@) == Some(class),
        hashes.hash_of_type(rule->MissingOrWrongField_embed_type->0@) == Some(inner),
        hashes.hash_of_field(rule->MissingOrWrongField_field@) == Some(key),
        forall|i: int|
            0 <= i < os.len() && (#[trigger] os[i]).class == class ==> exists|k: int|
                0 <= k < os[i].fields.len() && embeds(#[trigger] os[i].fields[k], inner),
        forall|i: int, k: int|
            0 <= i < os.len() && os[i].class == class && 0 <= k < os[i].fields.len() && embeds(#[trigger] os[i].fields[k], inner)
                ==> has_field(os[i].fields[k].value->Embedded_1, key) && (rule->MissingOrWrongField_expected_value matches Some(e)
                ==> forall|n: int|
                0 <= n < os[i].fields[k].value->Embedded_1.len() && (#[trigger] os[i].fields[k].value->Embedded_1[n]).key == key
                    ==> json_matches(os[i].fields[k].value->Embedded_1[n].value, e)),
    ensures
        !rule_fires(rule, os, hashes, wad),
{
    assert forall|i: int, k: int|
        0 <= i < os.len() && os[i].class == class && 0 <= k < os[i].fields.len() && embeds(
            #[trigger] os[i].fields[k],
            inner,
        ) implies !embed_wrong(
        os[i].fields[k],
        hashes,
        rule->MissingOrWrongField_field@,
        rule->MissingOrWrongField_expected_value,
    ) by {
        lemma_has_field(os[i].fields[k].value->Embedded_1, key);
    }
}

/// A string of the file with the extension, that begins as it must where that is asked and
/// names no file of the archive, fires the rule on such strings; a file without one does
/// not.
pub proof fn law_strings_without_a_file_fire<H: HashProvider, W: WadProvider>(
    rule: DetectionRule,
    os: Seq<Object>,
    hashes: H,
    wad: W,
    s: Seq<char>,
)
    requires
        rule is RecursiveStringExtensionNotInWad,
    ensures
        strings_in_objects(os).contains(s) && ends(lowered(s), rule->RecursiveStringExtensionNotInWad_extension@) && !wad.holds_path(s)
            && (rule->RecursiveStringExtensionNotInWad_path_prefixes@.len() == 0 || exists|i: int|
            0 <= i < rule->RecursiveStringExtensionNotInWad_path_prefixes@.len() && begins(
                lowered(s),
                lowered((#[trigger] rule->RecursiveStringExtensionNotInWad_path_prefixes@[i])@),
            )) ==> rule_fires(rule, os, hashes, wad),
        (forall|t: Seq<char>| #[trigger]
            strings_in_objects(os).contains(t) && ends(lowered(t), rule->RecursiveStringExtensionNotInWad_extension@)
                ==> wad.holds_path(t)) ==> !rule_fires(rule, os, hashes, wad),
{
    let ss = strings_in_objects(os);
    if ss.contains(s) {
        let i = choose|i: int| 0 <= i < ss.len() && ss[i] == s;
        assert(ss[i] == s);
    }
    assert forall|i: int| 0 <= i < ss.len() implies ss.contains(#[trigger] ss[i]) by {}
}

/// The rule on the strings of some fields goes by the extension in the whole file, and by
/// no prefix.
pub proof fn law_field_strings_without_a_file_fire<H: HashProvider, W: WadProvider>(
    rule: DetectionRule,
    os: Seq<Object>,
    hashes: H,
    wad: W,
    s: Seq<char>,
)
    requires
        rule is StringExtensionNotInWad,
    ensures
        strings_in_objects(os).contains(s) && ends(lowered(s), rule->StringExtensionNotInWad_extension@) && !wad.holds_path(s)
            ==> rule_fires(rule, os, hashes, wad),
        (forall|t: Seq<char>| #[trigger]
            strings_in_objects(os).contains(t) && ends(lowered(t), rule->StringExtensionNotInWad_extension@) ==> wad.holds_path(t))
            ==> !rule_fires(rule, os, hashes, wad),
{
    let ss = strings_in_objects(os);
    if ss.contains(s) {
        let i = choose|i: int| 0 <= i < ss.len() && ss[i] == s;
        assert(ss[i] == s);
    }
    assert forall|i: int| 0 <= i < ss.len() implies ss.contains(#[trigger] ss[i]) by {}
}

/// An entry of a type that the dictionary names as one of the list, in whatever case, fires
/// the rule on entry types, and nothing else does.
pub proof fn law_listed_types_fire<H: HashProvider, W: WadProvider>(rule: DetectionRule, os: Seq<Object>, hashes: H, wad: W)
    requires
        rule is EntryTypeExistsAny,
        hashes.loaded(),
    ensures
        rule_fires(rule, os, hashes, wad) <==> exists|i: int, t: int|
            0 <= i < os.len() && 0 <= t < rule->EntryTypeExistsAny_entry_types@.len() && hashes.name_of_type((#[trigger] os[i]).class) is Some
                && ascii_lowered((#[trigger] rule->EntryTypeExistsAny_entry_types@[t])@) == ascii_lowered(
                hashes.name_of_type(os[i].class)->0,
            ),
{
}

/// An entry of a target's type that no entry of the main type links to fires the rule on
/// unreferenced entries, where the file has an entry of the main type.
pub proof fn law_unlinked_entries_fire<H: HashProvider, W: WadProvider>(
    rule: DetectionRule,
    os: Seq<Object>,
    hashes: H,
    wad: W,
    main: u32,
    m: int,
    t: int,
    i: int,
)
    requires
        rule is UnreferencedEntryOfType,
        hashes.loaded(),
        hashes.hash_of_type(rule->UnreferencedEntryOfType_main_entry_type@) == Some(main),
        0 <= m < os.len(),
        os[m].class == main,
        0 <= t < rule->UnreferencedEntryOfType_targets@.len(),
        0 <= i < os.len(),
        target_type(rule->UnreferencedEntryOfType_targets@[t], hashes) == Some(os[i].class),
    ensures
        (forall|j: int|
            0 <= j < os.len() && (#[trigger] os[j]).class == main ==> !links_in_fields(Tables::Skip, os[j].fields).contains(os[i].key))
            ==> rule_fires(rule, os, hashes, wad),
        os[i].key == 0 ==> rule_fires(rule, os, hashes, wad),
{
}

/// A file whose entries of the targets' types are all linked from entries of the main type
/// does not fire it, and neither does one without an entry of the main type.
pub proof fn law_linked_entries_do_not_fire<H: HashProvider, W: WadProvider>(
    rule: DetectionRule,
    os: Seq<Object>,
    hashes: H,
    wad: W,
    main: u32,
)
    requires
        rule is UnreferencedEntryOfType,
        hashes.hash_of_type(rule->UnreferencedEntryOfType_main_entry_type@) == Some(main),
        (forall|t: int, i: int|
            0 <= t < rule->UnreferencedEntryOfType_targets@.len() && 0 <= i < os.len() && target_type(
                #[trigger] rule->UnreferencedEntryOfType_targets@[t],
                hashes,
            ) == Some((#[trigger] os[i]).class) ==> os[i].key != 0 && exists|j: int|
                0 <= j < os.len() && (#[trigger] os[j]).class == main && links_in_fields(Tables::Skip, os[j].fields).contains(os[i].key))
            || (forall|j: int| 0 <= j < os.len() ==> (#[trigger] os[j]).class != main),
    ensures
        !rule_fires(rule, os, hashes, wad),
{
}

/// The value is an instance with these properties, on its own or embedded.
pub open spec fn is_instance(v: Val, fs: Seq<Field>) -> bool {
    match v {
        Val::Struct(_, x) | Val::Embedded(_, x) => x == fs,
        _ => false,
    }
}

/// The value is a list, ordered or not, with this item.
pub open spec fn has_item(v: Val, n: int, item: Val) -> bool {
    match v {
        Val::Container(items) | Val::UnorderedContainer(items) => 0 <= n < items.len() && items[n] == item,
        _ => false,
    }
}

/// An emitter in a list right under an entry of the type, whose shape is still described by
/// one of the old fields, fires the rule on old shapes.
pub proof fn law_old_shapes_fire<H: HashProvider, W: WadProvider>(
    rule: DetectionRule,
    os: Seq<Object>,
    hashes: H,
    wad: W,
    i: int,
    k: int,
    n: int,
    item: Val,
    emitter: Seq<Field>,
    s: int,
    shape: Seq<Field>,
    f: int,
    old_name: Seq<char>,
)
    requires
        rule is VfxShapeNeedsFix,
        hashes.loaded(),
        0 <= i < os.len(),
        hashes.hash_of_type(rule->VfxShapeNeedsFix_entry_type@) == Some(os[i].class),
        0 <= k < os[i].fields.len(),
        has_item(os[i].fields[k].value, n, item),
        is_instance(item, emitter),
        0 <= s < emitter.len(),
        hashes.hash_of_field("Shape"@) == Some(emitter[s].key),
        forall|j: int| 0 <= j < s ==> (#[trigger] emitter[j]).key != emitter[s].key,
        is_instance(emitter[s].value, shape),
        0 <= f < shape.len(),
        old_name == "BirthTranslation"@ || old_name == "EmitOffset"@ || old_name == "EmitRotationAngles"@ || old_name
            == "EmitRotationAxes"@,
        hashes.hash_of_field(old_name) == Some(shape[f].key),
    ensures
        rule_fires(rule, os, hashes, wad),
{
    let key = emitter[s].key;
    lemma_no_slot(field_keys(emitter), key);
    assert(field_keys(emitter)[s] == key);
    let m = slot(field_keys(emitter), key)->0;
    if m < s {
        assert(emitter[m].key == field_keys(emitter)[m]);
    }
    assert(m == s);
    assert(old_shape_field(hashes, shape[f].key));
    assert(old_shape(emitter[s].value, hashes));
    let items = list_items(os[i].fields[k].value)->0;
    assert(old_emitter(items[n], hashes, key));
    assert(old_emitters(os[i].fields[k], hashes, key));
}

/// A rule that goes by field names looks at a field right under an entry of the type, in
/// whatever case its name is written.
pub proof fn law_named_fields_fire<H: HashProvider, W: WadProvider>(rule: DetectionRule, os: Seq<Object>, hashes: H, wad: W, class: u32)
    requires
        rule is FieldHashExists,
        hashes.loaded(),
        hashes.hash_of_type(rule->FieldHashExists_entry_type@) == Some(class),
        !rule->FieldHashExists_path@.contains('.'),
    ensures
        rule_fires(rule, os, hashes, wad) <==> exists|i: int, k: int|
            0 <= i < os.len() && os[i].class == class && 0 <= k < os[i].fields.len() && named(
                hashes,
                (#[trigger] os[i].fields[k]).key,
                rule->FieldHashExists_path@,
            ),
{
    let path = rule->FieldHashExists_path@;
    lemma_pieces_plain(path, '.');
    assert(pieces(path, '.') == seq![path]);
    assert forall|i: int| 0 <= i < os.len() && (#[trigger] os[i]).class == class && path_in_fields(
        os[i].fields,
        pieces(path, '.'),
        hashes,
    ) implies exists|k: int| 0 <= k < os[i].fields.len() && named(hashes, (#[trigger] os[i].fields[k]).key, path) by {}
}

} // verus!
