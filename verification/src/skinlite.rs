//! Clones of a base skin BIN for another skin slot: only the keys of the skin entry and
//! of its resource resolver change, and the link between them.

use vstd::prelude::*;
use vstd::string::*;
use crate::archive::copy_bytes;
use crate::bin::{
    bin, copy_object, entry_keys, field_keys, fields, lemma_field_keys, lemma_no_slot, lemma_object_keys, object, object_keys, objects,
    put, slot, BinObject, BinProperty, BinTree, Field, FieldHash, Object, OrderedMap, PathHash, PropertyValue, Val,
};
use crate::strings::{fnv1a_hash, name_hash};
use crate::text::{decimal, decimal_text, texts};

verus! {

/// `i` is the first entry of a class.
pub open spec fn first_of(os: Seq<Object>, class: u32, i: int) -> bool {
    0 <= i < os.len() && os[i].class == class && forall|j: int| 0 <= j < i ==> (#[trigger] os[j]).class != class
}

/// The key of the first entry of a class.
pub open spec fn first_key(os: Seq<Object>, class: u32) -> Option<u32> {
    if exists|i: int| first_of(os, class, i) {
        Some(os[choose|i: int| first_of(os, class, i)].key)
    } else {
        None
    }
}

/// The entries with the one under `old` filed under `new`, at the end unless the keys
/// are equal; `None` where there is none under `old`.
pub open spec fn rekeyed(os: Seq<Object>, from: u32, to: u32) -> Option<Seq<Object>> {
    if from == to {
        Some(os)
    } else {
        match slot(object_keys(os), from) {
            Some(i) => {
                let rest = os.remove(i);
                Some(put(rest, slot(object_keys(rest), to), Object { key: to, path: to, ..os[i] }))
            },
            None => None,
        }
    }
}

/// `characters/{champ}/skins/skin{slot}`
pub open spec fn skin_entry(champ: Seq<char>, slot: u32) -> Seq<char> {
    "characters/"@ + champ + "/skins/skin"@ + decimal(slot as nat)
}

/// `Characters/{champ}/Skins/Skin{slot}/Resources`
pub open spec fn resources_text(champ: Seq<char>, slot: u32) -> Seq<char> {
    "Characters/"@ + champ + "/Skins/Skin"@ + decimal(slot as nat) + "/Resources"@
}

/// The skin entry's properties, linked to the resource resolver `rr`: as text where the
/// link was text before.
pub open spec fn linked_to(fs: Seq<Field>, field: u32, rr: u32, text: Seq<char>) -> Seq<Field> {
    match slot(field_keys(fs), field) {
        Some(k) => fs.update(
            k,
            Field {
                value: match fs[k].value {
                    Val::Text(_) => Val::Text(text),
                    _ => Val::Leaf(PropertyValue::Link(rr)),
                },
                ..fs[k]
            },
        ),
        None => fs.push(Field { key: field, name: field, value: Val::Leaf(PropertyValue::Link(rr)) }),
    }
}

/// The entries with the one under `key` linked to its resource resolver.
pub open spec fn relinked(os: Seq<Object>, key: u32, field: u32, rr: u32, text: Seq<char>) -> Seq<Object> {
    match slot(object_keys(os), key) {
        Some(i) => os.update(i, Object { fields: linked_to(os[i].fields, field, rr, text), ..os[i] }),
        None => os,
    }
}

/// The entries of the clone of a skin BIN for a slot; `None` where there is no skin
/// entry to clone.
pub open spec fn cloned(os: Seq<Object>, champ: Seq<char>, slot_no: u32) -> Option<Seq<Object>> {
    let new_skin = name_hash(skin_entry(champ, slot_no));
    let new_rr = name_hash(skin_entry(champ, slot_no) + "/resources"@);
    match first_key(os, name_hash("skincharacterdataproperties"@)) {
        None => None,
        Some(skin) => match rekeyed(os, skin, new_skin) {
            None => None,
            Some(a) => match first_key(os, name_hash("resourceresolver"@)) {
                None => Some(a),
                Some(rr) => match rekeyed(a, rr, new_rr) {
                    None => None,
                    Some(b) => Some(
                        relinked(
                            b,
                            new_skin,
                            name_hash("mresourceresolver"@),
                            new_rr,
                            resources_text(champ, slot_no),
                        ),
                    ),
                },
            },
        },
    }
}

fn find_first(tree: &BinTree, class: u32) -> (r: Option<u32>)
    ensures
        r == first_key(objects(tree.objects), class),
{
    let ghost os = objects(tree.objects);
    let mut i: usize = 0;
    while i < tree.objects.entries.len()
        invariant
            os == objects(tree.objects),
            i <= tree.objects.entries@.len(),
            forall|j: int| 0 <= j < i ==> (#[trigger] os[j]).class != class,
        decreases tree.objects.entries@.len() - i,
    {
        let key = tree.objects.entries[i].0;
        assert(os[i as int] == object(key, tree.objects.entries@[i as int].1));
        if tree.objects.entries[i].1.class_hash.0 == class {
            proof {
                assert(first_of(os, class, i as int));
                let k = choose|k: int| first_of(os, class, k);
                assert(first_of(os, class, k));
                assert(k == i) by {
                    if k < i {
                        assert(os[k].class != class);
                    }
                    if k > i {
                        assert(os[i as int].class != class);
                    }
                }
            }
            return Some(key);
        }
        i = i + 1;
    }
    assert(forall|k: int| !first_of(os, class, k));
    None
}

/// File the entry under `from` under `to`; whether there was one.
fn rekey(map: &mut OrderedMap<BinObject>, from: u32, to: u32) -> (r: bool)
    ensures
        r == (rekeyed(objects(*old(map)), from, to) is Some),
        r ==> objects(*final(map)) == rekeyed(objects(*old(map)), from, to)->0,
{
    if from == to {
        return true;
    }
    let ghost before = *map;
    let ghost os = objects(before);
    proof {
        lemma_object_keys(before);
        lemma_no_slot(entry_keys(before.entries@), from);
    }
    match map.shift_remove(from) {
        Some(o) => {
            let ghost mid = *map;
            let ghost i = before.slot(from)->0;
            proof {
                assert(objects(mid) =~= os.remove(i));
                lemma_object_keys(mid);
                lemma_no_slot(entry_keys(mid.entries@), to);
            }
            let mut moved = o;
            moved.path_hash = PathHash(to);
            map.insert(to, moved);
            assert(objects(*map) =~= rekeyed(os, from, to)->0);
            true
        },
        None => false,
    }
}

fn link_resources(props: &mut OrderedMap<BinProperty>, field: u32, rr: u32, text: String)
    ensures
        fields(*final(props)) == linked_to(fields(*old(props)), field, rr, text@),
{
    let ghost before = *props;
    proof {
        lemma_field_keys(before);
        lemma_no_slot(entry_keys(before.entries@), field);
    }
    match props.find(field) {
        Some(k) => {
            let is_text = matches!(&props.entries[k].1.value, PropertyValue::String(_));
            let name = props.entries[k].1.name_hash;
            let value = if is_text { PropertyValue::String(text) } else { PropertyValue::Link(rr) };
            props.entries[k] = (field, BinProperty { name_hash: name, value });
            assert(fields(*props) =~= linked_to(fields(before), field, rr, text@));
        },
        None => {
            props.entries.push((field, BinProperty { name_hash: FieldHash(field), value: PropertyValue::Link(rr) }));
            assert(fields(*props) =~= linked_to(fields(before), field, rr, text@));
        },
    }
}

/// A copy of the entries of a BIN file.
pub fn copy_objects(map: &OrderedMap<BinObject>) -> (r: OrderedMap<BinObject>)
    ensures
        objects(r) == objects(*map),
{
    let mut out: Vec<(u32, BinObject)> = Vec::new();
    let mut i: usize = 0;
    while i < map.entries.len()
        invariant
            i <= map.entries@.len(),
            out@.len() == i,
            forall|j: int| 0 <= j < i ==> (#[trigger] out@[j]).0 == map.entries@[j].0 && object(out@[j].0, out@[j].1)
                == object(map.entries@[j].0, map.entries@[j].1),
        decreases map.entries@.len() - i,
    {
        out.push((map.entries[i].0, copy_object(&map.entries[i].1)));
        assert(object(out@[i as int].0, out@[i as int].1) == object(map.entries@[i as int].0, map.entries@[i as int].1));
        i = i + 1;
    }
    let r = OrderedMap { entries: out };
    assert(objects(r) =~= objects(*map));
    r
}

/// A copy of a list of strings.
pub fn copy_strings(v: &Vec<String>) -> (r: Vec<String>)
    ensures
        texts(r@) == texts(v@),
{
    let mut out: Vec<String> = Vec::new();
    let mut i: usize = 0;
    while i < v.len()
        invariant
            i <= v@.len(),
            out@.len() == i,
            forall|j: int| 0 <= j < i ==> (#[trigger] out@[j])@ == v@[j]@,
        decreases v@.len() - i,
    {
        out.push(v[i].clone());
        i = i + 1;
    }
    assert(texts(out@) =~= texts(v@));
    out
}

/// Clone a base skin BIN into the given skin slot. `None` when the file has no skin
/// entry.
pub fn clone_skin_tree(source: &BinTree, champ: &str, slot_no: u32) -> (r: Option<BinTree>)
    ensures
        r is Some <==> cloned(objects(source.objects), champ@, slot_no) is Some,
        r matches Some(t) ==> cloned(objects(source.objects), champ@, slot_no) == Some(objects(t.objects)) && texts(
            t.linked@,
        ) == texts(source.linked@) && t.trailing@ == source.trailing@ && t.trailer_files@ == source.trailer_files@,
{
    let skin = match find_first(source, fnv1a_hash("skincharacterdataproperties")) {
        Some(k) => k,
        None => {
            return None;
        },
    };
    let resolver = find_first(source, fnv1a_hash("resourceresolver"));
    let mut map = copy_objects(&source.objects);
    let mut entry = "characters/".to_owned();
    entry.append(champ);
    entry.append("/skins/skin");
    entry.append(decimal_text(slot_no as u64).as_str());
    let new_skin = fnv1a_hash(entry.as_str());
    if !rekey(&mut map, skin, new_skin) {
        return None;
    }
    if let Some(rr) = resolver {
        entry.append("/resources");
        let new_rr = fnv1a_hash(entry.as_str());
        if !rekey(&mut map, rr, new_rr) {
            return None;
        }
        let mut text = "Characters/".to_owned();
        text.append(champ);
        text.append("/Skins/Skin");
        text.append(decimal_text(slot_no as u64).as_str());
        text.append("/Resources");
        let ghost mid = map;
        proof {
            lemma_object_keys(mid);
        }
        if let Some(i) = map.find(new_skin) {
            link_resources(&mut map.entries[i].1.properties, fnv1a_hash("mresourceresolver"), new_rr, text);
            assert(objects(map) =~= relinked(
                objects(mid),
                new_skin,
                name_hash("mresourceresolver"@),
                new_rr,
                text@,
            ));
        }
    }
    Some(
        BinTree {
            objects: map,
            linked: copy_strings(&source.linked),
            trailing: copy_bytes(&source.trailing),
            trailer_files: source.trailer_files.clone(),
        },
    )
}

/// A copy of a BIN file.
pub fn copy_tree(t: &BinTree) -> (r: BinTree)
    ensures
        bin(r) == bin(*t),
{
    let r = BinTree {
        objects: copy_objects(&t.objects),
        linked: copy_strings(&t.linked),
        trailing: copy_bytes(&t.trailing),
        trailer_files: t.trailer_files.clone(),
    };
    assert(bin(r) =~= bin(*t));
    r
}

proof fn lemma_rekeyed(os: Seq<Object>, from: u32, to: u32, i: int)
    requires
        object_keys(os).no_duplicates(),
        !object_keys(os).contains(to) || from == to,
        0 <= i < os.len(),
        os[i].key == from,
    ensures
        ({
            let r = rekeyed(os, from, to);
            &&& r is Some
            &&& object_keys(r->0).no_duplicates()
            &&& from != to ==> r->0.contains((Object { key: to, path: to, ..os[i] }))
            &&& from == to ==> r->0 == os
            &&& forall|j: int| 0 <= j < os.len() && j != i ==> r->0.contains(#[trigger] os[j])
            &&& forall|k: u32| #[trigger] object_keys(r->0).contains(k) ==> object_keys(os).contains(k) || k == to
            &&& from != to ==> !object_keys(r->0).contains(from)
        }),
{
    let keys = object_keys(os);
    assert(keys[i] == from);
    lemma_no_slot(keys, from);
    assert(slot(keys, from) == Some(i));
    if from != to {
        let rest = os.remove(i);
        let rk = object_keys(rest);
        assert forall|n: int| 0 <= n < rest.len() implies rk[n] == keys[if n < i { n } else { n + 1 }] by {}
        assert(!rk.contains(to)) by {
            if rk.contains(to) {
                let n = choose|n: int| 0 <= n < rk.len() && rk[n] == to;
                let m = if n < i { n } else { n + 1 };
                assert(keys[m] == to);
            }
        }
        lemma_no_slot(rk, to);
        let x = Object { key: to, path: to, ..os[i] };
        let out = rekeyed(os, from, to)->0;
        assert(out == rest.push(x));
        assert(out[rest.len() as int] == x);
        assert forall|j: int| 0 <= j < os.len() && j != i implies out.contains(#[trigger] os[j]) by {
            let n = if j < i { j } else { j - 1 };
            assert(out[n] == os[j]);
        }
        let ok = object_keys(out);
        assert forall|a: int, b: int| 0 <= a < ok.len() && 0 <= b < ok.len() && a != b implies ok[a] != ok[b] by {
            if a < rest.len() {
                assert(ok[a] == rk[a]);
                assert(rk.contains(rk[a]));
            }
            if b < rest.len() {
                assert(ok[b] == rk[b]);
                assert(rk.contains(rk[b]));
            }
            if a < rest.len() && b < rest.len() {
                assert(keys[if a < i { a } else { a + 1 }] != keys[if b < i { b } else { b + 1 }]);
            }
        }
        assert forall|k: u32| #[trigger] ok.contains(k) implies (keys.contains(k) || k == to) && k != from by {
            let n = choose|n: int| 0 <= n < ok.len() && ok[n] == k;
            if n < rest.len() {
                let m = if n < i { n } else { n + 1 };
                assert(ok[n] == rk[n]);
                assert(keys[m] == k);
                assert(m != i);
            }
        }
    } else {
        assert forall|j: int| 0 <= j < os.len() && j != i implies os.contains(#[trigger] os[j]) by {}
    }
}

proof fn lemma_first_key(os: Seq<Object>, class: u32, i: int)
    requires
        first_of(os, class, i),
    ensures
        first_key(os, class) == Some(os[i].key),
{
    let k = choose|k: int| first_of(os, class, k);
    assert(os[k].class == os[i].class);
    assert(k == i);
}

/// Without a skin entry there is no clone.
pub proof fn law_clones_need_a_skin_entry(os: Seq<Object>, champ: Seq<char>, slot_no: u32)
    requires
        forall|i: int| 0 <= i < os.len() ==> (#[trigger] os[i]).class != name_hash("skincharacterdataproperties"@),
    ensures
        cloned(os, champ, slot_no) is None,
{
}

/// The skin entry of a clone is filed under the name of the new slot with the same class,
/// and the entries besides it and its resource resolver are those of the source. Without a
/// resolver nothing else of it changes.
pub proof fn law_clones_rename_the_skin(os: Seq<Object>, champ: Seq<char>, slot_no: u32, i: int)
    requires
        object_keys(os).no_duplicates(),
        first_of(os, name_hash("skincharacterdataproperties"@), i),
        forall|j: int| 0 <= j < os.len() ==> (#[trigger] os[j]).class != name_hash("resourceresolver"@),
        forall|j: int|
            0 <= j < os.len() && j != i ==> (#[trigger] os[j]).key != name_hash(
                "characters/"@ + champ + "/skins/skin"@ + decimal(slot_no as nat),
            ),
        os[i].key != name_hash("characters/"@ + champ + "/skins/skin"@ + decimal(slot_no as nat)),
    ensures
        ({
            let key = name_hash("characters/"@ + champ + "/skins/skin"@ + decimal(slot_no as nat));
            &&& cloned(os, champ, slot_no) is Some
            &&& cloned(os, champ, slot_no)->0.contains((Object { key, path: key, ..os[i] }))
            &&& forall|j: int| 0 <= j < os.len() && j != i ==> cloned(os, champ, slot_no)->0.contains(#[trigger] os[j])
            &&& !object_keys(cloned(os, champ, slot_no)->0).contains(os[i].key)
        }),
{
    let to = name_hash(skin_entry(champ, slot_no));
    lemma_first_key(os, name_hash("skincharacterdataproperties"@), i);
    let keys = object_keys(os);
    assert(!keys.contains(to)) by {
        if keys.contains(to) {
            let n = choose|n: int| 0 <= n < keys.len() && keys[n] == to;
            assert(os[n].key == to);
        }
    }
    lemma_rekeyed(os, os[i].key, to, i);
}

/// The resource resolver of a clone is filed under the new slot's name for it, and the skin
/// entry of the clone links it there: by its key, or by its path where the link was a text.
pub proof fn law_clones_link_their_resources(os: Seq<Object>, champ: Seq<char>, slot_no: u32, i: int, r: int, f: int)
    requires
        object_keys(os).no_duplicates(),
        name_hash("skincharacterdataproperties"@) != name_hash("resourceresolver"@),
        first_of(os, name_hash("skincharacterdataproperties"@), i),
        first_of(os, name_hash("resourceresolver"@), r),
        ({
            let key = name_hash("characters/"@ + champ + "/skins/skin"@ + decimal(slot_no as nat));
            let rr = name_hash("characters/"@ + champ + "/skins/skin"@ + decimal(slot_no as nat) + "/resources"@);
            &&& key != rr
            &&& forall|j: int| 0 <= j < os.len() ==> (#[trigger] os[j]).key != key && os[j].key != rr
        }),
        0 <= f < os[i].fields.len(),
        os[i].fields[f].key == name_hash("mresourceresolver"@),
        forall|n: int| 0 <= n < f ==> (#[trigger] os[i].fields[n]).key != name_hash("mresourceresolver"@),
    ensures
        ({
            let key = name_hash("characters/"@ + champ + "/skins/skin"@ + decimal(slot_no as nat));
            let rr = name_hash("characters/"@ + champ + "/skins/skin"@ + decimal(slot_no as nat) + "/resources"@);
            let link = match os[i].fields[f].value {
                Val::Text(_) => Val::Text("Characters/"@ + champ + "/Skins/Skin"@ + decimal(slot_no as nat) + "/Resources"@),
                _ => Val::Leaf(PropertyValue::Link(rr)),
            };
            &&& cloned(os, champ, slot_no) is Some
            &&& cloned(os, champ, slot_no)->0.contains((Object { key: rr, path: rr, ..os[r] }))
            &&& cloned(os, champ, slot_no)->0.contains(
                (Object {
                    key,
                    path: key,
                    fields: os[i].fields.update(f, Field { value: link, ..os[i].fields[f] }),
                    ..os[i]
                }),
            )
        }),
{
    let key = name_hash(skin_entry(champ, slot_no));
    let rr = name_hash(skin_entry(champ, slot_no) + "/resources"@);
    lemma_first_key(os, name_hash("skincharacterdataproperties"@), i);
    lemma_first_key(os, name_hash("resourceresolver"@), r);
    let keys = object_keys(os);
    assert(forall|n: int| 0 <= n < keys.len() ==> #[trigger] keys[n] == os[n].key);
    assert(!keys.contains(key) && !keys.contains(rr));
    lemma_rekeyed(os, os[i].key, key, i);
    let a = rekeyed(os, os[i].key, key)->0;
    assert(keys[i] != keys[r]);
    assert(a.contains(os[r]));
    let ra = choose|n: int| 0 <= n < a.len() && a[n] == os[r];
    let skin = Object { key, path: key, ..os[i] };
    let sa = choose|n: int| 0 <= n < a.len() && a[n] == skin;
    lemma_rekeyed(a, os[r].key, rr, ra);
    let b = rekeyed(a, os[r].key, rr)->0;
    assert(b.contains(a[sa]));
    let sb = choose|n: int| 0 <= n < b.len() && b[n] == skin;
    let resolver = Object { key: rr, path: rr, ..os[r] };
    let rb = choose|n: int| 0 <= n < b.len() && b[n] == resolver;
    let bk = object_keys(b);
    assert(bk[sb] == key && bk[rb] == rr);
    lemma_no_slot(bk, key);
    assert(slot(bk, key) == Some(sb));
    let fs = os[i].fields;
    lemma_no_slot(field_keys(fs), fs[f].key);
    assert(field_keys(fs)[f] == fs[f].key);
    let s = slot(field_keys(fs), fs[f].key)->0;
    if s < f {
        assert(field_keys(fs)[s] == fs[s].key);
    }
    assert(s == f);
    let out = cloned(os, champ, slot_no)->0;
    assert(out[rb] == resolver);
    assert(out[sb].fields == linked_to(fs, fs[f].key, rr, resources_text(champ, slot_no)));
}

} // verus!
