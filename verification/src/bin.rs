//! The property tree of a BIN file, and its mathematical model.
//!
//! A BIN file is an ordered table of objects; an object is an ordered table of
//! properties; a property holds a value that may itself hold properties. Floating
//! point components are held as their IEEE 754 single precision bit patterns.

use std::collections::BTreeMap;
use vstd::prelude::*;
use crate::text::texts;

verus! {

/// Hash of a class name.
#[derive(Clone, Copy, Debug, PartialEq, Eq, Structural, Hash)]
pub struct TypeHash(pub u32);

/// Hash of a field name.
#[derive(Clone, Copy, Debug, PartialEq, Eq, Structural, Hash)]
pub struct FieldHash(pub u32);

/// Hash of an entry path.
#[derive(Clone, Copy, Debug, PartialEq, Eq, Structural, Hash)]
pub struct PathHash(pub u32);

/// Hash of a game asset path.
#[derive(Clone, Copy, Debug, PartialEq, Eq, Structural, Hash)]
pub struct GameHash(pub u64);

/// A table from 32-bit keys to values that remembers the order of insertion.
///
/// No key occurs twice: see [`OrderedMap::distinct`], which every operation keeps.
#[derive(Debug)]
pub struct OrderedMap<V> {
    pub entries: Vec<(u32, V)>,
}

/// One value of a BIN property.
#[derive(Debug)]
pub enum PropertyValue {
    Bool(bool),
    I8(i8),
    U8(u8),
    I16(i16),
    U16(u16),
    I32(i32),
    U32(u32),
    I64(i64),
    U64(u64),
    F32(u32),
    Vector2([u32; 2]),
    Vector3([u32; 3]),
    Vector4([u32; 4]),
    Matrix4x4([u32; 16]),
    Color([u8; 4]),
    String(String),
    Hash(u32),
    WadHash(u64),
    Link(u32),
    BitBool(bool),
    Struct(StructValue),
    Embedded(StructValue),
    Container(Vec<PropertyValue>),
    UnorderedContainer(Vec<PropertyValue>),
    Optional(Box<Option<PropertyValue>>),
    Table(Vec<(PropertyValue, PropertyValue)>),
}

/// A class instance inside a property.
#[derive(Debug)]
pub struct StructValue {
    pub class_hash: TypeHash,
    pub properties: OrderedMap<BinProperty>,
}

/// A named value.
#[derive(Debug)]
pub struct BinProperty {
    pub name_hash: FieldHash,
    pub value: PropertyValue,
}

/// A top-level entry.
#[derive(Debug)]
pub struct BinObject {
    pub class_hash: TypeHash,
    pub path_hash: PathHash,
    pub properties: OrderedMap<BinProperty>,
}

/// A whole BIN file: its entries by path hash, and the BIN files it links to.
#[derive(Debug)]
pub struct BinTree {
    pub objects: OrderedMap<BinObject>,
    pub linked: Vec<String>,
    /// Bytes behind the entries, which are kept as they are.
    pub trailing: Vec<u8>,
    /// Paths of hashed file references, by hash.
    pub trailer_files: BTreeMap<u64, String>,
}

impl BinTree {
    /// A BIN file without entries.
    pub fn new() -> (r: BinTree)
        ensures
            r.objects.entries@.len() == 0,
            r.linked@.len() == 0,
            r.trailing@.len() == 0,
            r.trailer_files@ == Map::<u64, String>::empty(),
    {
        BinTree { objects: OrderedMap::new(), linked: Vec::new(), trailing: Vec::new(), trailer_files: BTreeMap::new() }
    }
}

/// What a property value is, with its text as a character sequence.
pub enum Val {
    Leaf(PropertyValue),
    Text(Seq<char>),
    Struct(u32, Seq<Field>),
    Embedded(u32, Seq<Field>),
    Container(Seq<Val>),
    UnorderedContainer(Seq<Val>),
    Absent,
    Present(Box<Val>),
    Table(Seq<(Val, Val)>),
}

/// What a property is: the key it is filed under, the name it carries, its value.
pub struct Field {
    pub key: u32,
    pub name: u32,
    pub value: Val,
}

/// What an entry is.
pub struct Object {
    pub key: u32,
    pub class: u32,
    pub path: u32,
    pub fields: Seq<Field>,
}

/// What a BIN file is.
pub struct Tree {
    pub objects: Seq<Object>,
    pub linked: Seq<Seq<char>>,
}

/// The model of a property value.
pub open spec fn val(v: PropertyValue) -> Val
    decreases v,
{
    match v {
        PropertyValue::String(s) => Val::Text(s@),
        PropertyValue::Struct(s) => Val::Struct(s.class_hash.0, fields(s.properties)),
        PropertyValue::Embedded(s) => Val::Embedded(s.class_hash.0, fields(s.properties)),
        PropertyValue::Container(items) => Val::Container(vals(items)),
        PropertyValue::UnorderedContainer(items) => Val::UnorderedContainer(vals(items)),
        PropertyValue::Optional(inner) => match *inner {
            Some(x) => Val::Present(Box::new(val(x))),
            None => Val::Absent,
        },
        PropertyValue::Table(entries) => Val::Table(pairs(entries)),
        _ => Val::Leaf(v),
    }
}

/// The models of a list of values.
pub open spec fn vals(items: Vec<PropertyValue>) -> Seq<Val>
    decreases items,
{
    Seq::new(items@.len(), |i: int| if 0 <= i < items.len() { val(items[i]) } else { Val::Absent })
}

/// The models of a list of key and value pairs.
pub open spec fn pairs(entries: Vec<(PropertyValue, PropertyValue)>) -> Seq<(Val, Val)>
    decreases entries,
{
    Seq::new(entries@.len(), |i: int| if 0 <= i < entries.len() {
        (val(entries[i].0), val(entries[i].1))
    } else {
        (Val::Absent, Val::Absent)
    })
}

/// The model of a property table.
pub open spec fn fields(props: OrderedMap<BinProperty>) -> Seq<Field>
    decreases props,
{
    Seq::new(props.entries@.len(), |i: int| if 0 <= i < props.entries.len() {
        Field {
            key: props.entries[i].0,
            name: props.entries[i].1.name_hash.0,
            value: val(props.entries[i].1.value),
        }
    } else {
        Field { key: 0, name: 0, value: Val::Absent }
    })
}

/// The model of an entry filed under `key`.
pub open spec fn object(key: u32, o: BinObject) -> Object {
    Object { key, class: o.class_hash.0, path: o.path_hash.0, fields: fields(o.properties) }
}

/// The model of a table of entries.
pub open spec fn objects(map: OrderedMap<BinObject>) -> Seq<Object> {
    Seq::new(map.entries@.len(), |i: int| object(map.entries@[i].0, map.entries@[i].1))
}

/// The paths of hashed file references, by hash.
pub open spec fn trailers(m: Map<u64, String>) -> Map<u64, Seq<char>> {
    m.map_values(|s: String| s@)
}

/// The model of a BIN file, apart from its file references and the bytes behind its
/// entries.
pub open spec fn tree(t: BinTree) -> Tree {
    Tree { objects: objects(t.objects), linked: texts(t.linked@) }
}

/// What a BIN file is, with all that it holds.
#[verifier::ext_equal]
pub struct Bin {
    pub tree: Tree,
    pub files: Map<u64, Seq<char>>,
    pub trailing: Seq<u8>,
}

/// The model of a BIN file.
pub open spec fn bin(t: BinTree) -> Bin {
    Bin { tree: tree(t), files: trailers(t.trailer_files@), trailing: t.trailing@ }
}

/// The first place at which `key` stands in `keys`.
pub open spec fn is_slot(keys: Seq<u32>, key: u32, i: int) -> bool {
    0 <= i < keys.len() && keys[i] == key && forall|j: int| 0 <= j < i ==> keys[j] != key
}

/// Where `key` is filed in a table with these keys.
pub open spec fn slot(keys: Seq<u32>, key: u32) -> Option<int> {
    if exists|i: int| is_slot(keys, key, i) {
        Some(choose|i: int| is_slot(keys, key, i))
    } else {
        None
    }
}

/// The keys of a table in order.
pub open spec fn entry_keys<V>(entries: Seq<(u32, V)>) -> Seq<u32> {
    entries.map_values(|e: (u32, V)| e.0)
}

/// The keys of a modelled property table in order.
pub open spec fn field_keys(fs: Seq<Field>) -> Seq<u32> {
    fs.map_values(|f: Field| f.key)
}

/// The keys of a modelled table of entries in order.
pub open spec fn object_keys(os: Seq<Object>) -> Seq<u32> {
    os.map_values(|o: Object| o.key)
}

/// `s` with `x` in the place that is taken already, or at the end.
pub open spec fn put<A>(s: Seq<A>, place: Option<int>, x: A) -> Seq<A> {
    match place {
        Some(i) => s.update(i, x),
        None => s.push(x),
    }
}

/// `s` without its item `i`, whose place the last item takes.
pub open spec fn swap_out<A>(s: Seq<A>, i: int) -> Seq<A> {
    s.update(i, s.last()).drop_last()
}

pub proof fn lemma_slot(keys: Seq<u32>, key: u32, i: int)
    requires
        is_slot(keys, key, i),
    ensures
        slot(keys, key) == Some(i),
{
    let k = choose|k: int| is_slot(keys, key, k);
    assert(is_slot(keys, key, k));
}

pub proof fn lemma_no_slot(keys: Seq<u32>, key: u32)
    ensures
        slot(keys, key) is None <==> !keys.contains(key),
        slot(keys, key) matches Some(i) ==> is_slot(keys, key, i),
    decreases keys.len(),
{
    if keys.contains(key) {
        let i = choose|i: int| 0 <= i < keys.len() && keys[i] == key;
        lemma_slot_below(keys, key, i);
    }
}

proof fn lemma_slot_below(keys: Seq<u32>, key: u32, i: int)
    requires
        0 <= i < keys.len(),
        keys[i] == key,
    ensures
        exists|k: int| is_slot(keys, key, k),
    decreases i,
{
    if forall|j: int| 0 <= j < i ==> keys[j] != key {
        assert(is_slot(keys, key, i));
    } else {
        let j = choose|j: int| 0 <= j < i && keys[j] == key;
        lemma_slot_below(keys, key, j);
    }
}

/// A property table files its entries under the same keys as its model.
pub proof fn lemma_field_keys(props: OrderedMap<BinProperty>)
    ensures
        field_keys(fields(props)) == entry_keys(props.entries@),
{
    assert(field_keys(fields(props)) =~= entry_keys(props.entries@));
}

/// A table of entries files them under the same keys as its model.
pub proof fn lemma_object_keys(map: OrderedMap<BinObject>)
    ensures
        object_keys(objects(map)) == entry_keys(map.entries@),
{
    assert(object_keys(objects(map)) =~= entry_keys(map.entries@));
}

impl<V> OrderedMap<V> {
    /// No key occurs twice.
    pub open spec fn distinct(&self) -> bool {
        entry_keys(self.entries@).no_duplicates()
    }

    /// Where `key` is filed.
    pub open spec fn slot(&self, key: u32) -> Option<int> {
        slot(entry_keys(self.entries@), key)
    }

    /// The empty table.
    pub fn new() -> (r: Self)
        ensures
            r.entries@.len() == 0,
            r.distinct(),
    {
        OrderedMap { entries: Vec::new() }
    }

    /// The number of entries.
    pub fn len(&self) -> (r: usize)
        ensures
            r == self.entries@.len(),
    {
        self.entries.len()
    }

    /// Where `key` is filed.
    pub fn find(&self, key: u32) -> (r: Option<usize>)
        ensures
            r matches Some(i) ==> self.slot(key) == Some(i as int) && i < self.entries@.len()
                && self.entries@[i as int].0 == key,
            r is None <==> self.slot(key) is None,
            r is None <==> !entry_keys(self.entries@).contains(key),
    {
        let ghost keys = entry_keys(self.entries@);
        let mut i: usize = 0;
        while i < self.entries.len()
            invariant
                keys == entry_keys(self.entries@),
                i <= self.entries@.len(),
                forall|j: int| 0 <= j < i ==> keys[j] != key,
            decreases self.entries@.len() - i,
        {
            if self.entries[i].0 == key {
                proof {
                    lemma_slot(keys, key, i as int);
                    lemma_no_slot(keys, key);
                }
                return Some(i);
            }
            i = i + 1;
        }
        proof {
            lemma_no_slot(keys, key);
        }
        None
    }

    /// The value filed under `key`.
    pub fn get(&self, key: u32) -> (r: Option<&V>)
        ensures
            r matches Some(v) ==> self.slot(key) is Some && *v == self.entries@[self.slot(key)->0].1,
            r is None <==> self.slot(key) is None,
    {
        match self.find(key) {
            Some(i) => Some(&self.entries[i].1),
            None => None,
        }
    }

    /// Whether something is filed under `key`.
    pub fn contains_key(&self, key: u32) -> (r: bool)
        ensures
            r == entry_keys(self.entries@).contains(key),
    {
        self.find(key).is_some()
    }

    /// File `value` under `key`: in the place of what was there, or at the end.
    pub fn insert(&mut self, key: u32, value: V)
        ensures
            final(self).entries@ == put(old(self).entries@, old(self).slot(key), (key, value)),
            old(self).distinct() ==> final(self).distinct(),
    {
        let ghost before = self.entries@;
        let ghost keys = entry_keys(before);
        match self.find(key) {
            Some(i) => {
                self.entries[i] = (key, value);
                assert(self.entries@ =~= before.update(i as int, (key, value)));
                assert(entry_keys(self.entries@) =~= keys);
            },
            None => {
                self.entries.push((key, value));
                assert(entry_keys(self.entries@) =~= keys.push(key));
                proof {
                    if keys.no_duplicates() {
                        assert(keys.push(key).no_duplicates()) by {
                            assert(!keys.contains(key));
                        }
                    }
                }
            },
        }
    }

    /// Take out what is filed under `key`; the last entry takes its place.
    pub fn swap_remove(&mut self, key: u32) -> (r: Option<V>)
        ensures
            r is Some <==> old(self).slot(key) is Some,
            r is None ==> final(self).entries@ == old(self).entries@,
            r matches Some(v) ==> {
                let i = old(self).slot(key)->0;
                v == old(self).entries@[i].1 && final(self).entries@ == swap_out(old(self).entries@, i)
            },
            old(self).distinct() ==> final(self).distinct(),
    {
        match self.find(key) {
            Some(i) => {
                let ghost before = self.entries@;
                let e = self.entries.swap_remove(i);
                assert(self.entries@ =~= swap_out(before, i as int));
                proof {
                    if entry_keys(before).no_duplicates() {
                        let k = entry_keys(self.entries@);
                        assert forall|a: int, b: int| 0 <= a < k.len() && 0 <= b < k.len() && a != b implies k[a] != k[b] by {
                            let x = if a == i { before.len() - 1 } else { a };
                            let y = if b == i { before.len() - 1 } else { b };
                            assert(entry_keys(before)[x] != entry_keys(before)[y]);
                        }
                    }
                }
                Some(e.1)
            },
            None => None,
        }
    }

    /// Take out what is filed under `key`; what follows moves up.
    pub fn shift_remove(&mut self, key: u32) -> (r: Option<V>)
        ensures
            r is Some <==> old(self).slot(key) is Some,
            r is None ==> final(self).entries@ == old(self).entries@,
            r matches Some(v) ==> {
                let i = old(self).slot(key)->0;
                v == old(self).entries@[i].1 && final(self).entries@ == old(self).entries@.remove(i)
            },
            old(self).distinct() ==> final(self).distinct(),
    {
        match self.find(key) {
            Some(i) => {
                let ghost before = self.entries@;
                let e = self.entries.remove(i);
                proof {
                    if entry_keys(before).no_duplicates() {
                        let k = entry_keys(self.entries@);
                        assert forall|a: int, b: int| 0 <= a < k.len() && 0 <= b < k.len() && a != b implies k[a] != k[b] by {
                            let x = if a >= i { a + 1 } else { a };
                            let y = if b >= i { b + 1 } else { b };
                            assert(entry_keys(before)[x] != entry_keys(before)[y]);
                        }
                    }
                }
                Some(e.1)
            },
            None => None,
        }
    }
}

/// A copy of a list of values.
pub fn copy_values(items: &Vec<PropertyValue>) -> (r: Vec<PropertyValue>)
    ensures
        vals(r) == vals(*items),
    decreases *items,
{
    let mut out: Vec<PropertyValue> = Vec::new();
    let mut i: usize = 0;
    while i < items.len()
        invariant
            i <= items@.len(),
            out@.len() == i,
            forall|j: int| 0 <= j < i ==> val(#[trigger] out@[j]) == val(items@[j]),
        decreases items@.len() - i,
    {
        assert(decreases_to!(*items => items@[i as int]));
        out.push(copy_value(&items[i]));
        i = i + 1;
    }
    assert(vals(out) =~= vals(*items));
    out
}

/// A copy of a property table.
pub fn copy_properties(props: &OrderedMap<BinProperty>) -> (r: OrderedMap<BinProperty>)
    ensures
        fields(r) == fields(*props),
        entry_keys(r.entries@) == entry_keys(props.entries@),
    decreases *props,
{
    let mut out: Vec<(u32, BinProperty)> = Vec::new();
    let mut i: usize = 0;
    while i < props.entries.len()
        invariant
            i <= props.entries@.len(),
            out@.len() == i,
            forall|j: int| 0 <= j < i ==> (#[trigger] out@[j]).0 == props.entries@[j].0
                && out@[j].1.name_hash == props.entries@[j].1.name_hash
                && val(out@[j].1.value) == val(props.entries@[j].1.value),
        decreases props.entries@.len() - i,
    {
        let e = &props.entries[i];
        assert(decreases_to!(*props => props.entries@[i as int]));
        out.push((e.0, BinProperty { name_hash: e.1.name_hash, value: copy_value(&e.1.value) }));
        i = i + 1;
    }
    let r = OrderedMap { entries: out };
    assert(fields(r) =~= fields(*props));
    assert(entry_keys(r.entries@) =~= entry_keys(props.entries@));
    r
}

/// A copy of a value.
pub fn copy_value(v: &PropertyValue) -> (r: PropertyValue)
    ensures
        val(r) == val(*v),
    decreases *v,
{
    match v {
        PropertyValue::Bool(x) => PropertyValue::Bool(*x),
        PropertyValue::I8(x) => PropertyValue::I8(*x),
        PropertyValue::U8(x) => PropertyValue::U8(*x),
        PropertyValue::I16(x) => PropertyValue::I16(*x),
        PropertyValue::U16(x) => PropertyValue::U16(*x),
        PropertyValue::I32(x) => PropertyValue::I32(*x),
        PropertyValue::U32(x) => PropertyValue::U32(*x),
        PropertyValue::I64(x) => PropertyValue::I64(*x),
        PropertyValue::U64(x) => PropertyValue::U64(*x),
        PropertyValue::F32(x) => PropertyValue::F32(*x),
        PropertyValue::Vector2(x) => PropertyValue::Vector2(*x),
        PropertyValue::Vector3(x) => PropertyValue::Vector3(*x),
        PropertyValue::Vector4(x) => PropertyValue::Vector4(*x),
        PropertyValue::Matrix4x4(x) => PropertyValue::Matrix4x4(*x),
        PropertyValue::Color(x) => PropertyValue::Color(*x),
        PropertyValue::String(x) => PropertyValue::String(x.clone()),
        PropertyValue::Hash(x) => PropertyValue::Hash(*x),
        PropertyValue::WadHash(x) => PropertyValue::WadHash(*x),
        PropertyValue::Link(x) => PropertyValue::Link(*x),
        PropertyValue::BitBool(x) => PropertyValue::BitBool(*x),
        PropertyValue::Struct(x) => PropertyValue::Struct(copy_struct(x)),
        PropertyValue::Embedded(x) => PropertyValue::Embedded(copy_struct(x)),
        PropertyValue::Container(x) => PropertyValue::Container(copy_values(x)),
        PropertyValue::UnorderedContainer(x) => PropertyValue::UnorderedContainer(copy_values(x)),
        PropertyValue::Optional(x) => match &**x {
            Some(y) => PropertyValue::Optional(Box::new(Some(copy_value(y)))),
            None => PropertyValue::Optional(Box::new(None)),
        },
        PropertyValue::Table(x) => PropertyValue::Table(copy_pairs(x)),
    }
}

/// A copy of a list of key and value pairs.
pub fn copy_pairs(items: &Vec<(PropertyValue, PropertyValue)>) -> (r: Vec<(PropertyValue, PropertyValue)>)
    ensures
        pairs(r) == pairs(*items),
    decreases *items,
{
    let mut out: Vec<(PropertyValue, PropertyValue)> = Vec::new();
    let mut i: usize = 0;
    while i < items.len()
        invariant
            i <= items@.len(),
            out@.len() == i,
            forall|j: int| 0 <= j < i ==> val((#[trigger] out@[j]).0) == val(items@[j].0)
                && val(out@[j].1) == val(items@[j].1),
        decreases items@.len() - i,
    {
        assert(decreases_to!(*items => items@[i as int]));
        out.push((copy_value(&items[i].0), copy_value(&items[i].1)));
        i = i + 1;
    }
    assert(pairs(out) =~= pairs(*items));
    out
}

/// A copy of a class instance.
pub fn copy_struct(s: &StructValue) -> (r: StructValue)
    ensures
        r.class_hash == s.class_hash,
        fields(r.properties) == fields(s.properties),
    decreases *s,
{
    StructValue { class_hash: s.class_hash, properties: copy_properties(&s.properties) }
}

/// A copy of an entry.
pub fn copy_object(o: &BinObject) -> (r: BinObject)
    ensures
        forall|key: u32| object(key, r) == object(key, *o),
{
    BinObject { class_hash: o.class_hash, path_hash: o.path_hash, properties: copy_properties(&o.properties) }
}

} // verus!
