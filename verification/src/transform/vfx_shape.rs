//! Migration of particle shapes to the format of the present client.
//!
//! The shape of an emitter is rebuilt as one of three classes, filed under a new field,
//! and its birth translation moves out of it, beside it.

use vstd::prelude::*;
use vstd::string::*;
use crate::bin::{
    entry_keys, field_keys, fields, lemma_field_keys, lemma_no_slot, object, objects, put, slot, swap_out, val, vals, BinProperty,
    Field, FieldHash, Object, OrderedMap, PropertyValue, StructValue, TypeHash, Val,
};
use crate::context::{same_but_tree, FixContext};
use crate::detect::rules::{instance_fields, old_emitter, old_shape, old_shape_field};
use crate::factory::REAL_ONE;
use crate::text::lemma_take_next;
use crate::traits::{GameProvider, HashProvider, WadProvider};
use crate::walk::{add_count, capped};

verus! {

/// Field under which the client looks for the shape of an emitter.
pub const NEW_SHAPE_HASH: u32 = 0x3bf0_b4ed;

/// Field under which the client looks for the birth translation of an emitter.
pub const NEW_BIRTH_TRANSLATION_HASH: u32 = 0x563d_4a22;

/// Class of a birth translation.
pub const BIRTH_TRANSLATION_TYPE_HASH: u32 = 0x68dc_32b6;

/// Class of a cylinder: radius, height and flags.
pub const SHAPE_TYPE_CYLINDER: u32 = 0x3dbe_415d;

/// Class of a shape with nothing but an emit offset.
pub const SHAPE_TYPE_SIMPLE: u32 = 0xee39_916f;

/// Class of every other shape.
pub const SHAPE_TYPE_DEFAULT: u32 = 0x4f4e_2ed7;

/// The hashes of the field names that the migration goes by.
#[derive(Clone, Copy)]
pub struct VfxHashes {
    pub birth_translation: Option<u32>,
    pub emit_offset: Option<u32>,
    pub emit_rotation_angles: Option<u32>,
    pub emit_rotation_axes: Option<u32>,
    pub constant_value: Option<u32>,
    pub radius: Option<u32>,
    pub height: Option<u32>,
    pub flags: Option<u32>,
}

/// What the dictionary gives for the field names.
pub open spec fn vfx_hashes<H: HashProvider>(hashes: H) -> VfxHashes {
    VfxHashes {
        birth_translation: hashes.hash_of_field("BirthTranslation"@),
        emit_offset: hashes.hash_of_field("EmitOffset"@),
        emit_rotation_angles: hashes.hash_of_field("EmitRotationAngles"@),
        emit_rotation_axes: hashes.hash_of_field("EmitRotationAxes"@),
        constant_value: hashes.hash_of_field("ConstantValue"@),
        radius: hashes.hash_of_field("Radius"@),
        height: hashes.hash_of_field("Height"@),
        flags: hashes.hash_of_field("Flags"@),
    }
}

/// The single precision number is zero.
pub open spec fn is_zero(bits: u32) -> bool {
    bits == 0 || bits == 0x8000_0000
}

fn zero(bits: u32) -> (r: bool)
    ensures
        r == is_zero(bits),
{
    bits == 0 || bits == 0x8000_0000
}

/// The value of a property, where the table has it.
pub open spec fn value_under(fs: Seq<Field>, key: Option<u32>) -> Option<Val> {
    match key {
        Some(k) => match slot(field_keys(fs), k) {
            Some(i) => Some(fs[i].value),
            None => None,
        },
        None => None,
    }
}

/// The vector that a class instance holds as its constant value.
pub open spec fn constant_vector(v: Val, constant: Option<u32>) -> Option<[u32; 3]> {
    match instance_fields(v) {
        Some(fs) => match value_under(fs, constant) {
            Some(Val::Leaf(PropertyValue::Vector3(c))) => Some(c),
            _ => None,
        },
        None => None,
    }
}

/// The value is the pair of axes of a cylinder: (0, 1, 0) and (0, 0, 1).
pub open spec fn cylinder_axes(v: Val) -> bool {
    match v {
        Val::Container(items) => items.len() == 2 && match (items[0], items[1]) {
            (Val::Leaf(PropertyValue::Vector3(a)), Val::Leaf(PropertyValue::Vector3(b))) => a@[1] == REAL_ONE && is_zero(
                a@[0],
            ) && is_zero(a@[2]) && b@[2] == REAL_ONE && is_zero(b@[0]) && is_zero(b@[1]),
            _ => false,
        },
        _ => false,
    }
}

/// What a shape of the old format says.
#[derive(Clone, Copy)]
pub struct ShapeAnalysis {
    pub needs_fix: bool,
    pub birth_vector: Option<[u32; 3]>,
    pub radius: u32,
    pub height: u32,
    pub has_angles: bool,
    pub has_cylinder_axes: bool,
    pub only_emit_offset: bool,
}

/// What a shape says.
pub open spec fn analysis(fs: Seq<Field>, h: VfxHashes) -> ShapeAnalysis {
    let birth = value_under(fs, h.birth_translation);
    let offset = value_under(fs, h.emit_offset);
    let angles = value_under(fs, h.emit_rotation_angles);
    let axes = value_under(fs, h.emit_rotation_axes);
    let vector = match offset {
        Some(v) => constant_vector(v, h.constant_value),
        None => None,
    };
    ShapeAnalysis {
        needs_fix: birth is Some || offset is Some || angles is Some || axes is Some,
        birth_vector: match birth {
            Some(v) => constant_vector(v, h.constant_value),
            None => None,
        },
        radius: match vector {
            Some(c) => c@[0],
            None => 0,
        },
        height: match vector {
            Some(c) => c@[1],
            None => 0,
        },
        has_angles: angles is Some,
        has_cylinder_axes: match axes {
            Some(v) => cylinder_axes(v),
            None => false,
        },
        only_emit_offset: offset is Some && fs.len() - (if birth is Some { 1int } else { 0int }) == 1,
    }
}

/// A property table with a property filed under `key`, where there is a key.
pub open spec fn with_field(fs: Seq<Field>, key: Option<u32>, value: Val) -> Seq<Field> {
    match key {
        Some(k) => put(fs, slot(field_keys(fs), k), Field { key: k, name: k, value }),
        None => fs,
    }
}

/// The class that a shape gets: a cylinder needs rotation angles, the axes of a
/// cylinder and a radius.
pub open spec fn shape_class(a: ShapeAnalysis) -> u32 {
    if a.has_angles && a.has_cylinder_axes && !is_zero(a.radius) {
        SHAPE_TYPE_CYLINDER
    } else if a.only_emit_offset {
        SHAPE_TYPE_SIMPLE
    } else {
        SHAPE_TYPE_DEFAULT
    }
}

/// The properties that a shape gets.
pub open spec fn shape_fields(a: ShapeAnalysis, h: VfxHashes) -> Seq<Field> {
    if shape_class(a) == SHAPE_TYPE_CYLINDER {
        let r = with_field(Seq::empty(), h.radius, Val::Leaf(PropertyValue::F32(a.radius)));
        let t = if is_zero(a.height) { r } else { with_field(r, h.height, Val::Leaf(PropertyValue::F32(a.height))) };
        with_field(t, h.flags, Val::Leaf(PropertyValue::U8(1)))
    } else if shape_class(a) == SHAPE_TYPE_SIMPLE {
        with_field(Seq::empty(), h.emit_offset, Val::Leaf(PropertyValue::Vector3([a.radius, a.height, 0])))
    } else {
        Seq::empty()
    }
}

/// The emitter's properties with the birth translation beside the shape.
pub open spec fn with_birth(fs: Seq<Field>, vector: Option<[u32; 3]>, constant: Option<u32>) -> Seq<Field> {
    match (vector, constant) {
        (Some(v), Some(c)) => with_field(
            fs,
            Some(NEW_BIRTH_TRANSLATION_HASH),
            Val::Embedded(
                BIRTH_TRANSLATION_TYPE_HASH,
                seq![Field { key: c, name: c, value: Val::Leaf(PropertyValue::Vector3(v)) }],
            ),
        ),
        _ => fs,
    }
}

/// The properties of an emitter with its shape migrated. A shape that is of the new
/// format already stays, at the end of the table.
pub open spec fn migrated(fs: Seq<Field>, h: VfxHashes, shape: u32) -> Seq<Field> {
    match slot(field_keys(fs), shape) {
        None => fs,
        Some(k) => {
            let f = fs[k];
            let rest = swap_out(fs, k);
            match instance_fields(f.value) {
                None => put(rest, slot(field_keys(rest), shape), Field { key: shape, ..f }),
                Some(sfs) => {
                    let a = analysis(sfs, h);
                    if a.needs_fix {
                        with_field(
                            with_birth(rest, a.birth_vector, h.constant_value),
                            Some(NEW_SHAPE_HASH),
                            Val::Struct(shape_class(a), shape_fields(a, h)),
                        )
                    } else {
                        with_field(rest, Some(shape), f.value)
                    }
                },
            }
        },
    }
}

/// The shape of the emitter is of the old format.
pub open spec fn migrates(fs: Seq<Field>, h: VfxHashes, shape: u32) -> bool {
    match slot(field_keys(fs), shape) {
        None => false,
        Some(k) => match instance_fields(fs[k].value) {
            None => false,
            Some(sfs) => analysis(sfs, h).needs_fix,
        },
    }
}

/// The classes of emitters.
#[derive(Clone, Copy)]
pub struct EmitterClasses {
    pub complex: u32,
    pub simple: u32,
    pub base: Option<u32>,
    pub particle: Option<u32>,
}

/// The class is one of the emitter classes.
pub open spec fn is_emitter(c: EmitterClasses, class: u32) -> bool {
    class == c.complex || class == c.simple || c.base == Some(class) || c.particle == Some(class)
}

/// An item of a list with its shape migrated, where it is an emitter.
pub open spec fn item_migrated(v: Val, c: EmitterClasses, h: VfxHashes, shape: u32) -> Val {
    match v {
        Val::Struct(class, fs) => if is_emitter(c, class) { Val::Struct(class, migrated(fs, h, shape)) } else { v },
        Val::Embedded(class, fs) => if is_emitter(c, class) { Val::Embedded(class, migrated(fs, h, shape)) } else { v },
        _ => v,
    }
}

/// The item is an emitter with a shape of the old format.
pub open spec fn item_migrates(v: Val, c: EmitterClasses, h: VfxHashes, shape: u32) -> bool {
    match v {
        Val::Struct(class, fs) => is_emitter(c, class) && migrates(fs, h, shape),
        Val::Embedded(class, fs) => is_emitter(c, class) && migrates(fs, h, shape),
        _ => false,
    }
}

/// A list of emitters with their shapes migrated.
pub open spec fn items_migrated(items: Seq<Val>, c: EmitterClasses, h: VfxHashes, shape: u32) -> Seq<Val> {
    items.map_values(|v: Val| item_migrated(v, c, h, shape))
}

/// How many emitters of a list have a shape of the old format.
pub open spec fn items_migrating(items: Seq<Val>, c: EmitterClasses, h: VfxHashes, shape: u32) -> nat
    decreases items.len(),
{
    if items.len() == 0 {
        0
    } else {
        items_migrating(items.drop_last(), c, h, shape) + (if item_migrates(items.last(), c, h, shape) { 1nat } else { 0nat })
    }
}

/// A property with the emitters of its list migrated, where it holds a list.
pub open spec fn field_migrated(f: Field, c: EmitterClasses, h: VfxHashes, shape: u32) -> Field {
    match f.value {
        Val::Container(items) => Field { value: Val::Container(items_migrated(items, c, h, shape)), ..f },
        Val::UnorderedContainer(items) => Field { value: Val::UnorderedContainer(items_migrated(items, c, h, shape)), ..f },
        _ => f,
    }
}

/// How many emitters of a property have a shape of the old format.
pub open spec fn field_migrating(f: Field, c: EmitterClasses, h: VfxHashes, shape: u32) -> nat {
    match f.value {
        Val::Container(items) => items_migrating(items, c, h, shape),
        Val::UnorderedContainer(items) => items_migrating(items, c, h, shape),
        _ => 0,
    }
}

/// The properties of a system with its emitters migrated.
pub open spec fn fields_migrated(fs: Seq<Field>, c: EmitterClasses, h: VfxHashes, shape: u32) -> Seq<Field> {
    fs.map_values(|f: Field| field_migrated(f, c, h, shape))
}

/// How many emitters of a system have a shape of the old format.
pub open spec fn fields_migrating(fs: Seq<Field>, c: EmitterClasses, h: VfxHashes, shape: u32) -> nat
    decreases fs.len(),
{
    if fs.len() == 0 {
        0
    } else {
        fields_migrating(fs.drop_last(), c, h, shape) + field_migrating(fs.last(), c, h, shape)
    }
}

/// The entries with the emitters of the systems among them migrated.
pub open spec fn objects_migrated(os: Seq<Object>, system: u32, c: EmitterClasses, h: VfxHashes, shape: u32) -> Seq<Object> {
    os.map_values(
        |o: Object| if o.class == system { Object { fields: fields_migrated(o.fields, c, h, shape), ..o } } else { o },
    )
}

/// How many emitters of the systems among the entries have a shape of the old format.
pub open spec fn objects_migrating(os: Seq<Object>, system: u32, c: EmitterClasses, h: VfxHashes, shape: u32) -> nat
    decreases os.len(),
{
    if os.len() == 0 {
        0
    } else {
        objects_migrating(os.drop_last(), system, c, h, shape) + (if os.last().class == system {
            fields_migrating(os.last().fields, c, h, shape)
        } else {
            0
        })
    }
}

fn find_value(props: &OrderedMap<BinProperty>, key: Option<u32>) -> (r: Option<&PropertyValue>)
    ensures
        r is Some <==> value_under(fields(*props), key) is Some,
        r matches Some(v) ==> value_under(fields(*props), key) == Some(val(*v)),
{
    proof {
        lemma_field_keys(*props);
    }
    match key {
        Some(k) => match props.find(k) {
            Some(i) => Some(&props.entries[i].1.value),
            None => None,
        },
        None => None,
    }
}

fn extract_constant_value_vec3(value: &PropertyValue, constant: Option<u32>) -> (r: Option<[u32; 3]>)
    ensures
        r == constant_vector(val(*value), constant),
{
    let s = match value {
        PropertyValue::Struct(s) => s,
        PropertyValue::Embedded(s) => s,
        _ => {
            return None;
        },
    };
    match find_value(&s.properties, constant) {
        Some(PropertyValue::Vector3(v)) => Some(*v),
        _ => None,
    }
}

fn has_cylinder_pattern(value: &PropertyValue) -> (r: bool)
    ensures
        r == cylinder_axes(val(*value)),
{
    match value {
        PropertyValue::Container(items) => {
            let ghost models = vals(*items);
            assert(models.len() == items@.len());
            if items.len() != 2 {
                return false;
            }
            assert(models[0] == val(items@[0]) && models[1] == val(items@[1]));
            match (&items[0], &items[1]) {
                (PropertyValue::Vector3(a), PropertyValue::Vector3(b)) => a[1] == REAL_ONE && zero(a[0]) && zero(a[2])
                    && b[2] == REAL_ONE && zero(b[0]) && zero(b[1]),
                _ => false,
            }
        },
        _ => false,
    }
}

fn analyze_shape(props: &OrderedMap<BinProperty>, h: &VfxHashes) -> (r: ShapeAnalysis)
    ensures
        r == analysis(fields(*props), *h),
{
    let birth = find_value(props, h.birth_translation);
    let offset = find_value(props, h.emit_offset);
    let angles = find_value(props, h.emit_rotation_angles);
    let axes = find_value(props, h.emit_rotation_axes);
    let vector = match offset {
        Some(v) => extract_constant_value_vec3(v, h.constant_value),
        None => None,
    };
    let birth_vector = match birth {
        Some(v) => extract_constant_value_vec3(v, h.constant_value),
        None => None,
    };
    let (radius, height) = match vector {
        Some(c) => (c[0], c[1]),
        None => (0, 0),
    };
    let wanted: usize = if birth.is_some() { 2 } else { 1 };
    ShapeAnalysis {
        needs_fix: birth.is_some() || offset.is_some() || angles.is_some() || axes.is_some(),
        birth_vector,
        radius,
        height,
        has_angles: angles.is_some(),
        has_cylinder_axes: match axes {
            Some(v) => has_cylinder_pattern(v),
            None => false,
        },
        only_emit_offset: offset.is_some() && props.entries.len() == wanted,
    }
}

fn set_field(props: &mut OrderedMap<BinProperty>, key: Option<u32>, value: PropertyValue)
    ensures
        fields(*final(props)) == with_field(fields(*old(props)), key, val(value)),
{
    let ghost before = *props;
    if let Some(k) = key {
        proof {
            lemma_field_keys(before);
            lemma_no_slot(entry_keys(before.entries@), k);
        }
        props.insert(k, BinProperty { name_hash: FieldHash(k), value });
        assert(fields(*props) =~= with_field(fields(before), key, val(value)));
    }
}

fn convert_shape(a: &ShapeAnalysis, h: &VfxHashes) -> (r: StructValue)
    ensures
        r.class_hash.0 == shape_class(*a),
        fields(r.properties) == shape_fields(*a, *h),
{
    let mut props: OrderedMap<BinProperty> = OrderedMap::new();
    assert(fields(props) =~= Seq::empty());
    if a.has_angles && a.has_cylinder_axes && !zero(a.radius) {
        set_field(&mut props, h.radius, PropertyValue::F32(a.radius));
        if !zero(a.height) {
            set_field(&mut props, h.height, PropertyValue::F32(a.height));
        }
        set_field(&mut props, h.flags, PropertyValue::U8(1));
        StructValue { class_hash: TypeHash(SHAPE_TYPE_CYLINDER), properties: props }
    } else if a.only_emit_offset {
        set_field(&mut props, h.emit_offset, PropertyValue::Vector3([a.radius, a.height, 0]));
        StructValue { class_hash: TypeHash(SHAPE_TYPE_SIMPLE), properties: props }
    } else {
        StructValue { class_hash: TypeHash(SHAPE_TYPE_DEFAULT), properties: props }
    }
}

fn move_birth_translation_outside(props: &mut OrderedMap<BinProperty>, vector: Option<[u32; 3]>, constant: Option<u32>)
    ensures
        fields(*final(props)) == with_birth(fields(*old(props)), vector, constant),
{
    if let (Some(v), Some(c)) = (vector, constant) {
        let mut inner: OrderedMap<BinProperty> = OrderedMap::new();
        inner.insert(c, BinProperty { name_hash: FieldHash(c), value: PropertyValue::Vector3(v) });
        proof {
            let k = entry_keys(Seq::<(u32, BinProperty)>::empty());
            lemma_no_slot(k, c);
            assert(fields(inner) =~= seq![Field { key: c, name: c, value: Val::Leaf(PropertyValue::Vector3(v)) }]);
        }
        set_field(
            props,
            Some(NEW_BIRTH_TRANSLATION_HASH),
            PropertyValue::Embedded(
                StructValue { class_hash: TypeHash(BIRTH_TRANSLATION_TYPE_HASH), properties: inner },
            ),
        );
    }
}

/// Migrate the shape of one emitter; whether it was of the old format.
fn migrate_emitter(props: &mut OrderedMap<BinProperty>, h: &VfxHashes, shape: u32) -> (r: bool)
    ensures
        fields(*final(props)) == migrated(fields(*old(props)), *h, shape),
        r == migrates(fields(*old(props)), *h, shape),
{
    let ghost before = *props;
    let ghost fs = fields(before);
    proof {
        lemma_field_keys(before);
        lemma_no_slot(entry_keys(before.entries@), shape);
    }
    match props.swap_remove(shape) {
        None => {
            assert(fields(*props) =~= fs);
            false
        },
        Some(old_prop) => {
            let ghost k = before.slot(shape)->0;
            proof {
                assert(fields(*props) =~= swap_out(fs, k));
                lemma_field_keys(*props);
                lemma_no_slot(entry_keys(props.entries@), shape);
            }
            let found = match &old_prop.value {
                PropertyValue::Embedded(s) => Some(analyze_shape(&s.properties, h)),
                PropertyValue::Struct(s) => Some(analyze_shape(&s.properties, h)),
                _ => None,
            };
            match found {
                None => {
                    let ghost mid = *props;
                    props.insert(shape, old_prop);
                    assert(fields(*props) =~= migrated(fs, *h, shape));
                    false
                },
                Some(a) => {
                    if a.needs_fix {
                        let new_shape = convert_shape(&a, h);
                        move_birth_translation_outside(props, a.birth_vector, h.constant_value);
                        set_field(props, Some(NEW_SHAPE_HASH), PropertyValue::Struct(new_shape));
                        true
                    } else {
                        set_field(props, Some(shape), old_prop.value);
                        false
                    }
                },
            }
        },
    }
}

fn is_emitter_class(c: &EmitterClasses, class: u32) -> (r: bool)
    ensures
        r == is_emitter(*c, class),
{
    class == c.complex || class == c.simple || (match c.base {
        Some(x) => x == class,
        None => false,
    }) || (match c.particle {
        Some(x) => x == class,
        None => false,
    })
}

fn migrate_item(item: &mut PropertyValue, c: &EmitterClasses, h: &VfxHashes, shape: u32) -> (r: bool)
    ensures
        val(*final(item)) == item_migrated(val(*old(item)), *c, *h, shape),
        r == item_migrates(val(*old(item)), *c, *h, shape),
{
    match item {
        PropertyValue::Embedded(e) => {
            if is_emitter_class(c, e.class_hash.0) {
                migrate_emitter(&mut e.properties, h, shape)
            } else {
                false
            }
        },
        PropertyValue::Struct(e) => {
            if is_emitter_class(c, e.class_hash.0) {
                migrate_emitter(&mut e.properties, h, shape)
            } else {
                false
            }
        },
        _ => false,
    }
}

fn migrate_items(items: &mut Vec<PropertyValue>, c: &EmitterClasses, h: &VfxHashes, shape: u32) -> (n: u32)
    ensures
        vals(*final(items)) == items_migrated(vals(*old(items)), *c, *h, shape),
        n == capped(items_migrating(vals(*old(items)), *c, *h, shape)),
{
    let ghost before = *items;
    let ghost models = vals(before);
    let mut n: u32 = 0;
    let mut i: usize = 0;
    let len = items.len();
    while i < len
        invariant
            models == vals(before),
            len == before@.len(),
            items@.len() == len,
            i <= len,
            forall|j: int| i <= j < len ==> items@[j] == before@[j],
            forall|j: int| 0 <= j < i ==> val(#[trigger] items@[j]) == item_migrated(models[j], *c, *h, shape),
            n == capped(items_migrating(models.take(i as int), *c, *h, shape)),
        decreases len - i,
    {
        proof {
            lemma_take_next(models, i as int);
            assert(models[i as int] == val(items@[i as int]));
        }
        let ghost done = items_migrating(models.take(i as int), *c, *h, shape);
        let ghost n0 = n;
        let hit: u32 = if migrate_item(&mut items[i], c, h, shape) { 1 } else { 0 };
        n = add_count(n, hit);
        assert(n == capped((done + hit as nat) as nat)) by {
            assert(n0 == capped(done) && hit == capped(hit as nat));
        }
        i = i + 1;
    }
    assert(models.take(i as int) =~= models);
    assert(vals(*items) =~= items_migrated(models, *c, *h, shape));
    n
}

fn migrate_value(value: &mut PropertyValue, c: &EmitterClasses, h: &VfxHashes, shape: u32) -> (n: u32)
    ensures
        ({
            let f = Field { key: 0, name: 0, value: val(*old(value)) };
            val(*final(value)) == field_migrated(f, *c, *h, shape).value && n == capped(
                field_migrating(f, *c, *h, shape),
            )
        }),
{
    match value {
        PropertyValue::Container(items) => migrate_items(items, c, h, shape),
        PropertyValue::UnorderedContainer(items) => migrate_items(items, c, h, shape),
        _ => 0,
    }
}

fn migrate_properties(props: &mut OrderedMap<BinProperty>, c: &EmitterClasses, h: &VfxHashes, shape: u32) -> (n: u32)
    ensures
        fields(*final(props)) == fields_migrated(fields(*old(props)), *c, *h, shape),
        n == capped(fields_migrating(fields(*old(props)), *c, *h, shape)),
{
    let ghost before = *props;
    let ghost models = fields(before);
    let mut n: u32 = 0;
    let mut i: usize = 0;
    let len = props.entries.len();
    while i < len
        invariant
            models == fields(before),
            len == before.entries@.len(),
            props.entries@.len() == len,
            i <= len,
            forall|j: int| i <= j < len ==> props.entries@[j] == before.entries@[j],
            forall|j: int| 0 <= j < i ==> (#[trigger] fields(*props)[j]) == field_migrated(models[j], *c, *h, shape),
            n == capped(fields_migrating(models.take(i as int), *c, *h, shape)),
        decreases len - i,
    {
        proof {
            lemma_take_next(models, i as int);
        }
        let ghost mid = *props;
        let ghost done = fields_migrating(models.take(i as int), *c, *h, shape);
        let ghost n0 = n;
        let k = migrate_value(&mut props.entries[i].1.value, c, h, shape);
        n = add_count(n, k);
        proof {
            let more = field_migrating(models[i as int], *c, *h, shape);
            assert(n == capped((done + more) as nat)) by {
                assert(n0 == capped(done) && k == capped(more));
            }
            assert forall|j: int| 0 <= j < i + 1 implies (#[trigger] fields(*props)[j]) == field_migrated(
                models[j],
                *c,
                *h,
                shape,
            ) by {
                if j < i {
                    assert(props.entries@[j] == mid.entries@[j]);
                    assert(fields(mid)[j] == field_migrated(models[j], *c, *h, shape));
                }
            }
        }
        i = i + 1;
    }
    assert(models.take(i as int) =~= models);
    assert(fields(*props) =~= fields_migrated(models, *c, *h, shape));
    n
}

fn hash_of<H: HashProvider>(hashes: &H, name: &str) -> (r: Option<u32>)
    ensures
        r == hashes.hash_of_field(name@),
{
    match hashes.field_hash(name) {
        Some(h) => Some(h.0),
        None => None,
    }
}

fn class_of<H: HashProvider>(hashes: &H, name: &str) -> (r: Option<u32>)
    ensures
        r == hashes.hash_of_type(name@),
{
    match hashes.type_hash(name) {
        Some(h) => Some(h.0),
        None => None,
    }
}

/// What the migration goes by: the class of systems, the emitter classes and the shape
/// field; `None` where the dictionary lacks one that it cannot do without.
pub open spec fn migration_of<H: HashProvider>(hashes: H, entry_type: Seq<char>) -> Option<(u32, EmitterClasses, u32)> {
    match (
        hashes.hash_of_type(entry_type),
        hashes.hash_of_type("ComplexEmitterDefinitionData"@),
        hashes.hash_of_type("SimpleEmitterDefinitionData"@),
        hashes.hash_of_field("Shape"@),
    ) {
        (Some(system), Some(complex), Some(simple), Some(shape)) => Some(
            (
                system,
                EmitterClasses {
                    complex,
                    simple,
                    base: hashes.hash_of_type("VfxEmitterDefinitionData"@),
                    particle: hashes.hash_of_type("ParticleEmitterProperties"@),
                },
                shape,
            ),
        ),
        _ => None,
    }
}

/// Migrate the emitter shapes of every system. Returns the number of shapes migrated.
pub fn apply<H: HashProvider, W: WadProvider, G: GameProvider>(
    ctx: &mut FixContext<H, W, G>,
    entry_type: &str,
) -> (n: u32)
    ensures
        match migration_of(*old(ctx).hashes, entry_type@) {
            Some((system, c, shape)) => {
                let os = objects(old(ctx).tree.objects);
                let h = vfx_hashes(*old(ctx).hashes);
                objects(final(ctx).tree.objects) == objects_migrated(os, system, c, h, shape) && n == capped(
                    objects_migrating(os, system, c, h, shape),
                )
            },
            None => final(ctx).tree == old(ctx).tree && n == 0,
        },
        final(ctx).tree.linked == old(ctx).tree.linked,
        final(ctx).tree.trailer_files == old(ctx).tree.trailer_files,
        final(ctx).tree.trailing == old(ctx).tree.trailing,
        same_but_tree(*final(ctx), *old(ctx)),
{
    let hashes = ctx.hashes;
    let system = match class_of(hashes, entry_type) {
        Some(h) => h,
        None => {
            return 0;
        },
    };
    let complex = match class_of(hashes, "ComplexEmitterDefinitionData") {
        Some(h) => h,
        None => {
            return 0;
        },
    };
    let simple = match class_of(hashes, "SimpleEmitterDefinitionData") {
        Some(h) => h,
        None => {
            return 0;
        },
    };
    let c = EmitterClasses {
        complex,
        simple,
        base: class_of(hashes, "VfxEmitterDefinitionData"),
        particle: class_of(hashes, "ParticleEmitterProperties"),
    };
    let h = VfxHashes {
        birth_translation: hash_of(hashes, "BirthTranslation"),
        emit_offset: hash_of(hashes, "EmitOffset"),
        emit_rotation_angles: hash_of(hashes, "EmitRotationAngles"),
        emit_rotation_axes: hash_of(hashes, "EmitRotationAxes"),
        constant_value: hash_of(hashes, "ConstantValue"),
        radius: hash_of(hashes, "Radius"),
        height: hash_of(hashes, "Height"),
        flags: hash_of(hashes, "Flags"),
    };
    let shape = match hash_of(hashes, "Shape") {
        Some(s) => s,
        None => {
            return 0;
        },
    };
    let ghost before = ctx.tree.objects;
    let ghost os = objects(before);
    let ghost want = objects_migrated(os, system, c, h, shape);
    let mut n: u32 = 0;
    let mut i: usize = 0;
    let len = ctx.tree.objects.entries.len();
    while i < len
        invariant
            before == old(ctx).tree.objects,
            os == objects(before),
            want == objects_migrated(os, system, c, h, shape),
            len == before.entries@.len(),
            ctx.tree.objects.entries@.len() == len,
            ctx.tree.linked == old(ctx).tree.linked,
            ctx.tree.trailer_files == old(ctx).tree.trailer_files,
            ctx.tree.trailing == old(ctx).tree.trailing,
            same_but_tree(*ctx, *old(ctx)),
            i <= len,
            forall|j: int| i <= j < len ==> ctx.tree.objects.entries@[j] == before.entries@[j],
            forall|j: int| 0 <= j < i ==> (#[trigger] objects(ctx.tree.objects)[j]) == want[j],
            n == capped(objects_migrating(os.take(i as int), system, c, h, shape)),
        decreases len - i,
    {
        proof {
            lemma_take_next(os, i as int);
        }
        let ghost mid = ctx.tree.objects;
        let ghost done = objects_migrating(os.take(i as int), system, c, h, shape);
        let ghost n0 = n;
        let ghost mut more: nat = 0;
        assert(os[i as int] == object(mid.entries@[i as int].0, mid.entries@[i as int].1));
        if ctx.tree.objects.entries[i].1.class_hash.0 == system {
            let k = migrate_properties(&mut ctx.tree.objects.entries[i].1.properties, &c, &h, shape);
            n = add_count(n, k);
            proof {
                more = fields_migrating(os[i as int].fields, c, h, shape);
                assert(n0 == capped(done) && k == capped(more));
            }
        }
        proof {
            assert(n == capped((done + more) as nat));
            assert forall|j: int| 0 <= j < i + 1 implies (#[trigger] objects(ctx.tree.objects)[j]) == want[j] by {
                if j < i {
                    assert(ctx.tree.objects.entries@[j] == mid.entries@[j]);
                    assert(objects(mid)[j] == want[j]);
                }
            }
        }
        i = i + 1;
    }
    assert(os.take(i as int) =~= os);
    assert(objects(ctx.tree.objects) =~= want);
    n
}

/// A field of the old format is what makes a shape one that needs migrating.
proof fn lemma_old_shape_needs_fix<H: HashProvider>(fs: Seq<Field>, hashes: H, i: int)
    requires
        0 <= i < fs.len(),
        old_shape_field(hashes, fs[i].key),
    ensures
        analysis(fs, vfx_hashes(hashes)).needs_fix,
{
    let keys = field_keys(fs);
    let key = fs[i].key;
    assert(keys[i] == key);
    lemma_no_slot(keys, key);
}

/// A migrated emitter has no shape of the old format under the shape field, so the rule
/// that found it no longer fires for it. The emitter must not have a key twice, and the
/// shape field must not be one of the two new fields.
pub proof fn law_migrated_emitter_is_new<H: HashProvider>(fs: Seq<Field>, hashes: H, shape: u32)
    requires
        field_keys(fs).no_duplicates(),
        shape != NEW_SHAPE_HASH,
        shape != NEW_BIRTH_TRANSLATION_HASH,
    ensures
        forall|class: u32| !old_emitter(Val::Struct(class, migrated(fs, vfx_hashes(hashes), shape)), hashes, shape),
{
    let h = vfx_hashes(hashes);
    let keys = field_keys(fs);
    let out = migrated(fs, h, shape);
    lemma_no_slot(keys, shape);
    match slot(keys, shape) {
        None => {},
        Some(k) => {
            let f = fs[k];
            let rest = swap_out(fs, k);
            assert(!field_keys(rest).contains(shape)) by {
                if field_keys(rest).contains(shape) {
                    let i = choose|i: int| 0 <= i < rest.len() && field_keys(rest)[i] == shape;
                    let j = if i == k { fs.len() - 1 } else { i };
                    assert(keys[j] == shape && keys[k] == shape);
                }
            }
            lemma_no_slot(field_keys(rest), shape);
            match instance_fields(f.value) {
                None => {
                    let last = Field { key: shape, ..f };
                    assert(out == rest.push(last));
                    lemma_pushed_slot(rest, last);
                },
                Some(sfs) => {
                    let a = analysis(sfs, h);
                    if a.needs_fix {
                        let mid = with_birth(rest, a.birth_vector, h.constant_value);
                        lemma_with_field_keys(rest, NEW_BIRTH_TRANSLATION_HASH, shape, mid);
                        lemma_with_field_keys(mid, NEW_SHAPE_HASH, shape, out);
                        lemma_no_slot(field_keys(out), shape);
                    } else {
                        let last = Field { key: shape, name: shape, value: f.value };
                        assert(out == rest.push(last));
                        lemma_pushed_slot(rest, last);
                        assert(!old_shape(f.value, hashes)) by {
                            if old_shape(f.value, hashes) {
                                let i = choose|i: int| 0 <= i < sfs.len() && old_shape_field(hashes, (#[trigger] sfs[i]).key);
                                lemma_old_shape_needs_fix(sfs, hashes, i);
                            }
                        }
                    }
                },
            }
        },
    }
}

proof fn lemma_pushed_slot(fs: Seq<Field>, f: Field)
    requires
        !field_keys(fs).contains(f.key),
    ensures
        slot(field_keys(fs.push(f)), f.key) == Some(fs.len() as int),
{
    let keys = field_keys(fs.push(f));
    assert forall|j: int| 0 <= j < fs.len() implies keys[j] != f.key by {
        assert(keys[j] == field_keys(fs)[j]);
    }
    crate::bin::lemma_slot(keys, f.key, fs.len() as int);
}

proof fn lemma_with_field_keys(fs: Seq<Field>, key: u32, other: u32, out: Seq<Field>)
    requires
        !field_keys(fs).contains(other),
        key != other,
        out == fs || exists|v: Val| out == #[trigger] with_field(fs, Some(key), v),
    ensures
        !field_keys(out).contains(other),
{
    if field_keys(out).contains(other) {
        let i = choose|i: int| 0 <= i < out.len() && field_keys(out)[i] == other;
        if out == fs {
        } else {
            let v = choose|v: Val| out == #[trigger] with_field(fs, Some(key), v);
            lemma_no_slot(field_keys(fs), key);
            if i < fs.len() && out[i].key != key {
                assert(field_keys(fs)[i] == other);
            }
        }
    }
}

/// A property table files a value under a key.
pub open spec fn filed(fs: Seq<Field>, key: u32, value: Val) -> bool {
    exists|i: int| 0 <= i < fs.len() && (#[trigger] fs[i]).key == key && fs[i].value == value
}

/// A property table files something under a key that a name stands for.
pub open spec fn names(fs: Seq<Field>, key: Option<u32>) -> bool {
    key matches Some(k) && field_keys(fs).contains(k)
}

proof fn lemma_filed(fs: Seq<Field>, key: u32, value: Val)
    requires
        field_keys(fs).no_duplicates(),
        filed(fs, key, value),
    ensures
        value_under(fs, Some(key)) == Some(value),
        field_keys(fs).contains(key),
{
    let i = choose|i: int| 0 <= i < fs.len() && (#[trigger] fs[i]).key == key && fs[i].value == value;
    let keys = field_keys(fs);
    assert(keys[i] == key);
    lemma_no_slot(keys, key);
    let k = slot(keys, key)->0;
    assert(keys[k] == keys[i]);
}

proof fn lemma_value_under(fs: Seq<Field>, key: Option<u32>)
    ensures
        value_under(fs, key) is Some <==> names(fs, key),
        value_under(fs, key) matches Some(v) ==> filed(fs, key->0, v),
{
    if let Some(k) = key {
        let keys = field_keys(fs);
        lemma_no_slot(keys, k);
        if let Some(i) = slot(keys, k) {
            assert(fs[i].key == keys[i]);
            assert(filed(fs, k, fs[i].value));
        }
    }
}

/// Filing a value under a key: it is there, every other key has what it had, and no key
/// is there twice.
proof fn lemma_with_field_files(fs: Seq<Field>, key: u32, value: Val)
    requires
        field_keys(fs).no_duplicates(),
    ensures
        ({
            let out = with_field(fs, Some(key), value);
            &&& field_keys(out).no_duplicates()
            &&& filed(out, key, value)
            &&& forall|k: u32, v: Val| k != key ==> (#[trigger] filed(out, k, v) <==> filed(fs, k, v))
        }),
{
    let out = with_field(fs, Some(key), value);
    let keys = field_keys(fs);
    let now = field_keys(out);
    lemma_no_slot(keys, key);
    let at = match slot(keys, key) {
        Some(i) => i,
        None => fs.len() as int,
    };
    assert(out[at].key == key && out[at].value == value);
    assert forall|i: int, j: int| 0 <= i < now.len() && 0 <= j < now.len() && i != j implies now[i] != now[j] by {
        if i != at && j != at {
            assert(now[i] == keys[i] && now[j] == keys[j]);
        } else {
            let other = if i == at { j } else { i };
            assert(now[other] == keys[other]);
            if slot(keys, key) is Some {
                assert(keys[at] == key);
            } else {
                assert(keys.contains(keys[other]));
            }
        }
    }
    assert forall|k: u32, v: Val| k != key implies (#[trigger] filed(out, k, v) <==> filed(fs, k, v)) by {
        if filed(out, k, v) {
            let i = choose|i: int| 0 <= i < out.len() && (#[trigger] out[i]).key == k && out[i].value == v;
            assert(i != at);
            assert(fs[i] == out[i]);
        }
        if filed(fs, k, v) {
            let i = choose|i: int| 0 <= i < fs.len() && (#[trigger] fs[i]).key == k && fs[i].value == v;
            if i == at {
                assert(keys[i] == key);
            }
            assert(out[i] == fs[i]);
        }
    }
}

proof fn lemma_swap_out_files(fs: Seq<Field>, at: int)
    requires
        field_keys(fs).no_duplicates(),
        0 <= at < fs.len(),
    ensures
        ({
            let out = swap_out(fs, at);
            &&& field_keys(out).no_duplicates()
            &&& !field_keys(out).contains(fs[at].key)
            &&& forall|k: u32, v: Val| k != fs[at].key ==> (#[trigger] filed(out, k, v) <==> filed(fs, k, v))
        }),
{
    let out = swap_out(fs, at);
    let keys = field_keys(fs);
    let now = field_keys(out);
    let last = fs.len() - 1;
    assert forall|i: int| 0 <= i < out.len() implies #[trigger] out[i] == fs[if i == at { last } else { i }] by {}
    assert forall|i: int, j: int| 0 <= i < now.len() && 0 <= j < now.len() && i != j implies now[i] != now[j] by {
        let a = if i == at { last } else { i };
        let b = if j == at { last } else { j };
        assert(now[i] == keys[a] && now[j] == keys[b]);
    }
    if now.contains(fs[at].key) {
        let i = choose|i: int| 0 <= i < now.len() && now[i] == fs[at].key;
        let a = if i == at { last } else { i };
        assert(now[i] == keys[a] && keys[at] == fs[at].key);
    }
    assert forall|k: u32, v: Val| k != fs[at].key implies (#[trigger] filed(out, k, v) <==> filed(fs, k, v)) by {
        if filed(out, k, v) {
            let i = choose|i: int| 0 <= i < out.len() && (#[trigger] out[i]).key == k && out[i].value == v;
            let a = if i == at { last } else { i };
            assert(fs[a].key == k && fs[a].value == v);
        }
        if filed(fs, k, v) {
            let i = choose|i: int| 0 <= i < fs.len() && (#[trigger] fs[i]).key == k && fs[i].value == v;
            let a = if i == last { at } else { i };
            assert(out[a].key == k && out[a].value == v);
        }
    }
}

/// The shape of an emitter: under the shape field it holds a class instance with the
/// properties `sfs`. No table has a key twice.
pub open spec fn emitter_shape(fs: Seq<Field>, shape: u32, sfs: Seq<Field>) -> bool {
    &&& field_keys(fs).no_duplicates()
    &&& field_keys(sfs).no_duplicates()
    &&& exists|class: u32| #[trigger] filed(fs, shape, Val::Struct(class, sfs)) || filed(fs, shape, Val::Embedded(class, sfs))
}

/// The shape says something in the old format.
pub open spec fn says_old(sfs: Seq<Field>, h: VfxHashes) -> bool {
    names(sfs, h.birth_translation) || names(sfs, h.emit_offset) || names(sfs, h.emit_rotation_angles) || names(
        sfs,
        h.emit_rotation_axes,
    )
}

/// The shape holds, under a name, a class instance whose constant value is a vector.
pub open spec fn says_vector(sfs: Seq<Field>, name: Option<u32>, constant: Option<u32>, c: [u32; 3]) -> bool {
    exists|class: u32, inner: Seq<Field>|
        {
            &&& field_keys(inner).no_duplicates()
            &&& name is Some
            &&& constant is Some
            &&& #[trigger] filed(sfs, name->0, Val::Struct(class, inner)) || filed(sfs, name->0, Val::Embedded(class, inner))
            &&& filed(inner, constant->0, Val::Leaf(PropertyValue::Vector3(c)))
        }
}

proof fn lemma_says_vector(sfs: Seq<Field>, name: Option<u32>, constant: Option<u32>, c: [u32; 3])
    requires
        field_keys(sfs).no_duplicates(),
        says_vector(sfs, name, constant, c),
    ensures
        names(sfs, name),
        value_under(sfs, name) matches Some(v) && constant_vector(v, constant) == Some(c),
{
    let (class, inner) = choose|class: u32, inner: Seq<Field>|
        {
            &&& field_keys(inner).no_duplicates()
            &&& name is Some
            &&& constant is Some
            &&& #[trigger] filed(sfs, name->0, Val::Struct(class, inner)) || filed(sfs, name->0, Val::Embedded(class, inner))
            &&& filed(inner, constant->0, Val::Leaf(PropertyValue::Vector3(c)))
        };
    if filed(sfs, name->0, Val::Struct(class, inner)) {
        lemma_filed(sfs, name->0, Val::Struct(class, inner));
    } else {
        lemma_filed(sfs, name->0, Val::Embedded(class, inner));
    }
    lemma_filed(inner, constant->0, Val::Leaf(PropertyValue::Vector3(c)));
}

/// What the migration of an emitter with a shape comes to.
proof fn lemma_migrated(fs: Seq<Field>, h: VfxHashes, shape: u32, sfs: Seq<Field>)
    requires
        emitter_shape(fs, shape, sfs),
        says_old(sfs, h),
    ensures
        ({
            let out = migrated(fs, h, shape);
            let a = analysis(sfs, h);
            &&& a.needs_fix
            &&& migrates(fs, h, shape)
            &&& field_keys(out).no_duplicates()
            &&& filed(out, NEW_SHAPE_HASH, Val::Struct(shape_class(a), shape_fields(a, h)))
            &&& forall|k: u32, v: Val|
                k != shape && k != NEW_SHAPE_HASH && k != NEW_BIRTH_TRANSLATION_HASH ==> (#[trigger] filed(out, k, v) <==> filed(
                    fs,
                    k,
                    v,
                ))
            &&& shape != NEW_SHAPE_HASH && shape != NEW_BIRTH_TRANSLATION_HASH ==> !field_keys(out).contains(shape)
            &&& (a.birth_vector is Some && h.constant_value is Some) ==> filed(
                out,
                NEW_BIRTH_TRANSLATION_HASH,
                Val::Embedded(
                    BIRTH_TRANSLATION_TYPE_HASH,
                    seq![
                        Field {
                            key: h.constant_value->0,
                            name: h.constant_value->0,
                            value: Val::Leaf(PropertyValue::Vector3(a.birth_vector->0)),
                        },
                    ],
                ),
            )
        }),
{
    let out = migrated(fs, h, shape);
    let a = analysis(sfs, h);
    let class = choose|class: u32| #[trigger] filed(fs, shape, Val::Struct(class, sfs)) || filed(fs, shape, Val::Embedded(class, sfs));
    if filed(fs, shape, Val::Struct(class, sfs)) {
        lemma_filed(fs, shape, Val::Struct(class, sfs));
    } else {
        lemma_filed(fs, shape, Val::Embedded(class, sfs));
    }
    lemma_value_under(sfs, h.birth_translation);
    lemma_value_under(sfs, h.emit_offset);
    lemma_value_under(sfs, h.emit_rotation_angles);
    lemma_value_under(sfs, h.emit_rotation_axes);
    let at = slot(field_keys(fs), shape)->0;
    lemma_no_slot(field_keys(fs), shape);
    assert(fs[at].key == field_keys(fs)[at]);
    let rest = swap_out(fs, at);
    lemma_swap_out_files(fs, at);
    let mid = with_birth(rest, a.birth_vector, h.constant_value);
    if a.birth_vector is Some && h.constant_value is Some {
        let v = Val::Embedded(
            BIRTH_TRANSLATION_TYPE_HASH,
            seq![
                Field {
                    key: h.constant_value->0,
                    name: h.constant_value->0,
                    value: Val::Leaf(PropertyValue::Vector3(a.birth_vector->0)),
                },
            ],
        );
        assert(mid == with_field(rest, Some(NEW_BIRTH_TRANSLATION_HASH), v));
        lemma_with_field_files(rest, NEW_BIRTH_TRANSLATION_HASH, v);
    }
    let new = Val::Struct(shape_class(a), shape_fields(a, h));
    lemma_with_field_files(mid, NEW_SHAPE_HASH, new);
    assert(out == with_field(mid, Some(NEW_SHAPE_HASH), new));
    if shape != NEW_SHAPE_HASH && shape != NEW_BIRTH_TRANSLATION_HASH {
        lemma_with_field_keys(rest, NEW_BIRTH_TRANSLATION_HASH, shape, mid);
        lemma_with_field_keys(mid, NEW_SHAPE_HASH, shape, out);
    }
}

/// A shape that says nothing but an emit offset (x, y, z), beside at most a birth
/// translation, becomes a simple shape with the offset (x, y, 0).
pub proof fn law_simple_shape_keeps_its_offset(fs: Seq<Field>, h: VfxHashes, shape: u32, sfs: Seq<Field>, c: [u32; 3])
    requires
        emitter_shape(fs, shape, sfs),
        says_vector(sfs, h.emit_offset, h.constant_value, c),
        (sfs.len() == 1 && !names(sfs, h.birth_translation)) || (sfs.len() == 2 && names(sfs, h.birth_translation)),
        !(names(sfs, h.emit_rotation_angles) && names(sfs, h.emit_rotation_axes)),
    ensures
        filed(
            migrated(fs, h, shape),
            NEW_SHAPE_HASH,
            Val::Struct(
                SHAPE_TYPE_SIMPLE,
                seq![
                    Field {
                        key: h.emit_offset->0,
                        name: h.emit_offset->0,
                        value: Val::Leaf(PropertyValue::Vector3([c[0], c[1], 0])),
                    },
                ],
            ),
        ),
{
    lemma_says_vector(sfs, h.emit_offset, h.constant_value, c);
    lemma_migrated(fs, h, shape, sfs);
    lemma_value_under(sfs, h.birth_translation);
    lemma_value_under(sfs, h.emit_rotation_angles);
    lemma_value_under(sfs, h.emit_rotation_axes);
    let a = analysis(sfs, h);
    let k = h.emit_offset->0;
    let v = Val::Leaf(PropertyValue::Vector3([c[0], c[1], 0]));
    lemma_no_slot(field_keys(Seq::<Field>::empty()), k);
    assert(with_field(Seq::empty(), h.emit_offset, v) =~= seq![Field { key: k, name: k, value: v }]);
}

/// The pair of axes of a cylinder: (0, 1, 0) and (0, 0, 1).
pub open spec fn upright_axes() -> Val {
    Val::Container(
        seq![
            Val::Leaf(PropertyValue::Vector3([0, REAL_ONE, 0])),
            Val::Leaf(PropertyValue::Vector3([0, 0, REAL_ONE])),
        ],
    )
}

/// A shape with rotation angles, upright axes and an emit offset whose first component is
/// no zero becomes a cylinder: that component is its radius, the second its height unless
/// it is zero, and its flags are one. The names must stand for different fields.
pub proof fn law_cylinder_takes_radius_and_height(fs: Seq<Field>, h: VfxHashes, shape: u32, sfs: Seq<Field>, c: [u32; 3])
    requires
        emitter_shape(fs, shape, sfs),
        says_vector(sfs, h.emit_offset, h.constant_value, c),
        names(sfs, h.emit_rotation_angles),
        h.emit_rotation_axes is Some,
        filed(sfs, h.emit_rotation_axes->0, upright_axes()),
        c[0] != 0 && c[0] != 0x8000_0000,
        h.radius is Some && h.height is Some && h.flags is Some,
        h.radius != h.height && h.radius != h.flags && h.height != h.flags,
    ensures
        exists|out: Seq<Field>|
            {
                &&& #[trigger] filed(migrated(fs, h, shape), NEW_SHAPE_HASH, Val::Struct(SHAPE_TYPE_CYLINDER, out))
                &&& filed(out, h.radius->0, Val::Leaf(PropertyValue::F32(c[0])))
                &&& c[1] != 0 && c[1] != 0x8000_0000 ==> filed(out, h.height->0, Val::Leaf(PropertyValue::F32(c[1])))
                &&& c[1] == 0 || c[1] == 0x8000_0000 ==> !field_keys(out).contains(h.height->0)
                &&& filed(out, h.flags->0, Val::Leaf(PropertyValue::U8(1)))
            },
{
    lemma_says_vector(sfs, h.emit_offset, h.constant_value, c);
    lemma_filed(sfs, h.emit_rotation_axes->0, upright_axes());
    lemma_migrated(fs, h, shape, sfs);
    lemma_value_under(sfs, h.emit_rotation_angles);
    let a = analysis(sfs, h);
    assert(cylinder_axes(upright_axes())) by {
        let items = upright_axes()->Container_0;
        assert(items[0] == Val::Leaf(PropertyValue::Vector3([0, REAL_ONE, 0])));
        assert(items[1] == Val::Leaf(PropertyValue::Vector3([0, 0, REAL_ONE])));
    }
    let out = shape_fields(a, h);
    let none = Seq::<Field>::empty();
    assert(field_keys(none).no_duplicates());
    let rv = Val::Leaf(PropertyValue::F32(c[0]));
    let r = with_field(none, h.radius, rv);
    lemma_with_field_files(none, h.radius->0, rv);
    let hv = Val::Leaf(PropertyValue::F32(c[1]));
    let t = if is_zero(c[1]) { r } else { with_field(r, h.height, hv) };
    lemma_with_field_files(r, h.height->0, hv);
    let fv = Val::Leaf(PropertyValue::U8(1));
    lemma_with_field_files(t, h.flags->0, fv);
    assert(out == with_field(t, h.flags, fv));
    assert(filed(r, h.radius->0, rv));
    assert(filed(t, h.radius->0, rv));
    if is_zero(c[1]) {
        assert(!field_keys(none).contains(h.height->0));
        lemma_with_field_keys(none, h.radius->0, h.height->0, r);
        lemma_with_field_keys(r, h.flags->0, h.height->0, out);
    } else {
        assert(filed(t, h.height->0, hv));
    }
    assert(filed(migrated(fs, h, shape), NEW_SHAPE_HASH, Val::Struct(SHAPE_TYPE_CYLINDER, out)));
}

/// A shape of the old format that lacks the angles or the axes of a cylinder, and that has
/// no emit offset or more than that, becomes an empty shape of the default class.
pub proof fn law_other_shapes_become_default(fs: Seq<Field>, h: VfxHashes, shape: u32, sfs: Seq<Field>)
    requires
        emitter_shape(fs, shape, sfs),
        says_old(sfs, h),
        !names(sfs, h.emit_rotation_angles) || !names(sfs, h.emit_rotation_axes),
        !names(sfs, h.emit_offset) || sfs.len() > 2 || (sfs.len() == 2 && !names(sfs, h.birth_translation)),
    ensures
        filed(migrated(fs, h, shape), NEW_SHAPE_HASH, Val::Struct(SHAPE_TYPE_DEFAULT, Seq::empty())),
{
    lemma_migrated(fs, h, shape, sfs);
    lemma_value_under(sfs, h.birth_translation);
    lemma_value_under(sfs, h.emit_offset);
    lemma_value_under(sfs, h.emit_rotation_angles);
    lemma_value_under(sfs, h.emit_rotation_axes);
}

/// The birth translation of a shape moves out of it, beside it: its vector stands under
/// the field of the present client.
pub proof fn law_birth_translation_moves_out(fs: Seq<Field>, h: VfxHashes, shape: u32, sfs: Seq<Field>, c: [u32; 3])
    requires
        emitter_shape(fs, shape, sfs),
        says_vector(sfs, h.birth_translation, h.constant_value, c),
    ensures
        filed(
            migrated(fs, h, shape),
            NEW_BIRTH_TRANSLATION_HASH,
            Val::Embedded(
                BIRTH_TRANSLATION_TYPE_HASH,
                seq![
                    Field {
                        key: h.constant_value->0,
                        name: h.constant_value->0,
                        value: Val::Leaf(PropertyValue::Vector3(c)),
                    },
                ],
            ),
        ),
{
    lemma_says_vector(sfs, h.birth_translation, h.constant_value, c);
    lemma_migrated(fs, h, shape, sfs);
}

/// Migration of a shape leaves every other property of the emitter as it was, takes the
/// old shape away and leaves no key twice.
pub proof fn law_migration_keeps_the_rest(fs: Seq<Field>, h: VfxHashes, shape: u32, sfs: Seq<Field>, k: u32, v: Val)
    requires
        emitter_shape(fs, shape, sfs),
        says_old(sfs, h),
        k != shape && k != NEW_SHAPE_HASH && k != NEW_BIRTH_TRANSLATION_HASH,
    ensures
        filed(migrated(fs, h, shape), k, v) <==> filed(fs, k, v),
        field_keys(migrated(fs, h, shape)).no_duplicates(),
        shape != NEW_SHAPE_HASH && shape != NEW_BIRTH_TRANSLATION_HASH ==> !field_keys(migrated(fs, h, shape)).contains(shape),
        migrates(fs, h, shape),
{
    lemma_migrated(fs, h, shape, sfs);
}

/// A shape that says nothing in the old format stays what it is, and so does every other
/// property of its emitter; it does not count.
pub proof fn law_new_shapes_stay(fs: Seq<Field>, h: VfxHashes, shape: u32, sfs: Seq<Field>, k: u32, v: Val)
    requires
        emitter_shape(fs, shape, sfs),
        !says_old(sfs, h),
    ensures
        !migrates(fs, h, shape),
        filed(migrated(fs, h, shape), k, v) <==> filed(fs, k, v),
{
    let class = choose|class: u32| #[trigger] filed(fs, shape, Val::Struct(class, sfs)) || filed(fs, shape, Val::Embedded(class, sfs));
    let value = if filed(fs, shape, Val::Struct(class, sfs)) { Val::Struct(class, sfs) } else { Val::Embedded(class, sfs) };
    lemma_filed(fs, shape, value);
    lemma_value_under(sfs, h.birth_translation);
    lemma_value_under(sfs, h.emit_offset);
    lemma_value_under(sfs, h.emit_rotation_angles);
    lemma_value_under(sfs, h.emit_rotation_axes);
    let at = slot(field_keys(fs), shape)->0;
    lemma_no_slot(field_keys(fs), shape);
    assert(fs[at].key == field_keys(fs)[at]);
    let rest = swap_out(fs, at);
    lemma_swap_out_files(fs, at);
    lemma_with_field_files(rest, shape, value);
    let out = migrated(fs, h, shape);
    if k == shape {
        if filed(out, k, v) {
            lemma_filed(out, k, v);
            lemma_filed(out, k, value);
        }
        if filed(fs, k, v) {
            lemma_filed(fs, k, v);
        }
    }
}

/// Every emitter in every list of every system is migrated, whichever of the emitter
/// classes it has and however the list and the emitter are held. Entries of other classes
/// and items that are no emitters stay.
pub proof fn law_every_emitter_is_migrated(
    os: Seq<Object>,
    system: u32,
    c: EmitterClasses,
    h: VfxHashes,
    shape: u32,
    o: int,
    f: int,
    i: int,
)
    requires
        0 <= o < os.len(),
    ensures
        ({
            let out = objects_migrated(os, system, c, h, shape);
            &&& out.len() == os.len()
            &&& out[o].key == os[o].key && out[o].class == os[o].class && out[o].path == os[o].path
            &&& os[o].class != system ==> out[o] == os[o]
            &&& os[o].class == system && 0 <= f < os[o].fields.len() ==> {
                let was = os[o].fields[f].value;
                let is = out[o].fields[f].value;
                &&& out[o].fields.len() == os[o].fields.len()
                &&& was is Container ==> is is Container && is->Container_0.len() == was->Container_0.len() && (0 <= i
                    < was->Container_0.len() ==> emitter_follows(was->Container_0[i], is->Container_0[i], c, h, shape))
                &&& was is UnorderedContainer ==> is is UnorderedContainer && is->UnorderedContainer_0.len()
                    == was->UnorderedContainer_0.len() && (0 <= i < was->UnorderedContainer_0.len() ==> emitter_follows(
                    was->UnorderedContainer_0[i],
                    is->UnorderedContainer_0[i],
                    c,
                    h,
                    shape,
                ))
                &&& !(was is Container) && !(was is UnorderedContainer) ==> is == was
            }
        }),
{
}

/// What becomes of an item of a list of emitters.
pub open spec fn emitter_follows(was: Val, is: Val, c: EmitterClasses, h: VfxHashes, shape: u32) -> bool {
    match was {
        Val::Struct(class, fs) => is == (if class == c.complex || class == c.simple || c.base == Some(class) || c.particle == Some(
            class,
        ) {
            Val::Struct(class, migrated(fs, h, shape))
        } else {
            was
        }),
        Val::Embedded(class, fs) => is == (if class == c.complex || class == c.simple || c.base == Some(class) || c.particle == Some(
            class,
        ) {
            Val::Embedded(class, migrated(fs, h, shape))
        } else {
            was
        }),
        _ => is == was,
    }
}

} // verus!
