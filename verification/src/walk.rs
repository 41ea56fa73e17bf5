//! Depth-first traversal of a property tree with a visitor that may rewrite strings
//! and rename fields.

use vstd::prelude::*;
use vstd::string::*;
use crate::bin::{
    entry_keys, field_keys, fields, lemma_field_keys, lemma_no_slot, objects, object, pairs, put, slot,
    swap_out, val, vals, BinObject, BinProperty, BinTree, Field, FieldHash, Object, OrderedMap,
    PropertyValue, Val,
};
use crate::text::{lemma_sum_contains, texts};

verus! {

/// Result of visiting a string value.
pub enum VisitResult {
    /// Leave it as it is.
    Skip,
    /// Replace the string.
    Mutate(String),
}

/// The replacement that a visit asks for.
pub open spec fn replacement(r: VisitResult) -> Option<Seq<char>> {
    match r {
        VisitResult::Skip => None,
        VisitResult::Mutate(s) => Some(s@),
    }
}

/// What the traversal calls at each string, field and class instance.
///
/// A visitor is a state machine: each `on_..` function says how a visit changes the
/// state and what it answers.
pub trait PropertyVisitor: Sized {
    /// What the visitor remembers.
    type State;

    /// What this visitor remembers now.
    open spec fn state(&self) -> Self::State {
        arbitrary()
    }

    /// A visit of a string stored under a field: the replacement, if it is rewritten.
    open spec fn on_string(st: Self::State, value: Seq<char>, field: u32) -> (Self::State, Option<Seq<char>>) {
        (st, None)
    }

    /// A visit of a field: the new hash, if it is renamed.
    open spec fn on_field(st: Self::State, hash: u32) -> (Self::State, Option<u32>) {
        (st, None)
    }

    /// A visit of a class instance: whether to go into it.
    open spec fn on_struct(st: Self::State, class: u32) -> (Self::State, bool) {
        (st, true)
    }

    /// Called for each string value found.
    fn visit_string(&mut self, value: &str, field_hash: FieldHash) -> (r: VisitResult)
        ensures
            (final(self).state(), replacement(r)) == Self::on_string(old(self).state(), value@, field_hash.0),
    ;

    /// Called for each field hash encountered.
    fn visit_field_hash(&mut self, hash: FieldHash) -> (r: Option<FieldHash>)
        ensures
            final(self).state() == Self::on_field(old(self).state(), hash.0).0,
            r is Some <==> Self::on_field(old(self).state(), hash.0).1 is Some,
            r matches Some(h) ==> Self::on_field(old(self).state(), hash.0).1 == Some(h.0),
    ;

    /// Called when entering a class instance; `false` skips its children.
    fn enter_struct(&mut self, class_hash: u32) -> (r: bool)
        ensures
            (final(self).state(), r) == Self::on_struct(old(self).state(), class_hash),
    ;
}

/// A number of changes as a 32-bit count, which stops at its maximum.
pub open spec fn capped(n: nat) -> u32 {
    if n >= u32::MAX {
        u32::MAX
    } else {
        n as u32
    }
}

/// The sum of two counts.
pub fn add_count(a: u32, b: u32) -> (r: u32)
    ensures
        forall|m: nat, n: nat| a == capped(m) && b == capped(n) ==> r == #[trigger] capped((m + n) as nat),
        a + b <= u32::MAX ==> r == a + b,
        a + b > u32::MAX ==> r == u32::MAX,
{
    if a > u32::MAX - b {
        u32::MAX
    } else {
        a + b
    }
}

/// What a traversal of one value leaves: the visitor's state, the value, and the
/// number of changes.
pub struct Walked<S> {
    pub state: S,
    pub value: Val,
    pub count: nat,
}

/// What a traversal of a property table leaves: besides, the renames asked for.
pub struct WalkedFields<S> {
    pub state: S,
    pub fields: Seq<Field>,
    pub renames: Seq<(u32, u32)>,
    pub count: nat,
}

/// What a traversal of a list of values leaves.
pub struct WalkedItems<S> {
    pub state: S,
    pub items: Seq<Val>,
    pub count: nat,
}

/// What a traversal of a list of pairs leaves.
pub struct WalkedPairs<S> {
    pub state: S,
    pub items: Seq<(Val, Val)>,
    pub count: nat,
}

/// Traversal of one value that belongs to `field`.
pub open spec fn walked_value<V: PropertyVisitor>(st: V::State, v: Val, field: u32) -> Walked<V::State>
    decreases v,
{
    match v {
        Val::Text(s) => {
            let (st2, r) = V::on_string(st, s, field);
            match r {
                Some(t) => Walked { state: st2, value: Val::Text(t), count: 1 },
                None => Walked { state: st2, value: v, count: 0 },
            }
        },
        Val::Struct(c, fs) => {
            let (st2, go) = V::on_struct(st, c);
            if go {
                let w = walked_fields::<V>(st2, fs);
                Walked { state: w.state, value: Val::Struct(c, renamed(w.fields, w.renames)), count: w.count }
            } else {
                Walked { state: st2, value: v, count: 0 }
            }
        },
        Val::Embedded(c, fs) => {
            let (st2, go) = V::on_struct(st, c);
            if go {
                let w = walked_fields::<V>(st2, fs);
                Walked { state: w.state, value: Val::Embedded(c, renamed(w.fields, w.renames)), count: w.count }
            } else {
                Walked { state: st2, value: v, count: 0 }
            }
        },
        Val::Container(items) => {
            let w = walked_items::<V>(st, items, field);
            Walked { state: w.state, value: Val::Container(w.items), count: w.count }
        },
        Val::UnorderedContainer(items) => {
            let w = walked_items::<V>(st, items, field);
            Walked { state: w.state, value: Val::UnorderedContainer(w.items), count: w.count }
        },
        Val::Present(x) => {
            let w = walked_value::<V>(st, *x, field);
            Walked { state: w.state, value: Val::Present(Box::new(w.value)), count: w.count }
        },
        Val::Table(entries) => {
            let w = walked_pairs::<V>(st, entries, field);
            Walked { state: w.state, value: Val::Table(w.items), count: w.count }
        },
        Val::Leaf(_) | Val::Absent => Walked { state: st, value: v, count: 0 },
    }
}

/// Traversal of the values of a list in order.
pub open spec fn walked_items<V: PropertyVisitor>(st: V::State, items: Seq<Val>, field: u32) -> WalkedItems<V::State>
    decreases items,
{
    if items.len() == 0 {
        WalkedItems { state: st, items: Seq::empty(), count: 0 }
    } else {
        let w = walked_items::<V>(st, items.drop_last(), field);
        let x = walked_value::<V>(w.state, items.last(), field);
        WalkedItems { state: x.state, items: w.items.push(x.value), count: w.count + x.count }
    }
}

/// Traversal of the pairs of a table in order, the key before its value.
pub open spec fn walked_pairs<V: PropertyVisitor>(st: V::State, items: Seq<(Val, Val)>, field: u32) -> WalkedPairs<V::State>
    decreases items,
{
    if items.len() == 0 {
        WalkedPairs { state: st, items: Seq::empty(), count: 0 }
    } else {
        let w = walked_pairs::<V>(st, items.drop_last(), field);
        let k = walked_value::<V>(w.state, items.last().0, field);
        let x = walked_value::<V>(k.state, items.last().1, field);
        WalkedPairs {
            state: x.state,
            items: w.items.push((k.value, x.value)),
            count: w.count + k.count + x.count,
        }
    }
}

/// Traversal of the properties of a table in order; renames are collected.
pub open spec fn walked_fields<V: PropertyVisitor>(st: V::State, fs: Seq<Field>) -> WalkedFields<V::State>
    decreases fs,
{
    if fs.len() == 0 {
        WalkedFields { state: st, fields: Seq::empty(), renames: Seq::empty(), count: 0 }
    } else {
        let w = walked_fields::<V>(st, fs.drop_last());
        let f = fs.last();
        let (st1, rename) = V::on_field(w.state, f.key);
        let x = walked_value::<V>(st1, f.value, f.key);
        WalkedFields {
            state: x.state,
            fields: w.fields.push(Field { key: f.key, name: f.name, value: x.value }),
            renames: match rename {
                Some(h) => w.renames.push((f.key, h)),
                None => w.renames,
            },
            count: w.count + (if rename is Some { 1nat } else { 0nat }) + x.count,
        }
    }
}

/// `fs` with the property filed under `from` filed under `to` instead.
pub open spec fn renamed_one(fs: Seq<Field>, from: u32, to: u32) -> Seq<Field> {
    match slot(field_keys(fs), from) {
        Some(i) => {
            let rest = swap_out(fs, i);
            put(rest, slot(field_keys(rest), to), Field { key: to, name: to, value: fs[i].value })
        },
        None => fs,
    }
}

/// `fs` after the renames, one by one.
pub open spec fn renamed(fs: Seq<Field>, renames: Seq<(u32, u32)>) -> Seq<Field>
    decreases renames.len(),
{
    if renames.len() == 0 {
        fs
    } else {
        renamed_one(renamed(fs, renames.drop_last()), renames.last().0, renames.last().1)
    }
}

/// File the property under `from` under `to` instead; whether there was one.
pub fn rename_property(props: &mut OrderedMap<BinProperty>, from: u32, to: u32) -> (r: bool)
    ensures
        fields(*final(props)) == renamed_one(fields(*old(props)), from, to),
        r == (slot(field_keys(fields(*old(props))), from) is Some),
{
    let ghost before = *props;
    proof {
        lemma_field_keys(before);
        lemma_no_slot(entry_keys(before.entries@), from);
    }
    match props.swap_remove(from) {
        Some(p) => {
            let ghost mid = *props;
            let ghost i = before.slot(from)->0;
            proof {
                lemma_field_keys(mid);
                lemma_no_slot(entry_keys(mid.entries@), to);
                assert(fields(mid) =~= swap_out(fields(before), i));
            }
            let mut q = p;
            q.name_hash = FieldHash(to);
            props.insert(to, q);
            assert(fields(*props) =~= renamed_one(fields(before), from, to));
            true
        },
        None => {
            assert(fields(*props) =~= fields(before));
            false
        },
    }
}

/// Traverse one value.
pub fn walk_value<V: PropertyVisitor>(value: &mut PropertyValue, field_hash: u32, visitor: &mut V) -> (n: u32)
    ensures
        ({
            let w = walked_value::<V>(old(visitor).state(), val(*old(value)), field_hash);
            final(visitor).state() == w.state && val(*final(value)) == w.value && n == capped(w.count)
        }),
    decreases *old(value),
{
    match value {
        PropertyValue::String(s) => {
            match visitor.visit_string(s.as_str(), FieldHash(field_hash)) {
                VisitResult::Mutate(t) => {
                    *s = t;
                    1
                },
                VisitResult::Skip => {
                    0
                },
            }
        },
        PropertyValue::Struct(s) => {
            if visitor.enter_struct(s.class_hash.0) {
                walk_properties(&mut s.properties, visitor)
            } else {
                0
            }
        },
        PropertyValue::Embedded(s) => {
            if visitor.enter_struct(s.class_hash.0) {
                walk_properties(&mut s.properties, visitor)
            } else {
                0
            }
        },
        PropertyValue::Container(items) => walk_items(items, field_hash, visitor),
        PropertyValue::UnorderedContainer(items) => walk_items(items, field_hash, visitor),
        PropertyValue::Optional(inner) => {
            if (**inner).is_none() {
                0
            } else {
                match &mut **inner {
                    Some(x) => walk_value(x, field_hash, visitor),
                    None => 0,
                }
            }
        },
        PropertyValue::Table(entries) => walk_pairs(entries, field_hash, visitor),
        _ => 0,
    }
}

fn walk_items<V: PropertyVisitor>(items: &mut Vec<PropertyValue>, field_hash: u32, visitor: &mut V) -> (n: u32)
    ensures
        ({
            let w = walked_items::<V>(old(visitor).state(), vals(*old(items)), field_hash);
            final(visitor).state() == w.state && vals(*final(items)) == w.items && n == capped(w.count)
        }),
    decreases *old(items),
{
    let ghost st = visitor.state();
    let ghost before = *items;
    let ghost models = vals(before);
    let mut n: u32 = 0;
    let mut i: usize = 0;
    let len = items.len();
    while i < len
        invariant
            before == *old(items),
            models == vals(before),
            len == before@.len(),
            items@.len() == len,
            i <= len,
            forall|j: int| i <= j < len ==> items@[j] == before@[j],
            ({
                let w = walked_items::<V>(st, models.take(i as int), field_hash);
                visitor.state() == w.state && n == capped(w.count) && w.items.len() == i
                    && forall|j: int| 0 <= j < i ==> val(#[trigger] items@[j]) == w.items[j]
            }),
        decreases len - i,
    {
        assert(models.take(i + 1).drop_last() =~= models.take(i as int));
        assert(decreases_to!(before => before@[i as int]));
        let k = walk_value(&mut items[i], field_hash, visitor);
        n = add_count(n, k);
        i = i + 1;
    }
    assert(models.take(len as int) =~= models);
    assert(vals(*items) =~= walked_items::<V>(st, models, field_hash).items);
    n
}

fn walk_pairs<V: PropertyVisitor>(items: &mut Vec<(PropertyValue, PropertyValue)>, field_hash: u32, visitor: &mut V) -> (n: u32)
    ensures
        ({
            let w = walked_pairs::<V>(old(visitor).state(), pairs(*old(items)), field_hash);
            final(visitor).state() == w.state && pairs(*final(items)) == w.items && n == capped(w.count)
        }),
    decreases *old(items),
{
    let ghost st = visitor.state();
    let ghost before = *items;
    let ghost models = pairs(before);
    let mut n: u32 = 0;
    let mut i: usize = 0;
    let len = items.len();
    while i < len
        invariant
            before == *old(items),
            models == pairs(before),
            len == before@.len(),
            items@.len() == len,
            i <= len,
            forall|j: int| i <= j < len ==> items@[j] == before@[j],
            ({
                let w = walked_pairs::<V>(st, models.take(i as int), field_hash);
                visitor.state() == w.state && n == capped(w.count) && w.items.len() == i
                    && forall|j: int| 0 <= j < i ==> (val((#[trigger] items@[j]).0), val(items@[j].1)) == w.items[j]
            }),
        decreases len - i,
    {
        assert(models.take(i + 1).drop_last() =~= models.take(i as int));
        assert(decreases_to!(before => before@[i as int]));
        let a = walk_value(&mut items[i].0, field_hash, visitor);
        let b = walk_value(&mut items[i].1, field_hash, visitor);
        n = add_count(add_count(n, a), b);
        i = i + 1;
    }
    assert(models.take(len as int) =~= models);
    assert(pairs(*items) =~= walked_pairs::<V>(st, models, field_hash).items);
    n
}

/// Traverse a property table and carry out the renames.
pub fn walk_properties<V: PropertyVisitor>(props: &mut OrderedMap<BinProperty>, visitor: &mut V) -> (n: u32)
    ensures
        ({
            let w = walked_fields::<V>(old(visitor).state(), fields(*old(props)));
            final(visitor).state() == w.state && fields(*final(props)) == renamed(w.fields, w.renames)
                && n == capped(w.count)
        }),
    decreases *old(props),
{
    let ghost st = visitor.state();
    let ghost before = *props;
    let ghost models = fields(before);
    let mut renames: Vec<(u32, u32)> = Vec::new();
    let mut n: u32 = 0;
    let mut i: usize = 0;
    let len = props.entries.len();
    while i < len
        invariant
            before == *old(props),
            models == fields(before),
            len == before.entries@.len(),
            props.entries@.len() == len,
            i <= len,
            forall|j: int| i <= j < len ==> props.entries@[j] == before.entries@[j],
            ({
                let w = walked_fields::<V>(st, models.take(i as int));
                visitor.state() == w.state && n == capped(w.count) && w.fields.len() == i
                    && w.renames == renames@
                    && forall|j: int| 0 <= j < i ==> (#[trigger] fields(*props)[j]) == w.fields[j]
            }),
        decreases len - i,
    {
        let ghost head = models.take(i as int);
        assert(models.take(i + 1).drop_last() =~= head);
        assert(decreases_to!(before => before.entries@[i as int]));
        let ghost mid = *props;
        let key = props.entries[i].0;
        if let Some(h) = visitor.visit_field_hash(FieldHash(key)) {
            renames.push((key, h.0));
            n = add_count(n, 1);
        }
        let k = walk_value(&mut props.entries[i].1.value, key, visitor);
        n = add_count(n, k);
        assert forall|j: int| 0 <= j < i implies (#[trigger] fields(*props)[j]) == fields(mid)[j] by {
            assert(props.entries@[j] == mid.entries@[j]);
        }
        i = i + 1;
    }
    assert(models.take(len as int) =~= models);
    let ghost w = walked_fields::<V>(st, models);
    assert(fields(*props) =~= w.fields);
    let mut r: usize = 0;
    while r < renames.len()
        invariant
            r <= renames@.len(),
            fields(*props) == renamed(w.fields, renames@.take(r as int)),
        decreases renames@.len() - r,
    {
        assert(renames@.take(r + 1).drop_last() =~= renames@.take(r as int));
        let _ = rename_property(props, renames[r].0, renames[r].1);
        r = r + 1;
    }
    assert(renames@.take(r as int) =~= renames@);
    n
}

/// What a traversal of a table of entries leaves.
pub struct WalkedObjects<S> {
    pub state: S,
    pub objects: Seq<Object>,
    pub count: nat,
}

/// Traversal of one entry.
pub open spec fn walked_object<V: PropertyVisitor>(st: V::State, o: Object) -> (V::State, Object, nat) {
    let w = walked_fields::<V>(st, o.fields);
    (w.state, Object { fields: renamed(w.fields, w.renames), ..o }, w.count)
}

/// Traversal of the entries of a BIN file in order.
pub open spec fn walked_objects<V: PropertyVisitor>(st: V::State, os: Seq<Object>) -> WalkedObjects<V::State>
    decreases os.len(),
{
    if os.len() == 0 {
        WalkedObjects { state: st, objects: Seq::empty(), count: 0 }
    } else {
        let w = walked_objects::<V>(st, os.drop_last());
        let x = walked_object::<V>(w.state, os.last());
        WalkedObjects { state: x.0, objects: w.objects.push(x.1), count: w.count + x.2 }
    }
}

/// Walk all properties of an entry. Returns the number of changes.
pub fn walk_object<V: PropertyVisitor>(obj: &mut BinObject, visitor: &mut V) -> (n: u32)
    ensures
        forall|key: u32| {
            let w = walked_object::<V>(old(visitor).state(), #[trigger] object(key, *old(obj)));
            final(visitor).state() == w.0 && object(key, *final(obj)) == w.1 && n == capped(w.2)
        },
{
    walk_properties(&mut obj.properties, visitor)
}

/// Walk all entries of a BIN file. Returns the number of changes.
pub fn walk_tree<V: PropertyVisitor>(tree: &mut BinTree, visitor: &mut V) -> (n: u32)
    ensures
        ({
            let w = walked_objects::<V>(old(visitor).state(), objects(old(tree).objects));
            final(visitor).state() == w.state && objects(final(tree).objects) == w.objects
                && n == capped(w.count)
        }),
        final(tree).linked == old(tree).linked,
        final(tree).trailer_files == old(tree).trailer_files,
        final(tree).trailing == old(tree).trailing,
{
    let ghost st = visitor.state();
    let ghost before = tree.objects;
    let ghost models = objects(before);
    let mut n: u32 = 0;
    let mut i: usize = 0;
    let len = tree.objects.entries.len();
    while i < len
        invariant
            models == objects(before),
            tree.linked == old(tree).linked,
            tree.trailer_files == old(tree).trailer_files,
            tree.trailing == old(tree).trailing,
            len == before.entries@.len(),
            tree.objects.entries@.len() == len,
            i <= len,
            forall|j: int| i <= j < len ==> tree.objects.entries@[j] == before.entries@[j],
            ({
                let w = walked_objects::<V>(st, models.take(i as int));
                visitor.state() == w.state && n == capped(w.count) && w.objects.len() == i
                    && forall|j: int| 0 <= j < i ==> (#[trigger] objects(tree.objects)[j]) == w.objects[j]
            }),
        decreases len - i,
    {
        assert(models.take(i + 1).drop_last() =~= models.take(i as int));
        let ghost mid = tree.objects;
        let ghost key = mid.entries@[i as int].0;
        assert(object(key, mid.entries@[i as int].1) == models[i as int]);
        let k = walk_object(&mut tree.objects.entries[i].1, visitor);
        n = add_count(n, k);
        assert forall|j: int| 0 <= j < i implies (#[trigger] objects(tree.objects)[j]) == objects(mid)[j] by {
            assert(tree.objects.entries@[j] == mid.entries@[j]);
        }
        i = i + 1;
    }
    assert(models.take(len as int) =~= models);
    assert(objects(tree.objects) =~= walked_objects::<V>(st, models).objects);
    n
}

/// The strings in a value, depth first.
pub open spec fn strings_in(v: Val) -> Seq<Seq<char>>
    decreases v,
{
    match v {
        Val::Text(s) => seq![s],
        Val::Struct(_, fs) => strings_in_fields(fs),
        Val::Embedded(_, fs) => strings_in_fields(fs),
        Val::Container(items) => strings_in_items(items),
        Val::UnorderedContainer(items) => strings_in_items(items),
        Val::Present(x) => strings_in(*x),
        Val::Table(entries) => strings_in_pairs(entries),
        Val::Leaf(_) | Val::Absent => Seq::empty(),
    }
}

/// The strings in a list of values.
pub open spec fn strings_in_items(items: Seq<Val>) -> Seq<Seq<char>>
    decreases items,
{
    if items.len() == 0 {
        Seq::empty()
    } else {
        strings_in_items(items.drop_last()) + strings_in(items.last())
    }
}

/// The strings in a list of pairs, the key's before the value's.
pub open spec fn strings_in_pairs(items: Seq<(Val, Val)>) -> Seq<Seq<char>>
    decreases items,
{
    if items.len() == 0 {
        Seq::empty()
    } else {
        strings_in_pairs(items.drop_last()) + strings_in(items.last().0) + strings_in(items.last().1)
    }
}

/// The strings in a property table.
pub open spec fn strings_in_fields(fs: Seq<Field>) -> Seq<Seq<char>>
    decreases fs,
{
    if fs.len() == 0 {
        Seq::empty()
    } else {
        strings_in_fields(fs.drop_last()) + strings_in(fs.last().value)
    }
}

/// The strings in a table of entries.
pub open spec fn strings_in_objects(os: Seq<Object>) -> Seq<Seq<char>>
    decreases os.len(),
{
    if os.len() == 0 {
        Seq::empty()
    } else {
        strings_in_objects(os.drop_last()) + strings_in_fields(os.last().fields)
    }
}

/// The contents of a list of borrowed strings.
pub open spec fn str_texts(v: Seq<&str>) -> Seq<Seq<char>> {
    v.map_values(|s: &str| s@)
}

fn collect_strings<'a>(value: &'a PropertyValue, out: &mut Vec<&'a str>)
    ensures
        str_texts(final(out)@) == str_texts(old(out)@) + strings_in(val(*value)),
    decreases *value,
{
    let ghost before = str_texts(out@);
    match value {
        PropertyValue::String(s) => {
            out.push(s.as_str());
            assert(str_texts(out@) =~= before + strings_in(val(*value)));
        },
        PropertyValue::Struct(s) => collect_property_strings(&s.properties, out),
        PropertyValue::Embedded(s) => collect_property_strings(&s.properties, out),
        PropertyValue::Container(items) => collect_item_strings(items, out),
        PropertyValue::UnorderedContainer(items) => collect_item_strings(items, out),
        PropertyValue::Optional(inner) => {
            match &**inner {
                Some(x) => collect_strings(x, out),
                None => {
                    assert(before =~= before + strings_in(val(*value)));
                },
            }
        },
        PropertyValue::Table(entries) => collect_pair_strings(entries, out),
        _ => {
            assert(before =~= before + strings_in(val(*value)));
        },
    }
}

fn collect_item_strings<'a>(items: &'a Vec<PropertyValue>, out: &mut Vec<&'a str>)
    ensures
        str_texts(final(out)@) == str_texts(old(out)@) + strings_in_items(vals(*items)),
    decreases *items,
{
    let ghost before = str_texts(out@);
    let ghost models = vals(*items);
    let mut i: usize = 0;
    assert(before + strings_in_items(models.take(0)) =~= before);
    while i < items.len()
        invariant
            models == vals(*items),
            i <= items@.len(),
            str_texts(out@) == before + strings_in_items(models.take(i as int)),
        decreases items@.len() - i,
    {
        assert(decreases_to!(*items => items@[i as int]));
        assert(models.take(i + 1).drop_last() =~= models.take(i as int));
        collect_strings(&items[i], out);
        assert(str_texts(out@) =~= before + strings_in_items(models.take(i + 1)));
        i = i + 1;
    }
    assert(models.take(i as int) =~= models);
}

fn collect_pair_strings<'a>(items: &'a Vec<(PropertyValue, PropertyValue)>, out: &mut Vec<&'a str>)
    ensures
        str_texts(final(out)@) == str_texts(old(out)@) + strings_in_pairs(pairs(*items)),
    decreases *items,
{
    let ghost before = str_texts(out@);
    let ghost models = pairs(*items);
    let mut i: usize = 0;
    assert(before + strings_in_pairs(models.take(0)) =~= before);
    while i < items.len()
        invariant
            models == pairs(*items),
            i <= items@.len(),
            str_texts(out@) == before + strings_in_pairs(models.take(i as int)),
        decreases items@.len() - i,
    {
        assert(decreases_to!(*items => items@[i as int]));
        assert(models.take(i + 1).drop_last() =~= models.take(i as int));
        collect_strings(&items[i].0, out);
        collect_strings(&items[i].1, out);
        assert(str_texts(out@) =~= before + strings_in_pairs(models.take(i + 1)));
        i = i + 1;
    }
    assert(models.take(i as int) =~= models);
}

fn collect_property_strings<'a>(props: &'a OrderedMap<BinProperty>, out: &mut Vec<&'a str>)
    ensures
        str_texts(final(out)@) == str_texts(old(out)@) + strings_in_fields(fields(*props)),
    decreases *props,
{
    let ghost before = str_texts(out@);
    let ghost models = fields(*props);
    let mut i: usize = 0;
    assert(before + strings_in_fields(models.take(0)) =~= before);
    while i < props.entries.len()
        invariant
            models == fields(*props),
            i <= props.entries@.len(),
            str_texts(out@) == before + strings_in_fields(models.take(i as int)),
        decreases props.entries@.len() - i,
    {
        assert(decreases_to!(*props => props.entries@[i as int]));
        assert(models.take(i + 1).drop_last() =~= models.take(i as int));
        collect_strings(&props.entries[i].1.value, out);
        assert(str_texts(out@) =~= before + strings_in_fields(models.take(i + 1)));
        i = i + 1;
    }
    assert(models.take(i as int) =~= models);
}

/// Every string value in a property table, borrowed.
pub fn properties_strings(props: &OrderedMap<BinProperty>) -> (r: Vec<&str>)
    ensures
        str_texts(r@) == strings_in_fields(fields(*props)),
{
    let mut out: Vec<&str> = Vec::new();
    collect_property_strings(props, &mut out);
    assert(str_texts(out@) =~= strings_in_fields(fields(*props)));
    out
}

/// Every string value in a BIN file, borrowed.
pub fn string_refs(tree: &BinTree) -> (r: Vec<&str>)
    ensures
        str_texts(r@) == strings_in_objects(objects(tree.objects)),
{
    let mut out: Vec<&str> = Vec::new();
    let ghost models = objects(tree.objects);
    let mut i: usize = 0;
    assert(str_texts(out@) =~= strings_in_objects(models.take(0)));
    while i < tree.objects.entries.len()
        invariant
            models == objects(tree.objects),
            i <= tree.objects.entries@.len(),
            str_texts(out@) == strings_in_objects(models.take(i as int)),
        decreases tree.objects.entries@.len() - i,
    {
        assert(models.take(i + 1).drop_last() =~= models.take(i as int));
        collect_property_strings(&tree.objects.entries[i].1.properties, &mut out);
        i = i + 1;
    }
    assert(models.take(i as int) =~= models);
    out
}

/// Owned copy of every string value.
pub fn extract_strings(tree: &BinTree) -> (r: Vec<String>)
    ensures
        texts(r@) == strings_in_objects(objects(tree.objects)),
{
    let refs = string_refs(tree);
    let mut out: Vec<String> = Vec::new();
    let mut i: usize = 0;
    while i < refs.len()
        invariant
            i <= refs@.len(),
            out@.len() == i,
            forall|j: int| 0 <= j < i ==> (#[trigger] out@[j])@ == refs@[j]@,
        decreases refs@.len() - i,
    {
        out.push(refs[i].to_owned());
        i = i + 1;
    }
    assert(texts(out@) =~= str_texts(refs@));
    out
}

/// Whether a value is a string, bare or wrapped in options.
pub open spec fn is_string(v: Val) -> bool
    decreases v,
{
    match v {
        Val::Text(_) => true,
        Val::Present(x) => is_string(*x),
        _ => false,
    }
}

fn holds_one_string(value: &PropertyValue) -> (r: bool)
    ensures
        r == is_string(val(*value)),
    decreases *value,
{
    match value {
        PropertyValue::String(_) => true,
        PropertyValue::Optional(inner) => match &**inner {
            Some(x) => holds_one_string(x),
            None => false,
        },
        _ => false,
    }
}

/// The strings in a value that are the own value of a property, each with the field
/// it is stored under. A string loose in a list or as the value of a pair, also one
/// wrapped in an option, has no field of its own and is left out; so is everything in
/// the key of a pair.
pub open spec fn string_fields_in(field: u32, v: Val) -> Seq<(u32, Seq<char>)>
    decreases v,
{
    match v {
        Val::Text(s) => seq![(field, s)],
        Val::Struct(_, fs) => string_fields_in_fields(fs),
        Val::Embedded(_, fs) => string_fields_in_fields(fs),
        Val::Container(items) => string_fields_in_items(field, items),
        Val::UnorderedContainer(items) => string_fields_in_items(field, items),
        Val::Present(x) => string_fields_in(field, *x),
        Val::Table(entries) => string_fields_in_pairs(field, entries),
        Val::Leaf(_) | Val::Absent => Seq::empty(),
    }
}

/// The paired strings in a list of values.
pub open spec fn string_fields_in_items(field: u32, items: Seq<Val>) -> Seq<(u32, Seq<char>)>
    decreases items,
{
    if items.len() == 0 {
        Seq::empty()
    } else {
        let before = string_fields_in_items(field, items.drop_last());
        if is_string(items.last()) {
            before
        } else {
            before + string_fields_in(field, items.last())
        }
    }
}

/// The paired strings in the values of a list of pairs.
pub open spec fn string_fields_in_pairs(field: u32, items: Seq<(Val, Val)>) -> Seq<(u32, Seq<char>)>
    decreases items,
{
    if items.len() == 0 {
        Seq::empty()
    } else {
        let before = string_fields_in_pairs(field, items.drop_last());
        if is_string(items.last().1) {
            before
        } else {
            before + string_fields_in(field, items.last().1)
        }
    }
}

/// The paired strings in a property table.
pub open spec fn string_fields_in_fields(fs: Seq<Field>) -> Seq<(u32, Seq<char>)>
    decreases fs,
{
    if fs.len() == 0 {
        Seq::empty()
    } else {
        string_fields_in_fields(fs.drop_last()) + string_fields_in(fs.last().key, fs.last().value)
    }
}

/// The paired strings in a table of entries.
pub open spec fn string_fields_in_objects(os: Seq<Object>) -> Seq<(u32, Seq<char>)>
    decreases os.len(),
{
    if os.len() == 0 {
        Seq::empty()
    } else {
        string_fields_in_objects(os.drop_last()) + string_fields_in_fields(os.last().fields)
    }
}

/// The contents of a list of borrowed strings with their fields.
pub open spec fn field_texts(v: Seq<(u32, &str)>) -> Seq<(u32, Seq<char>)> {
    v.map_values(|e: (u32, &str)| (e.0, e.1@))
}

fn collect_string_fields<'a>(field: u32, value: &'a PropertyValue, out: &mut Vec<(u32, &'a str)>)
    ensures
        field_texts(final(out)@) == field_texts(old(out)@) + string_fields_in(field, val(*value)),
    decreases *value,
{
    let ghost before = field_texts(out@);
    match value {
        PropertyValue::String(s) => {
            out.push((field, s.as_str()));
            assert(field_texts(out@) =~= before + string_fields_in(field, val(*value)));
        },
        PropertyValue::Struct(s) => collect_property_fields(&s.properties, out),
        PropertyValue::Embedded(s) => collect_property_fields(&s.properties, out),
        PropertyValue::Container(items) => collect_item_fields(field, items, out),
        PropertyValue::UnorderedContainer(items) => collect_item_fields(field, items, out),
        PropertyValue::Optional(inner) => {
            match &**inner {
                Some(x) => collect_string_fields(field, x, out),
                None => {
                    assert(before =~= before + string_fields_in(field, val(*value)));
                },
            }
        },
        PropertyValue::Table(entries) => collect_pair_fields(field, entries, out),
        _ => {
            assert(before =~= before + string_fields_in(field, val(*value)));
        },
    }
}

fn collect_item_fields<'a>(field: u32, items: &'a Vec<PropertyValue>, out: &mut Vec<(u32, &'a str)>)
    ensures
        field_texts(final(out)@) == field_texts(old(out)@) + string_fields_in_items(field, vals(*items)),
    decreases *items,
{
    let ghost before = field_texts(out@);
    let ghost models = vals(*items);
    let mut i: usize = 0;
    assert(before + string_fields_in_items(field, models.take(0)) =~= before);
    while i < items.len()
        invariant
            models == vals(*items),
            i <= items@.len(),
            field_texts(out@) == before + string_fields_in_items(field, models.take(i as int)),
        decreases items@.len() - i,
    {
        assert(decreases_to!(*items => items@[i as int]));
        assert(models.take(i + 1).drop_last() =~= models.take(i as int));
        if !holds_one_string(&items[i]) {
            collect_string_fields(field, &items[i], out);
        }
        assert(field_texts(out@) =~= before + string_fields_in_items(field, models.take(i + 1)));
        i = i + 1;
    }
    assert(models.take(i as int) =~= models);
}

fn collect_pair_fields<'a>(field: u32, items: &'a Vec<(PropertyValue, PropertyValue)>, out: &mut Vec<(u32, &'a str)>)
    ensures
        field_texts(final(out)@) == field_texts(old(out)@) + string_fields_in_pairs(field, pairs(*items)),
    decreases *items,
{
    let ghost before = field_texts(out@);
    let ghost models = pairs(*items);
    let mut i: usize = 0;
    assert(before + string_fields_in_pairs(field, models.take(0)) =~= before);
    while i < items.len()
        invariant
            models == pairs(*items),
            i <= items@.len(),
            field_texts(out@) == before + string_fields_in_pairs(field, models.take(i as int)),
        decreases items@.len() - i,
    {
        assert(decreases_to!(*items => items@[i as int]));
        assert(models.take(i + 1).drop_last() =~= models.take(i as int));
        if !holds_one_string(&items[i].1) {
            collect_string_fields(field, &items[i].1, out);
        }
        assert(field_texts(out@) =~= before + string_fields_in_pairs(field, models.take(i + 1)));
        i = i + 1;
    }
    assert(models.take(i as int) =~= models);
}

fn collect_property_fields<'a>(props: &'a OrderedMap<BinProperty>, out: &mut Vec<(u32, &'a str)>)
    ensures
        field_texts(final(out)@) == field_texts(old(out)@) + string_fields_in_fields(fields(*props)),
    decreases *props,
{
    let ghost before = field_texts(out@);
    let ghost models = fields(*props);
    let mut i: usize = 0;
    assert(before + string_fields_in_fields(models.take(0)) =~= before);
    while i < props.entries.len()
        invariant
            models == fields(*props),
            i <= props.entries@.len(),
            field_texts(out@) == before + string_fields_in_fields(models.take(i as int)),
        decreases props.entries@.len() - i,
    {
        assert(decreases_to!(*props => props.entries@[i as int]));
        assert(models.take(i + 1).drop_last() =~= models.take(i as int));
        collect_string_fields(props.entries[i].0, &props.entries[i].1.value, out);
        assert(field_texts(out@) =~= before + string_fields_in_fields(models.take(i + 1)));
        i = i + 1;
    }
    assert(models.take(i as int) =~= models);
}

/// Every string value that is a property's own, with the field it is stored under.
pub fn string_fields(tree: &BinTree) -> (r: Vec<(u32, &str)>)
    ensures
        field_texts(r@) == string_fields_in_objects(objects(tree.objects)),
{
    let mut out: Vec<(u32, &str)> = Vec::new();
    let ghost models = objects(tree.objects);
    let mut i: usize = 0;
    assert(field_texts(out@) =~= string_fields_in_objects(models.take(0)));
    while i < tree.objects.entries.len()
        invariant
            models == objects(tree.objects),
            i <= tree.objects.entries@.len(),
            field_texts(out@) == string_fields_in_objects(models.take(i as int)),
        decreases tree.objects.entries@.len() - i,
    {
        assert(models.take(i + 1).drop_last() =~= models.take(i as int));
        collect_property_fields(&tree.objects.entries[i].1.properties, &mut out);
        i = i + 1;
    }
    assert(models.take(i as int) =~= models);
    out
}

/// A value with every string `s` turned into `f(s)`, where that is one.
pub open spec fn rewritten(v: Val, f: spec_fn(Seq<char>) -> Option<Seq<char>>) -> Val
    decreases v,
{
    match v {
        Val::Text(s) => match f(s) {
            Some(t) => Val::Text(t),
            None => v,
        },
        Val::Struct(c, fs) => Val::Struct(c, rewritten_fields(fs, f)),
        Val::Embedded(c, fs) => Val::Embedded(c, rewritten_fields(fs, f)),
        Val::Container(items) => Val::Container(rewritten_items(items, f)),
        Val::UnorderedContainer(items) => Val::UnorderedContainer(rewritten_items(items, f)),
        Val::Present(x) => Val::Present(Box::new(rewritten(*x, f))),
        Val::Table(entries) => Val::Table(rewritten_pairs(entries, f)),
        Val::Leaf(_) | Val::Absent => v,
    }
}

/// A list of values with every string rewritten.
pub open spec fn rewritten_items(items: Seq<Val>, f: spec_fn(Seq<char>) -> Option<Seq<char>>) -> Seq<Val>
    decreases items,
{
    if items.len() == 0 {
        Seq::empty()
    } else {
        rewritten_items(items.drop_last(), f).push(rewritten(items.last(), f))
    }
}

/// A list of pairs with every string rewritten.
pub open spec fn rewritten_pairs(items: Seq<(Val, Val)>, f: spec_fn(Seq<char>) -> Option<Seq<char>>) -> Seq<(Val, Val)>
    decreases items,
{
    if items.len() == 0 {
        Seq::empty()
    } else {
        rewritten_pairs(items.drop_last(), f).push((rewritten(items.last().0, f), rewritten(items.last().1, f)))
    }
}

/// A property table with every string rewritten.
pub open spec fn rewritten_fields(fs: Seq<Field>, f: spec_fn(Seq<char>) -> Option<Seq<char>>) -> Seq<Field>
    decreases fs,
{
    if fs.len() == 0 {
        Seq::empty()
    } else {
        let x = fs.last();
        rewritten_fields(fs.drop_last(), f).push(Field { key: x.key, name: x.name, value: rewritten(x.value, f) })
    }
}

/// A table of entries with every string rewritten.
pub open spec fn rewritten_objects(os: Seq<Object>, f: spec_fn(Seq<char>) -> Option<Seq<char>>) -> Seq<Object>
    decreases os.len(),
{
    if os.len() == 0 {
        Seq::empty()
    } else {
        let o = os.last();
        rewritten_objects(os.drop_last(), f).push(Object { fields: rewritten_fields(o.fields, f), ..o })
    }
}

/// The number of strings that `f` rewrites.
pub open spec fn hits(ss: Seq<Seq<char>>, f: spec_fn(Seq<char>) -> Option<Seq<char>>) -> nat
    decreases ss.len(),
{
    if ss.len() == 0 {
        0
    } else {
        hits(ss.drop_last(), f) + (if f(ss.last()) is Some { 1nat } else { 0nat })
    }
}

/// The state after `step` has been taken at each string in order.
pub open spec fn folded<S>(st: S, ss: Seq<Seq<char>>, step: spec_fn(S, Seq<char>) -> S) -> S
    decreases ss.len(),
{
    if ss.len() == 0 {
        st
    } else {
        step(folded(st, ss.drop_last(), step), ss.last())
    }
}

/// The visitor rewrites strings by `f`, moves on by `step` and does nothing else, from
/// any state in which `ok` holds.
pub open spec fn rewrites_by<V: PropertyVisitor>(
    f: spec_fn(Seq<char>) -> Option<Seq<char>>,
    step: spec_fn(V::State, Seq<char>) -> V::State,
    ok: spec_fn(V::State) -> bool,
) -> bool {
    &&& forall|st: V::State, s: Seq<char>, field: u32| ok(st) ==> #[trigger] V::on_string(st, s, field) == (
        step(st, s),
        f(s),
    ) && ok(step(st, s))
    &&& forall|st: V::State, h: u32| #[trigger] V::on_field(st, h) == (st, None::<u32>)
    &&& forall|st: V::State, c: u32| #[trigger] V::on_struct(st, c) == (st, true)
}

proof fn lemma_hits_concat(a: Seq<Seq<char>>, b: Seq<Seq<char>>, f: spec_fn(Seq<char>) -> Option<Seq<char>>)
    ensures
        hits(a + b, f) == hits(a, f) + hits(b, f),
    decreases b.len(),
{
    if b.len() == 0 {
        assert(a + b =~= a);
    } else {
        lemma_hits_concat(a, b.drop_last(), f);
        assert((a + b).drop_last() =~= a + b.drop_last());
    }
}

/// Folding over two runs of strings folds over the second from where the first ends.
pub proof fn lemma_folded_concat<S>(st: S, a: Seq<Seq<char>>, b: Seq<Seq<char>>, step: spec_fn(S, Seq<char>) -> S)
    ensures
        folded(st, a + b, step) == folded(folded(st, a, step), b, step),
    decreases b.len(),
{
    if b.len() == 0 {
        assert(a + b =~= a);
    } else {
        lemma_folded_concat(st, a, b.drop_last(), step);
        assert((a + b).drop_last() =~= a + b.drop_last());
    }
}

proof fn lemma_walk_rewrites_value<V: PropertyVisitor>(
    st: V::State,
    v: Val,
    field: u32,
    f: spec_fn(Seq<char>) -> Option<Seq<char>>,
    step: spec_fn(V::State, Seq<char>) -> V::State,
    ok: spec_fn(V::State) -> bool,
)
    requires
        ok(st),
        rewrites_by::<V>(f, step, ok),
    ensures
        walked_value::<V>(st, v, field).state == folded(st, strings_in(v), step),
        walked_value::<V>(st, v, field).value == rewritten(v, f),
        walked_value::<V>(st, v, field).count == hits(strings_in(v), f),
        ok(folded(st, strings_in(v), step)),
    decreases v,
{
    match v {
        Val::Text(s) => {
            let one = seq![s];
            assert(one.drop_last() =~= Seq::empty());
            reveal_with_fuel(folded, 2);
            reveal_with_fuel(hits, 2);
            assert(V::on_string(st, s, field) == (step(st, s), f(s)));
        },
        Val::Struct(c, fs) => {
            assert(V::on_struct(st, c) == (st, true));
            lemma_walk_rewrites_fields::<V>(st, fs, f, step, ok);
        },
        Val::Embedded(c, fs) => {
            assert(V::on_struct(st, c) == (st, true));
            lemma_walk_rewrites_fields::<V>(st, fs, f, step, ok);
        },
        Val::Container(items) => lemma_walk_rewrites_items::<V>(st, items, field, f, step, ok),
        Val::UnorderedContainer(items) => lemma_walk_rewrites_items::<V>(st, items, field, f, step, ok),
        Val::Present(x) => lemma_walk_rewrites_value::<V>(st, *x, field, f, step, ok),
        Val::Table(entries) => lemma_walk_rewrites_pairs::<V>(st, entries, field, f, step, ok),
        Val::Leaf(_) | Val::Absent => {},
    }
}

proof fn lemma_walk_rewrites_items<V: PropertyVisitor>(
    st: V::State,
    items: Seq<Val>,
    field: u32,
    f: spec_fn(Seq<char>) -> Option<Seq<char>>,
    step: spec_fn(V::State, Seq<char>) -> V::State,
    ok: spec_fn(V::State) -> bool,
)
    requires
        ok(st),
        rewrites_by::<V>(f, step, ok),
    ensures
        walked_items::<V>(st, items, field).state == folded(st, strings_in_items(items), step),
        walked_items::<V>(st, items, field).items == rewritten_items(items, f),
        walked_items::<V>(st, items, field).count == hits(strings_in_items(items), f),
        ok(folded(st, strings_in_items(items), step)),
    decreases items,
{
    if items.len() > 0 {
        let head = items.drop_last();
        lemma_walk_rewrites_items::<V>(st, head, field, f, step, ok);
        let mid = folded(st, strings_in_items(head), step);
        lemma_walk_rewrites_value::<V>(mid, items.last(), field, f, step, ok);
        lemma_folded_concat(st, strings_in_items(head), strings_in(items.last()), step);
        lemma_hits_concat(strings_in_items(head), strings_in(items.last()), f);
    }
}

proof fn lemma_walk_rewrites_pairs<V: PropertyVisitor>(
    st: V::State,
    items: Seq<(Val, Val)>,
    field: u32,
    f: spec_fn(Seq<char>) -> Option<Seq<char>>,
    step: spec_fn(V::State, Seq<char>) -> V::State,
    ok: spec_fn(V::State) -> bool,
)
    requires
        ok(st),
        rewrites_by::<V>(f, step, ok),
    ensures
        walked_pairs::<V>(st, items, field).state == folded(st, strings_in_pairs(items), step),
        walked_pairs::<V>(st, items, field).items == rewritten_pairs(items, f),
        walked_pairs::<V>(st, items, field).count == hits(strings_in_pairs(items), f),
        ok(folded(st, strings_in_pairs(items), step)),
    decreases items,
{
    if items.len() > 0 {
        let head = items.drop_last();
        let (k, x) = items.last();
        lemma_walk_rewrites_pairs::<V>(st, head, field, f, step, ok);
        let a = strings_in_pairs(head);
        let b = strings_in(k);
        let c = strings_in(x);
        lemma_walk_rewrites_value::<V>(folded(st, a, step), k, field, f, step, ok);
        lemma_folded_concat(st, a, b, step);
        lemma_hits_concat(a, b, f);
        lemma_walk_rewrites_value::<V>(folded(st, a + b, step), x, field, f, step, ok);
        lemma_folded_concat(st, a + b, c, step);
        lemma_hits_concat(a + b, c, f);
    }
}

proof fn lemma_walk_rewrites_fields<V: PropertyVisitor>(
    st: V::State,
    fs: Seq<Field>,
    f: spec_fn(Seq<char>) -> Option<Seq<char>>,
    step: spec_fn(V::State, Seq<char>) -> V::State,
    ok: spec_fn(V::State) -> bool,
)
    requires
        ok(st),
        rewrites_by::<V>(f, step, ok),
    ensures
        walked_fields::<V>(st, fs).state == folded(st, strings_in_fields(fs), step),
        walked_fields::<V>(st, fs).fields == rewritten_fields(fs, f),
        walked_fields::<V>(st, fs).renames.len() == 0,
        walked_fields::<V>(st, fs).count == hits(strings_in_fields(fs), f),
        ok(folded(st, strings_in_fields(fs), step)),
    decreases fs,
{
    if fs.len() > 0 {
        let head = fs.drop_last();
        let x = fs.last();
        lemma_walk_rewrites_fields::<V>(st, head, f, step, ok);
        let mid = folded(st, strings_in_fields(head), step);
        assert(V::on_field(mid, x.key) == (mid, None::<u32>));
        lemma_walk_rewrites_value::<V>(mid, x.value, x.key, f, step, ok);
        lemma_folded_concat(st, strings_in_fields(head), strings_in(x.value), step);
        lemma_hits_concat(strings_in_fields(head), strings_in(x.value), f);
    }
}

/// A traversal with a visitor that only rewrites strings rewrites every string of the
/// tree, in order, and counts those that it rewrote.
pub proof fn law_walk_rewrites<V: PropertyVisitor>(
    st: V::State,
    os: Seq<Object>,
    f: spec_fn(Seq<char>) -> Option<Seq<char>>,
    step: spec_fn(V::State, Seq<char>) -> V::State,
    ok: spec_fn(V::State) -> bool,
)
    requires
        ok(st),
        rewrites_by::<V>(f, step, ok),
    ensures
        walked_objects::<V>(st, os).state == folded(st, strings_in_objects(os), step),
        walked_objects::<V>(st, os).objects == rewritten_objects(os, f),
        walked_objects::<V>(st, os).count == hits(strings_in_objects(os), f),
        ok(folded(st, strings_in_objects(os), step)),
    decreases os.len(),
{
    if os.len() > 0 {
        let head = os.drop_last();
        law_walk_rewrites::<V>(st, head, f, step, ok);
        let mid = folded(st, strings_in_objects(head), step);
        lemma_walk_rewrites_fields::<V>(mid, os.last().fields, f, step, ok);
        lemma_folded_concat(st, strings_in_objects(head), strings_in_fields(os.last().fields), step);
        lemma_hits_concat(strings_in_objects(head), strings_in_fields(os.last().fields), f);
    }
}

/// A value that belongs to `field` with every string `s` turned into `f(s, field)`,
/// where that is one. The strings of a nested property belong to that property.
pub open spec fn rewritten_at(v: Val, field: u32, f: spec_fn(Seq<char>, u32) -> Option<Seq<char>>) -> Val
    decreases v,
{
    match v {
        Val::Text(s) => match f(s, field) {
            Some(t) => Val::Text(t),
            None => v,
        },
        Val::Struct(c, fs) => Val::Struct(c, rewritten_fields_at(fs, f)),
        Val::Embedded(c, fs) => Val::Embedded(c, rewritten_fields_at(fs, f)),
        Val::Container(items) => Val::Container(rewritten_items_at(items, field, f)),
        Val::UnorderedContainer(items) => Val::UnorderedContainer(rewritten_items_at(items, field, f)),
        Val::Present(x) => Val::Present(Box::new(rewritten_at(*x, field, f))),
        Val::Table(entries) => Val::Table(rewritten_pairs_at(entries, field, f)),
        Val::Leaf(_) | Val::Absent => v,
    }
}

/// A list of values with every string rewritten.
pub open spec fn rewritten_items_at(items: Seq<Val>, field: u32, f: spec_fn(Seq<char>, u32) -> Option<Seq<char>>) -> Seq<Val>
    decreases items,
{
    if items.len() == 0 {
        Seq::empty()
    } else {
        rewritten_items_at(items.drop_last(), field, f).push(rewritten_at(items.last(), field, f))
    }
}

/// A list of pairs with every string rewritten.
pub open spec fn rewritten_pairs_at(items: Seq<(Val, Val)>, field: u32, f: spec_fn(Seq<char>, u32) -> Option<Seq<char>>) -> Seq<(Val, Val)>
    decreases items,
{
    if items.len() == 0 {
        Seq::empty()
    } else {
        rewritten_pairs_at(items.drop_last(), field, f).push(
            (rewritten_at(items.last().0, field, f), rewritten_at(items.last().1, field, f)),
        )
    }
}

/// A property table with every string rewritten.
pub open spec fn rewritten_fields_at(fs: Seq<Field>, f: spec_fn(Seq<char>, u32) -> Option<Seq<char>>) -> Seq<Field>
    decreases fs,
{
    if fs.len() == 0 {
        Seq::empty()
    } else {
        let x = fs.last();
        rewritten_fields_at(fs.drop_last(), f).push(
            Field { key: x.key, name: x.name, value: rewritten_at(x.value, x.key, f) },
        )
    }
}

/// A table of entries with every string rewritten.
pub open spec fn rewritten_objects_at(os: Seq<Object>, f: spec_fn(Seq<char>, u32) -> Option<Seq<char>>) -> Seq<Object>
    decreases os.len(),
{
    if os.len() == 0 {
        Seq::empty()
    } else {
        let o = os.last();
        rewritten_objects_at(os.drop_last(), f).push(Object { fields: rewritten_fields_at(o.fields, f), ..o })
    }
}

/// The number of strings in a value that `f` rewrites.
pub open spec fn hits_at(v: Val, field: u32, f: spec_fn(Seq<char>, u32) -> Option<Seq<char>>) -> nat
    decreases v,
{
    match v {
        Val::Text(s) => if f(s, field) is Some { 1 } else { 0 },
        Val::Struct(_, fs) => hits_fields_at(fs, f),
        Val::Embedded(_, fs) => hits_fields_at(fs, f),
        Val::Container(items) => hits_items_at(items, field, f),
        Val::UnorderedContainer(items) => hits_items_at(items, field, f),
        Val::Present(x) => hits_at(*x, field, f),
        Val::Table(entries) => hits_pairs_at(entries, field, f),
        Val::Leaf(_) | Val::Absent => 0,
    }
}

/// The number of strings in a list of values that `f` rewrites.
pub open spec fn hits_items_at(items: Seq<Val>, field: u32, f: spec_fn(Seq<char>, u32) -> Option<Seq<char>>) -> nat
    decreases items,
{
    if items.len() == 0 {
        0
    } else {
        hits_items_at(items.drop_last(), field, f) + hits_at(items.last(), field, f)
    }
}

/// The number of strings in a list of pairs that `f` rewrites.
pub open spec fn hits_pairs_at(items: Seq<(Val, Val)>, field: u32, f: spec_fn(Seq<char>, u32) -> Option<Seq<char>>) -> nat
    decreases items,
{
    if items.len() == 0 {
        0
    } else {
        hits_pairs_at(items.drop_last(), field, f) + hits_at(items.last().0, field, f) + hits_at(items.last().1, field, f)
    }
}

/// The number of strings in a property table that `f` rewrites.
pub open spec fn hits_fields_at(fs: Seq<Field>, f: spec_fn(Seq<char>, u32) -> Option<Seq<char>>) -> nat
    decreases fs,
{
    if fs.len() == 0 {
        0
    } else {
        hits_fields_at(fs.drop_last(), f) + hits_at(fs.last().value, fs.last().key, f)
    }
}

/// The number of strings in a table of entries that `f` rewrites.
pub open spec fn hits_objects_at(os: Seq<Object>, f: spec_fn(Seq<char>, u32) -> Option<Seq<char>>) -> nat
    decreases os.len(),
{
    if os.len() == 0 {
        0
    } else {
        hits_objects_at(os.drop_last(), f) + hits_fields_at(os.last().fields, f)
    }
}

/// In the state `st` the visitor rewrites strings by `f` and does nothing else.
pub open spec fn only_rewrites<V: PropertyVisitor>(st: V::State, f: spec_fn(Seq<char>, u32) -> Option<Seq<char>>) -> bool {
    &&& forall|s: Seq<char>, field: u32| #[trigger] V::on_string(st, s, field) == (st, f(s, field))
    &&& forall|h: u32| #[trigger] V::on_field(st, h) == (st, None::<u32>)
    &&& forall|c: u32| #[trigger] V::on_struct(st, c) == (st, true)
}

proof fn lemma_walk_at_value<V: PropertyVisitor>(st: V::State, v: Val, field: u32, f: spec_fn(Seq<char>, u32) -> Option<Seq<char>>)
    requires
        only_rewrites::<V>(st, f),
    ensures
        walked_value::<V>(st, v, field).state == st,
        walked_value::<V>(st, v, field).value == rewritten_at(v, field, f),
        walked_value::<V>(st, v, field).count == hits_at(v, field, f),
    decreases v,
{
    match v {
        Val::Text(s) => {
            assert(V::on_string(st, s, field) == (st, f(s, field)));
        },
        Val::Struct(c, fs) => {
            assert(V::on_struct(st, c) == (st, true));
            lemma_walk_at_fields::<V>(st, fs, f);
        },
        Val::Embedded(c, fs) => {
            assert(V::on_struct(st, c) == (st, true));
            lemma_walk_at_fields::<V>(st, fs, f);
        },
        Val::Container(items) => lemma_walk_at_items::<V>(st, items, field, f),
        Val::UnorderedContainer(items) => lemma_walk_at_items::<V>(st, items, field, f),
        Val::Present(x) => lemma_walk_at_value::<V>(st, *x, field, f),
        Val::Table(entries) => lemma_walk_at_pairs::<V>(st, entries, field, f),
        Val::Leaf(_) | Val::Absent => {},
    }
}

proof fn lemma_walk_at_items<V: PropertyVisitor>(st: V::State, items: Seq<Val>, field: u32, f: spec_fn(Seq<char>, u32) -> Option<Seq<char>>)
    requires
        only_rewrites::<V>(st, f),
    ensures
        walked_items::<V>(st, items, field).state == st,
        walked_items::<V>(st, items, field).items == rewritten_items_at(items, field, f),
        walked_items::<V>(st, items, field).count == hits_items_at(items, field, f),
    decreases items,
{
    if items.len() > 0 {
        lemma_walk_at_items::<V>(st, items.drop_last(), field, f);
        lemma_walk_at_value::<V>(st, items.last(), field, f);
    }
}

proof fn lemma_walk_at_pairs<V: PropertyVisitor>(st: V::State, items: Seq<(Val, Val)>, field: u32, f: spec_fn(Seq<char>, u32) -> Option<Seq<char>>)
    requires
        only_rewrites::<V>(st, f),
    ensures
        walked_pairs::<V>(st, items, field).state == st,
        walked_pairs::<V>(st, items, field).items == rewritten_pairs_at(items, field, f),
        walked_pairs::<V>(st, items, field).count == hits_pairs_at(items, field, f),
    decreases items,
{
    if items.len() > 0 {
        lemma_walk_at_pairs::<V>(st, items.drop_last(), field, f);
        lemma_walk_at_value::<V>(st, items.last().0, field, f);
        lemma_walk_at_value::<V>(st, items.last().1, field, f);
    }
}

proof fn lemma_walk_at_fields<V: PropertyVisitor>(st: V::State, fs: Seq<Field>, f: spec_fn(Seq<char>, u32) -> Option<Seq<char>>)
    requires
        only_rewrites::<V>(st, f),
    ensures
        walked_fields::<V>(st, fs).state == st,
        walked_fields::<V>(st, fs).fields == rewritten_fields_at(fs, f),
        walked_fields::<V>(st, fs).renames.len() == 0,
        walked_fields::<V>(st, fs).count == hits_fields_at(fs, f),
    decreases fs,
{
    if fs.len() > 0 {
        lemma_walk_at_fields::<V>(st, fs.drop_last(), f);
        assert(V::on_field(st, fs.last().key) == (st, None::<u32>));
        lemma_walk_at_value::<V>(st, fs.last().value, fs.last().key, f);
    }
}

/// A traversal with a visitor that only rewrites strings, by the string and the field
/// it belongs to, rewrites every string of the tree and counts those that it rewrote.
pub proof fn law_walk_rewrites_at<V: PropertyVisitor>(st: V::State, os: Seq<Object>, f: spec_fn(Seq<char>, u32) -> Option<Seq<char>>)
    requires
        only_rewrites::<V>(st, f),
    ensures
        walked_objects::<V>(st, os).state == st,
        walked_objects::<V>(st, os).objects == rewritten_objects_at(os, f),
        walked_objects::<V>(st, os).count == hits_objects_at(os, f),
    decreases os.len(),
{
    if os.len() > 0 {
        law_walk_rewrites_at::<V>(st, os.drop_last(), f);
        lemma_walk_at_fields::<V>(st, os.last().fields, f);
    }
}

/// `s` as `f` leaves it.
pub open spec fn turned(s: Seq<char>, f: spec_fn(Seq<char>) -> Option<Seq<char>>) -> Seq<char> {
    match f(s) {
        Some(t) => t,
        None => s,
    }
}

/// Each of `ss` as `f` leaves it.
pub open spec fn all_turned(ss: Seq<Seq<char>>, f: spec_fn(Seq<char>) -> Option<Seq<char>>) -> Seq<Seq<char>> {
    ss.map_values(|s: Seq<char>| turned(s, f))
}

proof fn lemma_all_turned_concat(a: Seq<Seq<char>>, b: Seq<Seq<char>>, f: spec_fn(Seq<char>) -> Option<Seq<char>>)
    ensures
        all_turned(a + b, f) == all_turned(a, f) + all_turned(b, f),
{
    assert(all_turned(a + b, f) =~= all_turned(a, f) + all_turned(b, f));
}

proof fn lemma_strings_rewritten(v: Val, f: spec_fn(Seq<char>) -> Option<Seq<char>>)
    ensures
        strings_in(rewritten(v, f)) == all_turned(strings_in(v), f),
    decreases v,
{
    match v {
        Val::Text(s) => {
            assert(strings_in(rewritten(v, f)) =~= all_turned(strings_in(v), f));
        },
        Val::Struct(c, fs) => lemma_strings_rewritten_fields(fs, f),
        Val::Embedded(c, fs) => lemma_strings_rewritten_fields(fs, f),
        Val::Container(items) => lemma_strings_rewritten_items(items, f),
        Val::UnorderedContainer(items) => lemma_strings_rewritten_items(items, f),
        Val::Present(x) => lemma_strings_rewritten(*x, f),
        Val::Table(entries) => lemma_strings_rewritten_pairs(entries, f),
        Val::Leaf(_) | Val::Absent => {
            assert(strings_in(rewritten(v, f)) =~= all_turned(strings_in(v), f));
        },
    }
}

proof fn lemma_strings_rewritten_items(items: Seq<Val>, f: spec_fn(Seq<char>) -> Option<Seq<char>>)
    ensures
        strings_in_items(rewritten_items(items, f)) == all_turned(strings_in_items(items), f),
    decreases items,
{
    if items.len() > 0 {
        let head = items.drop_last();
        lemma_strings_rewritten_items(head, f);
        lemma_strings_rewritten(items.last(), f);
        lemma_all_turned_concat(strings_in_items(head), strings_in(items.last()), f);
        assert(rewritten_items(items, f).drop_last() =~= rewritten_items(head, f));
    } else {
        assert(strings_in_items(rewritten_items(items, f)) =~= all_turned(strings_in_items(items), f));
    }
}

proof fn lemma_strings_rewritten_pairs(items: Seq<(Val, Val)>, f: spec_fn(Seq<char>) -> Option<Seq<char>>)
    ensures
        strings_in_pairs(rewritten_pairs(items, f)) == all_turned(strings_in_pairs(items), f),
    decreases items,
{
    if items.len() > 0 {
        let head = items.drop_last();
        let (k, x) = items.last();
        lemma_strings_rewritten_pairs(head, f);
        lemma_strings_rewritten(k, f);
        lemma_strings_rewritten(x, f);
        lemma_all_turned_concat(strings_in_pairs(head), strings_in(k), f);
        lemma_all_turned_concat(strings_in_pairs(head) + strings_in(k), strings_in(x), f);
        assert(rewritten_pairs(items, f).drop_last() =~= rewritten_pairs(head, f));
    } else {
        assert(strings_in_pairs(rewritten_pairs(items, f)) =~= all_turned(strings_in_pairs(items), f));
    }
}

proof fn lemma_strings_rewritten_fields(fs: Seq<Field>, f: spec_fn(Seq<char>) -> Option<Seq<char>>)
    ensures
        strings_in_fields(rewritten_fields(fs, f)) == all_turned(strings_in_fields(fs), f),
    decreases fs,
{
    if fs.len() > 0 {
        let head = fs.drop_last();
        lemma_strings_rewritten_fields(head, f);
        lemma_strings_rewritten(fs.last().value, f);
        lemma_all_turned_concat(strings_in_fields(head), strings_in(fs.last().value), f);
        assert(rewritten_fields(fs, f).drop_last() =~= rewritten_fields(head, f));
    } else {
        assert(strings_in_fields(rewritten_fields(fs, f)) =~= all_turned(strings_in_fields(fs), f));
    }
}

/// Rewriting the strings of a tree leaves it with the same number of strings in the same
/// order, each as the rewriting leaves it.
pub proof fn law_rewriting_maps_strings(os: Seq<Object>, f: spec_fn(Seq<char>) -> Option<Seq<char>>)
    ensures
        strings_in_objects(rewritten_objects(os, f)).len() == strings_in_objects(os).len(),
        forall|i: int|
            0 <= i < strings_in_objects(os).len() ==> #[trigger] strings_in_objects(rewritten_objects(os, f))[i] == match f(
                strings_in_objects(os)[i],
            ) {
                Some(t) => t,
                None => strings_in_objects(os)[i],
            },
{
    lemma_strings_rewritten_objects(os, f);
}

proof fn lemma_strings_rewritten_objects(os: Seq<Object>, f: spec_fn(Seq<char>) -> Option<Seq<char>>)
    ensures
        strings_in_objects(rewritten_objects(os, f)) == all_turned(strings_in_objects(os), f),
    decreases os.len(),
{
    if os.len() > 0 {
        let head = os.drop_last();
        lemma_strings_rewritten_objects(head, f);
        lemma_strings_rewritten_fields(os.last().fields, f);
        lemma_all_turned_concat(strings_in_objects(head), strings_in_fields(os.last().fields), f);
        assert(rewritten_objects(os, f).drop_last() =~= rewritten_objects(head, f));
    } else {
        assert(strings_in_objects(rewritten_objects(os, f)) =~= all_turned(strings_in_objects(os), f));
    }
}

/// A rewriting that does not look at the field of a string is one by the string alone.
proof fn lemma_fieldless(v: Val, field: u32, f: spec_fn(Seq<char>, u32) -> Option<Seq<char>>, g: spec_fn(Seq<char>) -> Option<Seq<char>>)
    requires
        forall|s: Seq<char>, k: u32| #[trigger] f(s, k) == g(s),
    ensures
        rewritten_at(v, field, f) == rewritten(v, g),
        hits_at(v, field, f) == hits(strings_in(v), g),
    decreases v,
{
    match v {
        Val::Text(s) => {
            assert(f(s, field) == g(s));
            assert(seq![s].drop_last() =~= Seq::empty());
            reveal_with_fuel(hits, 2);
        },
        Val::Struct(c, fs) => lemma_fieldless_fields(fs, f, g),
        Val::Embedded(c, fs) => lemma_fieldless_fields(fs, f, g),
        Val::Container(items) => lemma_fieldless_items(items, field, f, g),
        Val::UnorderedContainer(items) => lemma_fieldless_items(items, field, f, g),
        Val::Present(x) => lemma_fieldless(*x, field, f, g),
        Val::Table(entries) => lemma_fieldless_pairs(entries, field, f, g),
        Val::Leaf(_) | Val::Absent => {},
    }
}

proof fn lemma_fieldless_items(
    items: Seq<Val>,
    field: u32,
    f: spec_fn(Seq<char>, u32) -> Option<Seq<char>>,
    g: spec_fn(Seq<char>) -> Option<Seq<char>>,
)
    requires
        forall|s: Seq<char>, k: u32| #[trigger] f(s, k) == g(s),
    ensures
        rewritten_items_at(items, field, f) == rewritten_items(items, g),
        hits_items_at(items, field, f) == hits(strings_in_items(items), g),
    decreases items,
{
    if items.len() > 0 {
        lemma_fieldless_items(items.drop_last(), field, f, g);
        lemma_fieldless(items.last(), field, f, g);
        lemma_hits_concat(strings_in_items(items.drop_last()), strings_in(items.last()), g);
    }
}

proof fn lemma_fieldless_pairs(
    items: Seq<(Val, Val)>,
    field: u32,
    f: spec_fn(Seq<char>, u32) -> Option<Seq<char>>,
    g: spec_fn(Seq<char>) -> Option<Seq<char>>,
)
    requires
        forall|s: Seq<char>, k: u32| #[trigger] f(s, k) == g(s),
    ensures
        rewritten_pairs_at(items, field, f) == rewritten_pairs(items, g),
        hits_pairs_at(items, field, f) == hits(strings_in_pairs(items), g),
    decreases items,
{
    if items.len() > 0 {
        let a = strings_in_pairs(items.drop_last());
        let (k, x) = items.last();
        lemma_fieldless_pairs(items.drop_last(), field, f, g);
        lemma_fieldless(k, field, f, g);
        lemma_fieldless(x, field, f, g);
        lemma_hits_concat(a, strings_in(k), g);
        lemma_hits_concat(a + strings_in(k), strings_in(x), g);
    }
}

proof fn lemma_fieldless_fields(
    fs: Seq<Field>,
    f: spec_fn(Seq<char>, u32) -> Option<Seq<char>>,
    g: spec_fn(Seq<char>) -> Option<Seq<char>>,
)
    requires
        forall|s: Seq<char>, k: u32| #[trigger] f(s, k) == g(s),
    ensures
        rewritten_fields_at(fs, f) == rewritten_fields(fs, g),
        hits_fields_at(fs, f) == hits(strings_in_fields(fs), g),
    decreases fs,
{
    if fs.len() > 0 {
        lemma_fieldless_fields(fs.drop_last(), f, g);
        lemma_fieldless(fs.last().value, fs.last().key, f, g);
        lemma_hits_concat(strings_in_fields(fs.drop_last()), strings_in(fs.last().value), g);
    }
}

/// A rewriting that does not look at the fields of strings is one by the strings alone.
pub proof fn lemma_fieldless_objects(
    os: Seq<Object>,
    f: spec_fn(Seq<char>, u32) -> Option<Seq<char>>,
    g: spec_fn(Seq<char>) -> Option<Seq<char>>,
)
    requires
        forall|s: Seq<char>, k: u32| #[trigger] f(s, k) == g(s),
    ensures
        rewritten_objects_at(os, f) == rewritten_objects(os, g),
        hits_objects_at(os, f) == hits(strings_in_objects(os), g),
    decreases os.len(),
{
    if os.len() > 0 {
        lemma_fieldless_objects(os.drop_last(), f, g);
        lemma_fieldless_fields(os.last().fields, f, g);
        lemma_hits_concat(strings_in_objects(os.drop_last()), strings_in_fields(os.last().fields), g);
    }
}

/// `part` is directly a part of `whole`: an item of a list, the content of an option, the
/// key or value of a pair, or the value of a property.
pub open spec fn part_of(part: Val, whole: Val) -> bool {
    match whole {
        Val::Container(items) => items.contains(part),
        Val::UnorderedContainer(items) => items.contains(part),
        Val::Present(x) => *x == part,
        Val::Table(entries) => exists|i: int|
            0 <= i < entries.len() && ((#[trigger] entries[i]).0 == part || entries[i].1 == part),
        Val::Struct(_, fs) => exists|i: int| 0 <= i < fs.len() && (#[trigger] fs[i]).value == part,
        Val::Embedded(_, fs) => exists|i: int| 0 <= i < fs.len() && (#[trigger] fs[i]).value == part,
        Val::Text(_) | Val::Leaf(_) | Val::Absent => false,
    }
}

/// Every string of a part is a string of the whole, however the part is held; and a
/// string is one of its own.
pub proof fn law_no_string_is_overlooked(part: Val, whole: Val, s: Seq<char>)
    ensures
        whole == Val::Text(s) ==> strings_in(whole).contains(s),
        part_of(part, whole) && strings_in(part).contains(s) ==> strings_in(whole).contains(s),
{
    if whole == Val::Text(s) {
        assert(strings_in(whole)[0] == s);
    }
    if part_of(part, whole) && strings_in(part).contains(s) {
        match whole {
            Val::Container(items) => {
                let i = choose|i: int| 0 <= i < items.len() && items[i] == part;
                lemma_item_string(items, i, s);
            },
            Val::UnorderedContainer(items) => {
                let i = choose|i: int| 0 <= i < items.len() && items[i] == part;
                lemma_item_string(items, i, s);
            },
            Val::Table(entries) => {
                let i = choose|i: int| 0 <= i < entries.len() && ((#[trigger] entries[i]).0 == part || entries[i].1 == part);
                lemma_pair_string(entries, i, s);
            },
            Val::Struct(_, fs) => {
                let i = choose|i: int| 0 <= i < fs.len() && (#[trigger] fs[i]).value == part;
                lemma_field_string(fs, i, s);
            },
            Val::Embedded(_, fs) => {
                let i = choose|i: int| 0 <= i < fs.len() && (#[trigger] fs[i]).value == part;
                lemma_field_string(fs, i, s);
            },
            _ => {},
        }
    }
}

proof fn lemma_in_concat(a: Seq<Seq<char>>, b: Seq<Seq<char>>, s: Seq<char>)
    ensures
        (a + b).contains(s) <==> a.contains(s) || b.contains(s),
{
    if a.contains(s) {
        let i = choose|i: int| 0 <= i < a.len() && a[i] == s;
        assert((a + b)[i] == s);
    }
    if b.contains(s) {
        let i = choose|i: int| 0 <= i < b.len() && b[i] == s;
        assert((a + b)[a.len() + i] == s);
    }
    if (a + b).contains(s) {
        let i = choose|i: int| 0 <= i < (a + b).len() && (a + b)[i] == s;
        if i < a.len() {
            assert(a[i] == s);
        } else {
            assert(b[i - a.len()] == s);
        }
    }
}

proof fn lemma_item_string(items: Seq<Val>, i: int, s: Seq<char>)
    requires
        0 <= i < items.len(),
        strings_in(items[i]).contains(s),
    ensures
        strings_in_items(items).contains(s),
    decreases items.len(),
{
    lemma_in_concat(strings_in_items(items.drop_last()), strings_in(items.last()), s);
    if i < items.len() - 1 {
        lemma_item_string(items.drop_last(), i, s);
    }
}

proof fn lemma_pair_string(items: Seq<(Val, Val)>, i: int, s: Seq<char>)
    requires
        0 <= i < items.len(),
        strings_in(items[i].0).contains(s) || strings_in(items[i].1).contains(s),
    ensures
        strings_in_pairs(items).contains(s),
    decreases items.len(),
{
    let a = strings_in_pairs(items.drop_last());
    lemma_in_concat(a, strings_in(items.last().0), s);
    lemma_in_concat(a + strings_in(items.last().0), strings_in(items.last().1), s);
    if i < items.len() - 1 {
        lemma_pair_string(items.drop_last(), i, s);
    }
}

proof fn lemma_field_string(fs: Seq<Field>, i: int, s: Seq<char>)
    requires
        0 <= i < fs.len(),
        strings_in(fs[i].value).contains(s),
    ensures
        strings_in_fields(fs).contains(s),
    decreases fs.len(),
{
    lemma_in_concat(strings_in_fields(fs.drop_last()), strings_in(fs.last().value), s);
    if i < fs.len() - 1 {
        lemma_field_string(fs.drop_last(), i, s);
    }
}

/// Every string of a property of an entry is a string of the tree.
pub proof fn law_every_entry_is_searched(os: Seq<Object>, o: int, i: int, s: Seq<char>)
    requires
        0 <= o < os.len(),
        0 <= i < os[o].fields.len(),
        strings_in(os[o].fields[i].value).contains(s),
    ensures
        strings_in_objects(os).contains(s),
    decreases os.len(),
{
    lemma_in_concat(strings_in_objects(os.drop_last()), strings_in_fields(os.last().fields), s);
    if o < os.len() - 1 {
        law_every_entry_is_searched(os.drop_last(), o, i, s);
    } else {
        lemma_field_string(os.last().fields, i, s);
    }
}

proof fn lemma_field_text(fs: Seq<Field>, i: int, x: (u32, Seq<char>))
    requires
        0 <= i < fs.len(),
        string_fields_in(fs[i].key, fs[i].value).contains(x),
    ensures
        string_fields_in_fields(fs).contains(x),
    decreases fs.len(),
{
    let head = fs.drop_last();
    lemma_sum_contains(string_fields_in_fields(head), string_fields_in(fs.last().key, fs.last().value), x);
    if i < head.len() {
        assert(head[i] == fs[i]);
        lemma_field_text(head, i, x);
    }
}

proof fn lemma_item_text(field: u32, items: Seq<Val>, i: int, x: (u32, Seq<char>))
    requires
        0 <= i < items.len(),
        !(items[i] is Text) && !(items[i] is Present),
        string_fields_in(field, items[i]).contains(x),
    ensures
        string_fields_in_items(field, items).contains(x),
    decreases items.len(),
{
    let head = items.drop_last();
    lemma_sum_contains(string_fields_in_items(field, head), string_fields_in(field, items.last()), x);
    if i < head.len() {
        assert(head[i] == items[i]);
        lemma_item_text(field, head, i, x);
    }
}

proof fn lemma_pair_text(field: u32, items: Seq<(Val, Val)>, i: int, x: (u32, Seq<char>))
    requires
        0 <= i < items.len(),
        !(items[i].1 is Text) && !(items[i].1 is Present),
        string_fields_in(field, items[i].1).contains(x),
    ensures
        string_fields_in_pairs(field, items).contains(x),
    decreases items.len(),
{
    let head = items.drop_last();
    lemma_sum_contains(string_fields_in_pairs(field, head), string_fields_in(field, items.last().1), x);
    if i < head.len() {
        assert(head[i] == items[i]);
        lemma_pair_text(field, head, i, x);
    }
}

/// A text is found with the key that it stands under, at any depth: in a table of fields, in
/// an instance, through an option, and through lists and maps of instances.
pub proof fn law_texts_are_found_with_their_field(field: u32, whole: Val, i: int, x: (u32, Seq<char>))
    ensures
        whole matches Val::Text(s) ==> string_fields_in(field, whole).contains((field, s)),
        whole matches Val::Present(v) ==> (string_fields_in(field, *v).contains(x) ==> string_fields_in(field, whole).contains(x)),
        whole matches Val::Struct(_, fs) ==> (0 <= i < fs.len() && string_fields_in(fs[i].key, fs[i].value).contains(x)
            ==> string_fields_in(field, whole).contains(x)),
        whole matches Val::Embedded(_, fs) ==> (0 <= i < fs.len() && string_fields_in(fs[i].key, fs[i].value).contains(x)
            ==> string_fields_in(field, whole).contains(x)),
        whole matches Val::Container(items) ==> (0 <= i < items.len() && !(items[i] is Text) && !(items[i] is Present) && string_fields_in(
            field,
            items[i],
        ).contains(x) ==> string_fields_in(field, whole).contains(x)),
        whole matches Val::UnorderedContainer(items) ==> (0 <= i < items.len() && !(items[i] is Text) && !(items[i] is Present) && string_fields_in(
            field,
            items[i],
        ).contains(x) ==> string_fields_in(field, whole).contains(x)),
        whole matches Val::Table(entries) ==> (0 <= i < entries.len() && !(entries[i].1 is Text) && !(entries[i].1 is Present) && string_fields_in(
            field,
            entries[i].1,
        ).contains(x) ==> string_fields_in(field, whole).contains(x)),
{
    match whole {
        Val::Text(s) => {
            assert(string_fields_in(field, whole)[0] == (field, s));
        },
        Val::Struct(_, fs) => {
            if 0 <= i < fs.len() && string_fields_in(fs[i].key, fs[i].value).contains(x) {
                lemma_field_text(fs, i, x);
            }
        },
        Val::Embedded(_, fs) => {
            if 0 <= i < fs.len() && string_fields_in(fs[i].key, fs[i].value).contains(x) {
                lemma_field_text(fs, i, x);
            }
        },
        Val::Container(items) => {
            if 0 <= i < items.len() && !(items[i] is Text) && !(items[i] is Present) && string_fields_in(field, items[i]).contains(x) {
                lemma_item_text(field, items, i, x);
            }
        },
        Val::UnorderedContainer(items) => {
            if 0 <= i < items.len() && !(items[i] is Text) && !(items[i] is Present) && string_fields_in(field, items[i]).contains(x) {
                lemma_item_text(field, items, i, x);
            }
        },
        Val::Table(entries) => {
            if 0 <= i < entries.len() && !(entries[i].1 is Text) && !(entries[i].1 is Present) && string_fields_in(field, entries[i].1).contains(x) {
                lemma_pair_text(field, entries, i, x);
            }
        },
        _ => {},
    }
}

/// The texts of all entries are found.
pub proof fn law_every_entry_is_searched_by_field(os: Seq<Object>, o: int, i: int, x: (u32, Seq<char>))
    requires
        0 <= o < os.len(),
        0 <= i < os[o].fields.len(),
        string_fields_in(os[o].fields[i].key, os[o].fields[i].value).contains(x),
    ensures
        string_fields_in_objects(os).contains(x),
    decreases os.len(),
{
    let head = os.drop_last();
    lemma_sum_contains(string_fields_in_objects(head), string_fields_in_fields(os.last().fields), x);
    if o < head.len() {
        assert(head[o] == os[o]);
        law_every_entry_is_searched_by_field(head, o, i, x);
    } else {
        lemma_field_text(os[o].fields, i, x);
    }
}

} // verus!
