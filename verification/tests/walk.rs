//! Walks over property trees.

use hematite::bin::{BinObject, BinProperty, BinTree, FieldHash, OrderedMap, PathHash, PropertyValue, StructValue, TypeHash};
use hematite::walk::{extract_strings, string_fields, walk_object, walk_tree, PropertyVisitor, VisitResult};

fn object(props: Vec<(u32, PropertyValue)>) -> BinObject {
    let mut properties = OrderedMap::new();
    for (h, value) in props {
        properties.insert(h, BinProperty { name_hash: FieldHash(h), value });
    }
    BinObject { class_hash: TypeHash(0x12345678), path_hash: PathHash(0x11111111), properties }
}

fn text(s: &str) -> PropertyValue {
    PropertyValue::String(s.to_string())
}

/// Counts the strings it sees.
struct CountVisitor {
    strings: u32,
}

impl PropertyVisitor for CountVisitor {
    type State = u32;

    fn visit_string(&mut self, _value: &str, _hash: FieldHash) -> VisitResult {
        self.strings += 1;
        VisitResult::Skip
    }

    fn visit_field_hash(&mut self, _hash: FieldHash) -> Option<FieldHash> {
        None
    }

    fn enter_struct(&mut self, class_hash: u32) -> bool {
        class_hash != 0xdead
    }
}

/// Gives textures another extension.
struct ReplaceVisitor;

impl PropertyVisitor for ReplaceVisitor {
    type State = ();

    fn visit_string(&mut self, value: &str, _hash: FieldHash) -> VisitResult {
        if value.ends_with(".tex") {
            VisitResult::Mutate(value.replace(".tex", ".dds"))
        } else {
            VisitResult::Skip
        }
    }

    fn visit_field_hash(&mut self, _hash: FieldHash) -> Option<FieldHash> {
        None
    }

    fn enter_struct(&mut self, _class_hash: u32) -> bool {
        true
    }
}

/// Renames one field.
struct RenameVisitor {
    from: u32,
    to: u32,
}

impl PropertyVisitor for RenameVisitor {
    type State = ();

    fn visit_string(&mut self, _value: &str, _hash: FieldHash) -> VisitResult {
        VisitResult::Skip
    }

    fn visit_field_hash(&mut self, hash: FieldHash) -> Option<FieldHash> {
        if hash.0 == self.from {
            Some(FieldHash(self.to))
        } else {
            None
        }
    }

    fn enter_struct(&mut self, _class_hash: u32) -> bool {
        true
    }
}

#[test]
fn test_walk_object_visit_strings() {
    let mut obj = object(vec![(0x1, text("test1.tex")), (0x2, text("test2.skn"))]);
    let mut visitor = CountVisitor { strings: 0 };
    walk_object(&mut obj, &mut visitor);
    assert_eq!(visitor.strings, 2);
}

#[test]
fn test_walk_object_mutate_strings() {
    let mut obj = object(vec![(0x1, text("test.tex"))]);
    let mutations = walk_object(&mut obj, &mut ReplaceVisitor);
    assert_eq!(mutations, 1);
    if let PropertyValue::String(s) = &obj.properties.get(0x1).unwrap().value {
        assert_eq!(s, "test.dds");
    } else {
        panic!("Expected String value");
    }
}

#[test]
fn test_walk_object_rename_hash() {
    let mut obj = object(vec![(0xABCD, PropertyValue::U32(42))]);
    let mut visitor = RenameVisitor { from: 0xABCD, to: 0x1234 };
    let mutations = walk_object(&mut obj, &mut visitor);
    assert_eq!(mutations, 1);
    assert!(obj.properties.contains_key(0x1234));
    assert!(!obj.properties.contains_key(0xABCD));
    assert_eq!(obj.properties.get(0x1234).unwrap().name_hash.0, 0x1234);
}

fn nested(class: u32) -> BinObject {
    let inner = object(vec![(0x1, text("inner.tex"))]);
    let embedded = PropertyValue::Embedded(StructValue { class_hash: TypeHash(class), properties: inner.properties });
    object(vec![(0x1, text("outer.tex")), (0x2, embedded)])
}

#[test]
fn test_walk_nested_struct() {
    let mut visitor = CountVisitor { strings: 0 };
    walk_object(&mut nested(0x99999999), &mut visitor);
    assert_eq!(visitor.strings, 2);
}

#[test]
fn a_visitor_can_stay_out_of_a_struct() {
    let mut visitor = CountVisitor { strings: 0 };
    walk_object(&mut nested(0xdead), &mut visitor);
    assert_eq!(visitor.strings, 1);
}

#[test]
fn test_walk_container() {
    let items = vec![text("item1.tex"), text("item2.tex"), text("item3.tex")];
    let mut obj = object(vec![(0x1, PropertyValue::Container(items))]);
    let mut visitor = CountVisitor { strings: 0 };
    walk_object(&mut obj, &mut visitor);
    assert_eq!(visitor.strings, 3);
}

#[test]
fn test_extract_strings() {
    let mut tree = BinTree::new();
    tree.objects.insert(0x11111111, object(vec![(0x1, text("test1.tex")), (0x2, text("test2.skn"))]));
    let strings = extract_strings(&tree);
    assert_eq!(strings.len(), 2);
    assert!(strings.contains(&"test1.tex".to_string()));
    assert!(strings.contains(&"test2.skn".to_string()));
    assert_eq!(string_fields(&tree), vec![(0x1, "test1.tex"), (0x2, "test2.skn")]);
}

#[test]
fn a_loose_string_has_no_field_of_its_own() {
    let option = |s: &str| PropertyValue::Optional(Box::new(Some(text(s))));
    let mut properties = OrderedMap::new();
    properties.insert(0x9, BinProperty { name_hash: FieldHash(0x9), value: text("own.tex") });
    let inner = PropertyValue::Embedded(StructValue { class_hash: TypeHash(7), properties });
    let list = vec![text("bare.tex"), option("wrapped.tex"), PropertyValue::Optional(Box::new(Some(inner)))];
    let table = vec![(text("key.tex"), option("value.tex"))];
    let mut tree = BinTree::new();
    tree.objects.insert(
        1,
        object(vec![
            (0x1, PropertyValue::Container(list)),
            (0x2, option("single.tex")),
            (0x3, PropertyValue::Table(table)),
        ]),
    );
    assert_eq!(string_fields(&tree), vec![(0x9, "own.tex"), (0x2, "single.tex")]);
}

#[test]
fn every_string_of_a_tree_is_rewritten_once() {
    let mut tree = BinTree::new();
    tree.objects.insert(1, nested(7));
    tree.objects.insert(2, object(vec![(0x1, PropertyValue::Optional(Box::new(Some(text("opt.tex")))))]));
    assert_eq!(walk_tree(&mut tree, &mut ReplaceVisitor), 3);
    assert_eq!(extract_strings(&tree), vec!["outer.dds", "inner.dds", "opt.dds"]);
    assert_eq!(walk_tree(&mut tree, &mut ReplaceVisitor), 0);
}
