//! Values from JSON, conversions and comparisons.

use hematite::bin::PropertyValue;
use hematite::factory::{convert_type, json_to_value, matches_json, FactoryError, JsonNumber, JsonValue, ValueKind};
use hematite::strings::fnv1a_hash;

/// The neighbour of a number in single precision.
fn step(v: f32, up: bool) -> f32 {
    if v == 0.0 {
        return f32::from_bits(if up { 1 } else { 0x8000_0001 });
    }
    let b = v.to_bits();
    f32::from_bits(if (v > 0.0) == up { b + 1 } else { b - 1 })
}

/// The last number in one direction that counts as equal to `e`.
fn bound(e: f32, up: bool) -> f32 {
    let near = |v: f32| (v - e).abs() < 0.0001;
    let mut v = if up { e + 0.0001 } else { e - 0.0001 };
    while !near(v) {
        v = step(v, !up);
    }
    while near(step(v, up)) {
        v = step(v, up);
    }
    v
}

fn single(x: f64) -> JsonValue {
    let e = x as f32;
    JsonValue::Number(JsonNumber {
        unsigned: None,
        signed: None,
        real: e.to_bits(),
        near_low: bound(e, false).to_bits(),
        near_high: bound(e, true).to_bits(),
    })
}

fn integer(x: i64) -> JsonValue {
    let e = x as f32;
    JsonValue::Number(JsonNumber {
        unsigned: u64::try_from(x).ok(),
        signed: Some(x),
        real: e.to_bits(),
        near_low: bound(e, false).to_bits(),
        near_high: bound(e, true).to_bits(),
    })
}

fn text(s: &str) -> JsonValue {
    JsonValue::String(s.to_string())
}

fn vector3(x: f32, y: f32, z: f32) -> PropertyValue {
    PropertyValue::Vector3([x.to_bits(), y.to_bits(), z.to_bits()])
}

#[test]
fn test_json_to_value_primitives() {
    assert!(matches!(json_to_value(&JsonValue::Bool(true), "bool").unwrap(), PropertyValue::Bool(true)));
    assert!(matches!(json_to_value(&integer(42), "u8").unwrap(), PropertyValue::U8(42)));
    assert!(matches!(json_to_value(&integer(-5), "i8").unwrap(), PropertyValue::I8(-5)));
    assert!(matches!(json_to_value(&single(2.5), "f32").unwrap(), PropertyValue::F32(_)));
}

#[test]
fn test_json_to_value_string() {
    match json_to_value(&text("test.tex"), "string").unwrap() {
        PropertyValue::String(s) => assert_eq!(s, "test.tex"),
        _ => panic!("Expected String"),
    }
}

#[test]
fn test_json_to_value_vectors() {
    let (one, two, three, four) = (1.0f32.to_bits(), 2.0f32.to_bits(), 3.0f32.to_bits(), 4.0f32.to_bits());
    let vec2 = json_to_value(&JsonValue::Array(vec![single(1.0), single(2.0)]), "vec2").unwrap();
    assert!(matches!(vec2, PropertyValue::Vector2(v) if v == [one, two]));

    let vec3 = json_to_value(&JsonValue::Array(vec![single(1.0), single(2.0), single(3.0)]), "vec3").unwrap();
    assert!(matches!(vec3, PropertyValue::Vector3(v) if v == [one, two, three]));

    let vec4 = json_to_value(&JsonValue::Array(vec![single(1.0), single(2.0), single(3.0), single(4.0)]), "vec4").unwrap();
    assert!(matches!(vec4, PropertyValue::Vector4(v) if v == [one, two, three, four]));
}

#[test]
fn test_json_to_value_color() {
    let list = JsonValue::Array(vec![integer(255), integer(128), integer(64), integer(32)]);
    let color = json_to_value(&list, "color").unwrap();
    assert!(matches!(color, PropertyValue::Color([255, 128, 64, 32])));
}

#[test]
fn test_convert_vec3_to_vec4() {
    let result = convert_type(&vector3(1.0, 2.0, 3.0), "vec3", "vec4", &vec![single(1.0)], "").unwrap();
    match result {
        Some(PropertyValue::Vector4([x, y, z, w])) => {
            assert_eq!(f32::from_bits(x), 1.0);
            assert_eq!(f32::from_bits(y), 2.0);
            assert_eq!(f32::from_bits(z), 3.0);
            assert_eq!(f32::from_bits(w), 1.0);
        }
        _ => panic!("Expected vec4"),
    }
}

#[test]
fn test_convert_vec3_to_vec4_default_alpha() {
    let result = convert_type(&vector3(1.0, 2.0, 3.0), "vec3", "vec4", &vec![], "").unwrap();
    match result {
        Some(PropertyValue::Vector4([_, _, _, w])) => assert_eq!(f32::from_bits(w), 1.0),
        _ => panic!("Expected vec4"),
    }
}

#[test]
fn test_convert_hash_to_string() {
    let result = convert_type(&PropertyValue::Hash(0xDEADBEEF), "hash", "string", &vec![], "").unwrap();
    match result {
        Some(PropertyValue::String(s)) => assert_eq!(s, "deadbeef"),
        _ => panic!("Expected string"),
    }
}

#[test]
fn test_convert_string_to_hash() {
    let result = convert_type(&PropertyValue::String("test".to_string()), "string", "hash", &vec![], "").unwrap();
    match result {
        Some(PropertyValue::Hash(h)) => {
            assert!(h != 0);
            assert_eq!(h, fnv1a_hash("test"));
        }
        _ => panic!("Expected hash"),
    }
}

#[test]
fn test_convert_u8_to_u32() {
    let result = convert_type(&PropertyValue::U8(42), "u8", "u32", &vec![], "").unwrap();
    assert!(matches!(result, Some(PropertyValue::U32(42))));
}

#[test]
fn test_convert_u32_to_u8_clamped() {
    let result = convert_type(&PropertyValue::U32(300), "u32", "u8", &vec![], "").unwrap();
    assert!(matches!(result, Some(PropertyValue::U8(255))));
}

#[test]
fn test_matches_json_bool() {
    assert!(matches_json(&PropertyValue::Bool(true), &JsonValue::Bool(true)));
    assert!(!matches_json(&PropertyValue::Bool(true), &JsonValue::Bool(false)));
}

#[test]
fn test_matches_json_integer() {
    assert!(matches_json(&PropertyValue::U32(42), &integer(42)));
    assert!(!matches_json(&PropertyValue::U32(42), &integer(43)));
}

#[test]
fn test_matches_json_string() {
    assert!(matches_json(&PropertyValue::String("test".to_string()), &text("test")));
    assert!(!matches_json(&PropertyValue::String("test".to_string()), &text("other")));
}

#[test]
fn test_matches_json_vec3() {
    let value = vector3(1.0, 2.0, 3.0);
    assert!(matches_json(&value, &JsonValue::Array(vec![single(1.0), single(2.0), single(3.0)])));
    assert!(!matches_json(&value, &JsonValue::Array(vec![single(1.0), single(2.0), single(4.0)])));
}

#[test]
fn test_matches_json_type_mismatch() {
    assert!(!matches_json(&PropertyValue::U32(42), &text("42")));
    assert!(!matches_json(&PropertyValue::String("42".to_string()), &integer(42)));
}

#[test]
fn nearly_equal_numbers_match() {
    assert!(matches_json(&PropertyValue::F32(1.00005f32.to_bits()), &single(1.0)));
    assert!(!matches_json(&PropertyValue::F32(1.0002f32.to_bits()), &single(1.0)));
    assert!(matches_json(&PropertyValue::F32((-0.0f32).to_bits()), &single(0.0)));
    assert!(matches_json(&PropertyValue::F32((-0.00005f32).to_bits()), &single(0.0)));
}

#[test]
fn values_of_another_kind_are_refused() {
    assert_eq!(json_to_value(&integer(1), "bool").err(), Some(FactoryError::Expected(ValueKind::Bool)));
    assert_eq!(json_to_value(&integer(1), "nonsense").err(), Some(FactoryError::UnknownType));
    assert_eq!(
        json_to_value(&JsonValue::Array(vec![single(1.0)]), "vec2").err(),
        Some(FactoryError::WrongLength(ValueKind::Vec2))
    );
    assert_eq!(
        json_to_value(&JsonValue::Array(vec![single(1.0), text("x")]), "vec2").err(),
        Some(FactoryError::ExpectedElement(ValueKind::Vec2, 1))
    );
    assert!(convert_type(&PropertyValue::Bool(true), "bool", "vec4", &vec![], "").is_err());
    assert!(matches!(convert_type(&PropertyValue::Bool(true), "vec3", "vec4", &vec![], ""), Ok(None)));
}
