//! Property values from the JSON values of a fix config, conversions between value
//! types, and comparison of a value with an expected one.

use vstd::prelude::*;
use vstd::string::*;
use crate::bin::{val, PropertyValue, Val};
use crate::strings::{fnv1a_hash, name_hash};
use crate::text::{hex, hex_text, lowered, number, parse_number, same, to_lower, trim_start, trimmed_start};

verus! {

/// A JSON number as the rules read it.
///
/// `real` is the number rounded to single precision, as its bit pattern. `near_low` and
/// `near_high` are the bit patterns of the least and the greatest single precision
/// number that counts as equal to it (a difference below 0.0001).
#[derive(Clone, Copy, Debug, PartialEq, Eq, Structural)]
pub struct JsonNumber {
    pub unsigned: Option<u64>,
    pub signed: Option<i64>,
    pub real: u32,
    pub near_low: u32,
    pub near_high: u32,
}

/// A JSON value as the rules read it.
#[derive(Debug)]
pub enum JsonValue {
    Null,
    Bool(bool),
    Number(JsonNumber),
    String(String),
    Array(Vec<JsonValue>),
    Object,
}

/// The type that a JSON value was expected to give.
#[derive(Clone, Copy, Debug, PartialEq, Eq, Structural)]
pub enum ValueKind {
    Bool,
    U8,
    I8,
    U16,
    I16,
    U32,
    I32,
    U64,
    I64,
    F32,
    Vec2,
    Vec3,
    Vec4,
    String,
    Hash,
    Link,
    Color,
}

/// Why a value could not be made or converted.
#[derive(Clone, Copy, Debug, PartialEq, Eq, Structural)]
pub enum FactoryError {
    /// The JSON value is of another type.
    Expected(ValueKind),
    /// The array has another number of elements.
    WrongLength(ValueKind),
    /// This element of the array is of another type.
    ExpectedElement(ValueKind, usize),
    /// The data type is not known.
    UnknownType,
    /// There is no conversion between the two types.
    UnsupportedConversion,
}

/// The bits of a single precision number in an order that is the order of the numbers:
/// both zeros are 0, and what is not a number lies beyond the infinities.
pub open spec fn real_order(bits: u32) -> int {
    if bits < 0x8000_0000 {
        bits as int
    } else {
        0x8000_0000 - bits
    }
}

/// The single precision number `bits` counts as equal to `n`.
pub open spec fn is_near(bits: u32, n: JsonNumber) -> bool {
    real_order(n.near_low) <= real_order(bits) <= real_order(n.near_high)
}

fn order_of(bits: u32) -> (r: i64)
    ensures
        r as int == real_order(bits),
{
    if bits < 0x8000_0000 {
        bits as i64
    } else {
        0x8000_0000i64 - bits as i64
    }
}

fn near(bits: u32, n: &JsonNumber) -> (r: bool)
    ensures
        r == is_near(bits, *n),
{
    let x = order_of(bits);
    order_of(n.near_low) <= x && x <= order_of(n.near_high)
}

/// The number `n` modulo `m`, read as a signed number.
pub open spec fn wrapped(n: int, m: int) -> int {
    if n % m < m / 2 {
        n % m
    } else {
        n % m - m
    }
}

/// The low bits of a signed number, for a modulus of at most 32 bits.
fn low_bits(n: i64, m: u64) -> (r: i64)
    requires
        m == 0x100 || m == 0x1_0000 || m == 0x1_0000_0000,
    ensures
        r as int == wrapped(n as int, m as int),
{
    let low: u64 = if n >= 0 {
        (n as u64) % m
    } else {
        let k: u64 = (-(n + 1)) as u64;
        assert(k as int == -(n as int) - 1);
        proof {
            let a = n as int;
            let b = k as int;
            if m == 0x100 {
                assert(0xff - b % 0x100 == a % 0x100);
            } else if m == 0x1_0000 {
                assert(0xffff - b % 0x1_0000 == a % 0x1_0000);
            } else {
                assert(0xffff_ffff - b % 0x1_0000_0000 == a % 0x1_0000_0000);
            }
        }
        m - 1 - k % m
    };
    assert(low as int == (n as int) % (m as int));
    if low < m / 2 {
        low as i64
    } else {
        low as i64 - m as i64
    }
}

impl JsonValue {
    /// The number that the value is, if it is one.
    pub open spec fn as_number(&self) -> Option<JsonNumber> {
        match *self {
            JsonValue::Number(n) => Some(n),
            _ => None,
        }
    }

    /// The unsigned integer that the value is, if it is one.
    pub open spec fn as_unsigned(&self) -> Option<u64> {
        match *self {
            JsonValue::Number(n) => n.unsigned,
            _ => None,
        }
    }

    /// The signed integer that the value is, if it is one.
    pub open spec fn as_signed(&self) -> Option<i64> {
        match *self {
            JsonValue::Number(n) => n.signed,
            _ => None,
        }
    }

    /// The elements of the value, if it is an array.
    pub open spec fn as_elements(&self) -> Option<Seq<JsonValue>> {
        match *self {
            JsonValue::Array(v) => Some(v@),
            _ => None,
        }
    }

    fn number(&self) -> (r: Option<JsonNumber>)
        ensures
            r == self.as_number(),
    {
        match self {
            JsonValue::Number(n) => Some(*n),
            _ => None,
        }
    }

    fn unsigned(&self) -> (r: Option<u64>)
        ensures
            r == self.as_unsigned(),
    {
        match self {
            JsonValue::Number(n) => n.unsigned,
            _ => None,
        }
    }

    fn signed(&self) -> (r: Option<i64>)
        ensures
            r == self.as_signed(),
    {
        match self {
            JsonValue::Number(n) => n.signed,
            _ => None,
        }
    }
}

/// The first place from `i` on at which `arr` holds no number.
pub open spec fn first_non_number(arr: Seq<JsonValue>, i: nat) -> nat
    decreases arr.len() - i,
{
    if i >= arr.len() || arr[i as int].as_number() is None {
        i
    } else {
        first_non_number(arr, i + 1)
    }
}

/// The first place from `i` on at which `arr` holds no unsigned integer.
pub open spec fn first_non_unsigned(arr: Seq<JsonValue>, i: nat) -> nat
    decreases arr.len() - i,
{
    if i >= arr.len() || arr[i as int].as_unsigned() is None {
        i
    } else {
        first_non_unsigned(arr, i + 1)
    }
}

/// The single precision components that a JSON array gives: `n` numbers exactly.
pub open spec fn components(v: JsonValue, kind: ValueKind, n: nat) -> Result<Seq<u32>, FactoryError> {
    match v.as_elements() {
        None => Err(FactoryError::Expected(kind)),
        Some(arr) => if arr.len() != n {
            Err(FactoryError::WrongLength(kind))
        } else if first_non_number(arr, 0) < n {
            Err(FactoryError::ExpectedElement(kind, first_non_number(arr, 0) as usize))
        } else {
            Ok(arr.map_values(|e: JsonValue| e.as_number()->0.real))
        },
    }
}

/// The colour channels that a JSON array gives: four integers, each modulo 256.
pub open spec fn channels(v: JsonValue) -> Result<Seq<u8>, FactoryError> {
    match v.as_elements() {
        None => Err(FactoryError::Expected(ValueKind::Color)),
        Some(arr) => if arr.len() != 4 {
            Err(FactoryError::WrongLength(ValueKind::Color))
        } else if first_non_unsigned(arr, 0) < 4 {
            Err(FactoryError::ExpectedElement(ValueKind::Color, first_non_unsigned(arr, 0) as usize))
        } else {
            Ok(arr.map_values(|e: JsonValue| (e.as_unsigned()->0 % 256) as u8))
        },
    }
}

fn read_components(v: &JsonValue, kind: ValueKind, n: usize) -> (r: Result<Vec<u32>, FactoryError>)
    ensures
        r is Ok <==> components(*v, kind, n as nat) is Ok,
        r matches Ok(c) ==> components(*v, kind, n as nat) == Ok::<Seq<u32>, FactoryError>(c@) && c@.len() == n,
        r matches Err(e) ==> components(*v, kind, n as nat) == Err::<Seq<u32>, FactoryError>(e),
{
    match v {
        JsonValue::Array(arr) => {
            if arr.len() != n {
                return Err(FactoryError::WrongLength(kind));
            }
            let mut out: Vec<u32> = Vec::new();
            let mut i: usize = 0;
            while i < arr.len()
                invariant
                    n == arr@.len(),
                    i <= n,
                    v.as_elements() == Some(arr@),
                    out@.len() == i,
                    first_non_number(arr@, 0) == first_non_number(arr@, i as nat),
                    forall|j: int| 0 <= j < i ==> out@[j] == (#[trigger] arr@[j]).as_number()->0.real,
                decreases arr@.len() - i,
            {
                match arr[i].number() {
                    Some(x) => {
                        out.push(x.real);
                    },
                    None => {
                        return Err(FactoryError::ExpectedElement(kind, i));
                    },
                }
                i = i + 1;
            }
            assert(out@ =~= arr@.map_values(|e: JsonValue| e.as_number()->0.real));
            Ok(out)
        },
        _ => Err(FactoryError::Expected(kind)),
    }
}

fn read_channels(v: &JsonValue) -> (r: Result<Vec<u8>, FactoryError>)
    ensures
        r is Ok <==> channels(*v) is Ok,
        r matches Ok(c) ==> channels(*v) == Ok::<Seq<u8>, FactoryError>(c@) && c@.len() == 4,
        r matches Err(e) ==> channels(*v) == Err::<Seq<u8>, FactoryError>(e),
{
    match v {
        JsonValue::Array(arr) => {
            if arr.len() != 4 {
                return Err(FactoryError::WrongLength(ValueKind::Color));
            }
            let mut out: Vec<u8> = Vec::new();
            let mut i: usize = 0;
            while i < arr.len()
                invariant
                    arr@.len() == 4,
                    i <= 4,
                    v.as_elements() == Some(arr@),
                    out@.len() == i,
                    first_non_unsigned(arr@, 0) == first_non_unsigned(arr@, i as nat),
                    forall|j: int| 0 <= j < i ==> out@[j] == ((#[trigger] arr@[j]).as_unsigned()->0 % 256) as u8,
                decreases arr@.len() - i,
            {
                match arr[i].unsigned() {
                    Some(x) => {
                        out.push((x % 256) as u8);
                    },
                    None => {
                        return Err(FactoryError::ExpectedElement(ValueKind::Color, i));
                    },
                }
                i = i + 1;
            }
            assert(out@ =~= arr@.map_values(|e: JsonValue| (e.as_unsigned()->0 % 256) as u8));
            Ok(out)
        },
        _ => Err(FactoryError::Expected(ValueKind::Color)),
    }
}

/// What an unsigned JSON integer gives.
pub open spec fn from_unsigned(v: JsonValue, kind: ValueKind, make: spec_fn(u64) -> PropertyValue) -> Result<Val, FactoryError> {
    match v.as_unsigned() {
        Some(n) => Ok(Val::Leaf(make(n))),
        None => Err(FactoryError::Expected(kind)),
    }
}

/// What a signed JSON integer gives.
pub open spec fn from_signed(v: JsonValue, kind: ValueKind, make: spec_fn(i64) -> PropertyValue) -> Result<Val, FactoryError> {
    match v.as_signed() {
        Some(n) => Ok(Val::Leaf(make(n))),
        None => Err(FactoryError::Expected(kind)),
    }
}

/// The value that a JSON value gives as the data type named `t` (lower case).
///
/// Integers are cut to the low bits of the type.
pub open spec fn value_of_json(v: JsonValue, t: Seq<char>) -> Result<Val, FactoryError> {
    if t == "bool"@ {
        match v {
            JsonValue::Bool(b) => Ok(Val::Leaf(PropertyValue::Bool(b))),
            _ => Err(FactoryError::Expected(ValueKind::Bool)),
        }
    } else if t == "u8"@ {
        from_unsigned(v, ValueKind::U8, |n: u64| PropertyValue::U8((n % 0x100) as u8))
    } else if t == "i8"@ {
        from_signed(v, ValueKind::I8, |n: i64| PropertyValue::I8(wrapped(n as int, 0x100) as i8))
    } else if t == "u16"@ {
        from_unsigned(v, ValueKind::U16, |n: u64| PropertyValue::U16((n % 0x1_0000) as u16))
    } else if t == "i16"@ {
        from_signed(v, ValueKind::I16, |n: i64| PropertyValue::I16(wrapped(n as int, 0x1_0000) as i16))
    } else if t == "u32"@ {
        from_unsigned(v, ValueKind::U32, |n: u64| PropertyValue::U32((n % 0x1_0000_0000) as u32))
    } else if t == "i32"@ {
        from_signed(v, ValueKind::I32, |n: i64| PropertyValue::I32(wrapped(n as int, 0x1_0000_0000) as i32))
    } else if t == "u64"@ {
        from_unsigned(v, ValueKind::U64, |n: u64| PropertyValue::U64(n))
    } else if t == "i64"@ {
        from_signed(v, ValueKind::I64, |n: i64| PropertyValue::I64(n))
    } else if t == "f32"@ {
        match v.as_number() {
            Some(n) => Ok(Val::Leaf(PropertyValue::F32(n.real))),
            None => Err(FactoryError::Expected(ValueKind::F32)),
        }
    } else if t == "vector2"@ || t == "vec2"@ {
        match components(v, ValueKind::Vec2, 2) {
            Ok(c) => Ok(Val::Leaf(PropertyValue::Vector2([c[0], c[1]]))),
            Err(e) => Err(e),
        }
    } else if t == "vector3"@ || t == "vec3"@ {
        match components(v, ValueKind::Vec3, 3) {
            Ok(c) => Ok(Val::Leaf(PropertyValue::Vector3([c[0], c[1], c[2]]))),
            Err(e) => Err(e),
        }
    } else if t == "vector4"@ || t == "vec4"@ {
        match components(v, ValueKind::Vec4, 4) {
            Ok(c) => Ok(Val::Leaf(PropertyValue::Vector4([c[0], c[1], c[2], c[3]]))),
            Err(e) => Err(e),
        }
    } else if t == "string"@ {
        match v {
            JsonValue::String(s) => Ok(Val::Text(s@)),
            _ => Err(FactoryError::Expected(ValueKind::String)),
        }
    } else if t == "hash"@ {
        from_unsigned(v, ValueKind::Hash, |n: u64| PropertyValue::Hash((n % 0x1_0000_0000) as u32))
    } else if t == "link"@ {
        from_unsigned(v, ValueKind::Link, |n: u64| PropertyValue::Link((n % 0x1_0000_0000) as u32))
    } else if t == "color"@ {
        match channels(v) {
            Ok(c) => Ok(Val::Leaf(PropertyValue::Color([c[0], c[1], c[2], c[3]]))),
            Err(e) => Err(e),
        }
    } else {
        Err(FactoryError::UnknownType)
    }
}

/// Convert a JSON value to a property value of the named data type (case-insensitive).
pub fn json_to_value(value: &JsonValue, data_type: &str) -> (r: Result<PropertyValue, FactoryError>)
    ensures
        r is Ok <==> value_of_json(*value, lowered(data_type@)) is Ok,
        r matches Ok(v) ==> value_of_json(*value, lowered(data_type@)) == Ok::<Val, FactoryError>(val(v)),
        r matches Err(e) ==> value_of_json(*value, lowered(data_type@)) == Err::<Val, FactoryError>(e),
{
    let lower = to_lower(data_type);
    let t = lower.as_str();
    if same(t, "bool") {
        match value {
            JsonValue::Bool(b) => Ok(PropertyValue::Bool(*b)),
            _ => Err(FactoryError::Expected(ValueKind::Bool)),
        }
    } else if same(t, "u8") {
        match value.unsigned() {
            Some(n) => Ok(PropertyValue::U8((n % 0x100) as u8)),
            None => Err(FactoryError::Expected(ValueKind::U8)),
        }
    } else if same(t, "i8") {
        match value.signed() {
            Some(n) => Ok(PropertyValue::I8(low_bits(n, 0x100) as i8)),
            None => Err(FactoryError::Expected(ValueKind::I8)),
        }
    } else if same(t, "u16") {
        match value.unsigned() {
            Some(n) => Ok(PropertyValue::U16((n % 0x1_0000) as u16)),
            None => Err(FactoryError::Expected(ValueKind::U16)),
        }
    } else if same(t, "i16") {
        match value.signed() {
            Some(n) => Ok(PropertyValue::I16(low_bits(n, 0x1_0000) as i16)),
            None => Err(FactoryError::Expected(ValueKind::I16)),
        }
    } else if same(t, "u32") {
        match value.unsigned() {
            Some(n) => Ok(PropertyValue::U32((n % 0x1_0000_0000) as u32)),
            None => Err(FactoryError::Expected(ValueKind::U32)),
        }
    } else if same(t, "i32") {
        match value.signed() {
            Some(n) => Ok(PropertyValue::I32(low_bits(n, 0x1_0000_0000) as i32)),
            None => Err(FactoryError::Expected(ValueKind::I32)),
        }
    } else if same(t, "u64") {
        match value.unsigned() {
            Some(n) => Ok(PropertyValue::U64(n)),
            None => Err(FactoryError::Expected(ValueKind::U64)),
        }
    } else if same(t, "i64") {
        match value.signed() {
            Some(n) => Ok(PropertyValue::I64(n)),
            None => Err(FactoryError::Expected(ValueKind::I64)),
        }
    } else if same(t, "f32") {
        match value.number() {
            Some(n) => Ok(PropertyValue::F32(n.real)),
            None => Err(FactoryError::Expected(ValueKind::F32)),
        }
    } else if same(t, "vector2") || same(t, "vec2") {
        match read_components(value, ValueKind::Vec2, 2) {
            Ok(c) => Ok(PropertyValue::Vector2([c[0], c[1]])),
            Err(e) => Err(e),
        }
    } else if same(t, "vector3") || same(t, "vec3") {
        match read_components(value, ValueKind::Vec3, 3) {
            Ok(c) => Ok(PropertyValue::Vector3([c[0], c[1], c[2]])),
            Err(e) => Err(e),
        }
    } else if same(t, "vector4") || same(t, "vec4") {
        match read_components(value, ValueKind::Vec4, 4) {
            Ok(c) => Ok(PropertyValue::Vector4([c[0], c[1], c[2], c[3]])),
            Err(e) => Err(e),
        }
    } else if same(t, "string") {
        match value {
            JsonValue::String(s) => Ok(PropertyValue::String(s.clone())),
            _ => Err(FactoryError::Expected(ValueKind::String)),
        }
    } else if same(t, "hash") {
        match value.unsigned() {
            Some(n) => Ok(PropertyValue::Hash((n % 0x1_0000_0000) as u32)),
            None => Err(FactoryError::Expected(ValueKind::Hash)),
        }
    } else if same(t, "link") {
        match value.unsigned() {
            Some(n) => Ok(PropertyValue::Link((n % 0x1_0000_0000) as u32)),
            None => Err(FactoryError::Expected(ValueKind::Link)),
        }
    } else if same(t, "color") {
        match read_channels(value) {
            Ok(c) => Ok(PropertyValue::Color([c[0], c[1], c[2], c[3]])),
            Err(e) => Err(e),
        }
    } else {
        Err(FactoryError::UnknownType)
    }
}

/// The appended component `i`, or the default where the config gives no number there.
pub open spec fn appended(values: Seq<JsonValue>, i: int, default: u32) -> u32 {
    if i < values.len() && values[i].as_number() is Some {
        values[i].as_number()->0.real
    } else {
        default
    }
}

fn append_component(values: &Vec<JsonValue>, i: usize, default: u32) -> (r: u32)
    ensures
        r == appended(values@, i as int, default),
{
    if i < values.len() {
        match values[i].number() {
            Some(n) => n.real,
            None => default,
        }
    } else {
        default
    }
}

/// The hash that a string stands for: its hexadecimal digits, `0x` before them or not,
/// or else the hash of the name.
pub open spec fn string_hash(s: Seq<char>) -> u32 {
    match number(trimmed_start(s, "0x"@), 16, u32::MAX as nat) {
        Some(n) => n as u32,
        None => name_hash(s),
    }
}

fn hash_of_string(s: &str) -> (r: u32)
    ensures
        r == string_hash(s@),
{
    let digits = trim_start(s, "0x");
    match parse_number(digits.as_str(), 16, u32::MAX as u64) {
        Some(n) => n as u32,
        None => fnv1a_hash(s),
    }
}

/// One, in single precision.
pub const REAL_ONE: u32 = 0x3f80_0000;

/// `s` names the vector type `long`, or its short form.
pub open spec fn names(s: Seq<char>, short: Seq<char>, long: Seq<char>) -> bool {
    s == short || s == long
}

/// The conversion of a value from the type named `from` to that named `to` (both lower
/// case): `Ok(None)` where the value is not of the first type, an error where there is
/// no such conversion. `shown` is the decimal text of a single precision value.
pub open spec fn conversion(
    value: PropertyValue,
    from: Seq<char>,
    to: Seq<char>,
    append: Seq<JsonValue>,
    shown: Seq<char>,
) -> Result<Option<Val>, FactoryError> {
    if names(from, "vec2"@, "vector2"@) && names(to, "vec3"@, "vector3"@) {
        match value {
            PropertyValue::Vector2(v) => Ok(
                Some(Val::Leaf(PropertyValue::Vector3([v@[0], v@[1], appended(append, 0, 0)]))),
            ),
            _ => Ok(None),
        }
    } else if names(from, "vec3"@, "vector3"@) && names(to, "vec4"@, "vector4"@) {
        match value {
            PropertyValue::Vector3(v) => Ok(
                Some(Val::Leaf(PropertyValue::Vector4([v@[0], v@[1], v@[2], appended(append, 0, REAL_ONE)]))),
            ),
            _ => Ok(None),
        }
    } else if names(from, "vec2"@, "vector2"@) && names(to, "vec4"@, "vector4"@) {
        match value {
            PropertyValue::Vector2(v) => Ok(
                Some(
                    Val::Leaf(
                        PropertyValue::Vector4([v@[0], v@[1], appended(append, 0, 0), appended(append, 1, REAL_ONE)]),
                    ),
                ),
            ),
            _ => Ok(None),
        }
    } else if names(from, "link"@, "hash"@) && to == "string"@ {
        match value {
            PropertyValue::Link(h) => Ok(Some(Val::Text(hex(h as nat, 8)))),
            PropertyValue::Hash(h) => Ok(Some(Val::Text(hex(h as nat, 8)))),
            _ => Ok(None),
        }
    } else if from == "string"@ && names(to, "link"@, "hash"@) {
        match value {
            PropertyValue::String(s) => if to == "link"@ {
                Ok(Some(Val::Leaf(PropertyValue::Link(string_hash(s@)))))
            } else {
                Ok(Some(Val::Leaf(PropertyValue::Hash(string_hash(s@)))))
            },
            _ => Ok(None),
        }
    } else if from == "u8"@ && to == "u32"@ {
        match value {
            PropertyValue::U8(v) => Ok(Some(Val::Leaf(PropertyValue::U32(v as u32)))),
            _ => Ok(None),
        }
    } else if from == "u32"@ && to == "u8"@ {
        match value {
            PropertyValue::U32(v) => Ok(
                Some(Val::Leaf(PropertyValue::U8(if v > 255 { 255u8 } else { v as u8 }))),
            ),
            _ => Ok(None),
        }
    } else if from == "u16"@ && to == "u32"@ {
        match value {
            PropertyValue::U16(v) => Ok(Some(Val::Leaf(PropertyValue::U32(v as u32)))),
            _ => Ok(None),
        }
    } else if from == "i8"@ && to == "i32"@ {
        match value {
            PropertyValue::I8(v) => Ok(Some(Val::Leaf(PropertyValue::I32(v as i32)))),
            _ => Ok(None),
        }
    } else if from == "i16"@ && to == "i32"@ {
        match value {
            PropertyValue::I16(v) => Ok(Some(Val::Leaf(PropertyValue::I32(v as i32)))),
            _ => Ok(None),
        }
    } else if from == "f32"@ && to == "string"@ {
        match value {
            PropertyValue::F32(_) => Ok(Some(Val::Text(shown))),
            _ => Ok(None),
        }
    } else if from == "bool"@ && to == "u8"@ {
        match value {
            PropertyValue::Bool(v) => Ok(Some(Val::Leaf(PropertyValue::U8(if v { 1u8 } else { 0u8 })))),
            _ => Ok(None),
        }
    } else {
        Err(FactoryError::UnsupportedConversion)
    }
}

fn is_name(s: &str, short: &str, long: &str) -> (r: bool)
    ensures
        r == names(s@, short@, long@),
{
    same(s, short) || same(s, long)
}

/// Convert a value from one type to another (type names case-insensitive).
///
/// `append_values` are the components that a longer vector gets; `shown` is the decimal
/// text of the value, which a single precision value becomes as a string.
pub fn convert_type(
    value: &PropertyValue,
    from: &str,
    to: &str,
    append_values: &Vec<JsonValue>,
    shown: &str,
) -> (r: Result<Option<PropertyValue>, FactoryError>)
    ensures
        ({
            let c = conversion(*value, lowered(from@), lowered(to@), append_values@, shown@);
            match r {
                Ok(Some(v)) => c == Ok::<Option<Val>, FactoryError>(Some(val(v))),
                Ok(None) => c == Ok::<Option<Val>, FactoryError>(None),
                Err(e) => c == Err::<Option<Val>, FactoryError>(e),
            }
        }),
{
    let from_lower = to_lower(from);
    let to_lower = to_lower(to);
    let f = from_lower.as_str();
    let t = to_lower.as_str();
    if is_name(f, "vec2", "vector2") && is_name(t, "vec3", "vector3") {
        match value {
            PropertyValue::Vector2(v) => {
                let z = append_component(append_values, 0, 0);
                Ok(Some(PropertyValue::Vector3([v[0], v[1], z])))
            },
            _ => Ok(None),
        }
    } else if is_name(f, "vec3", "vector3") && is_name(t, "vec4", "vector4") {
        match value {
            PropertyValue::Vector3(v) => {
                let w = append_component(append_values, 0, REAL_ONE);
                Ok(Some(PropertyValue::Vector4([v[0], v[1], v[2], w])))
            },
            _ => Ok(None),
        }
    } else if is_name(f, "vec2", "vector2") && is_name(t, "vec4", "vector4") {
        match value {
            PropertyValue::Vector2(v) => {
                let z = append_component(append_values, 0, 0);
                let w = append_component(append_values, 1, REAL_ONE);
                Ok(Some(PropertyValue::Vector4([v[0], v[1], z, w])))
            },
            _ => Ok(None),
        }
    } else if is_name(f, "link", "hash") && same(t, "string") {
        match value {
            PropertyValue::Link(h) => Ok(Some(PropertyValue::String(hex_text(*h as u64, 8)))),
            PropertyValue::Hash(h) => Ok(Some(PropertyValue::String(hex_text(*h as u64, 8)))),
            _ => Ok(None),
        }
    } else if same(f, "string") && is_name(t, "link", "hash") {
        match value {
            PropertyValue::String(s) => {
                let hash = hash_of_string(s.as_str());
                if same(t, "link") {
                    Ok(Some(PropertyValue::Link(hash)))
                } else {
                    Ok(Some(PropertyValue::Hash(hash)))
                }
            },
            _ => Ok(None),
        }
    } else if same(f, "u8") && same(t, "u32") {
        match value {
            PropertyValue::U8(v) => Ok(Some(PropertyValue::U32(*v as u32))),
            _ => Ok(None),
        }
    } else if same(f, "u32") && same(t, "u8") {
        match value {
            PropertyValue::U32(v) => Ok(Some(PropertyValue::U8(if *v > 255 { 255u8 } else { *v as u8 }))),
            _ => Ok(None),
        }
    } else if same(f, "u16") && same(t, "u32") {
        match value {
            PropertyValue::U16(v) => Ok(Some(PropertyValue::U32(*v as u32))),
            _ => Ok(None),
        }
    } else if same(f, "i8") && same(t, "i32") {
        match value {
            PropertyValue::I8(v) => Ok(Some(PropertyValue::I32(*v as i32))),
            _ => Ok(None),
        }
    } else if same(f, "i16") && same(t, "i32") {
        match value {
            PropertyValue::I16(v) => Ok(Some(PropertyValue::I32(*v as i32))),
            _ => Ok(None),
        }
    } else if same(f, "f32") && same(t, "string") {
        match value {
            PropertyValue::F32(_) => Ok(Some(PropertyValue::String(shown.to_owned()))),
            _ => Ok(None),
        }
    } else if same(f, "bool") && same(t, "u8") {
        match value {
            PropertyValue::Bool(v) => Ok(Some(PropertyValue::U8(if *v { 1u8 } else { 0u8 }))),
            _ => Ok(None),
        }
    } else {
        Err(FactoryError::UnsupportedConversion)
    }
}

/// Each of the components is near the number at its place, and there are no others.
pub open spec fn components_match(bits: Seq<u32>, arr: Seq<JsonValue>) -> bool {
    arr.len() == bits.len() && forall|i: int|
        0 <= i < bits.len() ==> (match (#[trigger] arr[i]).as_number() {
            Some(n) => is_near(bits[i], n),
            None => false,
        })
}

/// Each of the channels is the integer at its place, and there are no others.
pub open spec fn channels_match(rgba: Seq<u8>, arr: Seq<JsonValue>) -> bool {
    arr.len() == rgba.len() && forall|i: int|
        0 <= i < rgba.len() ==> (#[trigger] arr[i]).as_unsigned() == Some(rgba[i] as u64)
}

/// The value is the expected one: of the same kind and equal, single precision numbers
/// up to a small difference.
pub open spec fn json_matches(value: Val, expected: JsonValue) -> bool {
    match value {
        Val::Text(s) => match expected {
            JsonValue::String(e) => s == e@,
            _ => false,
        },
        Val::Leaf(PropertyValue::Bool(v)) => match expected {
            JsonValue::Bool(e) => v == e,
            _ => false,
        },
        Val::Leaf(PropertyValue::U8(v)) => expected.as_unsigned() == Some(v as u64),
        Val::Leaf(PropertyValue::I8(v)) => expected.as_signed() == Some(v as i64),
        Val::Leaf(PropertyValue::U16(v)) => expected.as_unsigned() == Some(v as u64),
        Val::Leaf(PropertyValue::I16(v)) => expected.as_signed() == Some(v as i64),
        Val::Leaf(PropertyValue::U32(v)) => expected.as_unsigned() == Some(v as u64),
        Val::Leaf(PropertyValue::I32(v)) => expected.as_signed() == Some(v as i64),
        Val::Leaf(PropertyValue::U64(v)) => expected.as_unsigned() == Some(v),
        Val::Leaf(PropertyValue::I64(v)) => expected.as_signed() == Some(v),
        Val::Leaf(PropertyValue::F32(v)) => match expected.as_number() {
            Some(n) => is_near(v, n),
            None => false,
        },
        Val::Leaf(PropertyValue::Hash(v)) => expected.as_unsigned() == Some(v as u64),
        Val::Leaf(PropertyValue::Link(v)) => expected.as_unsigned() == Some(v as u64),
        Val::Leaf(PropertyValue::WadHash(v)) => expected.as_unsigned() == Some(v),
        Val::Leaf(PropertyValue::Vector2(v)) => match expected.as_elements() {
            Some(arr) => components_match(v@, arr),
            None => false,
        },
        Val::Leaf(PropertyValue::Vector3(v)) => match expected.as_elements() {
            Some(arr) => components_match(v@, arr),
            None => false,
        },
        Val::Leaf(PropertyValue::Vector4(v)) => match expected.as_elements() {
            Some(arr) => components_match(v@, arr),
            None => false,
        },
        Val::Leaf(PropertyValue::Color(v)) => match expected.as_elements() {
            Some(arr) => channels_match(v@, arr),
            None => false,
        },
        _ => false,
    }
}

fn match_unsigned(v: u64, expected: &JsonValue) -> (r: bool)
    ensures
        r == (expected.as_unsigned() == Some(v)),
{
    match expected.unsigned() {
        Some(e) => v == e,
        None => false,
    }
}

fn match_signed(v: i64, expected: &JsonValue) -> (r: bool)
    ensures
        r == (expected.as_signed() == Some(v)),
{
    match expected.signed() {
        Some(e) => v == e,
        None => false,
    }
}

fn match_component(bits: u32, e: &JsonValue) -> (r: bool)
    ensures
        r == (match e.as_number() {
            Some(n) => is_near(bits, n),
            None => false,
        }),
{
    match e.number() {
        Some(n) => near(bits, &n),
        None => false,
    }
}

/// Check if a property value matches a JSON expected value.
pub fn matches_json(value: &PropertyValue, expected: &JsonValue) -> (r: bool)
    ensures
        r == json_matches(val(*value), *expected),
{
    match value {
        PropertyValue::Bool(v) => match expected {
            JsonValue::Bool(e) => *v == *e,
            _ => false,
        },
        PropertyValue::U8(v) => match_unsigned(*v as u64, expected),
        PropertyValue::I8(v) => match_signed(*v as i64, expected),
        PropertyValue::U16(v) => match_unsigned(*v as u64, expected),
        PropertyValue::I16(v) => match_signed(*v as i64, expected),
        PropertyValue::U32(v) => match_unsigned(*v as u64, expected),
        PropertyValue::I32(v) => match_signed(*v as i64, expected),
        PropertyValue::U64(v) => match_unsigned(*v, expected),
        PropertyValue::I64(v) => match_signed(*v, expected),
        PropertyValue::F32(v) => match_component(*v, expected),
        PropertyValue::String(v) => match expected {
            JsonValue::String(e) => same(v.as_str(), e.as_str()),
            _ => false,
        },
        PropertyValue::Hash(v) => match_unsigned(*v as u64, expected),
        PropertyValue::Link(v) => match_unsigned(*v as u64, expected),
        PropertyValue::WadHash(v) => match_unsigned(*v, expected),
        PropertyValue::Vector2(v) => match expected {
            JsonValue::Array(arr) => {
                arr.len() == 2 && match_component(v[0], &arr[0]) && match_component(v[1], &arr[1])
            },
            _ => false,
        },
        PropertyValue::Vector3(v) => match expected {
            JsonValue::Array(arr) => {
                arr.len() == 3 && match_component(v[0], &arr[0]) && match_component(v[1], &arr[1]) && match_component(
                    v[2],
                    &arr[2],
                )
            },
            _ => false,
        },
        PropertyValue::Vector4(v) => match expected {
            JsonValue::Array(arr) => {
                arr.len() == 4 && match_component(v[0], &arr[0]) && match_component(v[1], &arr[1]) && match_component(
                    v[2],
                    &arr[2],
                ) && match_component(v[3], &arr[3])
            },
            _ => false,
        },
        PropertyValue::Color(v) => match expected {
            JsonValue::Array(arr) => {
                arr.len() == 4 && match_unsigned(v[0] as u64, &arr[0]) && match_unsigned(v[1] as u64, &arr[1])
                    && match_unsigned(v[2] as u64, &arr[2]) && match_unsigned(v[3] as u64, &arr[3])
            },
            _ => false,
        },
        _ => false,
    }
}

/// The JSON value fits a whole number of a kind: an unsigned one below a bound.
pub open spec fn fits_unsigned(v: JsonValue, bound: nat) -> bool {
    match v {
        JsonValue::Number(n) => n.unsigned is Some && n.unsigned->0 < bound,
        _ => false,
    }
}

/// The JSON value fits a whole number of a kind: a signed one within the bounds.
pub open spec fn fits_signed(v: JsonValue, bound: nat) -> bool {
    match v {
        JsonValue::Number(n) => n.signed is Some && -bound <= n.signed->0 < bound,
        _ => false,
    }
}

/// What is made of a JSON value matches that value again, for every whole number that fits
/// the type, every truth value and every text.
pub proof fn law_made_values_match_their_source(v: JsonValue)
    ensures
        v is Bool ==> value_of_json(v, "bool"@) is Ok && json_matches(value_of_json(v, "bool"@)->Ok_0, v),
        v is String ==> value_of_json(v, "string"@) is Ok && json_matches(value_of_json(v, "string"@)->Ok_0, v),
        fits_unsigned(v, 0x100) ==> value_of_json(v, "u8"@) is Ok && json_matches(value_of_json(v, "u8"@)->Ok_0, v),
        fits_signed(v, 0x80) ==> value_of_json(v, "i8"@) is Ok && json_matches(value_of_json(v, "i8"@)->Ok_0, v),
        fits_unsigned(v, 0x1_0000) ==> value_of_json(v, "u16"@) is Ok && json_matches(value_of_json(v, "u16"@)->Ok_0, v),
        fits_signed(v, 0x8000) ==> value_of_json(v, "i16"@) is Ok && json_matches(value_of_json(v, "i16"@)->Ok_0, v),
        fits_unsigned(v, 0x1_0000_0000) ==> value_of_json(v, "u32"@) is Ok && json_matches(value_of_json(v, "u32"@)->Ok_0, v),
        fits_signed(v, 0x8000_0000) ==> value_of_json(v, "i32"@) is Ok && json_matches(value_of_json(v, "i32"@)->Ok_0, v),
        v.as_unsigned() is Some ==> value_of_json(v, "u64"@) is Ok && json_matches(value_of_json(v, "u64"@)->Ok_0, v),
        v.as_signed() is Some ==> value_of_json(v, "i64"@) is Ok && json_matches(value_of_json(v, "i64"@)->Ok_0, v),
        fits_unsigned(v, 0x1_0000_0000) ==> value_of_json(v, "hash"@) is Ok && json_matches(value_of_json(v, "hash"@)->Ok_0, v),
        fits_unsigned(v, 0x1_0000_0000) ==> value_of_json(v, "link"@) is Ok && json_matches(value_of_json(v, "link"@)->Ok_0, v),
        v matches JsonValue::Number(n) ==> (is_near(n.real, n) ==> value_of_json(v, "f32"@) is Ok && json_matches(
            value_of_json(v, "f32"@)->Ok_0,
            v,
        )),
{
    reveal_strlit("bool");
    reveal_strlit("u8");
    reveal_strlit("i8");
    reveal_strlit("u16");
    reveal_strlit("i16");
    reveal_strlit("u32");
    reveal_strlit("i32");
    reveal_strlit("u64");
    reveal_strlit("i64");
    reveal_strlit("f32");
    reveal_strlit("vector2");
    reveal_strlit("vec2");
    reveal_strlit("vector3");
    reveal_strlit("vec3");
    reveal_strlit("vector4");
    reveal_strlit("vec4");
    reveal_strlit("string");
    reveal_strlit("hash");
    reveal_strlit("link");
    reveal_strlit("color");
    assert("bool"@[0] == 'b' && "bool"@[1] == 'o');
    assert("hash"@[0] == 'h' && "link"@[0] == 'l' && "color"@[0] == 'c' && "string"@[0] == 's');
    assert("u16"@[1] == '1' && "u32"@[1] == '3' && "u64"@[1] == '6' && "u8"@[1] == '8');
    assert("i16"@[1] == '1' && "i32"@[1] == '3' && "i64"@[1] == '6' && "i8"@[1] == '8');
    assert("u16"@[0] == 'u' && "u32"@[0] == 'u' && "u64"@[0] == 'u' && "u8"@[0] == 'u');
    assert("i16"@[0] == 'i' && "i32"@[0] == 'i' && "i64"@[0] == 'i' && "i8"@[0] == 'i');
    assert("f32"@[0] == 'f');
    assert("vec2"@[3] == '2' && "vec3"@[3] == '3' && "vec4"@[3] == '4' && "vec2"@[0] == 'v' && "vec3"@[0] == 'v' && "vec4"@[0] == 'v');
    assert("vector2"@[6] == '2' && "vector3"@[6] == '3' && "vector4"@[6] == '4');
}

proof fn lemma_all_numbers(arr: Seq<JsonValue>, i: nat)
    requires
        i <= arr.len(),
        forall|k: int| i <= k < arr.len() ==> (#[trigger] arr[k]) is Number,
    ensures
        first_non_number(arr, i) == arr.len(),
    decreases arr.len() - i,
{
    if i < arr.len() {
        assert(arr[i as int] is Number);
        lemma_all_numbers(arr, i + 1);
    }
}

/// The JSON value is a list of this many numbers, each of which counts as its own real.
pub open spec fn is_vector(v: JsonValue, n: nat) -> bool {
    match v {
        JsonValue::Array(arr) => arr@.len() == n && forall|k: int|
            0 <= k < n ==> (#[trigger] arr@[k]) is Number && is_near(arr@[k]->Number_0.real, arr@[k]->Number_0),
        _ => false,
    }
}

/// A vector that is made of a list of numbers matches the list again.
pub proof fn law_made_vectors_match_their_source(v: JsonValue)
    ensures
        is_vector(v, 2) ==> value_of_json(v, "vec2"@) is Ok && json_matches(value_of_json(v, "vec2"@)->Ok_0, v),
        is_vector(v, 3) ==> value_of_json(v, "vec3"@) is Ok && json_matches(value_of_json(v, "vec3"@)->Ok_0, v),
        is_vector(v, 4) ==> value_of_json(v, "vec4"@) is Ok && json_matches(value_of_json(v, "vec4"@)->Ok_0, v),
        is_vector(v, 2) ==> value_of_json(v, "vector2"@) is Ok && json_matches(value_of_json(v, "vector2"@)->Ok_0, v),
        is_vector(v, 3) ==> value_of_json(v, "vector3"@) is Ok && json_matches(value_of_json(v, "vector3"@)->Ok_0, v),
        is_vector(v, 4) ==> value_of_json(v, "vector4"@) is Ok && json_matches(value_of_json(v, "vector4"@)->Ok_0, v),
{
    reveal_strlit("bool");
    reveal_strlit("u8");
    reveal_strlit("i8");
    reveal_strlit("u16");
    reveal_strlit("i16");
    reveal_strlit("u32");
    reveal_strlit("i32");
    reveal_strlit("u64");
    reveal_strlit("i64");
    reveal_strlit("f32");
    reveal_strlit("vector2");
    reveal_strlit("vec2");
    reveal_strlit("vector3");
    reveal_strlit("vec3");
    reveal_strlit("vector4");
    reveal_strlit("vec4");
    assert("bool"@[0] == 'b');
    assert("vec2"@[3] == '2' && "vec3"@[3] == '3' && "vec4"@[3] == '4' && "vec2"@[0] == 'v' && "vec3"@[0] == 'v' && "vec4"@[0] == 'v');
    assert("vector2"@[6] == '2' && "vector3"@[6] == '3' && "vector4"@[6] == '4');
    assert("vector2"@.len() == 7 && "vector3"@.len() == 7 && "vector4"@.len() == 7);
    assert("bool"@.len() == 4 && "u8"@.len() == 2 && "i8"@.len() == 2 && "u16"@.len() == 3 && "i16"@.len() == 3);
    assert("u32"@.len() == 3 && "i32"@.len() == 3 && "u64"@.len() == 3 && "i64"@.len() == 3 && "f32"@.len() == 3);
    assert("vec2"@.len() == 4 && "vec3"@.len() == 4 && "vec4"@.len() == 4);
    if let JsonValue::Array(arr) = v {
        if is_vector(v, 2) || is_vector(v, 3) || is_vector(v, 4) {
            lemma_all_numbers(arr@, 0);
        }
    }
}

/// Vectors grow by the appended numbers, or by nothing and by one where there are none; the
/// components that they have stay.
pub proof fn law_vectors_keep_their_components(a: [u32; 2], b: [u32; 3], append: Seq<JsonValue>, shown: Seq<char>, z: u32, w: u32)
    requires
        z == (if append.len() > 0 && append[0] is Number { append[0]->Number_0.real } else { 0 }),
        w == (if append.len() > 1 && append[1] is Number { append[1]->Number_0.real } else { REAL_ONE }),
    ensures
        conversion(PropertyValue::Vector2(a), "vec2"@, "vec3"@, append, shown) == Ok::<Option<Val>, FactoryError>(
            Some(Val::Leaf(PropertyValue::Vector3([a@[0], a@[1], z]))),
        ),
        conversion(PropertyValue::Vector2(a), "vec2"@, "vec4"@, append, shown) == Ok::<Option<Val>, FactoryError>(
            Some(Val::Leaf(PropertyValue::Vector4([a@[0], a@[1], z, w]))),
        ),
        append.len() == 0 ==> conversion(PropertyValue::Vector3(b), "vec3"@, "vec4"@, append, shown) == Ok::<Option<Val>, FactoryError>(
            Some(Val::Leaf(PropertyValue::Vector4([b@[0], b@[1], b@[2], REAL_ONE]))),
        ),
        append.len() > 0 && append[0] is Number ==> conversion(PropertyValue::Vector3(b), "vec3"@, "vec4"@, append, shown) == Ok::<
            Option<Val>,
            FactoryError,
        >(Some(Val::Leaf(PropertyValue::Vector4([b@[0], b@[1], b@[2], z])))),
{
    reveal_strlit("u8");
    reveal_strlit("u16");
    reveal_strlit("u32");
    reveal_strlit("i8");
    reveal_strlit("i16");
    reveal_strlit("i32");
    reveal_strlit("f32");
    reveal_strlit("vec2");
    reveal_strlit("vector2");
    reveal_strlit("vec3");
    reveal_strlit("vector3");
    reveal_strlit("vec4");
    reveal_strlit("vector4");
    reveal_strlit("link");
    reveal_strlit("hash");
    reveal_strlit("string");
    reveal_strlit("bool");
    assert("vec2"@[3] == '2' && "vec3"@[3] == '3' && "vec4"@[3] == '4');
}

/// A whole number keeps its value in a wider type, and comes back from it; one that a
/// narrower type cannot hold becomes the largest that it can.
pub proof fn law_numbers_keep_their_value(a: u8, b: u16, c: u32, d: i8, e: i16, t: bool, append: Seq<JsonValue>, shown: Seq<char>)
    ensures
        conversion(PropertyValue::U8(a), "u8"@, "u32"@, append, shown) == Ok::<Option<Val>, FactoryError>(
            Some(Val::Leaf(PropertyValue::U32(a as u32))),
        ),
        conversion(PropertyValue::U32(a as u32), "u32"@, "u8"@, append, shown) == Ok::<Option<Val>, FactoryError>(
            Some(Val::Leaf(PropertyValue::U8(a))),
        ),
        c > 255 ==> conversion(PropertyValue::U32(c), "u32"@, "u8"@, append, shown) == Ok::<Option<Val>, FactoryError>(
            Some(Val::Leaf(PropertyValue::U8(255))),
        ),
        conversion(PropertyValue::U16(b), "u16"@, "u32"@, append, shown) == Ok::<Option<Val>, FactoryError>(
            Some(Val::Leaf(PropertyValue::U32(b as u32))),
        ),
        conversion(PropertyValue::I8(d), "i8"@, "i32"@, append, shown) == Ok::<Option<Val>, FactoryError>(
            Some(Val::Leaf(PropertyValue::I32(d as i32))),
        ),
        conversion(PropertyValue::I16(e), "i16"@, "i32"@, append, shown) == Ok::<Option<Val>, FactoryError>(
            Some(Val::Leaf(PropertyValue::I32(e as i32))),
        ),
        conversion(PropertyValue::Bool(t), "bool"@, "u8"@, append, shown) == Ok::<Option<Val>, FactoryError>(
            Some(Val::Leaf(PropertyValue::U8(if t { 1 } else { 0 }))),
        ),
        conversion(PropertyValue::F32(c), "f32"@, "string"@, append, shown) == Ok::<Option<Val>, FactoryError>(Some(Val::Text(shown))),
{
    reveal_strlit("u8");
    reveal_strlit("u16");
    reveal_strlit("u32");
    reveal_strlit("i8");
    reveal_strlit("i16");
    reveal_strlit("i32");
    reveal_strlit("f32");
    reveal_strlit("vec2");
    reveal_strlit("vector2");
    reveal_strlit("vec3");
    reveal_strlit("vector3");
    reveal_strlit("vec4");
    reveal_strlit("vector4");
    reveal_strlit("link");
    reveal_strlit("hash");
    reveal_strlit("string");
    reveal_strlit("bool");
    assert("u8"@[0] == 'u' && "u16"@[1] == '1' && "u32"@[1] == '3' && "u16"@[0] == 'u' && "u32"@[0] == 'u');
    assert("i8"@[0] == 'i' && "i16"@[1] == '1' && "i32"@[1] == '3' && "i16"@[0] == 'i' && "i32"@[0] == 'i');
    assert("f32"@[0] == 'f' && "bool"@[0] == 'b' && "link"@[0] == 'l' && "hash"@[0] == 'h' && "vec2"@[0] == 'v' && "vec3"@[0] == 'v');
}

/// A text becomes the link or the hash that it writes in hexadecimal, and the hash of itself
/// where it writes none; links and hashes are written out alike.
pub proof fn law_texts_become_hashes(s: String, h: u32, append: Seq<JsonValue>, shown: Seq<char>)
    ensures
        ({
            let to_hash = conversion(PropertyValue::String(s), "string"@, "hash"@, append, shown);
            let to_link = conversion(PropertyValue::String(s), "string"@, "link"@, append, shown);
            match number(trimmed_start(s@, "0x"@), 16, u32::MAX as nat) {
                Some(n) => to_hash == Ok::<Option<Val>, FactoryError>(Some(Val::Leaf(PropertyValue::Hash(n as u32)))) && to_link == Ok::<
                    Option<Val>,
                    FactoryError,
                >(Some(Val::Leaf(PropertyValue::Link(n as u32)))),
                None => to_hash == Ok::<Option<Val>, FactoryError>(Some(Val::Leaf(PropertyValue::Hash(name_hash(s@))))) && to_link == Ok::<
                    Option<Val>,
                    FactoryError,
                >(Some(Val::Leaf(PropertyValue::Link(name_hash(s@))))),
            }
        }),
        conversion(PropertyValue::Link(h), "link"@, "string"@, append, shown) == conversion(
            PropertyValue::Hash(h),
            "hash"@,
            "string"@,
            append,
            shown,
        ),
        conversion(PropertyValue::Link(h), "link"@, "string"@, append, shown) == Ok::<Option<Val>, FactoryError>(
            Some(Val::Text(hex(h as nat, 8))),
        ),
{
    reveal_strlit("u8");
    reveal_strlit("u16");
    reveal_strlit("u32");
    reveal_strlit("i8");
    reveal_strlit("i16");
    reveal_strlit("i32");
    reveal_strlit("f32");
    reveal_strlit("vec2");
    reveal_strlit("vector2");
    reveal_strlit("vec3");
    reveal_strlit("vector3");
    reveal_strlit("vec4");
    reveal_strlit("vector4");
    reveal_strlit("link");
    reveal_strlit("hash");
    reveal_strlit("string");
    reveal_strlit("bool");
    assert("link"@[0] == 'l' && "hash"@[0] == 'h' && "string"@[0] == 's' && "vec2"@[0] == 'v' && "vec3"@[0] == 'v' && "vector2"@[0]
        == 'v' && "vector3"@[0] == 'v');
}

/// Two values of a kind of whole number that match one JSON value are equal.
pub proof fn law_matching_is_by_value(a: Val, b: Val, e: JsonValue)
    requires
        json_matches(a, e),
        json_matches(b, e),
    ensures
        a matches Val::Text(_) ==> a == b,
        a matches Val::Leaf(PropertyValue::Bool(_)) ==> a == b,
        a matches Val::Leaf(PropertyValue::U32(x)) ==> (b matches Val::Leaf(PropertyValue::U32(y)) ==> x == y),
        a matches Val::Leaf(PropertyValue::I32(x)) ==> (b matches Val::Leaf(PropertyValue::I32(y)) ==> x == y),
        a matches Val::Leaf(PropertyValue::U64(x)) ==> (b matches Val::Leaf(PropertyValue::U64(y)) ==> x == y),
        a matches Val::Leaf(PropertyValue::Hash(x)) ==> (b matches Val::Leaf(PropertyValue::Hash(y)) ==> x == y),
        a matches Val::Leaf(PropertyValue::Link(x)) ==> (b matches Val::Leaf(PropertyValue::Link(y)) ==> x == y),
        a matches Val::Leaf(PropertyValue::WadHash(x)) ==> (b matches Val::Leaf(PropertyValue::WadHash(y)) ==> x == y),
        a matches Val::Leaf(PropertyValue::U8(x)) ==> (b matches Val::Leaf(PropertyValue::U8(y)) ==> x == y),
{
}

} // verus!
