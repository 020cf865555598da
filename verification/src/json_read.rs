//! Reading messages from their JSON form.
//!
//! The JSON reader hands over a tree of values. Where a number must become a
//! floating-point value the reader has made that conversion too, since it
//! needs floating point: each number carries its `f32` and `f64` bits and,
//! for a fraction, its integer parts, and each string the float it reads as.
use vstd::prelude::*;
use vstd::string::StringSliceAdditionalSpecFns;
use crate::base::{
    Object, ObjectView, SlotView, spec_set_scalar, spec_set_bytes, spec_set_child, with_slot,
    slot_scalar, slot_repeated, slot_repeated_bytes, slot_repeated_message,
};
use crate::tables::Table;
use crate::descriptor::{FieldType, FieldView, FieldDescriptorProto};
use crate::decoding::{spec_entry_offset, spec_entry_has_bit, spec_new_object};
use crate::reflection::{spec_is_message, spec_is_repeated, is_message, is_repeated};
use crate::decoding::TableEntry;
use crate::wellknown::{
    WellKnownType, spec_well_known, detect_well_known_type, validate_timestamp, validate_duration,
    spec_validate_timestamp, spec_validate_duration, spec_parse_i64,
    spec_parse_i32, spec_all_digits, spec_digits_value, parse_magnitude, parse_i32, parse_i64,
};
use crate::json::{JsonError, spec_fields_have_entries};

verus! {

/// A JSON number as the reader found it: a non-negative integer, a negative
/// integer, or a fraction (by its `f64` bits).
#[derive(Clone, Copy, Debug)]
pub enum NumberValue {
    PosInt(u64),
    NegInt(i64),
    Float(u64),
}

/// A JSON number with the conversions that need floating point: the number
/// as `f32` and as `f64` (bits), and a fraction cut to `i32` and to `u32`.
#[derive(Clone, Copy, Debug)]
pub struct JsonNumber {
    pub value: NumberValue,
    pub to_f32: u32,
    pub to_f64: u64,
    pub trunc_i32: i32,
    pub trunc_u32: u32,
}

/// A JSON string (its UTF-8 bytes) with the `f32` and `f64` it reads as,
/// where it reads as one.
#[derive(Debug)]
pub struct JsonText {
    pub text: Vec<u8>,
    pub parsed_f32: Option<u32>,
    pub parsed_f64: Option<u64>,
}

/// A JSON string as mathematical values.
pub struct JsonTextView {
    pub text: Seq<u8>,
    pub parsed_f32: Option<u32>,
    pub parsed_f64: Option<u64>,
}

/// A JSON value as the reader hands it over; object members keep their order
/// and repeats.
#[derive(Debug)]
pub enum JsonInput {
    Null,
    Bool(bool),
    Number(JsonNumber),
    String(JsonText),
    Array(Vec<JsonInput>),
    Object(Vec<(Vec<u8>, JsonInput)>),
}

/// A JSON input value as mathematical values.
pub enum JsonInputView {
    Null,
    Bool(bool),
    Number(JsonNumber),
    String(JsonTextView),
    Array(Seq<JsonInputView>),
    Object(Seq<(Seq<u8>, JsonInputView)>),
}

pub open spec fn text_view(t: JsonText) -> JsonTextView {
    JsonTextView { text: t.text@, parsed_f32: t.parsed_f32, parsed_f64: t.parsed_f64 }
}

pub open spec fn input_view(j: JsonInput) -> JsonInputView
    decreases j,
{
    match j {
        JsonInput::Null => JsonInputView::Null,
        JsonInput::Bool(b) => JsonInputView::Bool(b),
        JsonInput::Number(n) => JsonInputView::Number(n),
        JsonInput::String(t) => JsonInputView::String(text_view(t)),
        JsonInput::Array(v) => JsonInputView::Array(
            Seq::new(
                v@.len(),
                |i: int|
                    if 0 <= i < v@.len() {
                        proof {
                            assert(decreases_to!(v => v@));
                            assert(decreases_to!(v@ => v@[i]));
                        }
                        input_view(v@[i])
                    } else {
                        JsonInputView::Null
                    },
            ),
        ),
        JsonInput::Object(v) => JsonInputView::Object(
            Seq::new(
                v@.len(),
                |i: int|
                    if 0 <= i < v@.len() {
                        proof {
                            assert(decreases_to!(v => v@));
                            assert(decreases_to!(v@ => v@[i]));
                            assert(decreases_to!(v@[i] => v@[i].1));
                        }
                        (v@[i].0@, input_view(v@[i].1))
                    } else {
                        (Seq::empty(), JsonInputView::Null)
                    },
            ),
        ),
    }
}

impl View for JsonInput {
    type V = JsonInputView;

    open spec fn view(&self) -> JsonInputView {
        input_view(*self)
    }
}

// ----- scalars -----

/// An unsigned integer up to `limit` written in decimal, with an optional `+`
/// before its digits.
pub open spec fn spec_parse_uint(b: Seq<u8>, limit: nat) -> Option<nat> {
    if b.len() == 0 {
        None
    } else {
        let digits = if b[0] == 43u8 {
            b.drop_first()
        } else {
            b
        };
        if digits.len() == 0 || !spec_all_digits(digits) || spec_digits_value(digits) > limit {
            None
        } else {
            Some(spec_digits_value(digits))
        }
    }
}

/// The field types kept in 32 bits as signed integers.
pub open spec fn spec_is_i32_type(t: FieldType) -> bool {
    t == FieldType::Int32 || t == FieldType::Sint32 || t == FieldType::Sfixed32 || t == FieldType::Enum
}

/// The field types kept in 64 bits as signed integers.
pub open spec fn spec_is_i64_type(t: FieldType) -> bool {
    t == FieldType::Int64 || t == FieldType::Sint64 || t == FieldType::Sfixed64
}

/// The field types kept in 32 bits as unsigned integers.
pub open spec fn spec_is_u32_type(t: FieldType) -> bool {
    t == FieldType::Uint32 || t == FieldType::Fixed32
}

/// The field types kept in 64 bits as unsigned integers.
pub open spec fn spec_is_u64_type(t: FieldType) -> bool {
    t == FieldType::Uint64 || t == FieldType::Fixed64
}

/// The raw bits that an `i32` is kept as.
pub open spec fn spec_i32_raw(x: i32) -> u64 {
    (x as u32) as u64
}

/// The raw bits of a scalar of type `t` read strictly: a boolean from `true`
/// or `false`; an integer from an integer that fits; a float from any number.
pub open spec fn spec_strict_raw(t: FieldType, v: JsonInputView) -> Result<u64, JsonError> {
    if t == FieldType::Bool {
        match v {
            JsonInputView::Bool(b) => Ok(if b { 1u64 } else { 0u64 }),
            _ => Err(JsonError::InvalidType),
        }
    } else {
        match v {
            JsonInputView::Number(n) => if t == FieldType::Float {
                Ok(n.to_f32 as u64)
            } else if t == FieldType::Double {
                Ok(n.to_f64)
            } else {
                match n.value {
                    NumberValue::Float(_) => Err(JsonError::InvalidType),
                    NumberValue::PosInt(u) => if spec_is_i32_type(t) {
                        if u <= i32::MAX { Ok(spec_i32_raw(u as i32)) } else { Err(JsonError::OutOfRange) }
                    } else if spec_is_i64_type(t) {
                        if u <= i64::MAX { Ok(u) } else { Err(JsonError::OutOfRange) }
                    } else if spec_is_u32_type(t) {
                        if u <= u32::MAX { Ok(u) } else { Err(JsonError::OutOfRange) }
                    } else if spec_is_u64_type(t) {
                        Ok(u)
                    } else {
                        Err(JsonError::InvalidType)
                    },
                    NumberValue::NegInt(i) => if spec_is_i32_type(t) {
                        if i >= i32::MIN { Ok(spec_i32_raw(i as i32)) } else { Err(JsonError::OutOfRange) }
                    } else if spec_is_i64_type(t) {
                        Ok(i as u64)
                    } else if spec_is_u32_type(t) || spec_is_u64_type(t) {
                        Err(JsonError::OutOfRange)
                    } else {
                        Err(JsonError::InvalidType)
                    },
                }
            },
            _ => Err(JsonError::InvalidType),
        }
    }
}

/// The bits of the special float strings: `NaN`, `Infinity`, `-Infinity`.
pub open spec fn spec_special_f32(s: Seq<u8>) -> Option<u32> {
    if s == "NaN".spec_bytes() {
        Some(0x7fc0_0000u32)
    } else if s == "Infinity".spec_bytes() {
        Some(0x7f80_0000u32)
    } else if s == "-Infinity".spec_bytes() {
        Some(0xff80_0000u32)
    } else {
        None
    }
}

pub open spec fn spec_special_f64(s: Seq<u8>) -> Option<u64> {
    if s == "NaN".spec_bytes() {
        Some(0x7ff8_0000_0000_0000u64)
    } else if s == "Infinity".spec_bytes() {
        Some(0x7ff0_0000_0000_0000u64)
    } else if s == "-Infinity".spec_bytes() {
        Some(0xfff0_0000_0000_0000u64)
    } else {
        None
    }
}

/// The raw bits of a singular scalar field of type `t`: booleans strictly;
/// integers from any integer (cut to the field's width), from a fraction
/// (32-bit fields only, cut toward zero) or from a decimal string; floats from
/// any number, from `NaN`, `Infinity`, `-Infinity`, or from a string that
/// reads as one.
pub open spec fn spec_flexible_raw(t: FieldType, v: JsonInputView) -> Result<u64, JsonError> {
    if t == FieldType::Bool {
        spec_strict_raw(t, v)
    } else {
        match v {
            JsonInputView::Number(n) => if t == FieldType::Float {
                Ok(n.to_f32 as u64)
            } else if t == FieldType::Double {
                Ok(n.to_f64)
            } else {
                match n.value {
                    NumberValue::PosInt(u) => if spec_is_i32_type(t) {
                        Ok(spec_i32_raw(u as i32))
                    } else if spec_is_u32_type(t) {
                        Ok((u as u32) as u64)
                    } else if spec_is_i64_type(t) || spec_is_u64_type(t) {
                        Ok(u)
                    } else {
                        Err(JsonError::InvalidType)
                    },
                    NumberValue::NegInt(i) => if spec_is_i32_type(t) {
                        Ok(spec_i32_raw(i as i32))
                    } else if spec_is_u32_type(t) {
                        Ok((i as u32) as u64)
                    } else if spec_is_i64_type(t) || spec_is_u64_type(t) {
                        Ok(i as u64)
                    } else {
                        Err(JsonError::InvalidType)
                    },
                    NumberValue::Float(_) => if spec_is_i32_type(t) {
                        Ok(spec_i32_raw(n.trunc_i32))
                    } else if spec_is_u32_type(t) {
                        Ok(n.trunc_u32 as u64)
                    } else {
                        Err(JsonError::InvalidType)
                    },
                }
            },
            JsonInputView::String(s) => if t == FieldType::Float {
                match spec_special_f32(s.text) {
                    Some(b) => Ok(b as u64),
                    None => match s.parsed_f32 {
                        Some(b) => Ok(b as u64),
                        None => Err(JsonError::InvalidNumber),
                    },
                }
            } else if t == FieldType::Double {
                match spec_special_f64(s.text) {
                    Some(b) => Ok(b),
                    None => match s.parsed_f64 {
                        Some(b) => Ok(b),
                        None => Err(JsonError::InvalidNumber),
                    },
                }
            } else if spec_is_i32_type(t) {
                match spec_parse_i32(s.text) {
                    Some(x) => Ok(spec_i32_raw(x as i32)),
                    None => Err(JsonError::InvalidNumber),
                }
            } else if spec_is_i64_type(t) {
                match spec_parse_i64(s.text) {
                    Some(x) => Ok((x as i64) as u64),
                    None => Err(JsonError::InvalidNumber),
                }
            } else if spec_is_u32_type(t) {
                match spec_parse_uint(s.text, u32::MAX as nat) {
                    Some(x) => Ok(x as u64),
                    None => Err(JsonError::InvalidNumber),
                }
            } else if spec_is_u64_type(t) {
                match spec_parse_uint(s.text, u64::MAX as nat) {
                    Some(x) => Ok(x as u64),
                    None => Err(JsonError::InvalidNumber),
                }
            } else {
                Err(JsonError::InvalidType)
            },
            _ => Err(JsonError::InvalidType),
        }
    }
}

/// The bytes that a standard base64 text (with padding) decodes to; `None`
/// where it is not one.
pub uninterp spec fn spec_base64_decode(text: Seq<u8>) -> Option<Seq<u8>>;

/// Decodes `text` with `base64::engine::general_purpose::STANDARD` (padded
/// standard alphabet); what it gives is named, not stated.
#[verifier::external_body]
fn base64_decode(text: &[u8]) -> (r: Option<Vec<u8>>)
    ensures
        match r {
            Some(b) => spec_base64_decode(text@) == Some(b@),
            None => spec_base64_decode(text@) is None,
        },
{
    match base64::engine::Engine::decode(&base64::engine::general_purpose::STANDARD, text) {
        Ok(b) => Some(b),
        Err(_) => None,
    }
}

/// The bytes of a JSON array of numbers from 0 to 255, first `k` items.
pub open spec fn spec_u8_items(items: Seq<JsonInputView>, k: int) -> Result<Seq<u8>, JsonError>
    decreases k,
{
    if k <= 0 {
        Ok(Seq::empty())
    } else {
        match spec_u8_items(items, k - 1) {
            Err(e) => Err(e),
            Ok(prev) => match items[k - 1] {
                JsonInputView::Number(n) => match n.value {
                    NumberValue::PosInt(u) => if u <= 255 {
                        Ok(prev.push(u as u8))
                    } else {
                        Err(JsonError::OutOfRange)
                    },
                    NumberValue::NegInt(_) => Err(JsonError::OutOfRange),
                    NumberValue::Float(_) => Err(JsonError::InvalidType),
                },
                _ => Err(JsonError::InvalidType),
            },
        }
    }
}

/// The bytes of a bytes value: a base64 string or an array of byte values.
pub open spec fn spec_bytes_value(v: JsonInputView) -> Result<Seq<u8>, JsonError> {
    match v {
        JsonInputView::String(s) => match spec_base64_decode(s.text) {
            Some(b) => Ok(b),
            None => Err(JsonError::InvalidBase64),
        },
        JsonInputView::Array(items) => spec_u8_items(items, items.len() as int),
        _ => Err(JsonError::InvalidType),
    }
}

/// The bytes of a string or bytes value of type `t`, read strictly.
pub open spec fn spec_text_value(t: FieldType, v: JsonInputView) -> Result<Seq<u8>, JsonError> {
    if t == FieldType::Bytes {
        spec_bytes_value(v)
    } else {
        match v {
            JsonInputView::String(s) => Ok(s.text),
            _ => Err(JsonError::InvalidType),
        }
    }
}

/// The raw bits of the first `k` items, read strictly as type `t`.
pub open spec fn spec_strict_raws(t: FieldType, items: Seq<JsonInputView>, k: int) -> Result<Seq<u64>, JsonError>
    decreases k,
{
    if k <= 0 {
        Ok(Seq::empty())
    } else {
        match spec_strict_raws(t, items, k - 1) {
            Err(e) => Err(e),
            Ok(prev) => match spec_strict_raw(t, items[k - 1]) {
                Err(e) => Err(e),
                Ok(x) => Ok(prev.push(x)),
            },
        }
    }
}

/// The bytes of the first `k` items, read as strings or bytes of type `t`.
pub open spec fn spec_text_values(t: FieldType, items: Seq<JsonInputView>, k: int) -> Result<Seq<Seq<u8>>, JsonError>
    decreases k,
{
    if k <= 0 {
        Ok(Seq::empty())
    } else {
        match spec_text_values(t, items, k - 1) {
            Err(e) => Err(e),
            Ok(prev) => match spec_text_value(t, items[k - 1]) {
                Err(e) => Err(e),
                Ok(x) => Ok(prev.push(x)),
            },
        }
    }
}

// ----- messages -----

/// The tables can be read into: every field number has a decode entry, and
/// every map entry type has a key and a value field.
pub open spec fn spec_json_tables(tables: Seq<Table>) -> bool {
    &&& spec_fields_have_entries(tables)
    &&& forall|k: int|
        0 <= k < tables.len() && (#[trigger] tables[k]).descriptor.map_entry ==> tables[k].descriptor.field@.len() >= 2
}

/// The last of the first `k` fields whose JSON name is `name`, or -1.
pub open spec fn spec_last_json_named(fields: Seq<FieldView>, name: Seq<u8>, k: int) -> int
    decreases k,
{
    if k <= 0 {
        -1
    } else if vstd::utf8::encode_utf8(fields[k - 1].json_name) == name {
        k - 1
    } else {
        spec_last_json_named(fields, name, k - 1)
    }
}

/// The first of the first `k` members named `name`, or -1.
pub open spec fn spec_first_member(members: Seq<(Seq<u8>, JsonInputView)>, name: Seq<u8>, k: int) -> int
    decreases k,
{
    if k <= 0 {
        -1
    } else {
        let p = spec_first_member(members, name, k - 1);
        if p >= 0 {
            p
        } else if members[k - 1].0 == name {
            k - 1
        } else {
            -1
        }
    }
}

/// `o` with `raws` appended to repeated scalar slot `i` (unchanged where
/// there are none).
pub open spec fn spec_append_raws(o: ObjectView, i: int, raws: Seq<u64>) -> ObjectView {
    if raws.len() == 0 {
        o
    } else {
        with_slot(o, i, SlotView::Repeated(slot_repeated(o.slots[i]) + raws))
    }
}

/// `o` with `bs` appended to repeated bytes slot `i` (unchanged where there
/// are none).
pub open spec fn spec_append_texts(o: ObjectView, i: int, bs: Seq<Seq<u8>>) -> ObjectView {
    if bs.len() == 0 {
        o
    } else {
        with_slot(o, i, SlotView::RepeatedBytes(slot_repeated_bytes(o.slots[i]) + bs))
    }
}

/// `o` with `cs` appended to repeated message slot `i` (unchanged where there
/// are none).
pub open spec fn spec_append_children(o: ObjectView, i: int, cs: Seq<ObjectView>) -> ObjectView {
    if cs.len() == 0 {
        o
    } else {
        with_slot(o, i, SlotView::RepeatedMessage(slot_repeated_message(o.slots[i]) + cs))
    }
}

/// Member `v` applied to `o` for field `f` that is not a message field, with
/// decode entry `e`: null leaves `o` as it is; a repeated field takes the
/// array's items; another field its value with its has-bit set.
pub open spec fn spec_apply_scalar(o: ObjectView, f: FieldView, e: u32, v: JsonInputView) -> Result<ObjectView, JsonError> {
    let off = spec_entry_offset(e) as int;
    let hb = spec_entry_has_bit(e) as u64;
    let t = f.field_type;
    if v is Null {
        Ok(o)
    } else if spec_is_repeated(f) {
        match v {
            JsonInputView::Array(items) => if t == FieldType::String || t == FieldType::Bytes {
                match spec_text_values(t, items, items.len() as int) {
                    Err(e) => Err(e),
                    Ok(bs) => if off >= o.slots.len() {
                        Err(JsonError::BadEntry)
                    } else {
                        Ok(spec_append_texts(o, off, bs))
                    },
                }
            } else {
                match spec_strict_raws(t, items, items.len() as int) {
                    Err(e) => Err(e),
                    Ok(raws) => if off >= o.slots.len() {
                        Err(JsonError::BadEntry)
                    } else {
                        Ok(spec_append_raws(o, off, raws))
                    },
                }
            },
            _ => Err(JsonError::InvalidType),
        }
    } else if t == FieldType::String || t == FieldType::Bytes {
        match spec_text_value(t, v) {
            Err(e) => Err(e),
            Ok(b) => if off >= o.slots.len() || hb >= 64 {
                Err(JsonError::BadEntry)
            } else {
                Ok(spec_set_bytes(o, off, hb, b))
            },
        }
    } else {
        match spec_flexible_raw(t, v) {
            Err(e) => Err(e),
            Ok(x) => if off >= o.slots.len() || hb >= 64 {
                Err(JsonError::BadEntry)
            } else {
                Ok(spec_set_scalar(o, off, hb, x))
            },
        }
    }
}

/// The field type that a wrapper's value has.
pub open spec fn spec_wrapper_type(w: WellKnownType) -> FieldType {
    match w {
        WellKnownType::BoolValue => FieldType::Bool,
        WellKnownType::Int32Value => FieldType::Int32,
        WellKnownType::Int64Value => FieldType::Int64,
        WellKnownType::UInt32Value => FieldType::Uint32,
        WellKnownType::UInt64Value => FieldType::Uint64,
        WellKnownType::FloatValue => FieldType::Float,
        WellKnownType::DoubleValue => FieldType::Double,
        WellKnownType::StringValue => FieldType::String,
        _ => FieldType::Bytes,
    }
}

/// A wrapper read from its members: the first member named `value`, read
/// strictly, goes into field 1; others before it are passed over, and none
/// may follow it.
pub open spec fn spec_read_wrapper(table: Table, w: WellKnownType, members: Seq<(Seq<u8>, JsonInputView)>) -> Result<ObjectView, JsonError> {
    let o = spec_new_object(table);
    if table.decode_entries@.len() <= 1 {
        Err(JsonError::MissingField)
    } else {
        let e = table.decode_entries@[1].0;
        let off = spec_entry_offset(e) as int;
        let hb = spec_entry_has_bit(e) as u64;
        let t = spec_wrapper_type(w);
        let i = spec_first_member(members, "value".spec_bytes(), members.len() as int);
        if i < 0 {
            Ok(o)
        } else if t == FieldType::String || t == FieldType::Bytes {
            match spec_text_value(t, members[i].1) {
                Err(e) => Err(e),
                Ok(b) => if off >= o.slots.len() || hb >= 64 {
                    Err(JsonError::BadEntry)
                } else if i + 1 < members.len() {
                    Err(JsonError::TrailingMembers)
                } else {
                    Ok(spec_set_bytes(o, off, hb, b))
                },
            }
        } else {
            match spec_strict_raw(t, members[i].1) {
                Err(e) => Err(e),
                Ok(x) => if off >= o.slots.len() || hb >= 64 {
                    Err(JsonError::BadEntry)
                } else if i + 1 < members.len() {
                    Err(JsonError::TrailingMembers)
                } else {
                    Ok(spec_set_scalar(o, off, hb, x))
                },
            }
        }
    }
}

/// The first `k` members of a timestamp or duration applied to `o`:
/// `seconds` (an `i64`) goes to the slot of entry `e1`, `nanos` (an `i32`) to
/// that of entry `e2`, other members are passed over.
pub open spec fn spec_time_members(o: ObjectView, e1: u32, e2: u32, members: Seq<(Seq<u8>, JsonInputView)>, k: int) -> Result<ObjectView, JsonError>
    decreases k,
{
    if k <= 0 {
        Ok(o)
    } else {
        match spec_time_members(o, e1, e2, members, k - 1) {
            Err(e) => Err(e),
            Ok(p) => {
                let (name, v) = members[k - 1];
                let e = if name == "seconds".spec_bytes() { e1 } else { e2 };
                let t = if name == "seconds".spec_bytes() { FieldType::Int64 } else { FieldType::Int32 };
                if name == "seconds".spec_bytes() || name == "nanos".spec_bytes() {
                    match spec_strict_raw(t, v) {
                        Err(err) => Err(err),
                        Ok(x) => {
                            let off = spec_entry_offset(e) as int;
                            let hb = spec_entry_has_bit(e) as u64;
                            if off >= p.slots.len() || hb >= 64 {
                                Err(JsonError::BadEntry)
                            } else {
                                Ok(spec_set_scalar(p, off, hb, x))
                            }
                        },
                    }
                } else {
                    Ok(p)
                }
            },
        }
    }
}

/// A timestamp or duration read from its `seconds` and `nanos` members, and
/// then held to its range.
pub open spec fn spec_read_time(table: Table, members: Seq<(Seq<u8>, JsonInputView)>, timestamp: bool) -> Result<ObjectView, JsonError> {
    if table.decode_entries@.len() <= 2 {
        Err(JsonError::MissingField)
    } else {
        let e1 = table.decode_entries@[1].0;
        let e2 = table.decode_entries@[2].0;
        match spec_time_members(spec_new_object(table), e1, e2, members, members.len() as int) {
            Err(e) => Err(e),
            Ok(o) => {
                let off1 = spec_entry_offset(e1) as int;
                let off2 = spec_entry_offset(e2) as int;
                if off1 >= o.slots.len() || off2 >= o.slots.len() {
                    Err(JsonError::BadEntry)
                } else {
                    let seconds = slot_scalar(o.slots[off1]) as i64;
                    let nanos = (slot_scalar(o.slots[off2]) as u32) as i32;
                    let check = if timestamp {
                        spec_validate_timestamp(seconds, nanos)
                    } else {
                        spec_validate_duration(seconds, nanos)
                    };
                    match check {
                        Err(e) => Err(JsonError::Time(e)),
                        Ok(_) => Ok(o),
                    }
                }
            },
        }
    }
}

/// The raw bits of a map key of type `t` written as text.
pub open spec fn spec_map_key_raw(t: FieldType, key: Seq<u8>) -> Option<u64> {
    if t == FieldType::Bool {
        if key == "true".spec_bytes() {
            Some(1u64)
        } else if key == "false".spec_bytes() {
            Some(0u64)
        } else {
            None
        }
    } else if t == FieldType::Int32 || t == FieldType::Sint32 || t == FieldType::Sfixed32 {
        match spec_parse_i32(key) {
            Some(x) => Some(spec_i32_raw(x as i32)),
            None => None,
        }
    } else if spec_is_i64_type(t) {
        match spec_parse_i64(key) {
            Some(x) => Some((x as i64) as u64),
            None => None,
        }
    } else if spec_is_u32_type(t) {
        match spec_parse_uint(key, u32::MAX as nat) {
            Some(x) => Some(x as u64),
            None => None,
        }
    } else if spec_is_u64_type(t) {
        match spec_parse_uint(key, u64::MAX as nat) {
            Some(x) => Some(x as u64),
            None => None,
        }
    } else {
        None
    }
}

/// Message `v` of table `t` read from its JSON form, with at most `fuel`
/// levels of nested messages: a JSON object; wrappers, timestamps and
/// durations in their own way; other messages member by member.
pub open spec fn spec_read_message(tables: Seq<Table>, t: int, v: JsonInputView, fuel: nat) -> Result<ObjectView, JsonError>
    decreases fuel, 3nat, 0int,
{
    let table = tables[t];
    match v {
        JsonInputView::Object(members) => match spec_well_known(table.descriptor.name@) {
            WellKnownType::Timestamp => spec_read_time(table, members, true),
            WellKnownType::Duration => spec_read_time(table, members, false),
            WellKnownType::Plain => spec_read_members(tables, t, members, members.len() as int, fuel),
            w => spec_read_wrapper(table, w, members),
        },
        _ => Err(JsonError::InvalidType),
    }
}

/// A fresh object of table `t` with the first `k` members applied in order.
pub open spec fn spec_read_members(tables: Seq<Table>, t: int, members: Seq<(Seq<u8>, JsonInputView)>, k: int, fuel: nat) -> Result<ObjectView, JsonError>
    decreases fuel, 2nat, k,
{
    if k <= 0 {
        Ok(spec_new_object(tables[t]))
    } else {
        match spec_read_members(tables, t, members, k - 1, fuel) {
            Err(e) => Err(e),
            Ok(o) => spec_apply_member(tables, t, o, members[k - 1].0, members[k - 1].1, fuel),
        }
    }
}

/// Member `name: v` applied to object `o` of table `t`: the field is the last
/// one with that JSON name; message fields take a child message read one
/// level down, repeated ones an array of them (an object of entries for a
/// map); null leaves the field as it is.
pub open spec fn spec_apply_member(tables: Seq<Table>, t: int, o: ObjectView, name: Seq<u8>, v: JsonInputView, fuel: nat) -> Result<ObjectView, JsonError>
    decreases fuel, 1nat, 0int,
{
    let table = tables[t];
    let fields = table.descriptor@.fields;
    let idx = spec_last_json_named(fields, name, fields.len() as int);
    if idx < 0 {
        Err(JsonError::UnknownField)
    } else {
        let f = fields[idx];
        let e = table.decode_entries@[f.number as int].0;
        if !spec_is_message(f) {
            spec_apply_scalar(o, f, e, v)
        } else if v is Null {
            Ok(o)
        } else {
            let off = spec_entry_offset(e) as int;
            if off >= table.aux_entries@.len() {
                Err(JsonError::BadEntry)
            } else {
                let aux = table.aux_entries@[off];
                let slot = aux.offset as int;
                let ct = aux.child_table;
                if slot >= o.slots.len() {
                    Err(JsonError::BadEntry)
                } else if ct >= tables.len() {
                    Err(JsonError::MissingTable)
                } else if fuel == 0 {
                    Err(JsonError::TooDeep)
                } else if !spec_is_repeated(f) {
                    match spec_read_message(tables, ct as int, v, (fuel - 1) as nat) {
                        Err(e) => Err(e),
                        Ok(c) => Ok(spec_set_child(o, slot, c)),
                    }
                } else if tables[ct as int].descriptor.map_entry {
                    match v {
                        JsonInputView::Object(entries) => match spec_read_map_entries(
                            tables,
                            ct as int,
                            entries,
                            entries.len() as int,
                            (fuel - 1) as nat,
                        ) {
                            Err(e) => Err(e),
                            Ok(cs) => Ok(spec_append_children(o, slot, cs)),
                        },
                        _ => Err(JsonError::InvalidType),
                    }
                } else {
                    match v {
                        JsonInputView::Array(items) => match spec_read_messages(
                            tables,
                            ct as int,
                            items,
                            items.len() as int,
                            (fuel - 1) as nat,
                        ) {
                            Err(e) => Err(e),
                            Ok(cs) => Ok(spec_append_children(o, slot, cs)),
                        },
                        _ => Err(JsonError::InvalidType),
                    }
                }
            }
        }
    }
}

/// The first `k` items read as messages of table `ct`.
pub open spec fn spec_read_messages(tables: Seq<Table>, ct: int, items: Seq<JsonInputView>, k: int, fuel: nat) -> Result<Seq<ObjectView>, JsonError>
    decreases fuel, 4nat, k,
{
    if k <= 0 {
        Ok(Seq::empty())
    } else {
        match spec_read_messages(tables, ct, items, k - 1, fuel) {
            Err(e) => Err(e),
            Ok(prev) => match spec_read_message(tables, ct, items[k - 1], fuel) {
                Err(e) => Err(e),
                Ok(c) => Ok(prev.push(c)),
            },
        }
    }
}

/// The first `k` members of a map read as entries of table `ct`.
pub open spec fn spec_read_map_entries(tables: Seq<Table>, ct: int, members: Seq<(Seq<u8>, JsonInputView)>, k: int, fuel: nat) -> Result<Seq<ObjectView>, JsonError>
    decreases fuel, 4nat, k,
{
    if k <= 0 {
        Ok(Seq::empty())
    } else {
        match spec_read_map_entries(tables, ct, members, k - 1, fuel) {
            Err(e) => Err(e),
            Ok(prev) => match spec_read_map_entry(tables, ct, members[k - 1].0, members[k - 1].1, fuel) {
                Err(e) => Err(e),
                Ok(c) => Ok(prev.push(c)),
            },
        }
    }
}

/// A map entry of table `ct` from member `key: v`: the key (typed by the
/// first field) read from its text into field 1, the value (typed by the
/// second field) read strictly into field 2, a message value one level down.
pub open spec fn spec_read_map_entry(tables: Seq<Table>, ct: int, key: Seq<u8>, v: JsonInputView, fuel: nat) -> Result<ObjectView, JsonError>
    decreases fuel, 0nat, 0int,
{
    let table = tables[ct];
    let fields = table.descriptor@.fields;
    let key_type = fields[0].field_type;
    let value_type = fields[1].field_type;
    let o = spec_new_object(table);
    if table.decode_entries@.len() <= 2 {
        Err(JsonError::MissingField)
    } else {
        let ke = table.decode_entries@[1].0;
        let ve = table.decode_entries@[2].0;
        let koff = spec_entry_offset(ke) as int;
        let khb = spec_entry_has_bit(ke) as u64;
        let voff = spec_entry_offset(ve) as int;
        let vhb = spec_entry_has_bit(ve) as u64;
        let keyed = if key_type == FieldType::String {
            if koff >= o.slots.len() || khb >= 64 {
                Err(JsonError::BadEntry)
            } else {
                Ok(spec_set_bytes(o, koff, khb, key))
            }
        } else {
            match spec_map_key_raw(key_type, key) {
                None => Err(JsonError::InvalidMapKey),
                Some(x) => if koff >= o.slots.len() || khb >= 64 {
                    Err(JsonError::BadEntry)
                } else {
                    Ok(spec_set_scalar(o, koff, khb, x))
                },
            }
        };
        match keyed {
            Err(e) => Err(e),
            Ok(o1) => if value_type == FieldType::Message || value_type == FieldType::Group {
                if voff >= table.aux_entries@.len() {
                    Err(JsonError::BadEntry)
                } else {
                    let aux = table.aux_entries@[voff];
                    let slot = aux.offset as int;
                    let vt = aux.child_table;
                    if slot >= o1.slots.len() {
                        Err(JsonError::BadEntry)
                    } else if vt >= tables.len() {
                        Err(JsonError::MissingTable)
                    } else if fuel == 0 {
                        Err(JsonError::TooDeep)
                    } else {
                        match spec_read_message(tables, vt as int, v, (fuel - 1) as nat) {
                            Err(e) => Err(e),
                            Ok(c) => Ok(spec_set_child(o1, slot, c)),
                        }
                    }
                }
            } else if value_type == FieldType::String || value_type == FieldType::Bytes {
                match spec_text_value(value_type, v) {
                    Err(e) => Err(e),
                    Ok(b) => if voff >= o1.slots.len() || vhb >= 64 {
                        Err(JsonError::BadEntry)
                    } else {
                        Ok(spec_set_bytes(o1, voff, vhb, b))
                    },
                }
            } else {
                match spec_strict_raw(value_type, v) {
                    Err(e) => Err(e),
                    Ok(x) => if voff >= o1.slots.len() || vhb >= 64 {
                        Err(JsonError::BadEntry)
                    } else {
                        Ok(spec_set_scalar(o1, voff, vhb, x))
                    },
                }
            },
        }
    }
}

// ----- reading scalars -----

/// Parses `b` as Rust's `u32::from_str` or `u64::from_str` does, up to `limit`.
fn parse_uint(b: &[u8], limit: u64) -> (r: Option<u64>)
    ensures
        match r {
            Some(x) => spec_parse_uint(b@, limit as nat) == Some(x as nat),
            None => spec_parse_uint(b@, limit as nat) is None,
        },
{
    if b.len() == 0 {
        return None;
    }
    let from: usize = if b[0] == 43 { 1 } else { 0 };
    proof {
        if from == 1 {
            assert(b@.subrange(1, b@.len() as int) =~= b@.drop_first());
        } else {
            assert(b@.subrange(0, b@.len() as int) =~= b@);
        }
    }
    parse_magnitude(b, from, limit)
}

fn bytes_eq(a: &[u8], b: &[u8]) -> (r: bool)
    ensures
        r == (a@ == b@),
{
    if a.len() != b.len() {
        return false;
    }
    let mut i: usize = 0;
    while i < a.len()
        invariant
            i <= a@.len(),
            a@.len() == b@.len(),
            forall|j: int| 0 <= j < i ==> a@[j] == b@[j],
        decreases a@.len() - i,
    {
        if a[i] != b[i] {
            return false;
        }
        i += 1;
    }
    assert(a@ =~= b@);
    true
}

fn is_text(b: &[u8], s: &str) -> (r: bool)
    ensures
        r == (b@ == s.spec_bytes()),
{
    bytes_eq(b, s.as_bytes())
}

fn is_i32_type(t: FieldType) -> (r: bool)
    ensures
        r == spec_is_i32_type(t),
{
    match t {
        FieldType::Int32 | FieldType::Sint32 | FieldType::Sfixed32 | FieldType::Enum => true,
        _ => false,
    }
}

fn is_i64_type(t: FieldType) -> (r: bool)
    ensures
        r == spec_is_i64_type(t),
{
    match t {
        FieldType::Int64 | FieldType::Sint64 | FieldType::Sfixed64 => true,
        _ => false,
    }
}

fn is_u32_type(t: FieldType) -> (r: bool)
    ensures
        r == spec_is_u32_type(t),
{
    match t {
        FieldType::Uint32 | FieldType::Fixed32 => true,
        _ => false,
    }
}

fn is_u64_type(t: FieldType) -> (r: bool)
    ensures
        r == spec_is_u64_type(t),
{
    match t {
        FieldType::Uint64 | FieldType::Fixed64 => true,
        _ => false,
    }
}

/// The raw bits of a scalar of type `t` read strictly (see `spec_strict_raw`).
pub fn strict_raw(t: FieldType, v: &JsonInput) -> (r: Result<u64, JsonError>)
    ensures
        r == spec_strict_raw(t, v@),
{
    if t == FieldType::Bool {
        return match v {
            JsonInput::Bool(b) => Ok(if *b { 1u64 } else { 0u64 }),
            _ => Err(JsonError::InvalidType),
        };
    }
    match v {
        JsonInput::Number(n) => if t == FieldType::Float {
            Ok(n.to_f32 as u64)
        } else if t == FieldType::Double {
            Ok(n.to_f64)
        } else {
            match n.value {
                NumberValue::Float(_) => Err(JsonError::InvalidType),
                NumberValue::PosInt(u) => if is_i32_type(t) {
                    if u <= 0x7fff_ffff {
                        Ok((u as i32) as u32 as u64)
                    } else {
                        Err(JsonError::OutOfRange)
                    }
                } else if is_i64_type(t) {
                    if u <= 0x7fff_ffff_ffff_ffff {
                        Ok(u)
                    } else {
                        Err(JsonError::OutOfRange)
                    }
                } else if is_u32_type(t) {
                    if u <= 0xffff_ffff {
                        Ok(u)
                    } else {
                        Err(JsonError::OutOfRange)
                    }
                } else if is_u64_type(t) {
                    Ok(u)
                } else {
                    Err(JsonError::InvalidType)
                },
                NumberValue::NegInt(i) => if is_i32_type(t) {
                    if i >= -0x8000_0000 {
                        Ok((i as i32) as u32 as u64)
                    } else {
                        Err(JsonError::OutOfRange)
                    }
                } else if is_i64_type(t) {
                    Ok(i as u64)
                } else if is_u32_type(t) || is_u64_type(t) {
                    Err(JsonError::OutOfRange)
                } else {
                    Err(JsonError::InvalidType)
                },
            }
        },
        _ => Err(JsonError::InvalidType),
    }
}

/// The raw bits of a singular scalar of type `t` (see `spec_flexible_raw`).
pub fn flexible_raw(t: FieldType, v: &JsonInput) -> (r: Result<u64, JsonError>)
    ensures
        r == spec_flexible_raw(t, v@),
{
    if t == FieldType::Bool {
        return strict_raw(t, v);
    }
    match v {
        JsonInput::Number(n) => if t == FieldType::Float {
            Ok(n.to_f32 as u64)
        } else if t == FieldType::Double {
            Ok(n.to_f64)
        } else {
            match n.value {
                NumberValue::PosInt(u) => if is_i32_type(t) {
                    Ok((u as i32) as u32 as u64)
                } else if is_u32_type(t) {
                    Ok((u as u32) as u64)
                } else if is_i64_type(t) || is_u64_type(t) {
                    Ok(u)
                } else {
                    Err(JsonError::InvalidType)
                },
                NumberValue::NegInt(i) => if is_i32_type(t) {
                    Ok((i as i32) as u32 as u64)
                } else if is_u32_type(t) {
                    Ok((i as u32) as u64)
                } else if is_i64_type(t) || is_u64_type(t) {
                    Ok(i as u64)
                } else {
                    Err(JsonError::InvalidType)
                },
                NumberValue::Float(_) => if is_i32_type(t) {
                    Ok(n.trunc_i32 as u32 as u64)
                } else if is_u32_type(t) {
                    Ok(n.trunc_u32 as u64)
                } else {
                    Err(JsonError::InvalidType)
                },
            }
        },
        JsonInput::String(s) => {
            let text = s.text.as_slice();
            if t == FieldType::Float {
                if is_text(text, "NaN") {
                    Ok(0x7fc0_0000u64)
                } else if is_text(text, "Infinity") {
                    Ok(0x7f80_0000u64)
                } else if is_text(text, "-Infinity") {
                    Ok(0xff80_0000u64)
                } else {
                    match s.parsed_f32 {
                        Some(b) => Ok(b as u64),
                        None => Err(JsonError::InvalidNumber),
                    }
                }
            } else if t == FieldType::Double {
                if is_text(text, "NaN") {
                    Ok(0x7ff8_0000_0000_0000u64)
                } else if is_text(text, "Infinity") {
                    Ok(0x7ff0_0000_0000_0000u64)
                } else if is_text(text, "-Infinity") {
                    Ok(0xfff0_0000_0000_0000u64)
                } else {
                    match s.parsed_f64 {
                        Some(b) => Ok(b),
                        None => Err(JsonError::InvalidNumber),
                    }
                }
            } else if is_i32_type(t) {
                match parse_i32(text) {
                    Some(x) => Ok(x as u32 as u64),
                    None => Err(JsonError::InvalidNumber),
                }
            } else if is_i64_type(t) {
                match parse_i64(text) {
                    Some(x) => Ok(x as u64),
                    None => Err(JsonError::InvalidNumber),
                }
            } else if is_u32_type(t) {
                match parse_uint(text, 0xffff_ffff) {
                    Some(x) => Ok(x),
                    None => Err(JsonError::InvalidNumber),
                }
            } else if is_u64_type(t) {
                match parse_uint(text, 0xffff_ffff_ffff_ffff) {
                    Some(x) => Ok(x),
                    None => Err(JsonError::InvalidNumber),
                }
            } else {
                Err(JsonError::InvalidType)
            }
        },
        _ => Err(JsonError::InvalidType),
    }
}

/// The bytes of a bytes value (see `spec_bytes_value`).
pub fn bytes_value(v: &JsonInput) -> (r: Result<Vec<u8>, JsonError>)
    ensures
        match r {
            Ok(b) => spec_bytes_value(v@) == Ok::<Seq<u8>, JsonError>(b@),
            Err(e) => spec_bytes_value(v@) == Err::<Seq<u8>, JsonError>(e),
        },
{
    match v {
        JsonInput::String(s) => match base64_decode(s.text.as_slice()) {
            Some(b) => Ok(b),
            None => Err(JsonError::InvalidBase64),
        },
        JsonInput::Array(items) => {
            let ghost iv = v@->Array_0;
            let mut out: Vec<u8> = Vec::new();
            let mut k: usize = 0;
            while k < items.len()
                invariant
                    k <= items@.len(),
                    v@ == JsonInputView::Array(iv),
                    iv.len() == items@.len(),
                    forall|j: int| 0 <= j < iv.len() ==> #[trigger] iv[j] == items@[j]@,
                    spec_u8_items(iv, k as int) == Ok::<Seq<u8>, JsonError>(out@),
                decreases items@.len() - k,
            {
                let ghost prev = out@;
                assert(iv[k as int] == items@[k as int]@);
                match &items[k] {
                    JsonInput::Number(n) => match n.value {
                        NumberValue::PosInt(u) => if u <= 255 {
                            out.push(u as u8);
                            assert(out@ =~= prev.push(u as u8));
                        } else {
                            proof {
                                lemma_u8_items_err(iv, k as int + 1, iv.len() as int);
                            }
                            return Err(JsonError::OutOfRange);
                        },
                        NumberValue::NegInt(_) => {
                            proof {
                                lemma_u8_items_err(iv, k as int + 1, iv.len() as int);
                            }
                            return Err(JsonError::OutOfRange);
                        },
                        NumberValue::Float(_) => {
                            proof {
                                lemma_u8_items_err(iv, k as int + 1, iv.len() as int);
                            }
                            return Err(JsonError::InvalidType);
                        },
                    },
                    _ => {
                        proof {
                            lemma_u8_items_err(iv, k as int + 1, iv.len() as int);
                        }
                        return Err(JsonError::InvalidType);
                    },
                }
                k += 1;
            }
            Ok(out)
        },
        _ => Err(JsonError::InvalidType),
    }
}

proof fn lemma_u8_items_err(items: Seq<JsonInputView>, a: int, b: int)
    requires
        0 < a <= b,
        spec_u8_items(items, a) is Err,
    ensures
        spec_u8_items(items, b) == spec_u8_items(items, a),
    decreases b - a,
{
    if a < b {
        lemma_u8_items_err(items, a, b - 1);
    }
}

/// The bytes of a string or bytes value of type `t` (see `spec_text_value`).
pub fn text_value(t: FieldType, v: &JsonInput) -> (r: Result<Vec<u8>, JsonError>)
    ensures
        match r {
            Ok(b) => spec_text_value(t, v@) == Ok::<Seq<u8>, JsonError>(b@),
            Err(e) => spec_text_value(t, v@) == Err::<Seq<u8>, JsonError>(e),
        },
{
    if t == FieldType::Bytes {
        bytes_value(v)
    } else {
        match v {
            JsonInput::String(s) => Ok(s.text.clone()),
            _ => Err(JsonError::InvalidType),
        }
    }
}

// ----- reading messages -----

/// Object members as mathematical values.
pub open spec fn spec_members_input(v: Seq<(Vec<u8>, JsonInput)>) -> Seq<(Seq<u8>, JsonInputView)> {
    v.map_values(|p: (Vec<u8>, JsonInput)| (p.0@, p.1@))
}

/// Array items as mathematical values.
pub open spec fn spec_items_input(v: Seq<JsonInput>) -> Seq<JsonInputView> {
    v.map_values(|j: JsonInput| j@)
}

proof fn lemma_input_object_view(v: Vec<(Vec<u8>, JsonInput)>)
    ensures
        JsonInput::Object(v)@ == JsonInputView::Object(spec_members_input(v@)),
{
    assert(input_view(JsonInput::Object(v))->Object_0 =~= spec_members_input(v@));
}

proof fn lemma_input_array_view(v: Vec<JsonInput>)
    ensures
        JsonInput::Array(v)@ == JsonInputView::Array(spec_items_input(v@)),
{
    assert(input_view(JsonInput::Array(v))->Array_0 =~= spec_items_input(v@));
}

/// A result of reading as mathematical values.
pub open spec fn spec_object_result(r: Result<Object, JsonError>) -> Result<ObjectView, JsonError> {
    match r {
        Ok(o) => Ok(o@),
        Err(e) => Err(e),
    }
}

/// The tables can be read into (see `spec_json_tables`).
pub fn json_tables_ok(tables: &[Table]) -> (r: bool)
    ensures
        r == spec_json_tables(tables@),
{
    if !crate::json::fields_have_entries(tables) {
        return false;
    }
    let mut k: usize = 0;
    while k < tables.len()
        invariant
            k <= tables@.len(),
            forall|j: int|
                0 <= j < k && (#[trigger] tables@[j]).descriptor.map_entry ==> tables@[j].descriptor.field@.len() >= 2,
        decreases tables@.len() - k,
    {
        if tables[k].descriptor.map_entry && tables[k].descriptor.field.len() < 2 {
            return false;
        }
        k += 1;
    }
    true
}

/// The last field whose JSON name is `name` (see `spec_last_json_named`).
fn last_json_named(fields: &Vec<FieldDescriptorProto>, name: &[u8]) -> (r: Option<usize>)
    ensures
        ({
            let fv = fields@.map_values(|f: FieldDescriptorProto| f@);
            let i = spec_last_json_named(fv, name@, fv.len() as int);
            match r {
                Some(j) => i == j && j < fields@.len(),
                None => i == -1,
            }
        }),
{
    let ghost fv = fields@.map_values(|f: FieldDescriptorProto| f@);
    let mut i: usize = fields.len();
    while i > 0
        invariant
            i <= fields@.len(),
            fv == fields@.map_values(|f: FieldDescriptorProto| f@),
            spec_last_json_named(fv, name@, fv.len() as int) == spec_last_json_named(fv, name@, i as int),
        decreases i,
    {
        assert(fv[i - 1] == fields@[i - 1]@);
        if bytes_eq(fields[i - 1].json_name.as_str().as_bytes(), name) {
            return Some(i - 1);
        }
        i -= 1;
    }
    None
}

/// The first member named `name` (see `spec_first_member`).
fn first_member(members: &Vec<(Vec<u8>, JsonInput)>, name: &str) -> (r: Option<usize>)
    ensures
        ({
            let mv = spec_members_input(members@);
            let i = spec_first_member(mv, name.spec_bytes(), mv.len() as int);
            match r {
                Some(j) => i == j && j < members@.len(),
                None => i == -1,
            }
        }),
{
    let ghost mv = spec_members_input(members@);
    let mut i: usize = 0;
    while i < members.len()
        invariant
            i <= members@.len(),
            mv == spec_members_input(members@),
            spec_first_member(mv, name.spec_bytes(), i as int) == -1,
        decreases members@.len() - i,
    {
        assert(mv[i as int].0 == members@[i as int].0@);
        if is_text(members[i].0.as_slice(), name) {
            proof {
                assert(spec_first_member(mv, name.spec_bytes(), i as int + 1) == i);
                lemma_first_member_stays(mv, name.spec_bytes(), i as int + 1, mv.len() as int);
            }
            return Some(i);
        }
        i += 1;
    }
    None
}

proof fn lemma_first_member_stays(members: Seq<(Seq<u8>, JsonInputView)>, name: Seq<u8>, a: int, b: int)
    requires
        1 <= a <= b,
        spec_first_member(members, name, a) >= 0,
    ensures
        spec_first_member(members, name, b) == spec_first_member(members, name, a),
    decreases b - a,
{
    if a < b {
        lemma_first_member_stays(members, name, a, b - 1);
    }
}

fn wrapper_type(w: WellKnownType) -> (r: FieldType)
    ensures
        r == spec_wrapper_type(w),
{
    match w {
        WellKnownType::BoolValue => FieldType::Bool,
        WellKnownType::Int32Value => FieldType::Int32,
        WellKnownType::Int64Value => FieldType::Int64,
        WellKnownType::UInt32Value => FieldType::Uint32,
        WellKnownType::UInt64Value => FieldType::Uint64,
        WellKnownType::FloatValue => FieldType::Float,
        WellKnownType::DoubleValue => FieldType::Double,
        WellKnownType::StringValue => FieldType::String,
        _ => FieldType::Bytes,
    }
}

/// A wrapper message read from its members (see `spec_read_wrapper`).
fn read_wrapper(table: &Table, w: WellKnownType, members: &Vec<(Vec<u8>, JsonInput)>) -> (r: Result<Object, JsonError>)
    ensures
        spec_object_result(r) == spec_read_wrapper(*table, w, spec_members_input(members@)),
{
    let ghost mv = spec_members_input(members@);
    let mut o = Object::create(table);
    if table.decode_entries.len() <= 1 {
        return Err(JsonError::MissingField);
    }
    let e = table.decode_entries[1];
    let off = e.offset() as usize;
    let hb = e.has_bit_idx();
    let t = wrapper_type(w);
    match first_member(members, "value") {
        None => Ok(o),
        Some(i) => {
            assert(mv[i as int].1 == members@[i as int].1@);
            if t == FieldType::String || t == FieldType::Bytes {
                match text_value(t, &members[i].1) {
                    Err(err) => Err(err),
                    Ok(b) => if off >= o.slots.len() || hb >= 64 {
                        Err(JsonError::BadEntry)
                    } else if i < members.len() - 1 {
                        Err(JsonError::TrailingMembers)
                    } else {
                        o.set_bytes(off, hb, b.as_slice());
                        Ok(o)
                    },
                }
            } else {
                match strict_raw(t, &members[i].1) {
                    Err(err) => Err(err),
                    Ok(x) => if off >= o.slots.len() || hb >= 64 {
                        Err(JsonError::BadEntry)
                    } else if i < members.len() - 1 {
                        Err(JsonError::TrailingMembers)
                    } else {
                        o.set(off, hb, x);
                        Ok(o)
                    },
                }
            }
        },
    }
}

proof fn lemma_time_members_err(o: ObjectView, e1: u32, e2: u32, members: Seq<(Seq<u8>, JsonInputView)>, a: int, b: int)
    requires
        0 < a <= b,
        spec_time_members(o, e1, e2, members, a) is Err,
    ensures
        spec_time_members(o, e1, e2, members, b) == spec_time_members(o, e1, e2, members, a),
    decreases b - a,
{
    if a < b {
        lemma_time_members_err(o, e1, e2, members, a, b - 1);
    }
}

/// A timestamp or duration read from its members (see `spec_read_time`).
fn read_time(table: &Table, members: &Vec<(Vec<u8>, JsonInput)>, timestamp: bool) -> (r: Result<Object, JsonError>)
    ensures
        spec_object_result(r) == spec_read_time(*table, spec_members_input(members@), timestamp),
{
    let ghost mv = spec_members_input(members@);
    if table.decode_entries.len() <= 2 {
        return Err(JsonError::MissingField);
    }
    let e1 = table.decode_entries[1];
    let e2 = table.decode_entries[2];
    let mut o = Object::create(table);
    let ghost o0 = o@;
    let mut k: usize = 0;
    while k < members.len()
        invariant
            k <= members@.len(),
            mv == spec_members_input(members@),
            table.decode_entries@.len() > 2,
            e1 == table.decode_entries@[1],
            e2 == table.decode_entries@[2],
            o0 == spec_new_object(*table),
            spec_time_members(o0, e1.0, e2.0, mv, k as int) == Ok::<ObjectView, JsonError>(o@),
        decreases members@.len() - k,
    {
        let name = members[k].0.as_slice();
        let v = &members[k].1;
        assert(mv[k as int] == (name@, v@));
        let is_seconds = is_text(name, "seconds");
        if is_seconds || is_text(name, "nanos") {
            let e = if is_seconds { e1 } else { e2 };
            let t = if is_seconds { FieldType::Int64 } else { FieldType::Int32 };
            match strict_raw(t, v) {
                Err(err) => {
                    proof {
                        assert(spec_time_members(o0, e1.0, e2.0, mv, k as int + 1) == Err::<ObjectView, JsonError>(err));
                        lemma_time_members_err(o0, e1.0, e2.0, mv, k as int + 1, mv.len() as int);
                    }
                    return Err(err);
                },
                Ok(x) => {
                    let off = e.offset() as usize;
                    let hb = e.has_bit_idx();
                    if off >= o.slots.len() || hb >= 64 {
                        proof {
                            assert(spec_time_members(o0, e1.0, e2.0, mv, k as int + 1) == Err::<ObjectView, JsonError>(JsonError::BadEntry));
                            lemma_time_members_err(o0, e1.0, e2.0, mv, k as int + 1, mv.len() as int);
                        }
                        return Err(JsonError::BadEntry);
                    }
                    o.set(off, hb, x);
                },
            }
        }
        k += 1;
    }
    let off1 = e1.offset() as usize;
    let off2 = e2.offset() as usize;
    if off1 >= o.slots.len() || off2 >= o.slots.len() {
        return Err(JsonError::BadEntry);
    }
    let seconds = o.get(off1) as i64;
    let nanos = (o.get(off2) as u32) as i32;
    let check = if timestamp {
        validate_timestamp(seconds, nanos)
    } else {
        validate_duration(seconds, nanos)
    };
    match check {
        Err(e) => Err(JsonError::Time(e)),
        Ok(_) => Ok(o),
    }
}

proof fn lemma_append_raws_push(o: ObjectView, i: int, p: Seq<u64>, x: u64)
    requires
        0 <= i < o.slots.len(),
        p.len() > 0,
    ensures
        crate::base::spec_add_scalar(spec_append_raws(o, i, p), i, x) == spec_append_raws(o, i, p.push(x)),
{
    let a = spec_append_raws(o, i, p);
    assert(slot_repeated(a.slots[i]) == slot_repeated(o.slots[i]) + p);
    assert(slot_repeated(a.slots[i]).push(x) =~= slot_repeated(o.slots[i]) + p.push(x));
    crate::base::lemma_with_slot_twice(o, i, SlotView::Repeated(slot_repeated(o.slots[i]) + p), SlotView::Repeated(slot_repeated(o.slots[i]) + p.push(x)));
}

proof fn lemma_append_texts_push(o: ObjectView, i: int, p: Seq<Seq<u8>>, x: Seq<u8>)
    requires
        0 <= i < o.slots.len(),
        p.len() > 0,
    ensures
        crate::base::spec_add_bytes(spec_append_texts(o, i, p), i, x) == spec_append_texts(o, i, p.push(x)),
{
    let a = spec_append_texts(o, i, p);
    assert(slot_repeated_bytes(a.slots[i]) == slot_repeated_bytes(o.slots[i]) + p);
    assert(slot_repeated_bytes(a.slots[i]).push(x) =~= slot_repeated_bytes(o.slots[i]) + p.push(x));
    crate::base::lemma_with_slot_twice(o, i, SlotView::RepeatedBytes(slot_repeated_bytes(o.slots[i]) + p), SlotView::RepeatedBytes(slot_repeated_bytes(o.slots[i]) + p.push(x)));
}

proof fn lemma_append_children_push(o: ObjectView, i: int, p: Seq<ObjectView>, x: ObjectView)
    requires
        0 <= i < o.slots.len(),
        p.len() > 0,
    ensures
        crate::base::spec_add_child(spec_append_children(o, i, p), i, x) == spec_append_children(o, i, p.push(x)),
{
    let a = spec_append_children(o, i, p);
    assert(slot_repeated_message(a.slots[i]) == slot_repeated_message(o.slots[i]) + p);
    assert(slot_repeated_message(a.slots[i]).push(x) =~= slot_repeated_message(o.slots[i]) + p.push(x));
    crate::base::lemma_with_slot_twice(o, i, SlotView::RepeatedMessage(slot_repeated_message(o.slots[i]) + p), SlotView::RepeatedMessage(slot_repeated_message(o.slots[i]) + p.push(x)));
}

proof fn lemma_strict_raws_err(t: FieldType, items: Seq<JsonInputView>, a: int, b: int)
    requires
        0 < a <= b,
        spec_strict_raws(t, items, a) is Err,
    ensures
        spec_strict_raws(t, items, b) == spec_strict_raws(t, items, a),
    decreases b - a,
{
    if a < b {
        lemma_strict_raws_err(t, items, a, b - 1);
    }
}

proof fn lemma_text_values_err(t: FieldType, items: Seq<JsonInputView>, a: int, b: int)
    requires
        0 < a <= b,
        spec_text_values(t, items, a) is Err,
    ensures
        spec_text_values(t, items, b) == spec_text_values(t, items, a),
    decreases b - a,
{
    if a < b {
        lemma_text_values_err(t, items, a, b - 1);
    }
}

/// The raw bits of each item, read strictly as type `t`.
fn strict_raws(t: FieldType, items: &Vec<JsonInput>) -> (r: Result<Vec<u64>, JsonError>)
    ensures
        match r {
            Ok(x) => spec_strict_raws(t, spec_items_input(items@), items@.len() as int) == Ok::<Seq<u64>, JsonError>(x@),
            Err(e) => spec_strict_raws(t, spec_items_input(items@), items@.len() as int) == Err::<Seq<u64>, JsonError>(e),
        },
{
    let ghost iv = spec_items_input(items@);
    let mut out: Vec<u64> = Vec::new();
    let mut k: usize = 0;
    while k < items.len()
        invariant
            k <= items@.len(),
            iv == spec_items_input(items@),
            spec_strict_raws(t, iv, k as int) == Ok::<Seq<u64>, JsonError>(out@),
        decreases items@.len() - k,
    {
        let ghost prev = out@;
        assert(iv[k as int] == items@[k as int]@);
        match strict_raw(t, &items[k]) {
            Err(e) => {
                proof {
                    lemma_strict_raws_err(t, iv, k as int + 1, iv.len() as int);
                }
                return Err(e);
            },
            Ok(x) => {
                out.push(x);
                assert(out@ =~= prev.push(x));
            },
        }
        k += 1;
    }
    Ok(out)
}

/// The bytes of each item, read as strings or bytes of type `t`.
fn text_values(t: FieldType, items: &Vec<JsonInput>) -> (r: Result<Vec<Vec<u8>>, JsonError>)
    ensures
        match r {
            Ok(x) => spec_text_values(t, spec_items_input(items@), items@.len() as int) == Ok::<Seq<Seq<u8>>, JsonError>(
                x@.map_values(|b: Vec<u8>| b@),
            ),
            Err(e) => spec_text_values(t, spec_items_input(items@), items@.len() as int) == Err::<Seq<Seq<u8>>, JsonError>(e),
        },
{
    let ghost iv = spec_items_input(items@);
    let mut out: Vec<Vec<u8>> = Vec::new();
    assert(out@.map_values(|b: Vec<u8>| b@) =~= Seq::empty());
    let mut k: usize = 0;
    while k < items.len()
        invariant
            k <= items@.len(),
            iv == spec_items_input(items@),
            spec_text_values(t, iv, k as int) == Ok::<Seq<Seq<u8>>, JsonError>(out@.map_values(|b: Vec<u8>| b@)),
        decreases items@.len() - k,
    {
        let ghost prev = out@.map_values(|b: Vec<u8>| b@);
        assert(iv[k as int] == items@[k as int]@);
        match text_value(t, &items[k]) {
            Err(e) => {
                proof {
                    lemma_text_values_err(t, iv, k as int + 1, iv.len() as int);
                }
                return Err(e);
            },
            Ok(x) => {
                let ghost xv = x@;
                out.push(x);
                assert(out@.map_values(|b: Vec<u8>| b@) =~= prev.push(xv));
            },
        }
        k += 1;
    }
    Ok(out)
}

/// Member `v` applied to `o` for field `f`, not a message field, with decode
/// entry `e` (see `spec_apply_scalar`).
fn apply_scalar(o: &mut Object, f: &FieldDescriptorProto, e: TableEntry, v: &JsonInput) -> (r: Result<(), JsonError>)
    ensures
        match r {
            Ok(()) => spec_apply_scalar(old(o)@, f@, e.0, v@) == Ok::<ObjectView, JsonError>(final(o)@),
            Err(err) => spec_apply_scalar(old(o)@, f@, e.0, v@) == Err::<ObjectView, JsonError>(err),
        },
        final(o).slots@.len() == old(o).slots@.len(),
{
    let off = e.offset() as usize;
    let hb = e.has_bit_idx();
    let t = f.field_type;
    if let JsonInput::Null = v {
        return Ok(());
    }
    if is_repeated(f) {
        match v {
            JsonInput::Array(items) => {
                proof {
                    lemma_input_array_view(*items);
                }
                if t == FieldType::String || t == FieldType::Bytes {
                    let bs = match text_values(t, items) {
                        Err(err) => return Err(err),
                        Ok(bs) => bs,
                    };
                    let ghost bv = bs@.map_values(|b: Vec<u8>| b@);
                    if off >= o.slots.len() {
                        return Err(JsonError::BadEntry);
                    }
                    let ghost o0 = o@;
                    let mut j: usize = 0;
                    while j < bs.len()
                        invariant
                            j <= bs@.len(),
                            off < o.slots@.len(),
                            o0.slots.len() == o.slots@.len(),
                            bv == bs@.map_values(|b: Vec<u8>| b@),
                            j > 0 ==> o@ == spec_append_texts(o0, off as int, bv.take(j as int)),
                            j == 0 ==> o@ == o0,
                        decreases bs@.len() - j,
                    {
                        let ghost before = o@;
                        o.add_bytes(off, bs[j].as_slice());
                        proof {
                            assert(bv[j as int] == bs@[j as int]@);
                            if j == 0 {
                                assert(bv.take(1) =~= Seq::<Seq<u8>>::empty().push(bv[0]));
                                assert(slot_repeated_bytes(o0.slots[off as int]) + bv.take(1) =~= slot_repeated_bytes(o0.slots[off as int]).push(bv[0]));
                            } else {
                                lemma_append_texts_push(o0, off as int, bv.take(j as int), bv[j as int]);
                                assert(bv.take(j as int).push(bv[j as int]) =~= bv.take(j as int + 1));
                            }
                        }
                        j += 1;
                    }
                    proof {
                        if bs@.len() > 0 {
                            assert(bv.take(bs@.len() as int) =~= bv);
                        }
                    }
                    Ok(())
                } else {
                    let raws = match strict_raws(t, items) {
                        Err(err) => return Err(err),
                        Ok(raws) => raws,
                    };
                    if off >= o.slots.len() {
                        return Err(JsonError::BadEntry);
                    }
                    let ghost o0 = o@;
                    let mut j: usize = 0;
                    while j < raws.len()
                        invariant
                            j <= raws@.len(),
                            off < o.slots@.len(),
                            o0.slots.len() == o.slots@.len(),
                            j > 0 ==> o@ == spec_append_raws(o0, off as int, raws@.take(j as int)),
                            j == 0 ==> o@ == o0,
                        decreases raws@.len() - j,
                    {
                        o.add(off, raws[j]);
                        proof {
                            if j == 0 {
                                assert(slot_repeated(o0.slots[off as int]) + raws@.take(1) =~= slot_repeated(o0.slots[off as int]).push(raws@[0]));
                            } else {
                                lemma_append_raws_push(o0, off as int, raws@.take(j as int), raws@[j as int]);
                                assert(raws@.take(j as int).push(raws@[j as int]) =~= raws@.take(j as int + 1));
                            }
                        }
                        j += 1;
                    }
                    proof {
                        if raws@.len() > 0 {
                            assert(raws@.take(raws@.len() as int) =~= raws@);
                        }
                    }
                    Ok(())
                }
            },
            _ => Err(JsonError::InvalidType),
        }
    } else if t == FieldType::String || t == FieldType::Bytes {
        match text_value(t, v) {
            Err(err) => Err(err),
            Ok(b) => if off >= o.slots.len() || hb >= 64 {
                Err(JsonError::BadEntry)
            } else {
                o.set_bytes(off, hb, b.as_slice());
                Ok(())
            },
        }
    } else {
        match flexible_raw(t, v) {
            Err(err) => Err(err),
            Ok(x) => if off >= o.slots.len() || hb >= 64 {
                Err(JsonError::BadEntry)
            } else {
                o.set(off, hb, x);
                Ok(())
            },
        }
    }
}

fn map_key_raw(t: FieldType, key: &[u8]) -> (r: Option<u64>)
    ensures
        r == spec_map_key_raw(t, key@),
{
    if t == FieldType::Bool {
        if is_text(key, "true") {
            Some(1u64)
        } else if is_text(key, "false") {
            Some(0u64)
        } else {
            None
        }
    } else if t == FieldType::Int32 || t == FieldType::Sint32 || t == FieldType::Sfixed32 {
        match parse_i32(key) {
            Some(x) => Some(x as u32 as u64),
            None => None,
        }
    } else if is_i64_type(t) {
        match parse_i64(key) {
            Some(x) => Some(x as u64),
            None => None,
        }
    } else if is_u32_type(t) {
        parse_uint(key, 0xffff_ffff)
    } else if is_u64_type(t) {
        parse_uint(key, 0xffff_ffff_ffff_ffff)
    } else {
        None
    }
}

proof fn lemma_read_members_err(tables: Seq<Table>, t: int, members: Seq<(Seq<u8>, JsonInputView)>, a: int, b: int, fuel: nat)
    requires
        0 < a <= b,
        spec_read_members(tables, t, members, a, fuel) is Err,
    ensures
        spec_read_members(tables, t, members, b, fuel) == spec_read_members(tables, t, members, a, fuel),
    decreases b - a,
{
    if a < b {
        lemma_read_members_err(tables, t, members, a, b - 1, fuel);
    }
}

proof fn lemma_read_messages_err(tables: Seq<Table>, ct: int, items: Seq<JsonInputView>, a: int, b: int, fuel: nat)
    requires
        0 < a <= b,
        spec_read_messages(tables, ct, items, a, fuel) is Err,
    ensures
        spec_read_messages(tables, ct, items, b, fuel) == spec_read_messages(tables, ct, items, a, fuel),
    decreases b - a,
{
    if a < b {
        lemma_read_messages_err(tables, ct, items, a, b - 1, fuel);
    }
}

proof fn lemma_read_map_entries_err(tables: Seq<Table>, ct: int, members: Seq<(Seq<u8>, JsonInputView)>, a: int, b: int, fuel: nat)
    requires
        0 < a <= b,
        spec_read_map_entries(tables, ct, members, a, fuel) is Err,
    ensures
        spec_read_map_entries(tables, ct, members, b, fuel) == spec_read_map_entries(tables, ct, members, a, fuel),
    decreases b - a,
{
    if a < b {
        lemma_read_map_entries_err(tables, ct, members, a, b - 1, fuel);
    }
}

/// Message of table `t` read from JSON value `v`, with at most `fuel` levels
/// of nested messages (see `spec_read_message`).
pub fn read_message(tables: &[Table], t: usize, v: &JsonInput, fuel: usize) -> (r: Result<Object, JsonError>)
    requires
        t < tables@.len(),
        spec_json_tables(tables@),
    ensures
        spec_object_result(r) == spec_read_message(tables@, t as int, v@, fuel as nat),
    decreases fuel, 3int,
{
    match v {
        JsonInput::Object(members) => {
            proof {
                lemma_input_object_view(*members);
            }
            read_object(tables, t, members, fuel)
        },
        _ => Err(JsonError::InvalidType),
    }
}

/// Message of table `t` read from the members of a JSON object.
#[verifier::loop_isolation(false)]
fn read_object(tables: &[Table], t: usize, members: &Vec<(Vec<u8>, JsonInput)>, fuel: usize) -> (r: Result<Object, JsonError>)
    requires
        t < tables@.len(),
        spec_json_tables(tables@),
    ensures
        spec_object_result(r) == spec_read_message(tables@, t as int, JsonInputView::Object(spec_members_input(members@)), fuel as nat),
    decreases fuel, 2int,
{
    let table = &tables[t];
    let ghost mv = spec_members_input(members@);
    match detect_well_known_type(&table.descriptor) {
        WellKnownType::Timestamp => read_time(table, members, true),
        WellKnownType::Duration => read_time(table, members, false),
        WellKnownType::Plain => {
            let mut o = Object::create(table);
            let mut k: usize = 0;
            while k < members.len()
                invariant
                    k <= members@.len(),
                    t < tables@.len(),
                    spec_json_tables(tables@),
                    mv == spec_members_input(members@),
                    spec_read_members(tables@, t as int, mv, k as int, fuel as nat) == Ok::<ObjectView, JsonError>(o@),
                decreases members@.len() - k,
            {
                assert(mv[k as int] == (members@[k as int].0@, members@[k as int].1@));
                match apply_member(tables, t, &mut o, members[k].0.as_slice(), &members[k].1, fuel) {
                    Err(e) => {
                        proof {
                            lemma_read_members_err(tables@, t as int, mv, k as int + 1, mv.len() as int, fuel as nat);
                        }
                        return Err(e);
                    },
                    Ok(()) => {},
                }
                k += 1;
            }
            Ok(o)
        },
        w => read_wrapper(table, w, members),
    }
}

/// Reads messages of one table of a pool from their JSON form.
pub struct SerdeDeserialize<'a> {
    pub tables: &'a [Table],
    pub table: usize,
}

impl<'a> SerdeDeserialize<'a> {
    /// A reader for messages of table `table` of `tables`.
    pub fn new(tables: &'a [Table], table: usize) -> (r: Self)
        ensures
            r.tables == tables,
            r.table == table,
    {
        SerdeDeserialize { tables, table }
    }

    /// The message that `input` is the JSON form of, with at most `depth`
    /// levels of nested messages; `MissingTable` where the table is not in
    /// the pool and `MissingField` where the pool's tables cannot be read
    /// into (see `spec_json_tables`).
    pub fn deserialize(&self, input: &JsonInput, depth: usize) -> (r: Result<Object, JsonError>)
        ensures
            self.table >= self.tables@.len() ==> r == Err::<Object, JsonError>(JsonError::MissingTable),
            self.table < self.tables@.len() && !spec_json_tables(self.tables@) ==> r == Err::<Object, JsonError>(
                JsonError::MissingField,
            ),
            self.table < self.tables@.len() && spec_json_tables(self.tables@) ==> spec_object_result(r)
                == spec_read_message(self.tables@, self.table as int, input@, depth as nat),
    {
        if self.table >= self.tables.len() {
            return Err(JsonError::MissingTable);
        }
        if !json_tables_ok(self.tables) {
            return Err(JsonError::MissingField);
        }
        read_message(self.tables, self.table, input, depth)
    }
}

/// Fills a message of one table of a pool from the members of a JSON object.
pub struct ProtobufVisitor<'a> {
    pub tables: &'a [Table],
    pub table: usize,
}

impl<'a> ProtobufVisitor<'a> {
    /// The message of its table that a JSON object with these members stands
    /// for, with at most `depth` levels of nested messages.
    pub fn visit_map(&self, members: &Vec<(Vec<u8>, JsonInput)>, depth: usize) -> (r: Result<Object, JsonError>)
        requires
            self.table < self.tables@.len(),
            spec_json_tables(self.tables@),
        ensures
            spec_object_result(r) == spec_read_message(
                self.tables@,
                self.table as int,
                JsonInputView::Object(spec_members_input(members@)),
                depth as nat,
            ),
    {
        read_object(self.tables, self.table, members, depth)
    }
}

/// Member `name: v` applied to object `o` of table `t` (see
/// `spec_apply_member`).
#[verifier::loop_isolation(false)]
fn apply_member(tables: &[Table], t: usize, o: &mut Object, name: &[u8], v: &JsonInput, fuel: usize) -> (r: Result<(), JsonError>)
    requires
        t < tables@.len(),
        spec_json_tables(tables@),
    ensures
        match r {
            Ok(()) => spec_apply_member(tables@, t as int, old(o)@, name@, v@, fuel as nat) == Ok::<ObjectView, JsonError>(final(o)@),
            Err(e) => spec_apply_member(tables@, t as int, old(o)@, name@, v@, fuel as nat) == Err::<ObjectView, JsonError>(e),
        },
    decreases fuel, 1int,
{
    let table = &tables[t];
    let fields = &table.descriptor.field;
    proof {
        assert(table.descriptor@.fields =~= fields@.map_values(|f: FieldDescriptorProto| f@));
    }
    let idx = match last_json_named(fields, name) {
        None => return Err(JsonError::UnknownField),
        Some(i) => i,
    };
    let f = &fields[idx];
    proof {
        assert(0 <= tables@[t as int].descriptor.field@[idx as int].number < tables@[t as int].decode_entries@.len());
    }
    let e = table.decode_entries[f.number as usize];
    if !is_message(f) {
        return apply_scalar(o, f, e, v);
    }
    if let JsonInput::Null = v {
        return Ok(());
    }
    let off = e.offset() as usize;
    if off >= table.aux_entries.len() {
        return Err(JsonError::BadEntry);
    }
    let aux = table.aux_entries[off];
    let slot = aux.offset as usize;
    let ct = aux.child_table;
    if slot >= o.slots.len() {
        return Err(JsonError::BadEntry);
    }
    if ct >= tables.len() {
        return Err(JsonError::MissingTable);
    }
    if fuel == 0 {
        return Err(JsonError::TooDeep);
    }
    if !is_repeated(f) {
        return match read_message(tables, ct, v, fuel - 1) {
            Err(e) => Err(e),
            Ok(c) => {
                o.set_child(slot, c);
                Ok(())
            },
        };
    }
    let ghost o0 = o@;
    if tables[ct].descriptor.map_entry {
        match v {
            JsonInput::Object(entries) => {
                proof {
                    lemma_input_object_view(*entries);
                }
                let ghost ev = spec_members_input(entries@);
                let ghost mut cs: Seq<ObjectView> = Seq::empty();
                let mut k: usize = 0;
                while k < entries.len()
                    invariant
                        k <= entries@.len(),
                        ct < tables@.len(),
                        spec_json_tables(tables@),
                        tables@[ct as int].descriptor.map_entry,
                        fuel > 0,
                        ev == spec_members_input(entries@),
                        slot < o.slots@.len(),
                        o0.slots.len() == o.slots@.len(),
                        spec_read_map_entries(tables@, ct as int, ev, k as int, (fuel - 1) as nat) == Ok::<Seq<ObjectView>, JsonError>(cs),
                        o@ == spec_append_children(o0, slot as int, cs),
                    decreases entries@.len() - k,
                {
                    assert(ev[k as int] == (entries@[k as int].0@, entries@[k as int].1@));
                    match read_map_entry(tables, ct, entries[k].0.as_slice(), &entries[k].1, fuel - 1) {
                        Err(e) => {
                            proof {
                                lemma_read_map_entries_err(tables@, ct as int, ev, k as int + 1, ev.len() as int, (fuel - 1) as nat);
                            }
                            return Err(e);
                        },
                        Ok(c) => {
                            let ghost cv = c@;
                            o.add_child(slot, c);
                            proof {
                                if cs.len() > 0 {
                                    lemma_append_children_push(o0, slot as int, cs, cv);
                                } else {
                                    assert(slot_repeated_message(o0.slots[slot as int]) + cs.push(cv) =~= slot_repeated_message(o0.slots[slot as int]).push(cv));
                                }
                                cs = cs.push(cv);
                            }
                        },
                    }
                    k += 1;
                }
                Ok(())
            },
            _ => Err(JsonError::InvalidType),
        }
    } else {
        match v {
            JsonInput::Array(items) => {
                proof {
                    lemma_input_array_view(*items);
                }
                let ghost iv = spec_items_input(items@);
                let ghost mut cs: Seq<ObjectView> = Seq::empty();
                let mut k: usize = 0;
                while k < items.len()
                    invariant
                        k <= items@.len(),
                        ct < tables@.len(),
                        spec_json_tables(tables@),
                        fuel > 0,
                        iv == spec_items_input(items@),
                        slot < o.slots@.len(),
                        o0.slots.len() == o.slots@.len(),
                        spec_read_messages(tables@, ct as int, iv, k as int, (fuel - 1) as nat) == Ok::<Seq<ObjectView>, JsonError>(cs),
                        o@ == spec_append_children(o0, slot as int, cs),
                    decreases items@.len() - k,
                {
                    assert(iv[k as int] == items@[k as int]@);
                    match read_message(tables, ct, &items[k], fuel - 1) {
                        Err(e) => {
                            proof {
                                lemma_read_messages_err(tables@, ct as int, iv, k as int + 1, iv.len() as int, (fuel - 1) as nat);
                            }
                            return Err(e);
                        },
                        Ok(c) => {
                            let ghost cv = c@;
                            o.add_child(slot, c);
                            proof {
                                if cs.len() > 0 {
                                    lemma_append_children_push(o0, slot as int, cs, cv);
                                } else {
                                    assert(slot_repeated_message(o0.slots[slot as int]) + cs.push(cv) =~= slot_repeated_message(o0.slots[slot as int]).push(cv));
                                }
                                cs = cs.push(cv);
                            }
                        },
                    }
                    k += 1;
                }
                Ok(())
            },
            _ => Err(JsonError::InvalidType),
        }
    }
}

/// A map entry of table `ct` read from member `key: v` (see
/// `spec_read_map_entry`).
fn read_map_entry(tables: &[Table], ct: usize, key: &[u8], v: &JsonInput, fuel: usize) -> (r: Result<Object, JsonError>)
    requires
        ct < tables@.len(),
        spec_json_tables(tables@),
        tables@[ct as int].descriptor.map_entry,
    ensures
        spec_object_result(r) == spec_read_map_entry(tables@, ct as int, key@, v@, fuel as nat),
    decreases fuel, 0int,
{
    let table = &tables[ct];
    let fields = &table.descriptor.field;
    proof {
        assert(table.descriptor@.fields =~= fields@.map_values(|f: FieldDescriptorProto| f@));
    }
    let key_type = fields[0].field_type;
    let value_type = fields[1].field_type;
    let mut o = Object::create(table);
    if table.decode_entries.len() <= 2 {
        return Err(JsonError::MissingField);
    }
    let ke = table.decode_entries[1];
    let ve = table.decode_entries[2];
    let koff = ke.offset() as usize;
    let khb = ke.has_bit_idx();
    let voff = ve.offset() as usize;
    let vhb = ve.has_bit_idx();
    if key_type == FieldType::String {
        if koff >= o.slots.len() || khb >= 64 {
            return Err(JsonError::BadEntry);
        }
        o.set_bytes(koff, khb, key);
    } else {
        match map_key_raw(key_type, key) {
            None => return Err(JsonError::InvalidMapKey),
            Some(x) => {
                if koff >= o.slots.len() || khb >= 64 {
                    return Err(JsonError::BadEntry);
                }
                o.set(koff, khb, x);
            },
        }
    }
    if value_type == FieldType::Message || value_type == FieldType::Group {
        if voff >= table.aux_entries.len() {
            return Err(JsonError::BadEntry);
        }
        let aux = table.aux_entries[voff];
        let slot = aux.offset as usize;
        let vt = aux.child_table;
        if slot >= o.slots.len() {
            return Err(JsonError::BadEntry);
        }
        if vt >= tables.len() {
            return Err(JsonError::MissingTable);
        }
        if fuel == 0 {
            return Err(JsonError::TooDeep);
        }
        match read_message(tables, vt, v, fuel - 1) {
            Err(e) => Err(e),
            Ok(c) => {
                o.set_child(slot, c);
                Ok(o)
            },
        }
    } else if value_type == FieldType::String || value_type == FieldType::Bytes {
        match text_value(value_type, v) {
            Err(e) => Err(e),
            Ok(b) => if voff >= o.slots.len() || vhb >= 64 {
                Err(JsonError::BadEntry)
            } else {
                o.set_bytes(voff, vhb, b.as_slice());
                Ok(o)
            },
        }
    } else {
        match strict_raw(value_type, v) {
            Err(e) => Err(e),
            Ok(x) => if voff >= o.slots.len() || vhb >= 64 {
                Err(JsonError::BadEntry)
            } else {
                o.set(voff, vhb, x);
                Ok(o)
            },
        }
    }
}

} // verus!
