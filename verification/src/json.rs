//! The JSON form of messages, as a tree of JSON values.
//!
//! Numbers that are floating point are carried by their bits; writing them
//! as text is left to the JSON writer.
use vstd::prelude::*;
use vstd::string::StringSliceAdditionalSpecFns;
use std::string::String;
use crate::base::{Object, ObjectView};
use crate::tables::Table;
use crate::descriptor::{FieldType, FieldView, FieldDescriptorProto};
use crate::reflection::{
    ValueView, Value, DynamicMessage, DynamicMessageArray, spec_get_field, spec_first_with_number,
    spec_bytes_views, spec_object_views,
};
use crate::wellknown::{
    WellKnownType, TimeError, spec_well_known, spec_validate_timestamp, spec_validate_duration,
    spec_format_duration, spec_rfc3339_format, spec_signed_decimal, spec_decimal, push_decimal,
    push_signed_decimal, format_timestamp, format_duration, validate_duration, detect_well_known_type,
};

verus! {

/// A JSON value. Strings are held as their UTF-8 bytes; `Float` and `Double`
/// are numbers given by the bits of an `f32` or `f64`.
#[derive(Debug)]
pub enum JsonValue {
    Null,
    Bool(bool),
    Int(i64),
    UInt(u64),
    Float(u32),
    Double(u64),
    String(Vec<u8>),
    Array(Vec<JsonValue>),
    Object(Vec<(Vec<u8>, JsonValue)>),
}

/// A JSON value as mathematical values.
pub enum JsonView {
    Null,
    Bool(bool),
    Int(i64),
    UInt(u64),
    Float(u32),
    Double(u64),
    String(Seq<u8>),
    Array(Seq<JsonView>),
    Object(Seq<(Seq<u8>, JsonView)>),
}

pub open spec fn json_view(j: JsonValue) -> JsonView
    decreases j,
{
    match j {
        JsonValue::Null => JsonView::Null,
        JsonValue::Bool(b) => JsonView::Bool(b),
        JsonValue::Int(i) => JsonView::Int(i),
        JsonValue::UInt(u) => JsonView::UInt(u),
        JsonValue::Float(f) => JsonView::Float(f),
        JsonValue::Double(d) => JsonView::Double(d),
        JsonValue::String(s) => JsonView::String(s@),
        JsonValue::Array(v) => JsonView::Array(
            Seq::new(
                v@.len(),
                |i: int|
                    if 0 <= i < v@.len() {
                        proof {
                            assert(decreases_to!(v => v@));
                            assert(decreases_to!(v@ => v@[i]));
                        }
                        json_view(v@[i])
                    } else {
                        JsonView::Null
                    },
            ),
        ),
        JsonValue::Object(v) => JsonView::Object(
            Seq::new(
                v@.len(),
                |i: int|
                    if 0 <= i < v@.len() {
                        proof {
                            assert(decreases_to!(v => v@));
                            assert(decreases_to!(v@ => v@[i]));
                            assert(decreases_to!(v@[i] => v@[i].1));
                        }
                        (v@[i].0@, json_view(v@[i].1))
                    } else {
                        (Seq::empty(), JsonView::Null)
                    },
            ),
        ),
    }
}

impl View for JsonValue {
    type V = JsonView;

    open spec fn view(&self) -> JsonView {
        json_view(*self)
    }
}

/// Why a message has no JSON form, or a JSON value gives no message.
#[derive(Clone, Copy, PartialEq, Eq, Debug, Structural)]
pub enum JsonError {
    /// A well-known type or map entry lacks a field it needs.
    MissingField,
    /// A wrapper's value has the wrong type.
    WrongType,
    /// A timestamp or duration out of range.
    Time(TimeError),
    /// A map entry with neither key nor default key.
    MissingMapKey,
    /// A map key that is not a scalar.
    InvalidMapKey,
    /// A child message whose table is not in the pool.
    MissingTable,
    /// Messages nested deeper than allowed.
    TooDeep,
    /// Bytes too long for their base64 text to be measured.
    TooLarge,
    /// A member whose name is no field's JSON name.
    UnknownField,
    /// A JSON value of a type the field does not take.
    InvalidType,
    /// An integer that does not fit the field.
    OutOfRange,
    /// A string that does not read as the field's number.
    InvalidNumber,
    /// A string that is not base64.
    InvalidBase64,
    /// Members after the value of a wrapper.
    TrailingMembers,
    /// A table entry that points outside the object or its has-bits.
    BadEntry,
}

// ----- names of the base64 encoding -----

/// The standard base64 text (with padding) of `data`, as bytes.
pub uninterp spec fn spec_base64_encode(data: Seq<u8>) -> Seq<u8>;

/// Encodes `data` with `base64::engine::general_purpose::STANDARD` (padded
/// standard alphabet); the text is named, not stated, beyond that the same
/// engine decodes it back to `data`. The engine panics where the length of
/// the text overflows, which half the address space rules out.
#[verifier::external_body]
fn base64_encode(data: &[u8]) -> (r: Vec<u8>)
    requires
        data@.len() <= usize::MAX / 2,
    ensures
        r@ == spec_base64_encode(data@),
        crate::json_read::spec_base64_decode(r@) == Some(data@),
{
    base64::engine::Engine::encode(&base64::engine::general_purpose::STANDARD, data).into_bytes()
}

// ----- floating-point bits -----

/// The JSON form of an `f32` inside a message: `NaN`, `Infinity` and
/// `-Infinity` as strings, other values as numbers.
pub open spec fn spec_float_json(bits: u32) -> JsonView {
    if (bits >> 23u32) & 0xff == 0xff {
        if bits & 0x7f_ffff != 0 {
            JsonView::String("NaN".spec_bytes())
        } else if bits >> 31u32 == 1 {
            JsonView::String("-Infinity".spec_bytes())
        } else {
            JsonView::String("Infinity".spec_bytes())
        }
    } else {
        JsonView::Float(bits)
    }
}

/// The JSON form of an `f64` inside a message (see `spec_float_json`).
pub open spec fn spec_double_json(bits: u64) -> JsonView {
    if (bits >> 52u64) & 0x7ff == 0x7ff {
        if bits & 0xf_ffff_ffff_ffff != 0 {
            JsonView::String("NaN".spec_bytes())
        } else if bits >> 63u64 == 1 {
            JsonView::String("-Infinity".spec_bytes())
        } else {
            JsonView::String("Infinity".spec_bytes())
        }
    } else {
        JsonView::Double(bits)
    }
}

fn text(s: &str) -> (r: Vec<u8>)
    ensures
        r@ == s.spec_bytes(),
{
    let b = s.as_bytes();
    let mut r: Vec<u8> = Vec::new();
    let mut i: usize = 0;
    while i < b.len()
        invariant
            i <= b@.len(),
            r@ == b@.take(i as int),
        decreases b@.len() - i,
    {
        r.push(b[i]);
        i += 1;
        assert(r@ =~= b@.take(i as int));
    }
    assert(b@.take(i as int) =~= b@);
    r
}

fn float_json(bits: u32) -> (r: JsonValue)
    ensures
        r@ == spec_float_json(bits),
{
    if (bits >> 23) & 0xff == 0xff {
        if bits & 0x7f_ffff != 0 {
            JsonValue::String(text("NaN"))
        } else if bits >> 31 == 1 {
            JsonValue::String(text("-Infinity"))
        } else {
            JsonValue::String(text("Infinity"))
        }
    } else {
        JsonValue::Float(bits)
    }
}

fn double_json(bits: u64) -> (r: JsonValue)
    ensures
        r@ == spec_double_json(bits),
{
    if (bits >> 52) & 0x7ff == 0x7ff {
        if bits & 0xf_ffff_ffff_ffff != 0 {
            JsonValue::String(text("NaN"))
        } else if bits >> 63 == 1 {
            JsonValue::String(text("-Infinity"))
        } else {
            JsonValue::String(text("Infinity"))
        }
    } else {
        JsonValue::Double(bits)
    }
}


// ----- scalar values -----

/// The JSON form of bytes: their base64 text.
pub open spec fn spec_bytes_json(b: Seq<u8>) -> Result<JsonView, JsonError> {
    if b.len() > usize::MAX / 2 {
        Err(JsonError::TooLarge)
    } else {
        Ok(JsonView::String(spec_base64_encode(b)))
    }
}

/// The JSON forms of each of the byte strings.
pub open spec fn spec_bytes_array_json(bs: Seq<Seq<u8>>, k: int) -> Result<Seq<JsonView>, JsonError>
    decreases k,
{
    if k <= 0 {
        Ok(Seq::empty())
    } else {
        match spec_bytes_array_json(bs, k - 1) {
            Err(e) => Err(e),
            Ok(prev) => match spec_bytes_json(bs[k - 1]) {
                Err(e) => Err(e),
                Ok(j) => Ok(prev.push(j)),
            },
        }
    }
}

/// The JSON form of a value that is not a message: numbers as numbers (floats
/// with `NaN` and the infinities as strings), strings as strings, bytes as
/// base64, repeated values as arrays (their floats as plain numbers).
pub open spec fn spec_scalar_json(v: ValueView) -> Result<JsonView, JsonError> {
    match v {
        ValueView::Bool(b) => Ok(JsonView::Bool(b)),
        ValueView::Int32(x) => Ok(JsonView::Int(x as i64)),
        ValueView::Int64(x) => Ok(JsonView::Int(x)),
        ValueView::UInt32(x) => Ok(JsonView::UInt(x as u64)),
        ValueView::UInt64(x) => Ok(JsonView::UInt(x)),
        ValueView::Float(b) => Ok(spec_float_json(b)),
        ValueView::Double(b) => Ok(spec_double_json(b)),
        ValueView::String(s) => Ok(JsonView::String(s)),
        ValueView::Bytes(b) => spec_bytes_json(b),
        ValueView::RepeatedBool(xs) => Ok(JsonView::Array(xs.map_values(|x: bool| JsonView::Bool(x)))),
        ValueView::RepeatedInt32(xs) => Ok(JsonView::Array(xs.map_values(|x: i32| JsonView::Int(x as i64)))),
        ValueView::RepeatedInt64(xs) => Ok(JsonView::Array(xs.map_values(|x: i64| JsonView::Int(x)))),
        ValueView::RepeatedUInt32(xs) => Ok(JsonView::Array(xs.map_values(|x: u32| JsonView::UInt(x as u64)))),
        ValueView::RepeatedUInt64(xs) => Ok(JsonView::Array(xs.map_values(|x: u64| JsonView::UInt(x)))),
        ValueView::RepeatedFloat(xs) => Ok(JsonView::Array(xs.map_values(|x: u32| JsonView::Float(x)))),
        ValueView::RepeatedDouble(xs) => Ok(JsonView::Array(xs.map_values(|x: u64| JsonView::Double(x)))),
        ValueView::RepeatedString(ss) => Ok(JsonView::Array(ss.map_values(|x: Seq<u8>| JsonView::String(x)))),
        ValueView::RepeatedBytes(bs) => match spec_bytes_array_json(bs, bs.len() as int) {
            Err(e) => Err(e),
            Ok(js) => Ok(JsonView::Array(js)),
        },
        _ => Ok(JsonView::Null),
    }
}

pub(crate) fn bytes_json(b: &[u8]) -> (r: Result<JsonValue, JsonError>)
    ensures
        match r {
            Ok(j) => spec_bytes_json(b@) == Ok::<JsonView, JsonError>(j@),
            Err(e) => spec_bytes_json(b@) == Err::<JsonView, JsonError>(e),
        },
{
    if b.len() > usize::MAX / 2 {
        Err(JsonError::TooLarge)
    } else {
        Ok(JsonValue::String(base64_encode(b)))
    }
}

pub(crate) fn copy_bytes(b: &[u8]) -> (r: Vec<u8>)
    ensures
        r@ == b@,
{
    let mut r: Vec<u8> = Vec::new();
    let mut i: usize = 0;
    while i < b.len()
        invariant
            i <= b@.len(),
            r@ == b@.take(i as int),
        decreases b@.len() - i,
    {
        r.push(b[i]);
        i += 1;
        assert(r@ =~= b@.take(i as int));
    }
    assert(b@.take(i as int) =~= b@);
    r
}

/// The JSON form of a value that is not a message (see `spec_scalar_json`).
fn scalar_json(v: &Value) -> (r: Result<JsonValue, JsonError>)
    requires
        !(v is Message),
        !(v is RepeatedMessage),
    ensures
        match r {
            Ok(j) => spec_scalar_json(v@) == Ok::<JsonView, JsonError>(j@),
            Err(e) => spec_scalar_json(v@) == Err::<JsonView, JsonError>(e),
        },
{
    match v {
        Value::Bool(b) => Ok(JsonValue::Bool(*b)),
        Value::Int32(x) => Ok(JsonValue::Int(*x as i64)),
        Value::Int64(x) => Ok(JsonValue::Int(*x)),
        Value::UInt32(x) => Ok(JsonValue::UInt(*x as u64)),
        Value::UInt64(x) => Ok(JsonValue::UInt(*x)),
        Value::Float(b) => Ok(float_json(*b)),
        Value::Double(b) => Ok(double_json(*b)),
        Value::String(s) => Ok(JsonValue::String(copy_bytes(s))),
        Value::Bytes(b) => bytes_json(b),
        Value::RepeatedBool(xs) => {
            let mut out: Vec<JsonValue> = Vec::new();
            let mut i: usize = 0;
            while i < xs.len()
                invariant
                    i <= xs@.len(),
                    out@.len() == i,
                    forall|k: int| 0 <= k < i ==> (#[trigger] out@[k])@ == JsonView::Bool(xs@[k]),
                decreases xs@.len() - i,
            {
                out.push(JsonValue::Bool(xs[i]));
                i += 1;
            }
            let r = JsonValue::Array(out);
            assert(json_view(r)->Array_0 =~= xs@.map_values(|x: bool| JsonView::Bool(x)));
            Ok(r)
        },
        Value::RepeatedInt32(xs) => {
            let mut out: Vec<JsonValue> = Vec::new();
            let mut i: usize = 0;
            while i < xs.len()
                invariant
                    i <= xs@.len(),
                    out@.len() == i,
                    forall|k: int| 0 <= k < i ==> (#[trigger] out@[k])@ == JsonView::Int(xs@[k] as i64),
                decreases xs@.len() - i,
            {
                out.push(JsonValue::Int(xs[i] as i64));
                i += 1;
            }
            let r = JsonValue::Array(out);
            assert(json_view(r)->Array_0 =~= xs@.map_values(|x: i32| JsonView::Int(x as i64)));
            Ok(r)
        },
        Value::RepeatedInt64(xs) => {
            let mut out: Vec<JsonValue> = Vec::new();
            let mut i: usize = 0;
            while i < xs.len()
                invariant
                    i <= xs@.len(),
                    out@.len() == i,
                    forall|k: int| 0 <= k < i ==> (#[trigger] out@[k])@ == JsonView::Int(xs@[k]),
                decreases xs@.len() - i,
            {
                out.push(JsonValue::Int(xs[i]));
                i += 1;
            }
            let r = JsonValue::Array(out);
            assert(json_view(r)->Array_0 =~= xs@.map_values(|x: i64| JsonView::Int(x)));
            Ok(r)
        },
        Value::RepeatedUInt32(xs) => {
            let mut out: Vec<JsonValue> = Vec::new();
            let mut i: usize = 0;
            while i < xs.len()
                invariant
                    i <= xs@.len(),
                    out@.len() == i,
                    forall|k: int| 0 <= k < i ==> (#[trigger] out@[k])@ == JsonView::UInt(xs@[k] as u64),
                decreases xs@.len() - i,
            {
                out.push(JsonValue::UInt(xs[i] as u64));
                i += 1;
            }
            let r = JsonValue::Array(out);
            assert(json_view(r)->Array_0 =~= xs@.map_values(|x: u32| JsonView::UInt(x as u64)));
            Ok(r)
        },
        Value::RepeatedUInt64(xs) => {
            let mut out: Vec<JsonValue> = Vec::new();
            let mut i: usize = 0;
            while i < xs.len()
                invariant
                    i <= xs@.len(),
                    out@.len() == i,
                    forall|k: int| 0 <= k < i ==> (#[trigger] out@[k])@ == JsonView::UInt(xs@[k]),
                decreases xs@.len() - i,
            {
                out.push(JsonValue::UInt(xs[i]));
                i += 1;
            }
            let r = JsonValue::Array(out);
            assert(json_view(r)->Array_0 =~= xs@.map_values(|x: u64| JsonView::UInt(x)));
            Ok(r)
        },
        Value::RepeatedFloat(xs) => {
            let mut out: Vec<JsonValue> = Vec::new();
            let mut i: usize = 0;
            while i < xs.len()
                invariant
                    i <= xs@.len(),
                    out@.len() == i,
                    forall|k: int| 0 <= k < i ==> (#[trigger] out@[k])@ == JsonView::Float(xs@[k]),
                decreases xs@.len() - i,
            {
                out.push(JsonValue::Float(xs[i]));
                i += 1;
            }
            let r = JsonValue::Array(out);
            assert(json_view(r)->Array_0 =~= xs@.map_values(|x: u32| JsonView::Float(x)));
            Ok(r)
        },
        Value::RepeatedDouble(xs) => {
            let mut out: Vec<JsonValue> = Vec::new();
            let mut i: usize = 0;
            while i < xs.len()
                invariant
                    i <= xs@.len(),
                    out@.len() == i,
                    forall|k: int| 0 <= k < i ==> (#[trigger] out@[k])@ == JsonView::Double(xs@[k]),
                decreases xs@.len() - i,
            {
                out.push(JsonValue::Double(xs[i]));
                i += 1;
            }
            let r = JsonValue::Array(out);
            assert(json_view(r)->Array_0 =~= xs@.map_values(|x: u64| JsonView::Double(x)));
            Ok(r)
        },
        Value::RepeatedString(ss) => {
            let mut out: Vec<JsonValue> = Vec::new();
            let mut i: usize = 0;
            while i < ss.len()
                invariant
                    i <= ss@.len(),
                    out@.len() == i,
                    forall|k: int| 0 <= k < i ==> (#[trigger] out@[k])@ == JsonView::String(ss@[k]@),
                decreases ss@.len() - i,
            {
                out.push(JsonValue::String(copy_bytes(ss[i].slice())));
                i += 1;
            }
            let r = JsonValue::Array(out);
            assert(json_view(r)->Array_0 =~= spec_bytes_views(ss@).map_values(|x: Seq<u8>| JsonView::String(x)));
            Ok(r)
        },
        Value::RepeatedBytes(bs) => {
            let ghost views = spec_bytes_views(bs@);
            let mut out: Vec<JsonValue> = Vec::new();
            let mut i: usize = 0;
            while i < bs.len()
                invariant
                    i <= bs@.len(),
                    views == spec_bytes_views(bs@),
                    v@ == ValueView::RepeatedBytes(views),
                    spec_bytes_array_json(views, i as int) is Ok,
                    spec_bytes_array_json(views, i as int)->Ok_0.len() == i,
                    out@.len() == i,
                    forall|k: int| 0 <= k < i ==> (#[trigger] out@[k])@ == spec_bytes_array_json(views, i as int)->Ok_0[k],
                decreases bs@.len() - i,
            {
                let ghost prev = spec_bytes_array_json(views, i as int)->Ok_0;
                assert(views[i as int] == bs@[i as int]@);
                match bytes_json(bs[i].slice()) {
                    Err(e) => {
                        proof {
                            assert(spec_bytes_array_json(views, i + 1) == Err::<Seq<JsonView>, JsonError>(e));
                            lemma_bytes_array_err(views, i as int + 1, bs@.len() as int);
                            assert(views.len() == bs@.len());
                            assert(v@ == ValueView::RepeatedBytes(views));
                            assert(spec_bytes_array_json(views, views.len() as int) == Err::<Seq<JsonView>, JsonError>(e));
                            assert(spec_scalar_json(v@) == Err::<JsonView, JsonError>(e));
                        }
                        return Err(e);
                    },
                    Ok(j) => {
                        out.push(j);
                        assert(spec_bytes_array_json(views, i + 1) == Ok::<Seq<JsonView>, JsonError>(prev.push(j@)));
                    },
                }
                i += 1;
            }
            let r = JsonValue::Array(out);
            assert(json_view(r)->Array_0 =~= spec_bytes_array_json(views, bs@.len() as int)->Ok_0);
            Ok(r)
        },
        _ => Ok(JsonValue::Null),
    }
}

pub(crate) proof fn lemma_bytes_array_err(bs: Seq<Seq<u8>>, a: int, b: int)
    requires
        0 < a <= b,
        spec_bytes_array_json(bs, a) is Err,
    ensures
        spec_bytes_array_json(bs, b) == spec_bytes_array_json(bs, a),
    decreases b - a,
{
    if a < b {
        lemma_bytes_array_err(bs, a, b - 1);
    }
}


// ----- messages -----

/// Every field of every table has a decode entry for its number.
pub open spec fn spec_fields_have_entries(tables: Seq<Table>) -> bool {
    forall|k: int, i: int|
        0 <= k < tables.len() && 0 <= i < tables[k].descriptor.field@.len() ==> 0 <= (
        #[trigger] tables[k].descriptor.field@[i]).number < tables[k].decode_entries@.len()
}

/// The value a map entry's key or value takes where it is absent.
pub open spec fn spec_default_value(f: FieldView) -> Option<ValueView> {
    match f.field_type {
        FieldType::Bool => Some(ValueView::Bool(false)),
        FieldType::Int32 | FieldType::Uint32 | FieldType::Enum | FieldType::Sint32 | FieldType::Fixed32
        | FieldType::Sfixed32 | FieldType::Float => Some(ValueView::Int32(0)),
        FieldType::Int64 | FieldType::Uint64 | FieldType::Sint64 | FieldType::Fixed64
        | FieldType::Sfixed64 | FieldType::Double => Some(ValueView::Int64(0)),
        FieldType::String => Some(ValueView::String(Seq::empty())),
        FieldType::Bytes => Some(ValueView::Bytes(Seq::empty())),
        FieldType::Message | FieldType::Group => None,
    }
}

/// A map key.
pub enum MapKeyView {
    Bool(bool),
    Int32(i32),
    Int64(i64),
    UInt32(u32),
    UInt64(u64),
    String(Seq<u8>),
}

/// The key that a map entry's key value makes; only scalars make keys.
pub open spec fn spec_map_key(v: ValueView) -> Option<MapKeyView> {
    match v {
        ValueView::Bool(b) => Some(MapKeyView::Bool(b)),
        ValueView::Int32(x) => Some(MapKeyView::Int32(x)),
        ValueView::Int64(x) => Some(MapKeyView::Int64(x)),
        ValueView::UInt32(x) => Some(MapKeyView::UInt32(x)),
        ValueView::UInt64(x) => Some(MapKeyView::UInt64(x)),
        ValueView::String(s) => Some(MapKeyView::String(s)),
        _ => None,
    }
}

/// The member name that a map key is written as.
pub open spec fn spec_map_key_text(k: MapKeyView) -> Seq<u8> {
    match k {
        MapKeyView::Bool(b) => if b {
            "true".spec_bytes()
        } else {
            "false".spec_bytes()
        },
        MapKeyView::Int32(x) => spec_signed_decimal(x as int),
        MapKeyView::Int64(x) => spec_signed_decimal(x as int),
        MapKeyView::UInt32(x) => spec_decimal(x as nat),
        MapKeyView::UInt64(x) => spec_decimal(x as nat),
        MapKeyView::String(s) => s,
    }
}

/// The JSON form of a duration: its text, where it is in range.
pub open spec fn spec_duration_json(seconds: i64, nanos: i32) -> Result<JsonView, JsonError> {
    match spec_validate_duration(seconds, nanos) {
        Err(e) => Err(JsonError::Time(e)),
        Ok(_) => match spec_format_duration(seconds, nanos) {
            Ok(b) => Ok(JsonView::String(b)),
            Err(e) => Err(JsonError::Time(e)),
        },
    }
}

/// The JSON form of a timestamp: its RFC 3339 text, where it is in range.
pub open spec fn spec_timestamp_json(seconds: i64, nanos: i32) -> Result<JsonView, JsonError> {
    match spec_validate_timestamp(seconds, nanos) {
        Err(e) => Err(JsonError::Time(e)),
        Ok(_) => Ok(JsonView::String(vstd::utf8::encode_utf8(spec_rfc3339_format(seconds * 1_000_000_000 + nanos)))),
    }
}

/// The value of the field with number `n` of `o`, where it has one (`Err`
/// where no field has that number).
pub open spec fn spec_field_numbered(o: ObjectView, t: Table, n: int) -> Result<Option<ValueView>, JsonError> {
    let fields = t.descriptor@.fields;
    let i = spec_first_with_number(fields, n, fields.len() as int);
    if i < 0 {
        Err(JsonError::MissingField)
    } else {
        Ok(spec_get_field(o, t, fields[i]))
    }
}

/// The JSON form of a wrapper message: its value, or null where it has none.
pub open spec fn spec_wrapper_json(o: ObjectView, t: Table, w: WellKnownType) -> Result<JsonView, JsonError> {
    match spec_field_numbered(o, t, 1) {
        Err(e) => Err(e),
        Ok(None) => Ok(JsonView::Null),
        Ok(Some(v)) => match (w, v) {
            (WellKnownType::BoolValue, ValueView::Bool(b)) => Ok(JsonView::Bool(b)),
            (WellKnownType::Int32Value, ValueView::Int32(x)) => Ok(JsonView::Int(x as i64)),
            (WellKnownType::Int64Value, ValueView::Int64(x)) => Ok(JsonView::Int(x)),
            (WellKnownType::UInt32Value, ValueView::UInt32(x)) => Ok(JsonView::UInt(x as u64)),
            (WellKnownType::UInt64Value, ValueView::UInt64(x)) => Ok(JsonView::UInt(x)),
            (WellKnownType::FloatValue, ValueView::Float(b)) => Ok(JsonView::Float(b)),
            (WellKnownType::DoubleValue, ValueView::Double(b)) => Ok(JsonView::Double(b)),
            (WellKnownType::StringValue, ValueView::String(s)) => Ok(JsonView::String(s)),
            (WellKnownType::StringValue, _) => Ok(JsonView::Null),
            (WellKnownType::BytesValue, ValueView::Bytes(b)) => spec_bytes_json(b),
            (WellKnownType::BytesValue, _) => Ok(JsonView::Null),
            _ => Err(JsonError::WrongType),
        },
    }
}

/// The seconds and nanoseconds of a timestamp or duration message (zero
/// where absent); `Err` where it lacks a field numbered 1 or 2.
pub open spec fn spec_seconds_nanos(o: ObjectView, t: Table) -> Result<(i64, i32), JsonError> {
    match spec_field_numbered(o, t, 1) {
        Err(e) => Err(e),
        Ok(sv) => match spec_field_numbered(o, t, 2) {
            Err(e) => Err(e),
            Ok(nv) => Ok(
                (
                    match sv {
                        Some(ValueView::Int64(s)) => s,
                        _ => 0i64,
                    },
                    match nv {
                        Some(ValueView::Int32(n)) => n,
                        _ => 0i32,
                    },
                ),
            ),
        },
    }
}

/// The JSON form of message `o` of table `t`, with at most `fuel` levels of
/// nested messages: well-known types in their own form, other messages as
/// objects with a member per present field, named by its JSON name, in field
/// order.
pub open spec fn spec_message_json(tables: Seq<Table>, t: int, o: ObjectView, fuel: nat) -> Result<JsonView, JsonError>
    decreases fuel, 2nat, 0nat,
{
    let table = tables[t];
    match spec_well_known(table.descriptor.name@) {
        WellKnownType::Timestamp => match spec_seconds_nanos(o, table) {
            Err(e) => Err(e),
            Ok((s, n)) => spec_timestamp_json(s, n),
        },
        WellKnownType::Duration => match spec_seconds_nanos(o, table) {
            Err(e) => Err(e),
            Ok((s, n)) => spec_duration_json(s, n),
        },
        WellKnownType::Plain => match spec_fields_json(tables, t, o, table.descriptor@.fields.len() as int, fuel) {
            Err(e) => Err(e),
            Ok(members) => Ok(JsonView::Object(members)),
        },
        w => spec_wrapper_json(o, table, w),
    }
}

/// The members for the present ones among the first `k` fields of `o`.
pub open spec fn spec_fields_json(tables: Seq<Table>, t: int, o: ObjectView, k: int, fuel: nat) -> Result<Seq<(Seq<u8>, JsonView)>, JsonError>
    decreases fuel, 1nat, k,
{
    if k <= 0 {
        Ok(Seq::empty())
    } else {
        match spec_fields_json(tables, t, o, k - 1, fuel) {
            Err(e) => Err(e),
            Ok(prev) => {
                let f = tables[t].descriptor@.fields[k - 1];
                match spec_get_field(o, tables[t], f) {
                    None => Ok(prev),
                    Some(v) => match spec_value_json(tables, v, fuel) {
                        Err(e) => Err(e),
                        Ok(j) => Ok(prev.push((vstd::utf8::encode_utf8(f.json_name), j))),
                    },
                }
            },
        }
    }
}

/// The JSON form of a field's value: a child message one level down, the
/// children of a repeated message field as an array (or, for a map, as an
/// object), other values as `spec_scalar_json` says.
pub open spec fn spec_value_json(tables: Seq<Table>, v: ValueView, fuel: nat) -> Result<JsonView, JsonError>
    decreases fuel, 0nat, 0nat,
{
    match v {
        ValueView::Message(c, ct) => if fuel == 0 {
            Err(JsonError::TooDeep)
        } else if ct >= tables.len() {
            Err(JsonError::MissingTable)
        } else {
            spec_message_json(tables, ct as int, c, (fuel - 1) as nat)
        },
        ValueView::RepeatedMessage(cs, ct) => if fuel == 0 {
            Err(JsonError::TooDeep)
        } else if ct >= tables.len() {
            Err(JsonError::MissingTable)
        } else if tables[ct as int].descriptor.map_entry {
            match spec_map_json(tables, ct as int, cs, cs.len() as int, (fuel - 1) as nat) {
                Err(e) => Err(e),
                Ok((members, _)) => Ok(JsonView::Object(members)),
            }
        } else {
            match spec_array_json(tables, ct as int, cs, cs.len() as int, (fuel - 1) as nat) {
                Err(e) => Err(e),
                Ok(items) => Ok(JsonView::Array(items)),
            }
        },
        _ => spec_scalar_json(v),
    }
}

/// The JSON forms of the first `k` messages of `cs`, of table `ct`.
pub open spec fn spec_array_json(tables: Seq<Table>, ct: int, cs: Seq<ObjectView>, k: int, fuel: nat) -> Result<Seq<JsonView>, JsonError>
    decreases fuel, 3nat, k,
{
    if k <= 0 {
        Ok(Seq::empty())
    } else {
        match spec_array_json(tables, ct, cs, k - 1, fuel) {
            Err(e) => Err(e),
            Ok(prev) => match spec_message_json(tables, ct, cs[k - 1], fuel) {
                Err(e) => Err(e),
                Ok(j) => Ok(prev.push(j)),
            },
        }
    }
}

/// The members for the last `k` entries of a map field, last entry first; an
/// entry whose key came before is left out. Also gives the keys seen.
pub open spec fn spec_map_json(tables: Seq<Table>, ct: int, cs: Seq<ObjectView>, k: int, fuel: nat) -> Result<(Seq<(Seq<u8>, JsonView)>, Seq<MapKeyView>), JsonError>
    decreases fuel, 3nat, k,
{
    if k <= 0 {
        Ok((Seq::empty(), Seq::empty()))
    } else {
        match spec_map_json(tables, ct, cs, k - 1, fuel) {
            Err(e) => Err(e),
            Ok((members, seen)) => {
                let entry = cs[cs.len() - k];
                let table = tables[ct];
                match spec_field_numbered(entry, table, 1) {
                    Err(e) => Err(e),
                    Ok(kv) => match spec_field_numbered(entry, table, 2) {
                        Err(e) => Err(e),
                        Ok(vv) => {
                            let fields = table.descriptor@.fields;
                            let key_field = fields[spec_first_with_number(fields, 1, fields.len() as int)];
                            let value_field = fields[spec_first_with_number(fields, 2, fields.len() as int)];
                            let key = match kv {
                                Some(x) => Some(x),
                                None => spec_default_value(key_field),
                            };
                            let value = match vv {
                                Some(x) => Some(x),
                                None => spec_default_value(value_field),
                            };
                            match key {
                                None => Err(JsonError::MissingMapKey),
                                Some(kval) => match spec_map_key(kval) {
                                    None => Err(JsonError::InvalidMapKey),
                                    Some(mk) => if seen.contains(mk) {
                                        Ok((members, seen))
                                    } else {
                                        match value {
                                            None => Ok((members.push((spec_map_key_text(mk), JsonView::Null)), seen.push(mk))),
                                            Some(x) => match spec_value_json(tables, x, fuel) {
                                                Err(e) => Err(e),
                                                Ok(j) => Ok((members.push((spec_map_key_text(mk), j)), seen.push(mk))),
                                            },
                                        }
                                    },
                                },
                            }
                        },
                    },
                }
            },
        }
    }
}


// ----- computing the JSON form -----

/// A result of the JSON writer as mathematical values.
pub open spec fn spec_json_result(r: Result<JsonValue, JsonError>) -> Result<JsonView, JsonError> {
    match r {
        Ok(j) => Ok(j@),
        Err(e) => Err(e),
    }
}

/// Object members as mathematical values.
pub open spec fn spec_members_view(v: Seq<(Vec<u8>, JsonValue)>) -> Seq<(Seq<u8>, JsonView)> {
    v.map_values(|p: (Vec<u8>, JsonValue)| (p.0@, p.1@))
}

/// Array items as mathematical values.
pub open spec fn spec_items_view(v: Seq<JsonValue>) -> Seq<JsonView> {
    v.map_values(|j: JsonValue| j@)
}

pub(crate) proof fn lemma_object_view(v: Vec<(Vec<u8>, JsonValue)>)
    ensures
        JsonValue::Object(v)@ == JsonView::Object(spec_members_view(v@)),
{
    assert(json_view(JsonValue::Object(v))->Object_0 =~= spec_members_view(v@));
}

pub(crate) proof fn lemma_array_view(v: Vec<JsonValue>)
    ensures
        JsonValue::Array(v)@ == JsonView::Array(spec_items_view(v@)),
{
    assert(json_view(JsonValue::Array(v))->Array_0 =~= spec_items_view(v@));
}

/// The tables hold a decode entry for every field number: what reading a
/// field needs.
pub fn fields_have_entries(tables: &[Table]) -> (r: bool)
    ensures
        r == spec_fields_have_entries(tables@),
{
    let mut k: usize = 0;
    while k < tables.len()
        invariant
            k <= tables@.len(),
            forall|k2: int, i: int|
                0 <= k2 < k && 0 <= i < tables@[k2].descriptor.field@.len() ==> 0 <= (
                #[trigger] tables@[k2].descriptor.field@[i]).number < tables@[k2].decode_entries@.len(),
        decreases tables@.len() - k,
    {
        let fields = &tables[k].descriptor.field;
        let n = tables[k].decode_entries.len();
        let mut i: usize = 0;
        while i < fields.len()
            invariant
                k < tables@.len(),
                i <= fields@.len(),
                fields@ == tables@[k as int].descriptor.field@,
                n == tables@[k as int].decode_entries@.len(),
                forall|k2: int, i2: int|
                    0 <= k2 < k && 0 <= i2 < tables@[k2].descriptor.field@.len() ==> 0 <= (
                    #[trigger] tables@[k2].descriptor.field@[i2]).number < tables@[k2].decode_entries@.len(),
                forall|i2: int| 0 <= i2 < i ==> 0 <= (#[trigger] fields@[i2]).number < n,
            decreases fields@.len() - i,
        {
            let num = fields[i].number;
            if num < 0 || num as usize >= n {
                return false;
            }
            i += 1;
        }
        k += 1;
    }
    true
}

/// The field numbered `n` of `m` with its value, where it has one.
fn find_numbered<'a>(m: &DynamicMessage<'a>, n: i32) -> (r: Result<(&'a FieldDescriptorProto, Option<Value<'a>>), JsonError>)
    requires
        m.wf(),
        spec_fields_have_entries(m.tables@),
    ensures
        ({
            let t = m.tables@[m.table as int];
            let fields = t.descriptor@.fields;
            let i = spec_first_with_number(fields, n as int, fields.len() as int);
            match r {
                Err(e) => i < 0 && e == JsonError::MissingField,
                Ok((f, v)) => 0 <= i < fields.len() && f@ == fields[i] && match v {
                    Some(x) => spec_get_field(m.object@, t, f@) == Some(x@),
                    None => spec_get_field(m.object@, t, f@) is None,
                },
            }
        }),
        match r {
            Ok((_, Some(Value::Message(c)))) => c.tables == m.tables,
            Ok((_, Some(Value::RepeatedMessage(a)))) => a.tables == m.tables,
            _ => true,
        },
{
    let tables: &'a [Table] = m.tables;
    let table: &'a Table = &tables[m.table];
    let fields: &'a Vec<FieldDescriptorProto> = &table.descriptor.field;
    proof {
        assert(table.descriptor@.fields =~= fields@.map_values(|f: FieldDescriptorProto| f@));
    }
    let ghost fv = fields@.map_values(|f: FieldDescriptorProto| f@);
    let mut i: usize = 0;
    while i < fields.len()
        invariant
            i <= fields@.len(),
            m.wf(),
            spec_fields_have_entries(m.tables@),
            tables == m.tables,
            *table == tables@[m.table as int],
            *fields == table.descriptor.field,
            fv == fields@.map_values(|f: FieldDescriptorProto| f@),
            spec_first_with_number(fv, n as int, i as int) == -1,
        decreases fields@.len() - i,
    {
        if fields[i].number == n {
            proof {
                assert(fv[i as int] == fields@[i as int]@);
                assert(spec_first_with_number(fv, n as int, i as int + 1) == i);
                lemma_first_with_number_stays(fv, n as int, i as int + 1, fv.len() as int);
                assert(0 <= fields@[i as int].number < table.decode_entries@.len());
            }
            let f: &'a FieldDescriptorProto = &fields[i];
            return Ok((f, m.get_field(f)));
        }
        i += 1;
    }
    Err(JsonError::MissingField)
}

proof fn lemma_first_with_number_stays(fields: Seq<FieldView>, n: int, a: int, b: int)
    requires
        1 <= a <= b,
        spec_first_with_number(fields, n, a) >= 0,
    ensures
        spec_first_with_number(fields, n, b) == spec_first_with_number(fields, n, a),
    decreases b - a,
{
    if a < b {
        lemma_first_with_number_stays(fields, n, a, b - 1);
    }
}

/// The value that a map entry's key or value stands for where it is absent:
/// zero, false or empty; none for a message.
pub fn default_value<'a>(field: &FieldDescriptorProto) -> (r: Option<Value<'a>>)
    ensures
        match r {
            Some(v) => spec_default_value(field@) == Some(v@),
            None => spec_default_value(field@) is None,
        },
{
    let empty: &'a [u8] = &[];
    assert(empty@.len() == 0);
    assert(empty@ =~= Seq::<u8>::empty());
    match field.field_type {
        FieldType::Bool => Some(Value::Bool(false)),
        FieldType::Int32 | FieldType::Uint32 | FieldType::Enum | FieldType::Sint32 | FieldType::Fixed32
        | FieldType::Sfixed32 | FieldType::Float => Some(Value::Int32(0)),
        FieldType::Int64 | FieldType::Uint64 | FieldType::Sint64 | FieldType::Fixed64
        | FieldType::Sfixed64 | FieldType::Double => Some(Value::Int64(0)),
        FieldType::String => Some(Value::String(empty)),
        FieldType::Bytes => Some(Value::Bytes(empty)),
        FieldType::Message | FieldType::Group => None,
    }
}

/// A map key.
pub enum MapKey<'a> {
    Bool(bool),
    Int32(i32),
    Int64(i64),
    UInt32(u32),
    UInt64(u64),
    String(&'a [u8]),
}

impl<'a> View for MapKey<'a> {
    type V = MapKeyView;

    open spec fn view(&self) -> MapKeyView {
        match self {
            MapKey::Bool(b) => MapKeyView::Bool(*b),
            MapKey::Int32(x) => MapKeyView::Int32(*x),
            MapKey::Int64(x) => MapKeyView::Int64(*x),
            MapKey::UInt32(x) => MapKeyView::UInt32(*x),
            MapKey::UInt64(x) => MapKeyView::UInt64(*x),
            MapKey::String(s) => MapKeyView::String(s@),
        }
    }
}

/// The key that a map entry's key value makes (see `spec_map_key`).
fn map_key<'a>(v: &Value<'a>) -> (r: Option<MapKey<'a>>)
    ensures
        match r {
            Some(k) => spec_map_key(v@) == Some(k@),
            None => spec_map_key(v@) is None,
        },
{
    match v {
        Value::Bool(b) => Some(MapKey::Bool(*b)),
        Value::Int32(x) => Some(MapKey::Int32(*x)),
        Value::Int64(x) => Some(MapKey::Int64(*x)),
        Value::UInt32(x) => Some(MapKey::UInt32(*x)),
        Value::UInt64(x) => Some(MapKey::UInt64(*x)),
        Value::String(s) => Some(MapKey::String(*s)),
        _ => None,
    }
}

fn bytes_eq(a: &[u8], b: &[u8]) -> (r: bool)
    ensures
        r == (a@ == b@),
{
    if a.len() != b.len() {
        return false;
    }
    let mut i: usize = 0;
    while i < a.len()
        invariant
            i <= a@.len(),
            a@.len() == b@.len(),
            forall|j: int| 0 <= j < i ==> a@[j] == b@[j],
        decreases a@.len() - i,
    {
        if a[i] != b[i] {
            return false;
        }
        i += 1;
    }
    assert(a@ =~= b@);
    true
}

fn map_key_eq(a: &MapKey, b: &MapKey) -> (r: bool)
    ensures
        r == (a@ == b@),
{
    match (a, b) {
        (MapKey::Bool(x), MapKey::Bool(y)) => *x == *y,
        (MapKey::Int32(x), MapKey::Int32(y)) => *x == *y,
        (MapKey::Int64(x), MapKey::Int64(y)) => *x == *y,
        (MapKey::UInt32(x), MapKey::UInt32(y)) => *x == *y,
        (MapKey::UInt64(x), MapKey::UInt64(y)) => *x == *y,
        (MapKey::String(x), MapKey::String(y)) => bytes_eq(x, y),
        _ => false,
    }
}

pub open spec fn spec_keys_view(v: Seq<MapKey>) -> Seq<MapKeyView> {
    v.map_values(|k: MapKey| k@)
}

fn seen_contains(seen: &Vec<MapKey>, k: &MapKey) -> (r: bool)
    ensures
        r == spec_keys_view(seen@).contains(k@),
{
    let mut i: usize = 0;
    while i < seen.len()
        invariant
            i <= seen@.len(),
            forall|j: int| 0 <= j < i ==> seen@[j]@ != k@,
        decreases seen@.len() - i,
    {
        if map_key_eq(&seen[i], k) {
            assert(spec_keys_view(seen@)[i as int] == k@);
            return true;
        }
        i += 1;
    }
    assert forall|j: int| 0 <= j < spec_keys_view(seen@).len() implies spec_keys_view(seen@)[j] != k@ by {
        assert(spec_keys_view(seen@)[j] == seen@[j]@);
    }
    false
}

fn map_key_text(k: &MapKey) -> (r: Vec<u8>)
    ensures
        r@ == spec_map_key_text(k@),
{
    let mut out: Vec<u8> = Vec::new();
    match k {
        MapKey::Bool(b) => if *b {
            text("true")
        } else {
            text("false")
        },
        MapKey::Int32(x) => {
            push_signed_decimal(&mut out, *x as i64);
            assert(out@ =~= spec_map_key_text(k@));
            out
        },
        MapKey::Int64(x) => {
            push_signed_decimal(&mut out, *x);
            assert(out@ =~= spec_map_key_text(k@));
            out
        },
        MapKey::UInt32(x) => {
            push_decimal(&mut out, *x as u64);
            assert(out@ =~= spec_map_key_text(k@));
            out
        },
        MapKey::UInt64(x) => {
            push_decimal(&mut out, *x);
            assert(out@ =~= spec_map_key_text(k@));
            out
        },
        MapKey::String(s) => copy_bytes(s),
    }
}

/// The seconds and nanoseconds of a timestamp or duration message (see
/// `spec_seconds_nanos`).
fn seconds_nanos(m: &DynamicMessage) -> (r: Result<(i64, i32), JsonError>)
    requires
        m.wf(),
        spec_fields_have_entries(m.tables@),
    ensures
        r == spec_seconds_nanos(m.object@, m.tables@[m.table as int]),
{
    let (_, sv) = match find_numbered(m, 1) {
        Err(e) => return Err(e),
        Ok(p) => p,
    };
    let (_, nv) = match find_numbered(m, 2) {
        Err(e) => return Err(e),
        Ok(p) => p,
    };
    let seconds: i64 = match sv {
        Some(Value::Int64(s)) => s,
        _ => 0,
    };
    let nanos: i32 = match nv {
        Some(Value::Int32(n)) => n,
        _ => 0,
    };
    Ok((seconds, nanos))
}

fn timestamp_json(seconds: i64, nanos: i32) -> (r: Result<JsonValue, JsonError>)
    ensures
        spec_json_result(r) == spec_timestamp_json(seconds, nanos),
{
    match format_timestamp(seconds, nanos) {
        Err(e) => Err(JsonError::Time(e)),
        Ok(s) => {
            let b = s.as_str().as_bytes();
            Ok(JsonValue::String(copy_bytes(b)))
        },
    }
}

fn duration_json(seconds: i64, nanos: i32) -> (r: Result<JsonValue, JsonError>)
    ensures
        spec_json_result(r) == spec_duration_json(seconds, nanos),
{
    match validate_duration(seconds, nanos) {
        Err(e) => return Err(JsonError::Time(e)),
        Ok(_) => {},
    }
    match format_duration(seconds, nanos) {
        Ok(b) => Ok(JsonValue::String(b)),
        Err(e) => Err(JsonError::Time(e)),
    }
}

/// The JSON form of a wrapper message (see `spec_wrapper_json`).
fn wrapper_json(m: &DynamicMessage, w: WellKnownType) -> (r: Result<JsonValue, JsonError>)
    requires
        m.wf(),
        spec_fields_have_entries(m.tables@),
    ensures
        spec_json_result(r) == spec_wrapper_json(m.object@, m.tables@[m.table as int], w),
{
    let (_, v) = match find_numbered(m, 1) {
        Err(e) => return Err(e),
        Ok(p) => p,
    };
    match v {
        None => Ok(JsonValue::Null),
        Some(v) => match (w, v) {
            (WellKnownType::BoolValue, Value::Bool(b)) => Ok(JsonValue::Bool(b)),
            (WellKnownType::Int32Value, Value::Int32(x)) => Ok(JsonValue::Int(x as i64)),
            (WellKnownType::Int64Value, Value::Int64(x)) => Ok(JsonValue::Int(x)),
            (WellKnownType::UInt32Value, Value::UInt32(x)) => Ok(JsonValue::UInt(x as u64)),
            (WellKnownType::UInt64Value, Value::UInt64(x)) => Ok(JsonValue::UInt(x)),
            (WellKnownType::FloatValue, Value::Float(b)) => Ok(JsonValue::Float(b)),
            (WellKnownType::DoubleValue, Value::Double(b)) => Ok(JsonValue::Double(b)),
            (WellKnownType::StringValue, Value::String(s)) => Ok(JsonValue::String(copy_bytes(s))),
            (WellKnownType::StringValue, _) => Ok(JsonValue::Null),
            (WellKnownType::BytesValue, Value::Bytes(b)) => bytes_json(b),
            (WellKnownType::BytesValue, _) => Ok(JsonValue::Null),
            _ => Err(JsonError::WrongType),
        },
    }
}

proof fn lemma_fields_json_err(tables: Seq<Table>, t: int, o: ObjectView, a: int, b: int, fuel: nat)
    requires
        0 < a <= b,
        spec_fields_json(tables, t, o, a, fuel) is Err,
    ensures
        spec_fields_json(tables, t, o, b, fuel) == spec_fields_json(tables, t, o, a, fuel),
    decreases b - a,
{
    if a < b {
        lemma_fields_json_err(tables, t, o, a, b - 1, fuel);
    }
}

proof fn lemma_array_json_err(tables: Seq<Table>, ct: int, cs: Seq<ObjectView>, a: int, b: int, fuel: nat)
    requires
        0 < a <= b,
        spec_array_json(tables, ct, cs, a, fuel) is Err,
    ensures
        spec_array_json(tables, ct, cs, b, fuel) == spec_array_json(tables, ct, cs, a, fuel),
    decreases b - a,
{
    if a < b {
        lemma_array_json_err(tables, ct, cs, a, b - 1, fuel);
    }
}

proof fn lemma_map_json_err(tables: Seq<Table>, ct: int, cs: Seq<ObjectView>, a: int, b: int, fuel: nat)
    requires
        0 < a <= b,
        spec_map_json(tables, ct, cs, a, fuel) is Err,
    ensures
        spec_map_json(tables, ct, cs, b, fuel) == spec_map_json(tables, ct, cs, a, fuel),
    decreases b - a,
{
    if a < b {
        lemma_map_json_err(tables, ct, cs, a, b - 1, fuel);
    }
}

/// The JSON form of message `m`, with at most `fuel` levels of nested
/// messages (see `spec_message_json`).
pub fn message_to_json(m: &DynamicMessage, fuel: usize) -> (r: Result<JsonValue, JsonError>)
    requires
        m.wf(),
        spec_fields_have_entries(m.tables@),
    ensures
        spec_json_result(r) == spec_message_json(m.tables@, m.table as int, m.object@, fuel as nat),
    decreases fuel, 1int,
{
    let tables = m.tables;
    let table = &tables[m.table];
    match detect_well_known_type(&table.descriptor) {
        WellKnownType::Timestamp => match seconds_nanos(m) {
            Err(e) => Err(e),
            Ok((s, n)) => timestamp_json(s, n),
        },
        WellKnownType::Duration => match seconds_nanos(m) {
            Err(e) => Err(e),
            Ok((s, n)) => duration_json(s, n),
        },
        WellKnownType::Plain => {
            let fields = &table.descriptor.field;
            let ghost fv = table.descriptor@.fields;
            let ghost t = m.table as int;
            let mut out: Vec<(Vec<u8>, JsonValue)> = Vec::new();
            assert(spec_members_view(out@) =~= Seq::empty());
            let mut i: usize = 0;
            while i < fields.len()
                invariant
                    i <= fields@.len(),
                    m.wf(),
                    spec_fields_have_entries(m.tables@),
                    tables == m.tables,
                    t == m.table as int,
                    *table == tables@[t],
                    *fields == table.descriptor.field,
                    fv == table.descriptor@.fields,
                    spec_well_known(table.descriptor.name@) == WellKnownType::Plain,
                    spec_fields_json(tables@, t, m.object@, i as int, fuel as nat) == Ok::<
                        Seq<(Seq<u8>, JsonView)>,
                        JsonError,
                    >(spec_members_view(out@)),
                decreases fields@.len() - i,
            {
                let f = &fields[i];
                let ghost prev = spec_members_view(out@);
                proof {
                    assert(fv[i as int] == f@);
                    assert(0 <= tables@[t].descriptor.field@[i as int].number < tables@[t].decode_entries@.len());
                }
                match m.get_field(f) {
                    None => {},
                    Some(v) => {
                        match value_to_json(&v, tables, fuel) {
                            Err(e) => {
                                proof {
                                    assert(spec_fields_json(tables@, t, m.object@, i as int + 1, fuel as nat) == Err::<
                                        Seq<(Seq<u8>, JsonView)>,
                                        JsonError,
                                    >(e));
                                    lemma_fields_json_err(tables@, t, m.object@, i as int + 1, fv.len() as int, fuel as nat);
                                }
                                return Err(e);
                            },
                            Ok(j) => {
                                let name = copy_bytes(f.json_name.as_str().as_bytes());
                                out.push((name, j));
                                assert(spec_members_view(out@) =~= prev.push((vstd::utf8::encode_utf8(f@.json_name), j@)));
                            },
                        }
                    },
                }
                i += 1;
            }
            proof {
                lemma_object_view(out);
            }
            Ok(JsonValue::Object(out))
        },
        w => wrapper_json(m, w),
    }
}

/// The JSON form of a field's value, with at most `fuel` levels of nested
/// messages (see `spec_value_json`). Child messages must lie in `tables`.
pub fn value_to_json(v: &Value, tables: &[Table], fuel: usize) -> (r: Result<JsonValue, JsonError>)
    requires
        spec_fields_have_entries(tables@),
        match v {
            Value::Message(c) => c.tables == tables,
            Value::RepeatedMessage(a) => a.tables == tables,
            _ => true,
        },
    ensures
        spec_json_result(r) == spec_value_json(tables@, v@, fuel as nat),
    decreases fuel, 0int,
{
    match v {
        Value::Message(c) => {
            if fuel == 0 {
                return Err(JsonError::TooDeep);
            }
            if c.table >= tables.len() {
                return Err(JsonError::MissingTable);
            }
            message_to_json(c, fuel - 1)
        },
        Value::RepeatedMessage(a) => {
            if fuel == 0 {
                return Err(JsonError::TooDeep);
            }
            if a.table >= tables.len() {
                return Err(JsonError::MissingTable);
            }
            if tables[a.table].descriptor.map_entry {
                map_json(a, tables, fuel - 1)
            } else {
                array_json(a, tables, fuel - 1)
            }
        },
        _ => scalar_json(v),
    }
}

/// The JSON array of the messages of `a`.
fn array_json(a: &DynamicMessageArray, tables: &[Table], fuel: usize) -> (r: Result<JsonValue, JsonError>)
    requires
        spec_fields_have_entries(tables@),
        a.tables == tables,
        a.table < tables@.len(),
    ensures
        spec_json_result(r) == match spec_array_json(tables@, a.table as int, spec_object_views(a.object@), a.object@.len() as int, fuel as nat) {
            Err(e) => Err::<JsonView, JsonError>(e),
            Ok(items) => Ok(JsonView::Array(items)),
        },
    decreases fuel, 2int,
{
    let ghost cs = spec_object_views(a.object@);
    let n = a.len();
    let mut out: Vec<JsonValue> = Vec::new();
    assert(spec_items_view(out@) =~= Seq::empty());
    let mut k: usize = 0;
    while k < n
        invariant
            k <= n,
            n == a.object@.len(),
            cs == spec_object_views(a.object@),
            spec_fields_have_entries(tables@),
            a.tables == tables,
            a.table < tables@.len(),
            spec_array_json(tables@, a.table as int, cs, k as int, fuel as nat) == Ok::<Seq<JsonView>, JsonError>(spec_items_view(out@)),
        decreases n - k,
    {
        let ghost prev = spec_items_view(out@);
        let c = a.get(k);
        assert(c.object@ == cs[k as int]);
        match message_to_json(&c, fuel) {
            Err(e) => {
                proof {
                    lemma_array_json_err(tables@, a.table as int, cs, k as int + 1, n as int, fuel as nat);
                }
                return Err(e);
            },
            Ok(j) => {
                out.push(j);
                assert(spec_items_view(out@) =~= prev.push(j@));
            },
        }
        k += 1;
    }
    proof {
        lemma_array_view(out);
    }
    Ok(JsonValue::Array(out))
}

/// The JSON object of the entries of map field `a` (see `spec_map_json`).
fn map_json(a: &DynamicMessageArray, tables: &[Table], fuel: usize) -> (r: Result<JsonValue, JsonError>)
    requires
        spec_fields_have_entries(tables@),
        a.tables == tables,
        a.table < tables@.len(),
    ensures
        spec_json_result(r) == match spec_map_json(tables@, a.table as int, spec_object_views(a.object@), a.object@.len() as int, fuel as nat) {
            Err(e) => Err::<JsonView, JsonError>(e),
            Ok((members, _)) => Ok(JsonView::Object(members)),
        },
    decreases fuel, 1int,
{
    let ghost cs = spec_object_views(a.object@);
    let ghost ct = a.table as int;
    let n = a.len();
    let mut out: Vec<(Vec<u8>, JsonValue)> = Vec::new();
    let mut seen: Vec<MapKey> = Vec::new();
    assert(spec_members_view(out@) =~= Seq::empty());
    assert(spec_keys_view(seen@) =~= Seq::empty());
    let mut k: usize = 0;
    while k < n
        invariant
            k <= n,
            n == a.object@.len(),
            cs == spec_object_views(a.object@),
            ct == a.table as int,
            spec_fields_have_entries(tables@),
            a.tables == tables,
            a.table < tables@.len(),
            spec_map_json(tables@, ct, cs, k as int, fuel as nat) == Ok::<(Seq<(Seq<u8>, JsonView)>, Seq<MapKeyView>), JsonError>(
                (spec_members_view(out@), spec_keys_view(seen@)),
            ),
        decreases n - k,
    {
        let ghost prev = spec_members_view(out@);
        let ghost prev_seen = spec_keys_view(seen@);
        let entry = a.get(n - 1 - k);
        assert(entry.object@ == cs[cs.len() - (k + 1)]);
        let (kf, kv) = match find_numbered(&entry, 1) {
            Err(e) => {
                proof {
                    lemma_map_json_err(tables@, ct, cs, k as int + 1, n as int, fuel as nat);
                }
                return Err(e);
            },
            Ok(p) => p,
        };
        let (vf, vv) = match find_numbered(&entry, 2) {
            Err(e) => {
                proof {
                    lemma_map_json_err(tables@, ct, cs, k as int + 1, n as int, fuel as nat);
                }
                return Err(e);
            },
            Ok(p) => p,
        };
        let key = match kv {
            Some(x) => Some(x),
            None => default_value(kf),
        };
        let value = match vv {
            Some(x) => Some(x),
            None => default_value(vf),
        };
        match key {
            None => {
                proof {
                    lemma_map_json_err(tables@, ct, cs, k as int + 1, n as int, fuel as nat);
                }
                return Err(JsonError::MissingMapKey);
            },
            Some(kval) => match map_key(&kval) {
                None => {
                    proof {
                        lemma_map_json_err(tables@, ct, cs, k as int + 1, n as int, fuel as nat);
                    }
                    return Err(JsonError::InvalidMapKey);
                },
                Some(mk) => {
                    if seen_contains(&seen, &mk) {
                    } else {
                        match value {
                            None => {
                                out.push((map_key_text(&mk), JsonValue::Null));
                                seen.push(mk);
                            },
                            Some(x) => match value_to_json(&x, tables, fuel) {
                                Err(e) => {
                                    proof {
                                        lemma_map_json_err(tables@, ct, cs, k as int + 1, n as int, fuel as nat);
                                    }
                                    return Err(e);
                                },
                                Ok(j) => {
                                    out.push((map_key_text(&mk), j));
                                    seen.push(mk);
                                },
                            },
                        }
                        assert(spec_members_view(out@) =~= prev.push(spec_members_view(out@).last()));
                        assert(spec_keys_view(seen@) =~= prev_seen.push(mk@));
                    }
                },
            },
        }
        k += 1;
    }
    proof {
        lemma_object_view(out);
    }
    Ok(JsonValue::Object(out))
}

/// The JSON object of a map field has one member per key: the keys seen
/// are distinct, one per member, and each member is named by its key.
pub proof fn lemma_map_keys_distinct(tables: Seq<Table>, ct: int, cs: Seq<ObjectView>, k: int, fuel: nat)
    requires
        spec_map_json(tables, ct, cs, k, fuel) is Ok,
    ensures
        ({
            let (members, seen) = spec_map_json(tables, ct, cs, k, fuel)->Ok_0;
            &&& seen.no_duplicates()
            &&& members.len() == seen.len()
            &&& forall|i: int| 0 <= i < members.len() ==> #[trigger] members[i].0 == spec_map_key_text(seen[i])
        }),
    decreases k,
{
    if k > 0 {
        if spec_map_json(tables, ct, cs, k - 1, fuel) is Err {
            assert(spec_map_json(tables, ct, cs, k, fuel) is Err);
        } else {
            lemma_map_keys_distinct(tables, ct, cs, k - 1, fuel);
        }
    } else {
        assert(Seq::<MapKeyView>::empty().no_duplicates());
    }
}

} // verus!
