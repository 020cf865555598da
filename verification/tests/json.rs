use protocrap::base::Object;
use protocrap::descriptor::{DescriptorProto, FieldDescriptorProto, FieldType, FileDescriptorProto, Label};
use protocrap::json::{fields_have_entries, message_to_json, JsonError, JsonValue};
use protocrap::json_read::{JsonInput, JsonNumber, JsonText, NumberValue, SerdeDeserialize};
use protocrap::reflection::{DescriptorPool, DynamicMessage};
use protocrap::samples::{make_large, make_medium, make_small, test_pool};
use protocrap::streaming::encode_vec;
use protocrap::table_json::{serde_serialize, SerdeProtobuf, SerdeProtobufSlice};
use protocrap::wellknown::TimeError;

const DEPTH: usize = 100;

fn table_of(pool: &DescriptorPool, name: &str) -> usize {
    pool.find_table(&String::from(name)).expect("type is in the pool")
}

fn number(value: NumberValue) -> JsonNumber {
    let f: f64 = match value {
        NumberValue::PosInt(u) => u as f64,
        NumberValue::NegInt(i) => i as f64,
        NumberValue::Float(b) => f64::from_bits(b),
    };
    let f32_bits = match value {
        NumberValue::PosInt(u) => (u as f32).to_bits(),
        NumberValue::NegInt(i) => (i as f32).to_bits(),
        NumberValue::Float(b) => (f64::from_bits(b) as f32).to_bits(),
    };
    JsonNumber { value, to_f32: f32_bits, to_f64: f.to_bits(), trunc_i32: f as i32, trunc_u32: f as u32 }
}

fn text(s: &str) -> JsonInput {
    JsonInput::String(JsonText {
        text: s.as_bytes().to_vec(),
        parsed_f32: s.parse::<f32>().ok().map(|f| f.to_bits()),
        parsed_f64: s.parse::<f64>().ok().map(|f| f.to_bits()),
    })
}

fn object(members: Vec<(&str, JsonInput)>) -> JsonInput {
    JsonInput::Object(members.into_iter().map(|(k, v)| (k.as_bytes().to_vec(), v)).collect())
}

/// What reading the JSON text of `v` back gives, as a JSON reader reports it.
fn reread(v: &JsonValue) -> JsonInput {
    match v {
        JsonValue::Null => JsonInput::Null,
        JsonValue::Bool(b) => JsonInput::Bool(*b),
        JsonValue::Int(i) => {
            if *i < 0 {
                JsonInput::Number(number(NumberValue::NegInt(*i)))
            } else {
                JsonInput::Number(number(NumberValue::PosInt(*i as u64)))
            }
        }
        JsonValue::UInt(u) => JsonInput::Number(number(NumberValue::PosInt(*u))),
        JsonValue::Float(b) => {
            let f: f64 = f32::from_bits(*b).to_string().parse().unwrap();
            JsonInput::Number(number(NumberValue::Float(f.to_bits())))
        }
        JsonValue::Double(b) => JsonInput::Number(number(NumberValue::Float(*b))),
        JsonValue::String(s) => text(std::str::from_utf8(s).unwrap()),
        JsonValue::Array(items) => JsonInput::Array(items.iter().map(reread).collect()),
        JsonValue::Object(members) => {
            JsonInput::Object(members.iter().map(|(k, v)| (k.clone(), reread(v))).collect())
        }
    }
}

fn to_json(pool: &DescriptorPool, t: usize, msg: &Object) -> Result<JsonValue, JsonError> {
    assert!(fields_have_entries(&pool.tables));
    message_to_json(&DynamicMessage::new(msg, &pool.tables, t), DEPTH)
}

fn from_json(pool: &DescriptorPool, t: usize, input: &JsonInput) -> Result<Object, JsonError> {
    SerdeDeserialize::new(&pool.tables, t).deserialize(input, DEPTH)
}

fn assert_json_roundtrip(pool: &DescriptorPool, t: usize, msg: &Object) {
    let serialized = to_json(pool, t, msg).expect("should serialize");
    let roundtrip_msg = from_json(pool, t, &reread(&serialized)).expect("should deserialize");
    let data = encode_vec(&pool.tables, t, msg, DEPTH).expect("msg should encode");
    let roundtrip_data = encode_vec(&pool.tables, t, &roundtrip_msg, DEPTH).expect("msg should encode");
    assert_eq!(roundtrip_data, data);
}

fn err<T>(r: Result<T, JsonError>) -> JsonError {
    match r {
        Err(e) => e,
        Ok(_) => panic!("expected an error"),
    }
}

fn members(v: &JsonValue) -> Vec<(String, &JsonValue)> {
    match v {
        JsonValue::Object(ms) => ms.iter().map(|(k, v)| (String::from_utf8(k.clone()).unwrap(), v)).collect(),
        other => panic!("not an object: {:?}", other),
    }
}

fn string_of(v: &JsonValue) -> String {
    match v {
        JsonValue::String(s) => String::from_utf8(s.clone()).unwrap(),
        other => panic!("not a string: {:?}", other),
    }
}

#[test]
fn test_small_serde_serialization() {
    let pool = test_pool();
    let t = table_of(&pool, "Test");
    assert_json_roundtrip(&pool, t, &make_small());
}

#[test]
fn test_medium_serde_serialization() {
    let pool = test_pool();
    let t = table_of(&pool, "Test");
    assert_json_roundtrip(&pool, t, &make_medium());
}

#[test]
fn test_large_serde_serialization() {
    let pool = test_pool();
    let t = table_of(&pool, "Test");
    assert_json_roundtrip(&pool, t, &make_large());
}

#[test]
fn small_message_json_has_present_fields_only() {
    let pool = test_pool();
    let t = table_of(&pool, "Test");
    let json = to_json(&pool, t, &make_small()).unwrap();
    let ms = members(&json);
    assert_eq!(ms.len(), 2);
    assert_eq!(ms[0].0, "x");
    assert!(matches!(*ms[0].1, JsonValue::UInt(42)));
    assert_eq!(ms[1].0, "y");
    assert!(matches!(*ms[1].1, JsonValue::UInt(0xDEADBEEF)));
}

#[test]
fn medium_message_json_has_base64_bytes_and_child() {
    let pool = test_pool();
    let t = table_of(&pool, "Test");
    let json = to_json(&pool, t, &make_medium()).unwrap();
    let ms = members(&json);
    let names: Vec<&str> = ms.iter().map(|(k, _)| k.as_str()).collect();
    assert_eq!(names, vec!["x", "y", "z", "child1"]);
    assert_eq!(
        string_of(ms[2].1),
        "SGVsbG8gV29ybGQhIFRoaXMgaXMgYSB0ZXN0IHN0cmluZyB3aXRoIHNvbWUgY29udGVudC4="
    );
    let child = members(ms[3].1);
    assert_eq!(child.len(), 2);
    assert!(matches!(*child[0].1, JsonValue::UInt(123)));
}

#[test]
fn large_message_json_names_repeated_fields_by_json_name() {
    let pool = test_pool();
    let t = table_of(&pool, "Test");
    let json = to_json(&pool, t, &make_large()).unwrap();
    let ms = members(&json);
    let names: Vec<&str> = ms.iter().map(|(k, _)| k.as_str()).collect();
    assert_eq!(names, vec!["x", "y", "z", "nestedMessage", "repBytes"]);
    match ms[3].1 {
        JsonValue::Array(items) => {
            assert_eq!(items.len(), 100);
            let last = members(&items[99]);
            assert!(matches!(*last[0].1, JsonValue::Int(99)));
        }
        other => panic!("not an array: {:?}", other),
    }
    match ms[4].1 {
        JsonValue::Array(items) => {
            assert_eq!(items.len(), 5);
            assert_eq!(string_of(&items[0]), "Ynl0ZSBhcnJheSBudW1iZXIgMA==");
        }
        other => panic!("not an array: {:?}", other),
    }
}

#[test]
fn json_depth_limit_is_too_deep() {
    let pool = test_pool();
    let t = table_of(&pool, "Test");
    let msg = make_medium();
    let r = message_to_json(&DynamicMessage::new(&msg, &pool.tables, t), 0);
    assert_eq!(err(r), JsonError::TooDeep);
    let input = object(vec![("child1", object(vec![("child1", object(vec![]))]))]);
    assert!(SerdeDeserialize::new(&pool.tables, t).deserialize(&input, 2).is_ok());
    assert_eq!(err(SerdeDeserialize::new(&pool.tables, t).deserialize(&input, 1)), JsonError::TooDeep);
}

#[test]
fn reading_accepts_numbers_strings_and_fractions_for_integers() {
    let pool = test_pool();
    let t = table_of(&pool, "Test");
    let o = from_json(&pool, t, &object(vec![("x", text("42"))])).unwrap();
    assert_eq!(o.get(0), 42);
    assert_eq!(o.has_bits, 1);
    let o = from_json(&pool, t, &object(vec![("x", JsonInput::Number(number(NumberValue::Float(3.9f64.to_bits()))))])).unwrap();
    assert_eq!(o.get(0), 3);
    let o = from_json(&pool, t, &object(vec![("x", JsonInput::Number(number(NumberValue::NegInt(-1))))])).unwrap();
    assert_eq!(o.get(0), 0xffff_ffff);
    let o = from_json(&pool, t, &object(vec![("y", text("18446744073709551615"))])).unwrap();
    assert_eq!(o.get(1), u64::MAX);
}

#[test]
fn reading_null_leaves_fields_unset() {
    let pool = test_pool();
    let t = table_of(&pool, "Test");
    let o = from_json(&pool, t, &object(vec![("x", JsonInput::Null), ("child1", JsonInput::Null), ("repBytes", JsonInput::Null)])).unwrap();
    assert_eq!(o.has_bits, 0);
    assert!(o.child(3).is_none());
    assert_eq!(o.get_bytes_slice(6).len(), 0);
}

#[test]
fn reading_bytes_from_base64_or_byte_arrays() {
    let pool = test_pool();
    let t = table_of(&pool, "Test");
    let o = from_json(&pool, t, &object(vec![("z", text("SGk="))])).unwrap();
    assert_eq!(o.bytes(2), b"Hi");
    let arr = JsonInput::Array(vec![
        JsonInput::Number(number(NumberValue::PosInt(72))),
        JsonInput::Number(number(NumberValue::PosInt(105))),
    ]);
    let o = from_json(&pool, t, &object(vec![("repBytes", JsonInput::Array(vec![arr, text("AAE=")]))])).unwrap();
    let bs = o.get_bytes_slice(6);
    assert_eq!(bs.len(), 2);
    assert_eq!(bs[0].slice(), b"Hi");
    assert_eq!(bs[1].slice(), &[0u8, 1u8][..]);
}

#[test]
fn reading_errors() {
    let pool = test_pool();
    let t = table_of(&pool, "Test");
    assert_eq!(err(from_json(&pool, t, &object(vec![("nope", JsonInput::Null)]))), JsonError::UnknownField);
    assert_eq!(err(from_json(&pool, t, &object(vec![("rep_bytes", JsonInput::Null)]))), JsonError::UnknownField);
    assert_eq!(err(from_json(&pool, t, &object(vec![("x", text("4x2"))]))), JsonError::InvalidNumber);
    assert_eq!(err(from_json(&pool, t, &object(vec![("x", JsonInput::Bool(true))]))), JsonError::InvalidType);
    assert_eq!(err(from_json(&pool, t, &object(vec![("z", text("!!!"))]))), JsonError::InvalidBase64);
    let big = JsonInput::Array(vec![JsonInput::Number(number(NumberValue::PosInt(300)))]);
    assert_eq!(err(from_json(&pool, t, &object(vec![("z", big)]))), JsonError::OutOfRange);
    assert_eq!(err(from_json(&pool, t, &JsonInput::Array(vec![]))), JsonError::InvalidType);
    assert_eq!(err(from_json(&pool, t, &object(vec![("nestedMessage", object(vec![]))]))), JsonError::InvalidType);
    assert_eq!(err(SerdeDeserialize::new(&pool.tables, 99).deserialize(&object(vec![]), DEPTH)), JsonError::MissingTable);
}

#[test]
fn later_members_overwrite_or_append() {
    let pool = test_pool();
    let t = table_of(&pool, "Test");
    let one = object(vec![("x", JsonInput::Number(number(NumberValue::PosInt(1))))]);
    let two = object(vec![("x", JsonInput::Number(number(NumberValue::PosInt(2))))]);
    let input = object(vec![
        ("x", JsonInput::Number(number(NumberValue::PosInt(5)))),
        ("x", JsonInput::Number(number(NumberValue::PosInt(6)))),
        ("nestedMessage", JsonInput::Array(vec![one])),
        ("nestedMessage", JsonInput::Array(vec![two])),
    ]);
    let o = from_json(&pool, t, &input).unwrap();
    assert_eq!(o.get(0), 6);
    let cs = o.children(5);
    assert_eq!(cs.len(), 2);
    assert_eq!(cs[0].get(0), 1);
    assert_eq!(cs[1].get(0), 2);
}

// ----- well-known types and maps -----

fn field(name: &str, number: i32, label: Label, field_type: FieldType, child_type: &str) -> FieldDescriptorProto {
    FieldDescriptorProto {
        name: name.to_string(),
        number,
        label,
        field_type,
        child_type: child_type.to_string(),
        json_name: name.to_string(),
        options: None,
    }
}

fn message(name: &str, field: Vec<FieldDescriptorProto>, nested_type: Vec<DescriptorProto>, map_entry: bool) -> DescriptorProto {
    DescriptorProto { name: name.to_string(), field, nested_type, map_entry }
}

fn wkt_pool() -> DescriptorPool {
    let entry = message(
        "CountsEntry",
        vec![
            field("key", 1, Label::Optional, FieldType::String, ""),
            field("value", 2, Label::Optional, FieldType::Int32, ""),
        ],
        vec![],
        true,
    );
    let holder = message(
        "Holder",
        vec![
            field("counts", 1, Label::Repeated, FieldType::Message, ".w.Holder.CountsEntry"),
            field("when", 2, Label::Optional, FieldType::Message, ".w.Timestamp"),
            field("wrapped", 3, Label::Optional, FieldType::Message, ".w.Int32Value"),
        ],
        vec![entry],
        false,
    );
    let file = FileDescriptorProto {
        name: "w.proto".to_string(),
        package: Some("w".to_string()),
        message_type: vec![
            message("Int32Value", vec![field("value", 1, Label::Optional, FieldType::Int32, "")], vec![], false),
            message(
                "Timestamp",
                vec![
                    field("seconds", 1, Label::Optional, FieldType::Int64, ""),
                    field("nanos", 2, Label::Optional, FieldType::Int32, ""),
                ],
                vec![],
                false,
            ),
            message(
                "Duration",
                vec![
                    field("seconds", 1, Label::Optional, FieldType::Int64, ""),
                    field("nanos", 2, Label::Optional, FieldType::Int32, ""),
                ],
                vec![],
                false,
            ),
            holder,
        ],
        syntax: Some("proto3".to_string()),
    };
    let mut pool = DescriptorPool::new();
    assert!(pool.try_add_file(&file));
    pool
}

#[test]
fn wrapper_is_its_bare_value() {
    let pool = wkt_pool();
    let t = table_of(&pool, "w.Int32Value");
    let o = from_json(&pool, t, &object(vec![("value", JsonInput::Number(number(NumberValue::NegInt(-7))))])).unwrap();
    assert!(matches!(to_json(&pool, t, &o).unwrap(), JsonValue::Int(-7)));
    let empty = from_json(&pool, t, &object(vec![])).unwrap();
    assert!(matches!(to_json(&pool, t, &empty).unwrap(), JsonValue::Null));
    let trailing = object(vec![
        ("value", JsonInput::Number(number(NumberValue::PosInt(1)))),
        ("other", JsonInput::Null),
    ]);
    assert_eq!(err(from_json(&pool, t, &trailing)), JsonError::TrailingMembers);
}

#[test]
fn timestamp_and_duration_forms() {
    let pool = wkt_pool();
    let ts = table_of(&pool, "w.Timestamp");
    let o = from_json(&pool, ts, &object(vec![])).unwrap();
    assert_eq!(string_of(&to_json(&pool, ts, &o).unwrap()), "1970-01-01T00:00:00Z");
    let o = from_json(&pool, ts, &object(vec![("seconds", JsonInput::Number(number(NumberValue::PosInt(86400))))])).unwrap();
    assert_eq!(string_of(&to_json(&pool, ts, &o).unwrap()), "1970-01-02T00:00:00Z");
    let bad = object(vec![("nanos", JsonInput::Number(number(NumberValue::NegInt(-1))))]);
    assert_eq!(err(from_json(&pool, ts, &bad)), JsonError::Time(TimeError::NanosOutOfRange));
    let du = table_of(&pool, "w.Duration");
    let o = from_json(
        &pool,
        du,
        &object(vec![
            ("seconds", JsonInput::Number(number(NumberValue::PosInt(1)))),
            ("nanos", JsonInput::Number(number(NumberValue::PosInt(500_000_000)))),
        ]),
    )
    .unwrap();
    assert_eq!(string_of(&to_json(&pool, du, &o).unwrap()), "1.5s");
    let o = from_json(&pool, du, &object(vec![("seconds", JsonInput::Number(number(NumberValue::NegInt(-5))))])).unwrap();
    assert_eq!(string_of(&to_json(&pool, du, &o).unwrap()), "-5s");
}

#[test]
fn map_members_become_entries_and_print_last_first_without_repeats() {
    let pool = wkt_pool();
    let t = table_of(&pool, "w.Holder");
    let counts = object(vec![
        ("a", JsonInput::Number(number(NumberValue::PosInt(1)))),
        ("b", JsonInput::Number(number(NumberValue::PosInt(2)))),
        ("a", JsonInput::Number(number(NumberValue::PosInt(3)))),
    ]);
    let o = from_json(&pool, t, &object(vec![("counts", counts)])).unwrap();
    let json = to_json(&pool, t, &o).unwrap();
    let ms = members(&json);
    assert_eq!(ms.len(), 1);
    assert_eq!(ms[0].0, "counts");
    let entries = members(ms[0].1);
    assert_eq!(entries.len(), 2);
    assert_eq!(entries[0].0, "a");
    assert!(matches!(*entries[0].1, JsonValue::Int(3)));
    assert_eq!(entries[1].0, "b");
    assert!(matches!(*entries[1].1, JsonValue::Int(2)));
}

#[test]
fn nested_well_known_types_inside_a_message() {
    let pool = wkt_pool();
    let t = table_of(&pool, "w.Holder");
    let input = object(vec![
        ("when", object(vec![("seconds", JsonInput::Number(number(NumberValue::PosInt(0))))])),
        ("wrapped", object(vec![("value", JsonInput::Number(number(NumberValue::PosInt(9))))])),
    ]);
    let o = from_json(&pool, t, &input).unwrap();
    let json = to_json(&pool, t, &o).unwrap();
    let ms = members(&json);
    assert_eq!(ms.len(), 2);
    assert_eq!(string_of(ms[0].1), "1970-01-01T00:00:00Z");
    assert!(matches!(*ms[1].1, JsonValue::Int(9)));
}

// ----- the plain form -----

#[test]
fn plain_form_has_every_entry_by_field_name() {
    let pool = test_pool();
    let t = table_of(&pool, "Test");
    let msg = make_medium();
    let json = SerdeProtobuf::new(&msg, &pool.tables, t).serialize(DEPTH).unwrap();
    let ms = members(&json);
    let names: Vec<&str> = ms.iter().map(|(k, _)| k.as_str()).collect();
    assert_eq!(names, vec!["x", "y", "z", "child1", "child2", "nested_message", "rep_bytes"]);
    assert!(matches!(*ms[0].1, JsonValue::UInt(42)));
    match ms[2].1 {
        JsonValue::Array(items) => {
            assert_eq!(items.len(), 53);
            assert!(matches!(items[0], JsonValue::UInt(72)));
        }
        other => panic!("not an array: {:?}", other),
    }
    let child = members(ms[3].1);
    assert_eq!(child.len(), 7);
    assert!(matches!(*child[0].1, JsonValue::UInt(123)));
    assert!(matches!(*child[2].1, JsonValue::Null));
    assert!(matches!(*ms[4].1, JsonValue::Null));
    assert!(matches!(ms[5].1, JsonValue::Array(v) if v.is_empty()));
    let msgs = vec![make_small(), make_small()];
    let slice = SerdeProtobufSlice { objects: &msgs, tables: &pool.tables, table: t };
    match slice.serialize(DEPTH).unwrap() {
        JsonValue::Array(items) => assert_eq!(items.len(), 2),
        other => panic!("not an array: {:?}", other),
    }
}

#[test]
fn plain_form_writes_repeated_bytes_as_base64() {
    let pool = test_pool();
    let t = table_of(&pool, "Test");
    let json = serde_serialize(&make_large(), &pool.tables, t, DEPTH).unwrap();
    let ms = members(&json);
    match ms[6].1 {
        JsonValue::Array(items) => {
            assert_eq!(items.len(), 5);
            assert_eq!(string_of(&items[4]), "Ynl0ZSBhcnJheSBudW1iZXIgNA==");
        }
        other => panic!("not an array: {:?}", other),
    }
    assert_eq!(err(serde_serialize(&make_medium(), &pool.tables, t, 0)), JsonError::TooDeep);
}
