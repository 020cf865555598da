use protocrap::base::Object;
use protocrap::descriptor::{DescriptorProto, FieldDescriptorProto, FieldType, FileDescriptorProto, Label};
use protocrap::reflection::DescriptorPool;
use protocrap::samples::{make_large, make_medium, make_small, test_file, test_pool};
use protocrap::streaming::{decode_flat, encode_vec};

const STACK_DEPTH: usize = 32;

fn test_table(pool: &DescriptorPool) -> usize {
    pool.find_table(&String::from("Test")).expect("Test is in the pool")
}

fn assert_roundtrip(pool: &DescriptorPool, t: usize, msg: &Object) {
    let data = encode_vec(pool.tables.as_slice(), t, msg, STACK_DEPTH).expect("msg should encode");
    let mut roundtrip_msg = Object::create(&pool.tables[t]);
    assert!(decode_flat(pool.tables.as_slice(), t, &mut roundtrip_msg, STACK_DEPTH, &data));
    let roundtrip_data =
        encode_vec(pool.tables.as_slice(), t, &roundtrip_msg, STACK_DEPTH).expect("msg should encode");
    assert_eq!(roundtrip_data, data);
}

#[test]
fn lib_test_small_roundtrips() {
    let pool = test_pool();
    let t = test_table(&pool);
    assert_roundtrip(&pool, t, &make_small());
}

#[test]
fn lib_test_medium_roundtrips() {
    let pool = test_pool();
    let t = test_table(&pool);
    assert_roundtrip(&pool, t, &make_medium());
}

#[test]
fn lib_test_large_roundtrips() {
    let pool = test_pool();
    let t = test_table(&pool);
    assert_roundtrip(&pool, t, &make_large());
}

#[test]
fn small_message_encodes_to_known_bytes() {
    let pool = test_pool();
    let t = test_table(&pool);
    let data = encode_vec(pool.tables.as_slice(), t, &make_small(), STACK_DEPTH).unwrap();
    // field 1 varint 42, field 2 fixed64 0xDEADBEEF
    assert_eq!(data, vec![0x08, 42, 0x11, 0xEF, 0xBE, 0xAD, 0xDE, 0, 0, 0, 0]);
}

#[test]
fn decoded_object_equals_the_encoded_one() {
    let pool = test_pool();
    let t = test_table(&pool);
    let msg = make_medium();
    let data = encode_vec(pool.tables.as_slice(), t, &msg, STACK_DEPTH).unwrap();
    let back = pool.decode_message("Test", &data).expect("decodes");
    assert_eq!(back.has_bits, msg.has_bits);
    assert_eq!(back.get(0), 42);
    assert_eq!(back.get(1), 0xDEADBEEF);
    assert_eq!(back.bytes(2), "Hello World! This is a test string with some content.".as_bytes());
    let child = back.child(3).expect("child1 is present");
    assert_eq!(child.get(0), 123);
    assert_eq!(child.get(1), 456);
}

fn dfield(name: &str, number: i32, label: Label, field_type: FieldType, child_type: &str) -> FieldDescriptorProto {
    FieldDescriptorProto {
        name: name.to_string(),
        number,
        label,
        field_type,
        child_type: child_type.to_string(),
        json_name: name.to_string(),
        options: None,
    }
}

fn dmessage(name: &str, field: Vec<FieldDescriptorProto>) -> DescriptorProto {
    DescriptorProto { name: name.to_string(), field, nested_type: Vec::new(), map_entry: false }
}

/// The part of `google/protobuf/descriptor.proto` that describes files,
/// message types and fields.
fn descriptor_file() -> FileDescriptorProto {
    let file = dmessage(
        "FileDescriptorProto",
        vec![
            dfield("name", 1, Label::Optional, FieldType::String, ""),
            dfield("package", 2, Label::Optional, FieldType::String, ""),
            dfield("message_type", 4, Label::Repeated, FieldType::Message, ".google.protobuf.DescriptorProto"),
            dfield("syntax", 12, Label::Optional, FieldType::String, ""),
        ],
    );
    let message = dmessage(
        "DescriptorProto",
        vec![
            dfield("name", 1, Label::Optional, FieldType::String, ""),
            dfield("field", 2, Label::Repeated, FieldType::Message, ".google.protobuf.FieldDescriptorProto"),
            dfield("nested_type", 3, Label::Repeated, FieldType::Message, ".google.protobuf.DescriptorProto"),
            dfield("options", 7, Label::Optional, FieldType::Message, ".google.protobuf.MessageOptions"),
        ],
    );
    let field = dmessage(
        "FieldDescriptorProto",
        vec![
            dfield("name", 1, Label::Optional, FieldType::String, ""),
            dfield("number", 3, Label::Optional, FieldType::Int32, ""),
            dfield("label", 4, Label::Optional, FieldType::Enum, ""),
            dfield("type", 5, Label::Optional, FieldType::Enum, ""),
            dfield("type_name", 6, Label::Optional, FieldType::String, ""),
            dfield("json_name", 10, Label::Optional, FieldType::String, ""),
            dfield("options", 8, Label::Optional, FieldType::Message, ".google.protobuf.FieldOptions"),
        ],
    );
    let message_options = dmessage("MessageOptions", vec![dfield("map_entry", 7, Label::Optional, FieldType::Bool, "")]);
    let field_options = dmessage("FieldOptions", vec![dfield("packed", 2, Label::Optional, FieldType::Bool, "")]);
    FileDescriptorProto {
        name: "google/protobuf/descriptor.proto".to_string(),
        package: Some("google.protobuf".to_string()),
        message_type: vec![file, message, field, message_options, field_options],
        syntax: Some("proto2".to_string()),
    }
}

fn type_number(t: FieldType) -> u64 {
    match t {
        FieldType::Double => 1,
        FieldType::Float => 2,
        FieldType::Int64 => 3,
        FieldType::Uint64 => 4,
        FieldType::Int32 => 5,
        FieldType::Fixed64 => 6,
        FieldType::Fixed32 => 7,
        FieldType::Bool => 8,
        FieldType::String => 9,
        FieldType::Group => 10,
        FieldType::Message => 11,
        FieldType::Bytes => 12,
        FieldType::Uint32 => 13,
        FieldType::Enum => 14,
        FieldType::Sfixed32 => 15,
        FieldType::Sfixed64 => 16,
        FieldType::Sint32 => 17,
        FieldType::Sint64 => 18,
    }
}

fn label_number(l: Label) -> u64 {
    match l {
        Label::Optional => 1,
        Label::Required => 2,
        Label::Repeated => 3,
    }
}

fn field_object(pool: &DescriptorPool, f: &FieldDescriptorProto) -> Object {
    let t = pool.find_table(&String::from("google.protobuf.FieldDescriptorProto")).unwrap();
    let mut o = Object::create(&pool.tables[t]);
    o.set_bytes(0, 0, f.name.as_bytes());
    o.set(1, 1, f.number as u32 as u64);
    o.set(2, 2, label_number(f.label));
    o.set(3, 3, type_number(f.field_type));
    if !f.child_type.is_empty() {
        o.set_bytes(4, 4, f.child_type.as_bytes());
    }
    o.set_bytes(5, 5, f.json_name.as_bytes());
    o
}

fn message_object(pool: &DescriptorPool, d: &DescriptorProto) -> Object {
    let t = pool.find_table(&String::from("google.protobuf.DescriptorProto")).unwrap();
    let mut o = Object::create(&pool.tables[t]);
    o.set_bytes(0, 0, d.name.as_bytes());
    for f in &d.field {
        o.add_child(1, field_object(pool, f));
    }
    for n in &d.nested_type {
        o.add_child(2, message_object(pool, n));
    }
    o
}

fn file_object(pool: &DescriptorPool, file: &FileDescriptorProto) -> Object {
    let t = pool.find_table(&String::from("google.protobuf.FileDescriptorProto")).unwrap();
    let mut o = Object::create(&pool.tables[t]);
    o.set_bytes(0, 0, file.name.as_bytes());
    if let Some(p) = &file.package {
        o.set_bytes(1, 1, p.as_bytes());
    }
    for m in &file.message_type {
        o.add_child(2, message_object(pool, m));
    }
    if let Some(s) = &file.syntax {
        o.set_bytes(3, 2, s.as_bytes());
    }
    o
}

#[test]
fn file_descriptor_roundtrip() {
    let mut pool = DescriptorPool::new();
    let descriptor = descriptor_file();
    assert!(pool.try_add_file(&descriptor));
    let t = pool.find_table(&String::from("google.protobuf.FileDescriptorProto")).unwrap();
    assert_roundtrip(&pool, t, &file_object(&pool, &descriptor));
    assert_roundtrip(&pool, t, &file_object(&pool, &test_file()));
}

#[test]
fn unknown_fields_are_dropped_wherever_they_stand() {
    let pool = test_pool();
    let t = test_table(&pool);
    let data = encode_vec(pool.tables.as_slice(), t, &make_medium(), STACK_DEPTH).unwrap();
    // field 100, wire type 0, value 5; field 101, wire type 2, two bytes
    let unknowns: [&[u8]; 2] = [&[0xa0, 0x06, 0x05], &[0xaa, 0x06, 0x02, 0x01, 0x02]];
    for u in unknowns {
        let mut after = data.clone();
        after.extend_from_slice(u);
        let mut before = u.to_vec();
        before.extend_from_slice(&data);
        for bytes in [after, before] {
            let mut obj = Object::create(&pool.tables[t]);
            assert!(decode_flat(pool.tables.as_slice(), t, &mut obj, STACK_DEPTH, &bytes));
            assert_eq!(encode_vec(pool.tables.as_slice(), t, &obj, STACK_DEPTH).unwrap(), data);
        }
    }
}

#[test]
fn later_fields_merge_into_earlier_ones() {
    let pool = test_pool();
    let t = test_table(&pool);
    // x = 1, then x = 2: the last value wins
    let mut obj = Object::create(&pool.tables[t]);
    assert!(decode_flat(pool.tables.as_slice(), t, &mut obj, STACK_DEPTH, &[0x08, 0x01, 0x08, 0x02]));
    assert_eq!(obj.get(0), 2);
    // rep_bytes (7) twice: both kept, in order
    let mut obj = Object::create(&pool.tables[t]);
    assert!(decode_flat(pool.tables.as_slice(), t, &mut obj, STACK_DEPTH, &[0x3a, 0x01, b'a', 0x3a, 0x01, b'b']));
    let reps = obj.get_bytes_slice(6);
    assert_eq!(reps.len(), 2);
    assert_eq!(reps[0].slice(), b"a");
    assert_eq!(reps[1].slice(), b"b");
}
