use protocrap::descriptor::{DescriptorProto, FieldDescriptorProto, FieldType, FileDescriptorProto, Label};
use protocrap::reflection::{
    calculate_tag, is_message, is_repeated, needs_has_bit, DescriptorPool, DynamicMessage, PoolError, Value,
};
use protocrap::samples::{make_large, make_medium, test_pool};
use protocrap::streaming::encode_vec;

fn field(number: i32, label: Label, field_type: FieldType) -> FieldDescriptorProto {
    FieldDescriptorProto {
        name: "f".to_string(),
        number,
        label,
        field_type,
        child_type: String::new(),
        json_name: "f".to_string(),
        options: None,
    }
}

#[test]
fn tags_and_field_classes() {
    assert_eq!(calculate_tag(&field(1, Label::Optional, FieldType::Uint32)), 8);
    assert_eq!(calculate_tag(&field(2, Label::Optional, FieldType::Fixed64)), 17);
    assert_eq!(calculate_tag(&field(3, Label::Optional, FieldType::Bytes)), 26);
    assert_eq!(calculate_tag(&field(5, Label::Optional, FieldType::Group)), 43);
    assert_eq!(calculate_tag(&field(7, Label::Repeated, FieldType::Float)), 61);
    assert!(is_repeated(&field(1, Label::Repeated, FieldType::Int32)));
    assert!(is_message(&field(1, Label::Optional, FieldType::Group)));
    assert!(needs_has_bit(&field(1, Label::Optional, FieldType::Int32)));
    assert!(!needs_has_bit(&field(1, Label::Repeated, FieldType::Int32)));
    assert!(!needs_has_bit(&field(1, Label::Optional, FieldType::Message)));
}

#[test]
fn pool_finds_types_by_full_name() {
    let pool = test_pool();
    assert_eq!(pool.names.len(), 3);
    assert!(pool.get_table("Test").is_some());
    assert!(pool.get_table("Test.NestedMessage").is_some());
    assert!(pool.get_table("Missing").is_none());
    assert!(matches!(pool.create_message("Missing"), Err(PoolError::NotFound)));
    assert!(matches!(pool.decode_message("Test", &[0x08]), Err(PoolError::DecodeFailed)));
    let empty = pool.create_message("Test").unwrap();
    assert_eq!(empty.has_bits, 0);
}

#[test]
fn dynamic_message_reads_fields() {
    let pool = test_pool();
    let t = pool.find_table(&String::from("Test")).unwrap();
    let msg = make_medium();
    let m = DynamicMessage::new(&msg, &pool.tables, t);
    assert_eq!(m.descriptor().name, "Test");
    let x = m.find_field_descriptor("x").unwrap();
    assert!(matches!(m.get_field(x), Some(Value::UInt32(42))));
    let z = m.find_field_descriptor_by_number(3).unwrap();
    match m.get_field(z) {
        Some(Value::Bytes(b)) => assert_eq!(b, "Hello World! This is a test string with some content.".as_bytes()),
        _ => panic!("z is bytes"),
    }
    let child = m.find_field_descriptor("child1").unwrap();
    match m.get_field(child) {
        Some(Value::Message(c)) => {
            let cx = c.find_field_descriptor("x").unwrap();
            assert!(matches!(c.get_field(cx), Some(Value::UInt32(123))));
        }
        _ => panic!("child1 is a message"),
    }
    assert!(m.find_field_descriptor("nope").is_none());
    assert!(m.find_field_descriptor_by_number(99).is_none());
    let nested = m.find_field_descriptor("nested_message").unwrap();
    assert!(m.get_field(nested).is_none());
}

#[test]
fn dynamic_message_array_walks_children() {
    let pool = test_pool();
    let t = pool.find_table(&String::from("Test")).unwrap();
    let msg = make_large();
    let m = DynamicMessage::new(&msg, &pool.tables, t);
    let nested = m.find_field_descriptor("nested_message").unwrap();
    match m.get_field(nested) {
        Some(Value::RepeatedMessage(a)) => {
            assert_eq!(a.len(), 100);
            assert!(!a.is_empty());
            let mut it = a.iter();
            assert_eq!(it.len(), 100);
            let first = it.next().unwrap();
            let fx = first.find_field_descriptor("x").unwrap();
            assert!(matches!(first.get_field(fx), Some(Value::Int64(0))));
            assert_eq!(it.len(), 99);
            let last = a.get(99);
            assert!(matches!(last.get_field(fx), Some(Value::Int64(99))));
        }
        _ => panic!("nested_message is repeated"),
    }
}

#[test]
fn pool_decodes_what_encoding_wrote() {
    let pool = test_pool();
    let t = pool.find_table(&String::from("Test")).unwrap();
    let msg = make_large();
    let data = encode_vec(&pool.tables, t, &msg, 32).unwrap();
    let back = pool.decode_message("Test", &data).unwrap();
    assert_eq!(encode_vec(&pool.tables, t, &back, 32).unwrap(), data);
    let mut other = DescriptorPool::new();
    assert!(other.tables.is_empty());
}

fn signed_pool() -> DescriptorPool {
    let mut fields = Vec::new();
    fields.push(field(1, Label::Optional, FieldType::Int32));
    fields.push(field(2, Label::Optional, FieldType::Enum));
    fields.push(field(3, Label::Optional, FieldType::Uint32));
    let mut rep = field(4, Label::Repeated, FieldType::Int32);
    rep.name = "r".to_string();
    fields.push(rep);
    let msg = DescriptorProto { name: "Signed".to_string(), field: fields, nested_type: Vec::new(), map_entry: false };
    let file = FileDescriptorProto {
        name: "signed.proto".to_string(),
        package: None,
        message_type: vec![msg],
        syntax: Some("proto2".to_string()),
    };
    let mut pool = DescriptorPool::new();
    assert!(pool.try_add_file(&file));
    pool
}

#[test]
fn negative_int32_and_enum_are_sign_extended_on_the_wire() {
    let pool = signed_pool();
    let mut obj = pool.create_message("Signed").unwrap();
    let minus_one = (-1i32) as u32 as u64;
    obj.set(0, 0, minus_one);
    obj.set(1, 1, (-2i32) as u32 as u64);
    obj.set(2, 2, 0xffff_ffff);
    obj.add(3, minus_one);
    let data = encode_vec(&pool.tables, 0, &obj, 8).unwrap();
    let mut expected = vec![0x08];
    expected.extend_from_slice(&[0xff; 9]);
    expected.push(0x01);
    expected.push(0x10);
    expected.extend_from_slice(&[0xfe, 0xff, 0xff, 0xff, 0xff, 0xff, 0xff, 0xff, 0xff, 0x01]);
    expected.extend_from_slice(&[0x18, 0xff, 0xff, 0xff, 0xff, 0x0f]);
    expected.push(0x20);
    expected.extend_from_slice(&[0xff; 9]);
    expected.push(0x01);
    assert_eq!(data, expected);
    let back = pool.decode_message("Signed", &data).unwrap();
    assert_eq!(back.get(0), minus_one);
    assert_eq!(back.get(1), (-2i32) as u32 as u64);
    assert_eq!(back.get_slice(3), &[minus_one]);
}

#[test]
fn packed_repeated_fields_are_written_with_one_tag_and_one_length() {
    let mut rep = field(1, Label::Repeated, FieldType::Int32);
    rep.name = "p".to_string();
    let mut fixed = field(2, Label::Repeated, FieldType::Fixed32);
    fixed.name = "q".to_string();
    let msg = DescriptorProto { name: "Packed".to_string(), field: vec![rep, fixed], nested_type: Vec::new(), map_entry: false };
    let file = FileDescriptorProto {
        name: "packed.proto".to_string(),
        package: None,
        message_type: vec![msg],
        syntax: Some("proto3".to_string()),
    };
    let mut pool = DescriptorPool::new();
    assert!(pool.try_add_file(&file));
    let mut obj = pool.create_message("Packed").unwrap();
    obj.add(0, 1);
    obj.add(0, (-1i32) as u32 as u64);
    obj.add(0, 300);
    obj.add(1, 7);
    obj.add(1, 8);
    let data = encode_vec(&pool.tables, 0, &obj, 8).unwrap();
    let mut expected = vec![0x0a, 13, 0x01];
    expected.extend_from_slice(&[0xff; 9]);
    expected.extend_from_slice(&[0x01, 0xac, 0x02]);
    expected.extend_from_slice(&[0x12, 8, 7, 0, 0, 0, 8, 0, 0, 0]);
    assert_eq!(data, expected);
    let back = pool.decode_message("Packed", &data).unwrap();
    assert_eq!(back.get_slice(0), &[1, 0xffff_ffff, 300]);
    assert_eq!(back.get_slice(1), &[7, 8]);
    let empty = pool.create_message("Packed").unwrap();
    assert!(encode_vec(&pool.tables, 0, &empty, 8).unwrap().is_empty());
}

#[test]
fn message_types_with_more_than_64_has_bits_are_refused() {
    let mut fields = Vec::new();
    for n in 1..=65 {
        fields.push(field(n, Label::Optional, FieldType::Int32));
    }
    let mut file = FileDescriptorProto {
        name: "wide.proto".to_string(),
        package: None,
        message_type: vec![DescriptorProto { name: "Wide".to_string(), field: fields, nested_type: Vec::new(), map_entry: false }],
        syntax: Some("proto2".to_string()),
    };
    let mut pool = DescriptorPool::new();
    assert!(!pool.try_add_file(&file));
    assert!(pool.tables.is_empty());
    file.message_type[0].field.pop();
    assert!(pool.try_add_file(&file));
    assert_eq!(pool.tables.len(), 1);
}
