//! A sample schema, `Test`, and messages of it of three sizes.
//!
//! ```text
//! message Test {
//!   optional uint32 x = 1;
//!   optional fixed64 y = 2;
//!   optional bytes z = 3;
//!   optional Test child1 = 4;
//!   optional group Child2 = 5 { optional sint64 x = 1; optional Test recursive = 2; }
//!   message NestedMessage { optional int64 x = 1; optional Test recursive = 2; }
//!   repeated NestedMessage nested_message = 6;
//!   repeated bytes rep_bytes = 7;
//! }
//! ```
use vstd::prelude::*;
use vstd::string::StringSliceAdditionalSpecFns;
use std::string::String;
use crate::descriptor::{Label, FieldType, FieldDescriptorProto, DescriptorProto, FileDescriptorProto, FieldView, MessageView};
use crate::reflection::{DescriptorPool, spec_file_messages, spec_message_views, spec_file_package, spec_file_proto3, spec_top_name, spec_nested_name, spec_flat_nested, spec_flat_top, spec_buildable, spec_max_number_upto, spec_count_has_bits, spec_table_of, spec_children};
use crate::base::{Object, ObjectView, Slot, SlotView, Message};
use crate::containers::{Bytes, RepeatedField};

verus! {

fn field(name: &str, json_name: &str, number: i32, label: Label, field_type: FieldType, child_type: &str) -> (r: FieldDescriptorProto)
    ensures
        r.name@ == name@,
        r.json_name@ == json_name@,
        r.number == number,
        r.label == label,
        r.field_type == field_type,
        r.child_type@ == child_type@,
        r.options is None,
{
    FieldDescriptorProto {
        name: name.to_owned(),
        number,
        label,
        field_type,
        child_type: child_type.to_owned(),
        json_name: json_name.to_owned(),
        options: None,
    }
}

/// An optional or repeated field with no options.
pub open spec fn spec_field_view(
    name: Seq<char>,
    json_name: Seq<char>,
    number: i32,
    label: Label,
    field_type: FieldType,
    child_type: Seq<char>,
) -> FieldView {
    FieldView { name, number, label, field_type, child_type, json_name, options: None }
}

/// The group type `Test.Child2`.
pub open spec fn spec_child2() -> MessageView {
    MessageView {
        name: "Child2"@,
        fields: seq![
            spec_field_view("x"@, "x"@, 1, Label::Optional, FieldType::Sint64, ""@),
            spec_field_view("recursive"@, "recursive"@, 2, Label::Optional, FieldType::Message, ".Test"@),
        ],
        nested: Seq::empty(),
        map_entry: false,
    }
}

/// The message type `Test.NestedMessage`.
pub open spec fn spec_nested_message() -> MessageView {
    MessageView {
        name: "NestedMessage"@,
        fields: seq![
            spec_field_view("x"@, "x"@, 1, Label::Optional, FieldType::Int64, ""@),
            spec_field_view("recursive"@, "recursive"@, 2, Label::Optional, FieldType::Message, ".Test"@),
        ],
        nested: Seq::empty(),
        map_entry: false,
    }
}

/// The message type `Test`, with the two types declared inside it.
pub open spec fn spec_test_message() -> MessageView {
    MessageView {
        name: "Test"@,
        fields: seq![
            spec_field_view("x"@, "x"@, 1, Label::Optional, FieldType::Uint32, ""@),
            spec_field_view("y"@, "y"@, 2, Label::Optional, FieldType::Fixed64, ""@),
            spec_field_view("z"@, "z"@, 3, Label::Optional, FieldType::Bytes, ""@),
            spec_field_view("child1"@, "child1"@, 4, Label::Optional, FieldType::Message, ".Test"@),
            spec_field_view("child2"@, "child2"@, 5, Label::Optional, FieldType::Group, ".Test.Child2"@),
            spec_field_view("nested_message"@, "nestedMessage"@, 6, Label::Repeated, FieldType::Message, ".Test.NestedMessage"@),
            spec_field_view("rep_bytes"@, "repBytes"@, 7, Label::Repeated, FieldType::Bytes, ""@),
        ],
        nested: seq![spec_child2(), spec_nested_message()],
        map_entry: false,
    }
}

/// The message types of the sample file, depth first, with their full names.
pub open spec fn spec_test_types() -> Seq<(Seq<char>, MessageView)> {
    seq![
        ("Test"@, spec_test_message()),
        ("Test.Child2"@, spec_child2()),
        ("Test.NestedMessage"@, spec_nested_message()),
    ]
}

/// The descriptor of the file that declares `Test`: no package, proto2
/// syntax, and `Test` as its one top-level message type.
pub fn test_file() -> (r: FileDescriptorProto)
    ensures
        r.message_type@.len() == 1,
        r.message_type@[0]@ == spec_test_message(),
        r.package is None,
        r.syntax matches Some(s) && s@ == "proto2"@,
{
    let mut child2_fields: Vec<FieldDescriptorProto> = Vec::new();
    child2_fields.push(field("x", "x", 1, Label::Optional, FieldType::Sint64, ""));
    child2_fields.push(field("recursive", "recursive", 2, Label::Optional, FieldType::Message, ".Test"));
    let child2 = DescriptorProto { name: "Child2".to_owned(), field: child2_fields, nested_type: Vec::new(), map_entry: false };
    assert(child2@.fields =~= spec_child2().fields);
    assert(child2@.nested =~= spec_child2().nested);
    let mut nested_fields: Vec<FieldDescriptorProto> = Vec::new();
    nested_fields.push(field("x", "x", 1, Label::Optional, FieldType::Int64, ""));
    nested_fields.push(field("recursive", "recursive", 2, Label::Optional, FieldType::Message, ".Test"));
    let nested = DescriptorProto { name: "NestedMessage".to_owned(), field: nested_fields, nested_type: Vec::new(), map_entry: false };
    assert(nested@.fields =~= spec_nested_message().fields);
    assert(nested@.nested =~= spec_nested_message().nested);
    let mut fields: Vec<FieldDescriptorProto> = Vec::new();
    fields.push(field("x", "x", 1, Label::Optional, FieldType::Uint32, ""));
    fields.push(field("y", "y", 2, Label::Optional, FieldType::Fixed64, ""));
    fields.push(field("z", "z", 3, Label::Optional, FieldType::Bytes, ""));
    fields.push(field("child1", "child1", 4, Label::Optional, FieldType::Message, ".Test"));
    fields.push(field("child2", "child2", 5, Label::Optional, FieldType::Group, ".Test.Child2"));
    fields.push(field("nested_message", "nestedMessage", 6, Label::Repeated, FieldType::Message, ".Test.NestedMessage"));
    fields.push(field("rep_bytes", "repBytes", 7, Label::Repeated, FieldType::Bytes, ""));
    let mut nested_types: Vec<DescriptorProto> = Vec::new();
    nested_types.push(child2);
    nested_types.push(nested);
    let test = DescriptorProto { name: "Test".to_owned(), field: fields, nested_type: nested_types, map_entry: false };
    assert(test@.fields =~= spec_test_message().fields);
    assert(test@.nested =~= spec_test_message().nested);
    let mut messages: Vec<DescriptorProto> = Vec::new();
    messages.push(test);
    FileDescriptorProto {
        name: "test.proto".to_owned(),
        package: None,
        message_type: messages,
        syntax: Some("proto2".to_owned()),
    }
}

/// The sample file's message types, flattened with their full names.
proof fn lemma_test_file_messages(file: FileDescriptorProto)
    requires
        file.message_type@.len() == 1,
        file.message_type@[0]@ == spec_test_message(),
        file.package is None,
    ensures
        spec_file_messages(file) == spec_test_types(),
{
    reveal_strlit("Test");
    reveal_strlit("Child2");
    reveal_strlit("NestedMessage");
    reveal_strlit("Test.Child2");
    reveal_strlit("Test.NestedMessage");
    let msgs = spec_message_views(file.message_type@);
    assert(msgs =~= seq![spec_test_message()]);
    assert(spec_file_package(file) == Seq::<char>::empty());
    let t = spec_test_message();
    assert(spec_top_name(Seq::empty(), t.name) =~= "Test"@);
    assert(spec_nested_name("Test"@, "Child2"@) =~= "Test.Child2"@);
    assert(spec_nested_name("Test"@, "NestedMessage"@) =~= "Test.NestedMessage"@);
    assert(spec_flat_nested("Test.Child2"@, spec_child2().nested, 0) =~= Seq::empty());
    assert(spec_flat_nested("Test.NestedMessage"@, spec_nested_message().nested, 0) =~= Seq::empty());
    assert(spec_flat_nested("Test"@, t.nested, 0) =~= Seq::empty());
    let n1 = spec_flat_nested("Test"@, t.nested, 1);
    assert(n1 =~= seq![("Test.Child2"@, spec_child2())]);
    let n2 = spec_flat_nested("Test"@, t.nested, 2);
    assert(n2 =~= seq![("Test.Child2"@, spec_child2()), ("Test.NestedMessage"@, spec_nested_message())]);
    assert(spec_flat_top(Seq::empty(), msgs, 0) =~= Seq::empty());
    assert(spec_flat_top(Seq::empty(), msgs, 1) =~= seq![("Test"@, t)] + n2);
    assert(spec_file_messages(file) =~= spec_test_types());
}

/// Tables can be built for each of the sample file's message types.
proof fn lemma_test_types_buildable()
    ensures
        forall|k: int| 0 <= k < spec_test_types().len() ==> spec_buildable(#[trigger] spec_test_types()[k].1),
{
    let c = spec_child2().fields;
    assert(spec_max_number_upto(c, 1) == 1);
    assert(spec_max_number_upto(c, 2) == 2);
    assert(spec_count_has_bits(c, 2) <= 2) by {
        reveal_with_fuel(spec_count_has_bits, 3);
    }
    let n = spec_nested_message().fields;
    assert(spec_max_number_upto(n, 1) == 1);
    assert(spec_max_number_upto(n, 2) == 2);
    assert(spec_count_has_bits(n, 2) <= 2) by {
        reveal_with_fuel(spec_count_has_bits, 3);
    }
    let f = spec_test_message().fields;
    assert(spec_max_number_upto(f, 1) == 1);
    assert(spec_max_number_upto(f, 2) == 2);
    assert(spec_max_number_upto(f, 3) == 3);
    assert(spec_max_number_upto(f, 4) == 4);
    assert(spec_max_number_upto(f, 5) == 5);
    assert(spec_max_number_upto(f, 6) == 6);
    assert(spec_max_number_upto(f, 7) == 7);
    assert(spec_count_has_bits(f, 7) <= 7) by {
        reveal_with_fuel(spec_count_has_bits, 8);
    }
    assert(spec_buildable(spec_test_types()[0].1));
    assert(spec_buildable(spec_test_types()[1].1));
    assert(spec_buildable(spec_test_types()[2].1));
}

/// A pool that holds the tables of `Test`, `Test.Child2` and
/// `Test.NestedMessage`, in that order and under those names, built from
/// their descriptors in a proto2 file; message fields refer to the tables of
/// their types.
pub fn test_pool() -> (r: DescriptorPool)
    ensures
        r.wf(),
        r.tables@.len() == 3,
        r.name_views() == spec_test_types().map_values(|e: (Seq<char>, MessageView)| e.0),
        forall|k: int| 0 <= k < 3 ==> spec_table_of(
            #[trigger] r.tables@[k],
            spec_test_types()[k].1,
            false,
            spec_children(spec_test_types()[k].1, r.name_views()),
        ),
{
    let mut pool = DescriptorPool::new();
    let file = test_file();
    proof {
        lemma_test_file_messages(file);
        lemma_test_types_buildable();
        reveal_strlit("proto2");
        reveal_strlit("proto3");
        let s = file.syntax->Some_0;
        assert(s@[5] != ("proto3"@)[5]);
        assert(!spec_file_proto3(file));
        assert(pool.name_views() =~= Seq::<Seq<char>>::empty());
    }
    let added = pool.try_add_file(&file);
    assert(added);
    proof {
        assert(pool.name_views() =~= spec_test_types().map_values(|e: (Seq<char>, MessageView)| e.0));
        assert forall|k: int| 0 <= k < 3 implies spec_table_of(
            #[trigger] pool.tables@[k],
            spec_test_types()[k].1,
            false,
            spec_children(spec_test_types()[k].1, pool.name_views()),
        ) by {
            assert(pool.tables@[0 + k] == pool.tables@[k]);
        }
    }
    pool
}

/// The has-bits of the samples: x, then y, then z.
proof fn lemma_sample_bits()
    ensures
        crate::base::spec_set_bit(0, 0) == 1,
        crate::base::spec_set_bit(1, 1) == 3,
        crate::base::spec_set_bit(3, 2) == 7,
{
    assert(0u64 | (1u64 << 0u64) == 1 && 1u64 | (1u64 << 1u64) == 3 && 3u64 | (1u64 << 2u64) == 7) by (bit_vector);
}

/// The object of a `Test` message with no field set.
pub open spec fn spec_empty_test() -> ObjectView {
    ObjectView {
        has_bits: 0,
        slots: seq![
            SlotView::Scalar(0),
            SlotView::Scalar(0),
            SlotView::Bytes(Seq::empty()),
            SlotView::Message(None),
            SlotView::Message(None),
            SlotView::RepeatedMessage(Seq::empty()),
            SlotView::RepeatedBytes(Seq::empty()),
        ],
    }
}

/// A `Test` message with no field set.
pub fn empty_test() -> (r: Object)
    ensures
        r@ == spec_empty_test(),
        r.slots@.len() == 7,
{
    let mut slots: Vec<Slot> = Vec::new();
    slots.push(Slot::Scalar(0));
    slots.push(Slot::Scalar(0));
    slots.push(Slot::Bytes(Bytes::new()));
    slots.push(Slot::Message(Message(None)));
    slots.push(Slot::Message(Message(None)));
    slots.push(Slot::RepeatedMessage(RepeatedField::new()));
    slots.push(Slot::RepeatedBytes(RepeatedField::new()));
    let r = Object { has_bits: 0, slots };
    proof {
        assert(crate::base::slot_repeated_bytes(r@.slots[6]) =~= Seq::<Seq<u8>>::empty());
        assert(crate::base::slot_repeated_message(r@.slots[5]) =~= Seq::<ObjectView>::empty());
        assert(r@.slots =~= spec_empty_test().slots);
    }
    r
}

/// The object of a `Test.NestedMessage` with `x` set to `x`.
pub open spec fn spec_nested(x: u64) -> ObjectView {
    ObjectView { has_bits: 1, slots: seq![SlotView::Scalar(x), SlotView::Message(None)] }
}

fn nested_message(x: u64) -> (r: Object)
    ensures
        r@ == spec_nested(x),
{
    let mut slots: Vec<Slot> = Vec::new();
    slots.push(Slot::Scalar(x));
    slots.push(Slot::Message(Message(None)));
    let r = Object { has_bits: 1, slots };
    assert(r@.slots =~= spec_nested(x).slots);
    r
}

/// `x = 42`, `y = 0xDEADBEEF`.
pub open spec fn spec_small() -> ObjectView {
    ObjectView {
        has_bits: 3,
        slots: spec_empty_test().slots.update(0, SlotView::Scalar(42)).update(1, SlotView::Scalar(0xDEADBEEF)),
    }
}

/// A small `Test` message: `x = 42`, `y = 0xDEADBEEF`.
pub fn make_small() -> (r: Object)
    ensures
        r@ == spec_small(),
{
    let mut msg = empty_test();
    msg.set(0, 0, 42);
    msg.set(1, 1, 0xDEADBEEF);
    proof {
        lemma_sample_bits();
        assert(msg@.slots =~= spec_small().slots);
    }
    msg
}

/// A medium `Test` message: the small one with a string in `z` and a child
/// with `x = 123`, `y = 456`.
pub fn make_medium() -> (r: Object)
    ensures
        r@.has_bits == 7,
        r@.slots.len() == 7,
        r@.slots[0] == SlotView::Scalar(42),
        r@.slots[1] == SlotView::Scalar(0xDEADBEEF),
        r@.slots[2] == SlotView::Bytes("Hello World! This is a test string with some content.".spec_bytes()),
        r@.slots[3] == SlotView::Message(Some(ObjectView {
            has_bits: 3,
            slots: spec_empty_test().slots.update(0, SlotView::Scalar(123)).update(1, SlotView::Scalar(456)),
        })),
        r@.slots[4] == SlotView::Message(None),
        r@.slots[5] == SlotView::RepeatedMessage(Seq::empty()),
        r@.slots[6] == SlotView::RepeatedBytes(Seq::empty()),
{
    let mut msg = empty_test();
    msg.set(0, 0, 42);
    msg.set(1, 1, 0xDEADBEEF);
    msg.set_bytes(2, 2, "Hello World! This is a test string with some content.".as_bytes());
    let mut child1 = empty_test();
    child1.set(0, 0, 123);
    child1.set(1, 1, 456);
    let ghost c = child1@;
    msg.set_child(3, child1);
    proof {
        lemma_sample_bits();
        assert(c.slots =~= spec_empty_test().slots.update(0, SlotView::Scalar(123)).update(1, SlotView::Scalar(456)));
    }
    msg
}

/// The bytes `byte array number <i>` for a digit `i`.
pub open spec fn spec_numbered(i: u8) -> Seq<u8> {
    "byte array number ".spec_bytes().push((48 + i) as u8)
}

/// A large `Test` message: `x = 42`, `y = 0xDEADBEEF`, `z = "Hello World!"`,
/// 100 nested messages with `x` from 0 to 99, and 5 byte strings
/// `byte array number 0` to `byte array number 4`.
pub fn make_large() -> (r: Object)
    ensures
        r@.has_bits == 7,
        r@.slots.len() == 7,
        r@.slots[0] == SlotView::Scalar(42),
        r@.slots[1] == SlotView::Scalar(0xDEADBEEF),
        r@.slots[2] == SlotView::Bytes("Hello World!".spec_bytes()),
        r@.slots[3] == SlotView::Message(None),
        r@.slots[4] == SlotView::Message(None),
        r@.slots[5] == SlotView::RepeatedMessage(Seq::new(100, |i: int| spec_nested(i as u64))),
        r@.slots[6] == SlotView::RepeatedBytes(Seq::new(5, |i: int| spec_numbered(i as u8))),
{
    let mut msg = empty_test();
    msg.set(0, 0, 42);
    msg.set(1, 1, 0xDEADBEEF);
    msg.set_bytes(2, 2, "Hello World!".as_bytes());
    proof {
        lemma_sample_bits();
        assert(crate::base::slot_repeated_message(msg@.slots[5]) =~= Seq::new(0, |k: int| spec_nested(k as u64)));
    }
    let mut i: u64 = 0;
    while i < 100
        invariant
            i <= 100,
            msg@.has_bits == 7,
            msg@.slots.len() == 7,
            msg@.slots[0] == SlotView::Scalar(42),
            msg@.slots[1] == SlotView::Scalar(0xDEADBEEF),
            msg@.slots[2] == SlotView::Bytes("Hello World!".spec_bytes()),
            msg@.slots[3] == SlotView::Message(None),
            msg@.slots[4] == SlotView::Message(None),
            msg@.slots[5] == SlotView::RepeatedMessage(Seq::new(i as nat, |k: int| spec_nested(k as u64))),
            msg@.slots[6] == SlotView::RepeatedBytes(Seq::<Seq<u8>>::empty()),
            msg.slots@.len() == 7,
        decreases 100 - i,
    {
        msg.add_child(5, nested_message(i));
        proof {
            assert(crate::base::slot_repeated_message(msg@.slots[5]) =~= Seq::new((i + 1) as nat, |k: int| spec_nested(k as u64)));
        }
        i += 1;
    }
    let prefix = "byte array number ".as_bytes();
    proof {
        assert(crate::base::slot_repeated_bytes(msg@.slots[6]) =~= Seq::new(0, |k: int| spec_numbered(k as u8)));
    }
    let mut j: u8 = 0;
    while j < 5
        invariant
            j <= 5,
            prefix@ == "byte array number ".spec_bytes(),
            msg@.has_bits == 7,
            msg@.slots.len() == 7,
            msg@.slots[0] == SlotView::Scalar(42),
            msg@.slots[1] == SlotView::Scalar(0xDEADBEEF),
            msg@.slots[2] == SlotView::Bytes("Hello World!".spec_bytes()),
            msg@.slots[3] == SlotView::Message(None),
            msg@.slots[4] == SlotView::Message(None),
            msg@.slots[5] == SlotView::RepeatedMessage(Seq::new(100, |k: int| spec_nested(k as u64))),
            msg@.slots[6] == SlotView::RepeatedBytes(Seq::new(j as nat, |k: int| spec_numbered(k as u8))),
            msg.slots@.len() == 7,
        decreases 5 - j,
    {
        let mut b: Vec<u8> = Vec::new();
        let mut k: usize = 0;
        while k < prefix.len()
            invariant
                k <= prefix@.len(),
                b@ == prefix@.take(k as int),
            decreases prefix@.len() - k,
        {
            b.push(prefix[k]);
            k += 1;
            assert(b@ =~= prefix@.take(k as int));
        }
        assert(prefix@.take(k as int) =~= prefix@);
        b.push(48 + j);
        msg.add_bytes(6, b.as_slice());
        proof {
            assert(crate::base::slot_repeated_bytes(msg@.slots[6]) =~= Seq::new((j + 1) as nat, |k: int| spec_numbered(k as u8)));
        }
        j += 1;
    }
    msg
}

} // verus!
