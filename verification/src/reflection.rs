//! Tables built from descriptors at run time, and access to the fields of
//! objects through their descriptors.
use vstd::prelude::*;
use std::string::String;
use crate::descriptor::{
    Label, FieldType, FieldDescriptorProto, DescriptorProto, FileDescriptorProto, FieldView,
    MessageView,
};
use crate::wire::FieldKind;
use crate::tables::{Table, AuxTableEntry};
use crate::decoding::{spec_pack_entry, spec_entry_offset, spec_entry_has_bit, spec_new_object, spec_dec_msg};
use crate::base::{
    Object, ObjectView, spec_has_bit, slot_scalar, slot_bytes, slot_repeated, slot_repeated_bytes,
    slot_message, slot_repeated_message,
};
use crate::containers::Bytes;

verus! {

// ----- fields -----

pub open spec fn spec_is_repeated(f: FieldView) -> bool {
    f.label == Label::Repeated
}

pub open spec fn spec_is_message(f: FieldView) -> bool {
    f.field_type == FieldType::Message || f.field_type == FieldType::Group
}

pub open spec fn spec_needs_has_bit(f: FieldView) -> bool {
    !spec_is_repeated(f) && !spec_is_message(f)
}

/// The kind of a field: how its values are stored and written.
pub open spec fn spec_field_kind(f: FieldView) -> FieldKind {
    if spec_is_repeated(f) {
        match f.field_type {
            FieldType::Int32 | FieldType::Enum => FieldKind::RepeatedInt32,
            FieldType::Uint32 => FieldKind::RepeatedVarint32,
            FieldType::Int64 | FieldType::Uint64 => FieldKind::RepeatedVarint64,
            FieldType::Sint32 => FieldKind::RepeatedVarint32Zigzag,
            FieldType::Sint64 => FieldKind::RepeatedVarint64Zigzag,
            FieldType::Fixed32 | FieldType::Sfixed32 | FieldType::Float => FieldKind::RepeatedFixed32,
            FieldType::Fixed64 | FieldType::Sfixed64 | FieldType::Double => FieldKind::RepeatedFixed64,
            FieldType::Bool => FieldKind::RepeatedBool,
            FieldType::String | FieldType::Bytes => FieldKind::RepeatedBytes,
            FieldType::Message => FieldKind::RepeatedMessage,
            FieldType::Group => FieldKind::RepeatedGroup,
        }
    } else {
        match f.field_type {
            FieldType::Int32 | FieldType::Enum => FieldKind::Int32,
            FieldType::Uint32 => FieldKind::Varint32,
            FieldType::Int64 | FieldType::Uint64 => FieldKind::Varint64,
            FieldType::Sint32 => FieldKind::Varint32Zigzag,
            FieldType::Sint64 => FieldKind::Varint64Zigzag,
            FieldType::Fixed32 | FieldType::Sfixed32 | FieldType::Float => FieldKind::Fixed32,
            FieldType::Fixed64 | FieldType::Sfixed64 | FieldType::Double => FieldKind::Fixed64,
            FieldType::Bool => FieldKind::Bool,
            FieldType::String | FieldType::Bytes => FieldKind::Bytes,
            FieldType::Message => FieldKind::Message,
            FieldType::Group => FieldKind::Group,
        }
    }
}

/// The wire type that values of a field type are written with, one by one.
pub open spec fn spec_natural_wire_type(t: FieldType) -> u32 {
    match t {
        FieldType::Int32 | FieldType::Int64 | FieldType::Uint32 | FieldType::Uint64
        | FieldType::Sint32 | FieldType::Sint64 | FieldType::Bool | FieldType::Enum => 0,
        FieldType::Fixed64 | FieldType::Sfixed64 | FieldType::Double => 1,
        FieldType::String | FieldType::Bytes | FieldType::Message => 2,
        FieldType::Group => 3,
        FieldType::Fixed32 | FieldType::Sfixed32 | FieldType::Float => 5,
    }
}

/// Whether a repeated field is packed: by its `packed` option where it has
/// one, else when the file is proto3.
pub open spec fn spec_is_packed(f: FieldView, proto3: bool) -> bool {
    spec_is_repeated(f) && match f.options {
        Some(o) => match o.packed {
            Some(p) => p,
            None => proto3,
        },
        None => proto3,
    }
}

/// The wire type of a field's tag in a file of the given syntax: 2 for packed
/// scalars, the natural wire type otherwise.
pub open spec fn spec_wire_type_with_syntax(f: FieldView, proto3: bool) -> u32 {
    let n = spec_natural_wire_type(f.field_type);
    if (n == 0 || n == 1 || n == 5) && spec_is_packed(f, proto3) {
        2
    } else {
        n
    }
}

/// A tag: the field number shifted past the three wire-type bits.
pub open spec fn spec_make_tag(number: i32, wire_type: u32) -> u32 {
    ((number as u32) << 3u32) | wire_type
}

/// The kind of a field.
pub fn field_kind_tokens(field: &&FieldDescriptorProto) -> (r: FieldKind)
    ensures
        r == spec_field_kind(field@),
{
    if field.label == Label::Repeated {
        match field.field_type {
            FieldType::Int32 | FieldType::Enum => FieldKind::RepeatedInt32,
            FieldType::Uint32 => FieldKind::RepeatedVarint32,
            FieldType::Int64 | FieldType::Uint64 => FieldKind::RepeatedVarint64,
            FieldType::Sint32 => FieldKind::RepeatedVarint32Zigzag,
            FieldType::Sint64 => FieldKind::RepeatedVarint64Zigzag,
            FieldType::Fixed32 | FieldType::Sfixed32 | FieldType::Float => FieldKind::RepeatedFixed32,
            FieldType::Fixed64 | FieldType::Sfixed64 | FieldType::Double => FieldKind::RepeatedFixed64,
            FieldType::Bool => FieldKind::RepeatedBool,
            FieldType::String | FieldType::Bytes => FieldKind::RepeatedBytes,
            FieldType::Message => FieldKind::RepeatedMessage,
            FieldType::Group => FieldKind::RepeatedGroup,
        }
    } else {
        match field.field_type {
            FieldType::Int32 | FieldType::Enum => FieldKind::Int32,
            FieldType::Uint32 => FieldKind::Varint32,
            FieldType::Int64 | FieldType::Uint64 => FieldKind::Varint64,
            FieldType::Sint32 => FieldKind::Varint32Zigzag,
            FieldType::Sint64 => FieldKind::Varint64Zigzag,
            FieldType::Fixed32 | FieldType::Sfixed32 | FieldType::Float => FieldKind::Fixed32,
            FieldType::Fixed64 | FieldType::Sfixed64 | FieldType::Double => FieldKind::Fixed64,
            FieldType::Bool => FieldKind::Bool,
            FieldType::String | FieldType::Bytes => FieldKind::Bytes,
            FieldType::Message => FieldKind::Message,
            FieldType::Group => FieldKind::Group,
        }
    }
}

fn natural_wire_type(t: FieldType) -> (r: u32)
    ensures
        r == spec_natural_wire_type(t),
{
    match t {
        FieldType::Int32 | FieldType::Int64 | FieldType::Uint32 | FieldType::Uint64
        | FieldType::Sint32 | FieldType::Sint64 | FieldType::Bool | FieldType::Enum => 0,
        FieldType::Fixed64 | FieldType::Sfixed64 | FieldType::Double => 1,
        FieldType::String | FieldType::Bytes | FieldType::Message => 2,
        FieldType::Group => 3,
        FieldType::Fixed32 | FieldType::Sfixed32 | FieldType::Float => 5,
    }
}

/// The tag of a field, with the natural wire type of its type.
pub fn calculate_tag(field: &FieldDescriptorProto) -> (r: u32)
    ensures
        r == spec_make_tag(field.number, spec_natural_wire_type(field.field_type)),
{
    ((field.number as u32) << 3) | natural_wire_type(field.field_type)
}

/// Whether a syntax string says proto3.
pub open spec fn spec_is_proto3(syntax: Option<Seq<char>>) -> bool {
    syntax == Some("proto3"@)
}

/// The tag of a field in a file of the given syntax: packed repeated scalars
/// get wire type 2.
pub fn calculate_tag_with_syntax(field: &FieldDescriptorProto, syntax: Option<&str>) -> (r: u32)
    ensures
        r == spec_make_tag(
            field.number,
            spec_wire_type_with_syntax(
                field@,
                spec_is_proto3(
                    match syntax {
                        Some(s) => Some(s@),
                        None => None,
                    },
                ),
            ),
        ),
{
    let proto3 = match syntax {
        Some(s) => is_proto3(s),
        None => false,
    };
    tag_for(field, proto3)
}

/// Whether `s` is `proto3`.
fn is_proto3(s: &str) -> (r: bool)
    ensures
        r == (s@ == "proto3"@),
{
    let a: String = s.to_owned();
    let b: String = "proto3".to_owned();
    a == b
}

fn tag_for(field: &FieldDescriptorProto, proto3: bool) -> (r: u32)
    ensures
        r == spec_make_tag(field.number, spec_wire_type_with_syntax(field@, proto3)),
{
    let is_repeated = field.label == Label::Repeated;
    let is_packed = is_repeated && match field.options {
        Some(opts) => match opts.packed {
            Some(p) => p,
            None => proto3,
        },
        None => proto3,
    };
    let n = natural_wire_type(field.field_type);
    let wire_type: u32 = if (n == 0 || n == 1 || n == 5) && is_packed {
        2
    } else {
        n
    };
    ((field.number as u32) << 3) | wire_type
}

/// Whether a field is repeated.
pub fn is_repeated(field: &FieldDescriptorProto) -> (r: bool)
    ensures
        r == spec_is_repeated(field@),
{
    field.label == Label::Repeated
}

/// Whether a field holds a message (or group).
pub fn is_message(field: &FieldDescriptorProto) -> (r: bool)
    ensures
        r == spec_is_message(field@),
{
    field.field_type == FieldType::Message || field.field_type == FieldType::Group
}

/// Whether a field's presence is kept in a has-bit: single fields that are not
/// messages.
pub fn needs_has_bit(field: &FieldDescriptorProto) -> (r: bool)
    ensures
        r == spec_needs_has_bit(field@),
{
    !is_repeated(field) && !is_message(field)
}


// ----- tables of message types -----

/// The number of fields among the first `k` that keep a has-bit.
pub open spec fn spec_count_has_bits(fields: Seq<FieldView>, k: int) -> nat
    decreases k,
{
    if k <= 0 {
        0
    } else {
        spec_count_has_bits(fields, k - 1) + if spec_needs_has_bit(fields[k - 1]) {
            1nat
        } else {
            0nat
        }
    }
}

/// The number of message fields among the first `k`.
pub open spec fn spec_count_messages(fields: Seq<FieldView>, k: int) -> nat
    decreases k,
{
    if k <= 0 {
        0
    } else {
        spec_count_messages(fields, k - 1) + if spec_is_message(fields[k - 1]) {
            1nat
        } else {
            0nat
        }
    }
}

/// The positions of the message fields among the first `k`, in order.
pub open spec fn spec_message_slots(fields: Seq<FieldView>, k: int) -> Seq<int>
    decreases k,
{
    if k <= 0 {
        Seq::empty()
    } else if spec_is_message(fields[k - 1]) {
        spec_message_slots(fields, k - 1).push(k - 1)
    } else {
        spec_message_slots(fields, k - 1)
    }
}

/// The encode entry of field `i`: its has-bit (the count of has-bit fields
/// before it), its kind, its slot (or aux index for a message field) and its
/// tag.
pub open spec fn spec_encode_entry(fields: Seq<FieldView>, i: int, proto3: bool) -> crate::encoding::TableEntry {
    let f = fields[i];
    crate::encoding::TableEntry {
        has_bit: if spec_needs_has_bit(f) {
            spec_count_has_bits(fields, i) as u8
        } else {
            0
        },
        kind: spec_field_kind(f),
        offset: if spec_is_message(f) {
            spec_count_messages(fields, i) as u16
        } else {
            i as u16
        },
        encoded_tag: spec_make_tag(f.number, spec_wire_type_with_syntax(f, proto3)),
    }
}

/// The largest field number (0 where there are no fields).
pub open spec fn spec_max_number(fields: Seq<FieldView>) -> int {
    if fields.len() == 0 {
        0
    } else {
        spec_max_number_upto(fields, fields.len() as int)
    }
}

pub open spec fn spec_max_number_upto(fields: Seq<FieldView>, k: int) -> int
    decreases k,
{
    if k <= 1 {
        fields[0].number as int
    } else {
        let m = spec_max_number_upto(fields, k - 1);
        if fields[k - 1].number > m {
            fields[k - 1].number as int
        } else {
            m
        }
    }
}

/// The first of the first `k` fields with number `n`, or -1.
pub open spec fn spec_first_with_number(fields: Seq<FieldView>, n: int, k: int) -> int
    decreases k,
{
    if k <= 0 {
        -1
    } else {
        let p = spec_first_with_number(fields, n, k - 1);
        if p >= 0 {
            p
        } else if fields[k - 1].number == n {
            k - 1
        } else {
            -1
        }
    }
}

/// The has-bit of the last of the first `k` fields with number `n` that keeps
/// one, or -1.
pub open spec fn spec_last_has_bit(fields: Seq<FieldView>, n: int, k: int) -> int
    decreases k,
{
    if k <= 0 {
        -1
    } else if spec_needs_has_bit(fields[k - 1]) && fields[k - 1].number == n {
        spec_count_has_bits(fields, k - 1) as int
    } else {
        spec_last_has_bit(fields, n, k - 1)
    }
}

/// The aux index of the last of the first `k` message fields with number
/// `n`, or -1.
pub open spec fn spec_last_aux(fields: Seq<FieldView>, n: int, k: int) -> int
    decreases k,
{
    if k <= 0 {
        -1
    } else if spec_is_message(fields[k - 1]) && fields[k - 1].number == n {
        spec_count_messages(fields, k - 1) as int
    } else {
        spec_last_aux(fields, n, k - 1)
    }
}

/// The decode entry of field number `n`: the packed entry of the first field
/// with that number, or 0 where there is none.
pub open spec fn spec_decode_entry(fields: Seq<FieldView>, n: int) -> u32 {
    let i = spec_first_with_number(fields, n, fields.len() as int);
    if i < 0 {
        0
    } else {
        let f = fields[i];
        if spec_is_message(f) {
            spec_pack_entry(spec_field_kind(f), 0, spec_last_aux(fields, n, fields.len() as int) as usize)
        } else {
            spec_pack_entry(
                spec_field_kind(f),
                if spec_needs_has_bit(f) {
                    spec_last_has_bit(fields, n, fields.len() as int) as u32
                } else {
                    0
                },
                i as usize,
            )
        }
    }
}

/// The child table that no table of the pool stands for.
pub open spec fn spec_missing() -> usize {
    usize::MAX
}

/// `t` is the table of message type `d`, in a file of the given syntax, with
/// the child tables of its message fields given by `children`.
pub open spec fn spec_table_of(t: Table, d: MessageView, proto3: bool, children: Seq<usize>) -> bool {
    let fields = d.fields;
    let slots = spec_message_slots(fields, fields.len() as int);
    &&& t.size == fields.len() as u16
    &&& t.descriptor@ == d
    &&& t.encode_entries@.len() == fields.len()
    &&& forall|i: int| 0 <= i < fields.len() ==> #[trigger] t.encode_entries@[i] == spec_encode_entry(fields, i, proto3)
    &&& t.decode_entries@.len() == spec_max_number(fields) + 1
    &&& forall|n: int| 0 <= n < t.decode_entries@.len() ==> (#[trigger] t.decode_entries@[n]).0 == spec_decode_entry(fields, n)
    &&& t.aux_entries@.len() == slots.len()
    &&& children.len() == slots.len()
    &&& forall|j: int| 0 <= j < slots.len() ==> #[trigger] t.aux_entries@[j] == (AuxTableEntry { offset: slots[j] as u32, child_table: children[j] })
}

/// Builds the table of message type `descriptor` in a file of the given
/// syntax; the child tables of its message fields are left missing. The
/// largest field number must be between -1 and 2047, and at most 64 fields
/// may keep a has-bit (the has-bits of an object are one 64-bit word).
pub fn build_table_from_descriptor(descriptor: &DescriptorProto, proto3: bool) -> (t: Table)
    requires
        -1 <= spec_max_number(descriptor@.fields) <= 2047,
        spec_count_has_bits(descriptor@.fields, descriptor@.fields.len() as int) <= 64,
    ensures
        spec_table_of(
            t,
            descriptor@,
            proto3,
            Seq::new(spec_message_slots(descriptor@.fields, descriptor@.fields.len() as int).len(), |j: int| spec_missing()),
        ),
{
    let ghost fv = descriptor@.fields;
    let fields = &descriptor.field;
    let num_fields = fields.len();
    assert(fv == fields@.map_values(|f: FieldDescriptorProto| f@));
    // encode entries
    let mut encode_entries: Vec<crate::encoding::TableEntry> = Vec::new();
    let mut has_bit_idx: u32 = 0;
    let mut aux_idx: usize = 0;
    let mut i: usize = 0;
    while i < num_fields
        invariant
            i <= num_fields == fields@.len() == fv.len(),
            fv == fields@.map_values(|f: FieldDescriptorProto| f@),
            spec_count_has_bits(fv, fv.len() as int) < 256,
            has_bit_idx == spec_count_has_bits(fv, i as int),
            aux_idx == spec_count_messages(fv, i as int),
            aux_idx <= i,
            encode_entries@.len() == i,
            forall|j: int| 0 <= j < i ==> #[trigger] encode_entries@[j] == spec_encode_entry(fv, j, proto3),
        decreases num_fields - i,
    {
        let field = &fields[i];
        proof {
            lemma_count_has_bits_mono(fv, i as int + 1, fv.len() as int);
        }
        let has_bit: u8 = if needs_has_bit(field) {
            let bit = has_bit_idx as u8;
            has_bit_idx += 1;
            bit
        } else {
            0
        };
        let offset: u16 = if is_message(field) {
            let a = aux_idx as u16;
            aux_idx += 1;
            a
        } else {
            i as u16
        };
        let e = crate::encoding::TableEntry {
            has_bit,
            kind: field_kind_tokens(&field),
            offset,
            encoded_tag: tag_for(field, proto3),
        };
        encode_entries.push(e);
        i += 1;
    }
    // the largest field number
    let mut max_number: i32 = 0;
    if num_fields > 0 {
        max_number = fields[0].number;
        let mut k: usize = 1;
        while k < num_fields
            invariant
                1 <= k <= num_fields == fields@.len() == fv.len(),
                fv == fields@.map_values(|f: FieldDescriptorProto| f@),
                max_number == spec_max_number_upto(fv, k as int),
            decreases num_fields - k,
        {
            if fields[k].number > max_number {
                max_number = fields[k].number;
            }
            k += 1;
        }
    }
    assert(max_number == spec_max_number(fv));
    // decode entries, indexed by field number
    let num_decode: usize = (max_number + 1) as usize;
    let mut decode_entries: Vec<crate::decoding::TableEntry> = Vec::new();
    let mut n: usize = 0;
    while n < num_decode
        invariant
            n <= num_decode,
            num_decode == spec_max_number(fv) + 1,
            num_decode <= 2048,
            num_fields == fields@.len() == fv.len(),
            spec_count_has_bits(fv, fv.len() as int) < 256,
            fv == fields@.map_values(|f: FieldDescriptorProto| f@),
            decode_entries@.len() == n,
            forall|m: int| 0 <= m < n ==> (#[trigger] decode_entries@[m]).0 == spec_decode_entry(fv, m),
        decreases num_decode - n,
    {
        let e = decode_entry_for(fields, n as i32);
        decode_entries.push(e);
        n += 1;
    }
    // aux entries of the message fields
    let mut aux_entries: Vec<AuxTableEntry> = Vec::new();
    let mut k: usize = 0;
    while k < num_fields
        invariant
            k <= num_fields == fields@.len() == fv.len(),
            fv == fields@.map_values(|f: FieldDescriptorProto| f@),
            aux_entries@.len() == spec_message_slots(fv, k as int).len(),
            forall|j: int| 0 <= j < aux_entries@.len() ==> #[trigger] aux_entries@[j] == (AuxTableEntry {
                offset: spec_message_slots(fv, k as int)[j] as u32,
                child_table: spec_missing(),
            }),
            forall|j: int| 0 <= j < spec_message_slots(fv, k as int).len() ==> 0 <= #[trigger] spec_message_slots(fv, k as int)[j] < k,
        decreases num_fields - k,
    {
        if is_message(&fields[k]) {
            aux_entries.push(AuxTableEntry { offset: k as u32, child_table: usize::MAX });
        }
        k += 1;
    }
    let t = Table {
        size: num_fields as u16,
        descriptor: descriptor.copy(),
        encode_entries,
        decode_entries,
        aux_entries,
    };
    t
}

proof fn lemma_count_has_bits_mono(fields: Seq<FieldView>, a: int, b: int)
    requires
        a <= b,
    ensures
        spec_count_has_bits(fields, a) <= spec_count_has_bits(fields, b),
    decreases b - a,
{
    if a < b {
        lemma_count_has_bits_mono(fields, a, b - 1);
    }
}

/// The decode entry of field number `n`.
fn decode_entry_for(fields: &Vec<FieldDescriptorProto>, n: i32) -> (r: crate::decoding::TableEntry)
    requires
        0 <= n <= 2047,
        spec_count_has_bits(fields@.map_values(|f: FieldDescriptorProto| f@), fields@.len() as int) < 256,
    ensures
        r.0 == spec_decode_entry(fields@.map_values(|f: FieldDescriptorProto| f@), n as int),
{
    let ghost fv = fields@.map_values(|f: FieldDescriptorProto| f@);
    let len = fields.len();
    let mut first: Option<usize> = None;
    let mut last_has_bit: Option<u32> = None;
    let mut last_aux: Option<usize> = None;
    let mut has_bit_idx: u32 = 0;
    let mut aux_idx: usize = 0;
    let mut i: usize = 0;
    while i < len
        invariant
            i <= len == fields@.len() == fv.len(),
            fv == fields@.map_values(|f: FieldDescriptorProto| f@),
            spec_count_has_bits(fv, fv.len() as int) < 256,
            has_bit_idx == spec_count_has_bits(fv, i as int),
            aux_idx == spec_count_messages(fv, i as int),
            aux_idx <= i,
            match first {
                Some(p) => spec_first_with_number(fv, n as int, i as int) == p as int && p < i
                    && fv[p as int].number == n
                    && (spec_is_message(fv[p as int]) ==> last_aux is Some)
                    && (spec_needs_has_bit(fv[p as int]) ==> last_has_bit is Some),
                None => spec_first_with_number(fv, n as int, i as int) == -1,
            },
            match last_has_bit {
                Some(h) => spec_last_has_bit(fv, n as int, i as int) == h as int,
                None => spec_last_has_bit(fv, n as int, i as int) == -1,
            },
            match last_aux {
                Some(a) => spec_last_aux(fv, n as int, i as int) == a as int,
                None => spec_last_aux(fv, n as int, i as int) == -1,
            },
        decreases len - i,
    {
        let field = &fields[i];
        proof {
            lemma_count_has_bits_mono(fv, i as int + 1, fv.len() as int);
        }
        if first.is_none() && field.number == n {
            first = Some(i);
        }
        if needs_has_bit(field) {
            if field.number == n {
                last_has_bit = Some(has_bit_idx);
            }
            has_bit_idx += 1;
        }
        if is_message(field) {
            if field.number == n {
                last_aux = Some(aux_idx);
            }
            aux_idx += 1;
        }
        i += 1;
    }
    match first {
        None => crate::decoding::TableEntry(0),
        Some(p) => {
            let field = &fields[p];
            if is_message(field) {
                let a = match last_aux {
                    Some(a) => a,
                    None => usize::MAX,
                };
                crate::decoding::TableEntry::new(field_kind_tokens(&field), 0, a)
            } else {
                let hb = if needs_has_bit(field) {
                    match last_has_bit {
                        Some(h) => h,
                        None => 0,
                    }
                } else {
                    0
                };
                crate::decoding::TableEntry::new(field_kind_tokens(&field), hb, p)
            }
        },
    }
}


// ----- the pool of tables -----

/// The full name of a message type declared inside `parent`.
pub open spec fn spec_nested_name(parent: Seq<char>, name: Seq<char>) -> Seq<char> {
    parent + seq!['.'] + name
}

/// The full name of a top-level message type of a file with the given package.
pub open spec fn spec_top_name(package: Seq<char>, name: Seq<char>) -> Seq<char> {
    if package.len() == 0 {
        name
    } else {
        package + seq!['.'] + name
    }
}

/// The message types of the first `k` of `msgs` and, depth first after each,
/// the types declared inside it, each with its full name.
pub open spec fn spec_flat_nested(parent: Seq<char>, msgs: Seq<MessageView>, k: int) -> Seq<(Seq<char>, MessageView)>
    decreases msgs, k,
{
    if k <= 0 || k > msgs.len() {
        Seq::empty()
    } else {
        let m = msgs[k - 1];
        let full = spec_nested_name(parent, m.name);
        proof {
            assert(decreases_to!(msgs => msgs[k - 1]));
        }
        spec_flat_nested(parent, msgs, k - 1) + seq![(full, m)] + spec_flat_nested(full, m.nested, m.nested.len() as int)
    }
}

/// The message types of a file (its first `k` top-level ones), depth first,
/// each with its full name.
pub open spec fn spec_flat_top(package: Seq<char>, msgs: Seq<MessageView>, k: int) -> Seq<(Seq<char>, MessageView)>
    decreases k,
{
    if k <= 0 || k > msgs.len() {
        Seq::empty()
    } else {
        let m = msgs[k - 1];
        let full = spec_top_name(package, m.name);
        spec_flat_top(package, msgs, k - 1) + seq![(full, m)] + spec_flat_nested(full, m.nested, m.nested.len() as int)
    }
}

pub open spec fn spec_message_views(msgs: Seq<DescriptorProto>) -> Seq<MessageView> {
    msgs.map_values(|d: DescriptorProto| d@)
}

pub open spec fn spec_string_views(v: Seq<String>) -> Seq<Seq<char>> {
    v.map_values(|s: String| s@)
}

pub open spec fn spec_file_package(file: FileDescriptorProto) -> Seq<char> {
    match file.package {
        Some(p) => p@,
        None => Seq::empty(),
    }
}

pub open spec fn spec_file_proto3(file: FileDescriptorProto) -> bool {
    spec_is_proto3(
        match file.syntax {
            Some(s) => Some(s@),
            None => None,
        },
    )
}

/// The message types of a file, depth first, with their full names.
pub open spec fn spec_file_messages(file: FileDescriptorProto) -> Seq<(Seq<char>, MessageView)> {
    spec_flat_top(
        spec_file_package(file),
        spec_message_views(file.message_type@),
        file.message_type@.len() as int,
    )
}

/// Tables can be built for a message type: its largest field number is
/// between -1 and 2047 and at most 64 of its fields keep a has-bit.
pub open spec fn spec_buildable(d: MessageView) -> bool {
    &&& d.fields.len() <= 0xFFFF
    &&& -1 <= spec_max_number(d.fields) <= 2047
    &&& spec_count_has_bits(d.fields, d.fields.len() as int) <= 64
}

/// A type name with its leading dot taken off.
pub open spec fn spec_normalize(name: Seq<char>) -> Seq<char> {
    if name.len() > 0 && name[0] == '.' {
        name.drop_first()
    } else {
        name
    }
}

/// The last of the first `k` names equal to `name`, or -1.
pub open spec fn spec_last_index_of(names: Seq<Seq<char>>, name: Seq<char>, k: int) -> int
    decreases k,
{
    if k <= 0 {
        -1
    } else if names[k - 1] == name {
        k - 1
    } else {
        spec_last_index_of(names, name, k - 1)
    }
}

/// The table that a type name refers to among tables named `names` (the last
/// one of that name), or the missing table.
pub open spec fn spec_resolve(names: Seq<Seq<char>>, child_type: Seq<char>) -> usize {
    let k = spec_last_index_of(names, spec_normalize(child_type), names.len() as int);
    if k >= 0 {
        k as usize
    } else {
        spec_missing()
    }
}

/// The child tables of the message fields of `d`, resolved among `names`.
pub open spec fn spec_children(d: MessageView, names: Seq<Seq<char>>) -> Seq<usize> {
    let slots = spec_message_slots(d.fields, d.fields.len() as int);
    Seq::new(slots.len(), |j: int| spec_resolve(names, d.fields[slots[j]].child_type))
}

/// Every child link of every table points to a table among them, or to the
/// missing table.
pub open spec fn spec_links_inside(tables: Seq<Table>) -> bool {
    forall|k: int, m: int| 0 <= k < tables.len() && 0 <= m < tables[k].aux_entries@.len() ==> {
        let c = #[trigger] tables[k].aux_entries@[m].child_table;
        c < tables.len() || c == spec_missing()
    }
}

/// `full` is the full name of a type whose own name is `name`: the name
/// itself, or a prefix, a dot and the name.
pub open spec fn spec_name_fits(full: Seq<char>, name: Seq<char>) -> bool {
    ||| full == name
    ||| (full.len() > name.len() && full.subrange(full.len() - name.len(), full.len() as int) == name
        && full[full.len() - name.len() - 1] == '.')
}

proof fn lemma_nested_name_fits(parent: Seq<char>, name: Seq<char>)
    ensures
        spec_name_fits(spec_nested_name(parent, name), name),
{
    let full = spec_nested_name(parent, name);
    assert(full.subrange(full.len() - name.len(), full.len() as int) =~= name);
    assert(full[full.len() - name.len() - 1] == '.');
}

proof fn lemma_top_name_fits(package: Seq<char>, name: Seq<char>)
    ensures
        spec_name_fits(spec_top_name(package, name), name),
{
    if package.len() != 0 {
        lemma_nested_name_fits(package, name);
        assert(spec_top_name(package, name) == spec_nested_name(package, name));
    }
}

/// Each name that flattening gives fits the type it names.
proof fn lemma_flat_nested_fits(parent: Seq<char>, msgs: Seq<MessageView>, k: int)
    ensures
        forall|i: int| 0 <= i < spec_flat_nested(parent, msgs, k).len() ==> spec_name_fits(
            #[trigger] spec_flat_nested(parent, msgs, k)[i].0,
            spec_flat_nested(parent, msgs, k)[i].1.name,
        ),
    decreases msgs, k,
{
    if k > 0 && k <= msgs.len() {
        let m = msgs[k - 1];
        let full = spec_nested_name(parent, m.name);
        assert(decreases_to!(msgs => msgs[k - 1]));
        lemma_flat_nested_fits(parent, msgs, k - 1);
        lemma_flat_nested_fits(full, m.nested, m.nested.len() as int);
        lemma_nested_name_fits(parent, m.name);
        let a = spec_flat_nested(parent, msgs, k - 1);
        let b = spec_flat_nested(full, m.nested, m.nested.len() as int);
        let all = spec_flat_nested(parent, msgs, k);
        assert(all == a + seq![(full, m)] + b);
        assert forall|i: int| 0 <= i < all.len() implies spec_name_fits(#[trigger] all[i].0, all[i].1.name) by {
            if i < a.len() {
                assert(all[i] == a[i]);
            } else if i == a.len() {
            } else {
                assert(all[i] == b[i - a.len() - 1]);
            }
        }
    }
}

proof fn lemma_flat_top_fits(package: Seq<char>, msgs: Seq<MessageView>, k: int)
    ensures
        forall|i: int| 0 <= i < spec_flat_top(package, msgs, k).len() ==> spec_name_fits(
            #[trigger] spec_flat_top(package, msgs, k)[i].0,
            spec_flat_top(package, msgs, k)[i].1.name,
        ),
    decreases k,
{
    if k > 0 && k <= msgs.len() {
        let m = msgs[k - 1];
        let full = spec_top_name(package, m.name);
        lemma_flat_top_fits(package, msgs, k - 1);
        lemma_flat_nested_fits(full, m.nested, m.nested.len() as int);
        lemma_top_name_fits(package, m.name);
        let a = spec_flat_top(package, msgs, k - 1);
        let b = spec_flat_nested(full, m.nested, m.nested.len() as int);
        let all = spec_flat_top(package, msgs, k);
        assert(all == a + seq![(full, m)] + b);
        assert forall|i: int| 0 <= i < all.len() implies spec_name_fits(#[trigger] all[i].0, all[i].1.name) by {
            if i < a.len() {
                assert(all[i] == a[i]);
            } else if i == a.len() {
            } else {
                assert(all[i] == b[i - a.len() - 1]);
            }
        }
    }
}

/// A type name resolves to one of the names, or to the missing table.
proof fn lemma_resolve_bound(names: Seq<Seq<char>>, child_type: Seq<char>)
    ensures
        spec_resolve(names, child_type) < names.len() || spec_resolve(names, child_type) == spec_missing(),
{
    lemma_last_index_bound(names, spec_normalize(child_type), names.len() as int);
}

/// A pool of message tables, each with its full name.
pub struct DescriptorPool {
    pub tables: Vec<Table>,
    pub names: Vec<String>,
}

impl DescriptorPool {
    /// One name per table, each the full name of the type its table was
    /// built from, and every child link points into the pool (or to the
    /// missing table).
    pub open spec fn wf(&self) -> bool {
        &&& self.tables@.len() == self.names@.len()
        &&& forall|k: int| 0 <= k < self.tables@.len() ==> spec_name_fits(
            #[trigger] self.names@[k]@,
            self.tables@[k].descriptor@.name,
        )
        &&& spec_links_inside(self.tables@)
    }

    pub open spec fn name_views(&self) -> Seq<Seq<char>> {
        spec_string_views(self.names@)
    }

    /// An empty pool.
    pub fn new() -> (r: Self)
        ensures
            r.wf(),
            r.tables@.len() == 0,
    {
        DescriptorPool { tables: Vec::new(), names: Vec::new() }
    }

    /// Adds the tables of the message types of `file`, nested ones included,
    /// under their full names; message fields refer to the table of their
    /// type among all tables of the pool (the missing table where there is
    /// none).
    pub fn add_file(&mut self, file: &FileDescriptorProto)
        requires
            old(self).wf(),
            forall|k: int| 0 <= k < spec_file_messages(*file).len() ==> spec_buildable(#[trigger] spec_file_messages(*file)[k].1),
            old(self).tables@.len() + spec_file_messages(*file).len() <= usize::MAX,
        ensures
            final(self).wf(),
            final(self).name_views() == old(self).name_views() + spec_file_messages(*file).map_values(|e: (Seq<char>, MessageView)| e.0),
            final(self).tables@.len() == old(self).tables@.len() + spec_file_messages(*file).len(),
            forall|k: int| 0 <= k < old(self).tables@.len() ==> #[trigger] final(self).tables@[k] == old(self).tables@[k],
            forall|k: int| 0 <= k < spec_file_messages(*file).len() ==> spec_table_of(
                #[trigger] final(self).tables@[old(self).tables@.len() + k],
                spec_file_messages(*file)[k].1,
                spec_file_proto3(*file),
                spec_children(spec_file_messages(*file)[k].1, final(self).name_views()),
            ),
    {
        let ghost flat = spec_file_messages(*file);
        let proto3 = match &file.syntax {
            Some(s) => is_proto3(s.as_str()),
            None => false,
        };
        let package: String = match &file.package {
            Some(p) => p.clone(),
            None => String::new(),
        };
        let mut names: Vec<String> = Vec::new();
        let mut descs: Vec<&DescriptorProto> = Vec::new();
        collect_top(&package, &file.message_type, &mut names, &mut descs);
        assert(spec_string_views(names@) =~= flat.map_values(|e: (Seq<char>, MessageView)| e.0));
        let ghost old_names = self.name_views();
        let ghost old_tables = self.tables@;
        let mut i: usize = 0;
        while i < names.len()
            invariant
                i <= names@.len(),
                self.names@.len() == old_names.len() + i,
                spec_string_views(self.names@) == old_names + spec_string_views(names@).take(i as int),
                self.tables@ == old_tables,
            decreases names@.len() - i,
        {
            let ghost before = self.names@;
            let nm = names[i].clone();
            self.names.push(nm);
            proof {
                assert(spec_string_views(names@).take(i + 1) =~= spec_string_views(names@).take(i as int).push(names@[i as int]@));
                assert(spec_string_views(self.names@) =~= spec_string_views(before).push(nm@));
                assert(spec_string_views(self.names@) =~= old_names + spec_string_views(names@).take(i + 1));
            }
            i += 1;
        }
        assert(spec_string_views(names@).take(names@.len() as int) =~= spec_string_views(names@));
        let ghost final_names = self.name_views();
        assert(final_names == old_names + flat.map_values(|e: (Seq<char>, MessageView)| e.0));
        assert(final_names.len() == old_tables.len() + flat.len());
        assert(spec_links_inside(old_tables));
        proof {
            lemma_flat_top_fits(spec_file_package(*file), spec_message_views(file.message_type@), file.message_type@.len() as int);
            assert forall|k: int| 0 <= k < old_tables.len() implies spec_name_fits(
                #[trigger] final_names[k],
                old_tables[k].descriptor@.name,
            ) by {
                assert(old(self).names@[k]@ == final_names[k]);
            }
        }
        let mut j: usize = 0;
        while j < descs.len()
            invariant
                j <= descs@.len() == flat.len(),
                forall|k: int| 0 <= k < descs@.len() ==> (#[trigger] descs@[k])@ == flat[k].1,
                forall|k: int| 0 <= k < flat.len() ==> spec_buildable(#[trigger] flat[k].1),
                self.name_views() == final_names,
                self.tables@.len() == old_tables.len() + j,
                forall|k: int| 0 <= k < old_tables.len() ==> #[trigger] self.tables@[k] == old_tables[k],
                forall|k: int| 0 <= k < j ==> spec_table_of(
                    #[trigger] self.tables@[old_tables.len() + k],
                    flat[k].1,
                    proto3,
                    spec_children(flat[k].1, final_names),
                ),
                final_names.len() == old_tables.len() + flat.len(),
                final_names == old_names + flat.map_values(|e: (Seq<char>, MessageView)| e.0),
                old_names.len() == old_tables.len(),
                spec_links_inside(old_tables),
                forall|k: int| 0 <= k < flat.len() ==> spec_name_fits(#[trigger] flat[k].0, flat[k].1.name),
                forall|k: int| 0 <= k < self.tables@.len() ==> spec_name_fits(
                    #[trigger] final_names[k],
                    self.tables@[k].descriptor@.name,
                ),
                forall|k: int, m: int| 0 <= k < self.tables@.len() && 0 <= m < self.tables@[k].aux_entries@.len() ==> {
                    let c = #[trigger] self.tables@[k].aux_entries@[m].child_table;
                    c < final_names.len() || c == spec_missing()
                },
            decreases descs@.len() - j,
        {
            let d: &DescriptorProto = descs[j];
            assert(spec_buildable(flat[j as int].1));
            let mut t = build_table_from_descriptor(d, proto3);
            self.link_children(&mut t);
            proof {
                let ch = spec_children(flat[j as int].1, final_names);
                assert(spec_table_of(t, flat[j as int].1, proto3, ch));
                assert forall|m: int| 0 <= m < t.aux_entries@.len() implies {
                    let c = #[trigger] t.aux_entries@[m].child_table;
                    c < final_names.len() || c == spec_missing()
                } by {
                    let slots = spec_message_slots(flat[j as int].1.fields, flat[j as int].1.fields.len() as int);
                    assert(t.aux_entries@[m] == (AuxTableEntry { offset: slots[m] as u32, child_table: ch[m] }));
                    lemma_resolve_bound(final_names, flat[j as int].1.fields[slots[m]].child_type);
                }
            }
            let ghost before = self.tables@;
            self.tables.push(t);
            proof {
                assert(final_names[old_tables.len() + j] == flat.map_values(|e: (Seq<char>, MessageView)| e.0)[j as int]);
                assert(final_names[old_tables.len() + j] == flat[j as int].0);
                assert(spec_name_fits(final_names[old_tables.len() + j], self.tables@[old_tables.len() + j].descriptor@.name));
                assert forall|k: int, m: int| 0 <= k < self.tables@.len() && 0 <= m < self.tables@[k].aux_entries@.len() implies {
                    let c = #[trigger] self.tables@[k].aux_entries@[m].child_table;
                    c < final_names.len() || c == spec_missing()
                } by {
                    if k < before.len() {
                        assert(self.tables@[k] == before[k]);
                    }
                }
            }
            j += 1;
        }
        proof {
            assert forall|k: int| 0 <= k < self.tables@.len() implies spec_name_fits(
                #[trigger] self.names@[k]@,
                self.tables@[k].descriptor@.name,
            ) by {
                assert(self.names@[k]@ == final_names[k]);
            }
        }
    }

    /// Points the aux entries of `t` at the tables of their types.
    fn link_children(&self, t: &mut Table)
        requires
            old(t).descriptor@.fields.len() <= 0xFFFF,
            spec_table_of(
                *old(t),
                old(t).descriptor@,
                true,
                Seq::new(spec_message_slots(old(t).descriptor@.fields, old(t).descriptor@.fields.len() as int).len(), |j: int| spec_missing()),
            ) || spec_table_of(
                *old(t),
                old(t).descriptor@,
                false,
                Seq::new(spec_message_slots(old(t).descriptor@.fields, old(t).descriptor@.fields.len() as int).len(), |j: int| spec_missing()),
            ),
        ensures
            forall|p: bool| spec_table_of(
                *old(t),
                old(t).descriptor@,
                p,
                Seq::new(spec_message_slots(old(t).descriptor@.fields, old(t).descriptor@.fields.len() as int).len(), |j: int| spec_missing()),
            ) ==> spec_table_of(*final(t), old(t).descriptor@, p, spec_children(old(t).descriptor@, self.name_views())),
    {
        let ghost d = t.descriptor@;
        let ghost slots = spec_message_slots(d.fields, d.fields.len() as int);
        let n = t.aux_entries.len();
        proof {
            lemma_message_slots(d.fields, d.fields.len() as int);
        }
        let mut j: usize = 0;
        while j < n
            invariant
                j <= n == t.aux_entries@.len() == slots.len(),
                d.fields.len() <= 0xFFFF,
                slots == spec_message_slots(d.fields, d.fields.len() as int),
                t.descriptor@ == d,
                t.size == old(t).size,
                t.encode_entries@ == old(t).encode_entries@,
                t.decode_entries@ == old(t).decode_entries@,
                forall|m: int| 0 <= m < slots.len() ==> 0 <= #[trigger] slots[m] < d.fields.len(),
                forall|m: int| 0 <= m < slots.len() ==> (#[trigger] t.aux_entries@[m]).offset == slots[m] as u32,
                forall|m: int| 0 <= m < j ==> (#[trigger] t.aux_entries@[m]).child_table == spec_children(d, self.name_views())[m],
            decreases n - j,
        {
            let a = t.aux_entries[j];
            let slot = a.offset as usize;
            proof {
                assert(0 <= slots[j as int] < d.fields.len());
                assert(slot == slots[j as int]);
                assert(d.fields[slot as int] == t.descriptor.field@[slot as int]@);
            }
            let child = self.resolve(&t.descriptor.field[slot].child_type);
            let ghost before = t.aux_entries@;
            t.aux_entries.set(j, AuxTableEntry { offset: a.offset, child_table: child });
            proof {
                assert(child == spec_children(d, self.name_views())[j as int]);
                assert forall|m: int| 0 <= m < j + 1 implies (#[trigger] t.aux_entries@[m]).child_table == spec_children(d, self.name_views())[m] by {
                    if m < j {
                        assert(t.aux_entries@[m] == before[m]);
                    }
                }
            }
            j += 1;
        }
    }

    /// The index of the table that a type name refers to, or the missing
    /// table.
    pub fn resolve(&self, child_type: &String) -> (r: usize)
        ensures
            r == spec_resolve(self.name_views(), child_type@),
    {
        let s = child_type.as_str();
        let len = s.unicode_len();
        let name: String = if len > 0 && s.get_char(0) == '.' {
            s.substring_char(1, len).to_owned()
        } else {
            s.to_owned()
        };
        assert(name@ == spec_normalize(child_type@));
        match self.find_table(&name) {
            Some(k) => k,
            None => usize::MAX,
        }
    }

    /// The index of the last table named `name`.
    pub fn find_table(&self, name: &String) -> (r: Option<usize>)
        ensures
            match r {
                Some(k) => k as int == spec_last_index_of(self.name_views(), name@, self.names@.len() as int),
                None => spec_last_index_of(self.name_views(), name@, self.names@.len() as int) == -1,
            },
    {
        let mut k: usize = self.names.len();
        while k > 0
            invariant
                k <= self.names@.len(),
                spec_last_index_of(self.name_views(), name@, self.names@.len() as int) == spec_last_index_of(self.name_views(), name@, k as int),
            decreases k,
        {
            if self.names[k - 1] == *name {
                return Some(k - 1);
            }
            k -= 1;
        }
        None
    }
}

/// The full names and descriptors of the message types in `msgs` declared
/// inside `parent`, depth first, appended to `names` and `descs`.
fn collect_nested<'a>(parent: &String, msgs: &'a Vec<DescriptorProto>, names: &mut Vec<String>, descs: &mut Vec<&'a DescriptorProto>)
    ensures
        ({
            let flat = spec_flat_nested(parent@, spec_message_views(msgs@), msgs@.len() as int);
            &&& spec_string_views(final(names)@) == spec_string_views(old(names)@) + flat.map_values(|e: (Seq<char>, MessageView)| e.0)
            &&& final(descs)@.map_values(|d: &DescriptorProto| d@) == old(descs)@.map_values(|d: &DescriptorProto| d@) + flat.map_values(|e: (Seq<char>, MessageView)| e.1)
        }),
    decreases msgs@,
{
    let ghost mv = spec_message_views(msgs@);
    let mut k: usize = 0;
    while k < msgs.len()
        invariant
            k <= msgs@.len(),
            mv == spec_message_views(msgs@),
            spec_string_views(names@) == spec_string_views(old(names)@) + spec_flat_nested(parent@, mv, k as int).map_values(|e: (Seq<char>, MessageView)| e.0),
            descs@.map_values(|d: &DescriptorProto| d@) == old(descs)@.map_values(|d: &DescriptorProto| d@) + spec_flat_nested(parent@, mv, k as int).map_values(|e: (Seq<char>, MessageView)| e.1),
        decreases msgs@.len() - k,
    {
        let m: &'a DescriptorProto = &msgs[k];
        let full: String = parent.clone().concat(".").concat(m.name.as_str());
        proof {
            reveal_strlit(".");
            assert(full@ == spec_nested_name(parent@, m@.name));
            lemma_nested_views(*m);
        }
        let ghost names0 = spec_string_views(names@);
        let ghost descs0 = descs@.map_values(|d: &DescriptorProto| d@);
        names.push(full.clone());
        descs.push(m);
        proof {
            assert(decreases_to!(msgs@ => msgs@[k as int]));
            assert(spec_string_views(names@) =~= names0.push(full@));
            assert(descs@.map_values(|d: &DescriptorProto| d@) =~= descs0.push(m@));
        }
        let ghost names1 = spec_string_views(names@);
        let ghost descs1 = descs@.map_values(|d: &DescriptorProto| d@);
        collect_nested(&full, &m.nested_type, names, descs);
        proof {
            let prev = spec_flat_nested(parent@, mv, k as int);
            let sub = spec_flat_nested(full@, m@.nested, m@.nested.len() as int);
            assert(spec_flat_nested(parent@, mv, k + 1) == prev + seq![(full@, m@)] + sub);
            assert((prev + seq![(full@, m@)] + sub).map_values(|e: (Seq<char>, MessageView)| e.0) =~= prev.map_values(|e: (Seq<char>, MessageView)| e.0) + seq![full@] + sub.map_values(|e: (Seq<char>, MessageView)| e.0));
            assert((prev + seq![(full@, m@)] + sub).map_values(|e: (Seq<char>, MessageView)| e.1) =~= prev.map_values(|e: (Seq<char>, MessageView)| e.1) + seq![m@] + sub.map_values(|e: (Seq<char>, MessageView)| e.1));
            assert(spec_string_views(names@) == names1 + sub.map_values(|e: (Seq<char>, MessageView)| e.0));
            assert(spec_string_views(names@) =~= spec_string_views(old(names)@) + (prev + seq![(full@, m@)] + sub).map_values(|e: (Seq<char>, MessageView)| e.0));
            assert(descs@.map_values(|d: &DescriptorProto| d@) == descs1 + sub.map_values(|e: (Seq<char>, MessageView)| e.1));
            assert(descs@.map_values(|d: &DescriptorProto| d@) =~= old(descs)@.map_values(|d: &DescriptorProto| d@) + (prev + seq![(full@, m@)] + sub).map_values(|e: (Seq<char>, MessageView)| e.1));
        }
        k += 1;
    }
}

/// The full names and descriptors of the top-level message types `msgs` of a
/// file with the given package, and of the types inside them, depth first.
fn collect_top<'a>(package: &String, msgs: &'a Vec<DescriptorProto>, names: &mut Vec<String>, descs: &mut Vec<&'a DescriptorProto>)
    requires
        old(names)@.len() == 0,
        old(descs)@.len() == 0,
    ensures
        ({
            let flat = spec_flat_top(package@, spec_message_views(msgs@), msgs@.len() as int);
            &&& spec_string_views(final(names)@) == flat.map_values(|e: (Seq<char>, MessageView)| e.0)
            &&& final(descs)@.len() == flat.len()
            &&& forall|k: int| 0 <= k < flat.len() ==> (#[trigger] final(descs)@[k])@ == flat[k].1
        }),
{
    let ghost mv = spec_message_views(msgs@);
    let mut k: usize = 0;
    while k < msgs.len()
        invariant
            k <= msgs@.len(),
            mv == spec_message_views(msgs@),
            spec_string_views(names@) == spec_flat_top(package@, mv, k as int).map_values(|e: (Seq<char>, MessageView)| e.0),
            descs@.map_values(|d: &DescriptorProto| d@) == spec_flat_top(package@, mv, k as int).map_values(|e: (Seq<char>, MessageView)| e.1),
        decreases msgs@.len() - k,
    {
        let m: &'a DescriptorProto = &msgs[k];
        let full: String = if package.as_str().is_empty() {
            m.name.clone()
        } else {
            package.clone().concat(".").concat(m.name.as_str())
        };
        proof {
            reveal_strlit(".");
            assert(full@ == spec_top_name(package@, m@.name));
            lemma_nested_views(*m);
        }
        names.push(full.clone());
        descs.push(m);
        collect_nested(&full, &m.nested_type, names, descs);
        proof {
            let prev = spec_flat_top(package@, mv, k as int);
            let sub = spec_flat_nested(full@, m@.nested, m@.nested.len() as int);
            assert(spec_flat_top(package@, mv, k + 1) == prev + seq![(full@, m@)] + sub);
            assert((prev + seq![(full@, m@)] + sub).map_values(|e: (Seq<char>, MessageView)| e.0) =~= prev.map_values(|e: (Seq<char>, MessageView)| e.0) + seq![full@] + sub.map_values(|e: (Seq<char>, MessageView)| e.0));
            assert((prev + seq![(full@, m@)] + sub).map_values(|e: (Seq<char>, MessageView)| e.1) =~= prev.map_values(|e: (Seq<char>, MessageView)| e.1) + seq![m@] + sub.map_values(|e: (Seq<char>, MessageView)| e.1));
        }
        k += 1;
    }
    proof {
        let flat = spec_flat_top(package@, mv, msgs@.len() as int);
        assert forall|k: int| 0 <= k < flat.len() implies (#[trigger] descs@[k])@ == flat[k].1 by {
            assert(descs@.map_values(|d: &DescriptorProto| d@)[k] == flat.map_values(|e: (Seq<char>, MessageView)| e.1)[k]);
        }
    }
}

/// The message slots among the first `k` fields lie below `k`.
proof fn lemma_message_slots(fields: Seq<FieldView>, k: int)
    ensures
        forall|j: int| 0 <= j < spec_message_slots(fields, k).len() ==> 0 <= #[trigger] spec_message_slots(fields, k)[j] < k,
        spec_message_slots(fields, k).len() == spec_count_messages(fields, k),
    decreases k,
{
    if k > 0 {
        lemma_message_slots(fields, k - 1);
    }
}

/// The nested types of a message type, as views.
proof fn lemma_nested_views(d: DescriptorProto)
    ensures
        d@.nested == spec_message_views(d.nested_type@),
{
    assert(d@.nested =~= spec_message_views(d.nested_type@));
}


// ----- looking up and decoding messages by name -----

/// Why a pool could not give a message.
#[derive(Clone, Copy, PartialEq, Eq, Debug, Structural)]
pub enum PoolError {
    /// No table of that name.
    NotFound,
    /// The bytes do not decode as a message of that type.
    DecodeFailed,
}

/// How many levels of nested messages the pool decodes.
pub const POOL_STACK_DEPTH: usize = 32;

impl DescriptorPool {
    /// The index of the last table named `message_type`, or -1.
    pub open spec fn spec_index_of(&self, message_type: Seq<char>) -> int {
        spec_last_index_of(self.name_views(), message_type, self.names@.len() as int)
    }

    fn index_of(&self, message_type: &str) -> (r: Option<usize>)
        requires
            self.wf(),
        ensures
            match r {
                Some(k) => k as int == self.spec_index_of(message_type@) && k < self.tables@.len(),
                None => self.spec_index_of(message_type@) == -1,
            },
    {
        let name: String = message_type.to_owned();
        let r = self.find_table(&name);
        proof {
            if let Some(k) = r {
                lemma_last_index_bound(self.name_views(), name@, self.names@.len() as int);
            }
        }
        r
    }

    /// The table of message type `message_type` (the last one of that name).
    pub fn get_table(&self, message_type: &str) -> (r: Option<&Table>)
        requires
            self.wf(),
        ensures
            match r {
                Some(t) => self.spec_index_of(message_type@) >= 0 && *t == self.tables@[self.spec_index_of(message_type@)],
                None => self.spec_index_of(message_type@) == -1,
            },
    {
        match self.index_of(message_type) {
            Some(k) => Some(&self.tables[k]),
            None => None,
        }
    }

    /// A fresh object of message type `message_type`.
    pub fn create_message(&self, message_type: &str) -> (r: Result<Object, PoolError>)
        requires
            self.wf(),
        ensures
            match r {
                Ok(o) => self.spec_index_of(message_type@) >= 0 && o@ == spec_new_object(self.tables@[self.spec_index_of(message_type@)]),
                Err(e) => e == PoolError::NotFound && self.spec_index_of(message_type@) == -1,
            },
    {
        match self.index_of(message_type) {
            Some(k) => Ok(Object::create(&self.tables[k])),
            None => Err(PoolError::NotFound),
        }
    }

    /// Decodes `bytes` as a message of type `message_type`, with at most
    /// `POOL_STACK_DEPTH` levels of nested messages.
    pub fn decode_message(&self, message_type: &str, bytes: &[u8]) -> (r: Result<Object, PoolError>)
        requires
            self.wf(),
        ensures
            ({
                let k = self.spec_index_of(message_type@);
                match r {
                    Ok(o) => k >= 0 && spec_dec_msg(self.tables@, k, bytes@, spec_new_object(self.tables@[k]), POOL_STACK_DEPTH as nat) == Some(o@),
                    Err(e) => if k < 0 {
                        e == PoolError::NotFound
                    } else {
                        e == PoolError::DecodeFailed && spec_dec_msg(self.tables@, k, bytes@, spec_new_object(self.tables@[k]), POOL_STACK_DEPTH as nat) is None
                    },
                }
            }),
    {
        match self.index_of(message_type) {
            Some(k) => {
                let mut obj = Object::create(&self.tables[k]);
                if crate::decoding::decode_message(self.tables.as_slice(), k, bytes, &mut obj, POOL_STACK_DEPTH) {
                    Ok(obj)
                } else {
                    Err(PoolError::DecodeFailed)
                }
            },
            None => Err(PoolError::NotFound),
        }
    }
}

proof fn lemma_last_index_bound(names: Seq<Seq<char>>, name: Seq<char>, k: int)
    requires
        k >= 0,
    ensures
        spec_last_index_of(names, name, k) < k,
        spec_last_index_of(names, name, k) >= -1,
    decreases k,
{
    if k > 0 {
        lemma_last_index_bound(names, name, k - 1);
    }
}

// ----- reading fields through descriptors -----

/// A message object together with its table in a pool of tables.
pub struct DynamicMessage<'a> {
    pub object: &'a Object,
    pub tables: &'a [Table],
    pub table: usize,
}

/// The children of a repeated message field, with their table.
pub struct DynamicMessageArray<'a> {
    pub object: &'a [Object],
    pub tables: &'a [Table],
    pub table: usize,
}

/// Walks the messages of an array in order.
pub struct DynamicMessageArrayIter<'a> {
    pub array: DynamicMessageArray<'a>,
    pub index: usize,
}

/// The value of a present field. Floating-point values are given by their
/// bits; strings by their bytes.
pub enum Value<'a> {
    Int32(i32),
    Int64(i64),
    UInt32(u32),
    UInt64(u64),
    Float(u32),
    Double(u64),
    Bool(bool),
    String(&'a [u8]),
    Bytes(&'a [u8]),
    Message(DynamicMessage<'a>),
    RepeatedInt32(Vec<i32>),
    RepeatedInt64(Vec<i64>),
    RepeatedUInt32(Vec<u32>),
    RepeatedUInt64(Vec<u64>),
    RepeatedFloat(Vec<u32>),
    RepeatedDouble(Vec<u64>),
    RepeatedBool(Vec<bool>),
    RepeatedString(&'a [Bytes]),
    RepeatedBytes(&'a [Bytes]),
    RepeatedMessage(DynamicMessageArray<'a>),
}

/// A value as mathematical values: a child message as its object and table.
pub enum ValueView {
    Int32(i32),
    Int64(i64),
    UInt32(u32),
    UInt64(u64),
    Float(u32),
    Double(u64),
    Bool(bool),
    String(Seq<u8>),
    Bytes(Seq<u8>),
    Message(ObjectView, usize),
    RepeatedInt32(Seq<i32>),
    RepeatedInt64(Seq<i64>),
    RepeatedUInt32(Seq<u32>),
    RepeatedUInt64(Seq<u64>),
    RepeatedFloat(Seq<u32>),
    RepeatedDouble(Seq<u64>),
    RepeatedBool(Seq<bool>),
    RepeatedString(Seq<Seq<u8>>),
    RepeatedBytes(Seq<Seq<u8>>),
    RepeatedMessage(Seq<ObjectView>, usize),
}

pub open spec fn spec_bytes_views(v: Seq<Bytes>) -> Seq<Seq<u8>> {
    v.map_values(|b: Bytes| b@)
}

pub open spec fn spec_object_views(v: Seq<Object>) -> Seq<ObjectView> {
    v.map_values(|o: Object| o@)
}

impl<'a> View for Value<'a> {
    type V = ValueView;

    open spec fn view(&self) -> ValueView {
        match self {
            Value::Int32(v) => ValueView::Int32(*v),
            Value::Int64(v) => ValueView::Int64(*v),
            Value::UInt32(v) => ValueView::UInt32(*v),
            Value::UInt64(v) => ValueView::UInt64(*v),
            Value::Float(v) => ValueView::Float(*v),
            Value::Double(v) => ValueView::Double(*v),
            Value::Bool(v) => ValueView::Bool(*v),
            Value::String(s) => ValueView::String(s@),
            Value::Bytes(s) => ValueView::Bytes(s@),
            Value::Message(m) => ValueView::Message(m.object@, m.table),
            Value::RepeatedInt32(v) => ValueView::RepeatedInt32(v@),
            Value::RepeatedInt64(v) => ValueView::RepeatedInt64(v@),
            Value::RepeatedUInt32(v) => ValueView::RepeatedUInt32(v@),
            Value::RepeatedUInt64(v) => ValueView::RepeatedUInt64(v@),
            Value::RepeatedFloat(v) => ValueView::RepeatedFloat(v@),
            Value::RepeatedDouble(v) => ValueView::RepeatedDouble(v@),
            Value::RepeatedBool(v) => ValueView::RepeatedBool(v@),
            Value::RepeatedString(v) => ValueView::RepeatedString(spec_bytes_views(v@)),
            Value::RepeatedBytes(v) => ValueView::RepeatedBytes(spec_bytes_views(v@)),
            Value::RepeatedMessage(a) => ValueView::RepeatedMessage(spec_object_views(a.object@), a.table),
        }
    }
}

pub open spec fn spec_as_i32(raw: u64) -> i32 {
    (raw as u32) as i32
}

pub open spec fn spec_as_u32(raw: u64) -> u32 {
    raw as u32
}

pub open spec fn spec_as_i64(raw: u64) -> i64 {
    raw as i64
}

pub open spec fn spec_as_bool(raw: u64) -> bool {
    raw != 0
}

/// What reading field `f` of object `o` of table `t` gives: for a repeated
/// field, its elements where there are any; for a message field, its child
/// where there is one; for another field, its value where its has-bit is set.
/// The slot is the one that the decode entry of the field's number names.
pub open spec fn spec_get_field(o: ObjectView, t: Table, f: FieldView) -> Option<ValueView> {
    let e = t.decode_entries@[f.number as int].0;
    let off = spec_entry_offset(e) as int;
    if spec_is_message(f) {
        if off >= t.aux_entries@.len() || t.aux_entries@[off].offset as int >= o.slots.len() {
            None
        } else {
            let aux = t.aux_entries@[off];
            let slot = aux.offset as int;
            if spec_is_repeated(f) {
                let cs = slot_repeated_message(o.slots[slot]);
                if cs.len() == 0 {
                    None
                } else {
                    Some(ValueView::RepeatedMessage(cs, aux.child_table))
                }
            } else {
                match slot_message(o.slots[slot]) {
                    Some(c) => Some(ValueView::Message(c, aux.child_table)),
                    None => None,
                }
            }
        }
    } else if off >= o.slots.len() {
        None
    } else if spec_is_repeated(f) {
        let raw = slot_repeated(o.slots[off]);
        let bs = slot_repeated_bytes(o.slots[off]);
        let v = match f.field_type {
            FieldType::Int32 | FieldType::Sint32 | FieldType::Sfixed32 | FieldType::Enum =>
                ValueView::RepeatedInt32(raw.map_values(|x: u64| spec_as_i32(x))),
            FieldType::Int64 | FieldType::Sint64 | FieldType::Sfixed64 =>
                ValueView::RepeatedInt64(raw.map_values(|x: u64| spec_as_i64(x))),
            FieldType::Uint32 | FieldType::Fixed32 => ValueView::RepeatedUInt32(raw.map_values(|x: u64| spec_as_u32(x))),
            FieldType::Uint64 | FieldType::Fixed64 => ValueView::RepeatedUInt64(raw),
            FieldType::Float => ValueView::RepeatedFloat(raw.map_values(|x: u64| spec_as_u32(x))),
            FieldType::Double => ValueView::RepeatedDouble(raw),
            FieldType::Bool => ValueView::RepeatedBool(raw.map_values(|x: u64| spec_as_bool(x))),
            FieldType::String => ValueView::RepeatedString(bs),
            _ => ValueView::RepeatedBytes(bs),
        };
        let n = if f.field_type == FieldType::String || f.field_type == FieldType::Bytes {
            bs.len()
        } else {
            raw.len()
        };
        if n == 0 {
            None
        } else {
            Some(v)
        }
    } else {
        let raw = slot_scalar(o.slots[off]);
        let v = match f.field_type {
            FieldType::Int32 | FieldType::Sint32 | FieldType::Sfixed32 | FieldType::Enum => ValueView::Int32(spec_as_i32(raw)),
            FieldType::Int64 | FieldType::Sint64 | FieldType::Sfixed64 => ValueView::Int64(spec_as_i64(raw)),
            FieldType::Uint32 | FieldType::Fixed32 => ValueView::UInt32(spec_as_u32(raw)),
            FieldType::Uint64 | FieldType::Fixed64 => ValueView::UInt64(raw),
            FieldType::Float => ValueView::Float(spec_as_u32(raw)),
            FieldType::Double => ValueView::Double(raw),
            FieldType::Bool => ValueView::Bool(spec_as_bool(raw)),
            FieldType::String => ValueView::String(slot_bytes(o.slots[off])),
            _ => ValueView::Bytes(slot_bytes(o.slots[off])),
        };
        let hb = spec_entry_has_bit(e);
        if hb < 64 && spec_has_bit(o.has_bits, hb as u64) {
            Some(v)
        } else {
            None
        }
    }
}

fn to_i32_vec(raw: &[u64]) -> (r: Vec<i32>)
    ensures
        r@ == raw@.map_values(|x: u64| spec_as_i32(x)),
{
    let mut r: Vec<i32> = Vec::new();
    let mut i: usize = 0;
    while i < raw.len()
        invariant
            i <= raw@.len(),
            r@ == raw@.take(i as int).map_values(|x: u64| spec_as_i32(x)),
        decreases raw@.len() - i,
    {
        r.push((raw[i] as u32) as i32);
        proof {
            assert(raw@.take(i + 1) =~= raw@.take(i as int).push(raw@[i as int]));
        }
        i += 1;
        assert(r@ =~= raw@.take(i as int).map_values(|x: u64| spec_as_i32(x)));
    }
    assert(raw@.take(i as int) =~= raw@);
    r
}

fn to_i64_vec(raw: &[u64]) -> (r: Vec<i64>)
    ensures
        r@ == raw@.map_values(|x: u64| spec_as_i64(x)),
{
    let mut r: Vec<i64> = Vec::new();
    let mut i: usize = 0;
    while i < raw.len()
        invariant
            i <= raw@.len(),
            r@ == raw@.take(i as int).map_values(|x: u64| spec_as_i64(x)),
        decreases raw@.len() - i,
    {
        r.push(raw[i] as i64);
        proof {
            assert(raw@.take(i + 1) =~= raw@.take(i as int).push(raw@[i as int]));
        }
        i += 1;
        assert(r@ =~= raw@.take(i as int).map_values(|x: u64| spec_as_i64(x)));
    }
    assert(raw@.take(i as int) =~= raw@);
    r
}

fn to_u32_vec(raw: &[u64]) -> (r: Vec<u32>)
    ensures
        r@ == raw@.map_values(|x: u64| spec_as_u32(x)),
{
    let mut r: Vec<u32> = Vec::new();
    let mut i: usize = 0;
    while i < raw.len()
        invariant
            i <= raw@.len(),
            r@ == raw@.take(i as int).map_values(|x: u64| spec_as_u32(x)),
        decreases raw@.len() - i,
    {
        r.push(raw[i] as u32);
        proof {
            assert(raw@.take(i + 1) =~= raw@.take(i as int).push(raw@[i as int]));
        }
        i += 1;
        assert(r@ =~= raw@.take(i as int).map_values(|x: u64| spec_as_u32(x)));
    }
    assert(raw@.take(i as int) =~= raw@);
    r
}

fn to_bool_vec(raw: &[u64]) -> (r: Vec<bool>)
    ensures
        r@ == raw@.map_values(|x: u64| spec_as_bool(x)),
{
    let mut r: Vec<bool> = Vec::new();
    let mut i: usize = 0;
    while i < raw.len()
        invariant
            i <= raw@.len(),
            r@ == raw@.take(i as int).map_values(|x: u64| spec_as_bool(x)),
        decreases raw@.len() - i,
    {
        r.push(raw[i] != 0);
        proof {
            assert(raw@.take(i + 1) =~= raw@.take(i as int).push(raw@[i as int]));
        }
        i += 1;
        assert(r@ =~= raw@.take(i as int).map_values(|x: u64| spec_as_bool(x)));
    }
    assert(raw@.take(i as int) =~= raw@);
    r
}

fn to_u64_vec(raw: &[u64]) -> (r: Vec<u64>)
    ensures
        r@ == raw@,
{
    let mut r: Vec<u64> = Vec::new();
    let mut i: usize = 0;
    while i < raw.len()
        invariant
            i <= raw@.len(),
            r@ == raw@.take(i as int),
        decreases raw@.len() - i,
    {
        r.push(raw[i]);
        i += 1;
        assert(r@ =~= raw@.take(i as int));
    }
    assert(raw@.take(i as int) =~= raw@);
    r
}

impl<'a> DynamicMessage<'a> {
    /// Its table is one of the pool's.
    pub open spec fn wf(&self) -> bool {
        self.table < self.tables@.len()
    }

    /// The object `object` of table `table` of the pool `tables`.
    pub fn new(object: &'a Object, tables: &'a [Table], table: usize) -> (r: Self)
        ensures
            r.object == object,
            r.tables == tables,
            r.table == table,
    {
        DynamicMessage { object, tables, table }
    }

    /// Its table.
    pub fn table(&self) -> (r: &Table)
        requires
            self.wf(),
        ensures
            *r == self.tables@[self.table as int],
    {
        &self.tables[self.table]
    }

    /// The descriptor of its message type.
    pub fn descriptor(&self) -> (r: &DescriptorProto)
        requires
            self.wf(),
        ensures
            *r == self.tables@[self.table as int].descriptor,
    {
        &self.tables[self.table].descriptor
    }

    /// The first field of its message type named `field_name`.
    pub fn find_field_descriptor(&self, field_name: &str) -> (r: Option<&FieldDescriptorProto>)
        requires
            self.wf(),
        ensures
            ({
                let fields = self.tables@[self.table as int].descriptor.field@;
                let i = spec_first_named(fields.map_values(|f: FieldDescriptorProto| f@), field_name@, fields.len() as int);
                match r {
                    Some(f) => i >= 0 && *f == fields[i],
                    None => i == -1,
                }
            }),
    {
        let fields = &self.tables[self.table].descriptor.field;
        let ghost fv = fields@.map_values(|f: FieldDescriptorProto| f@);
        let name: String = field_name.to_owned();
        let mut i: usize = 0;
        while i < fields.len()
            invariant
                i <= fields@.len(),
                self.table < self.tables@.len(),
                fields@ == self.tables@[self.table as int].descriptor.field@,
                fv == fields@.map_values(|f: FieldDescriptorProto| f@),
                name@ == field_name@,
                spec_first_named(fv, name@, i as int) == -1,
            decreases fields@.len() - i,
        {
            if fields[i].name == name {
                proof {
                    assert(fv[i as int] == fields@[i as int]@);
                    assert(spec_first_named(fv, name@, i as int + 1) == i);
                    lemma_first_named_extend(fv, name@, i as int + 1, fv.len() as int);
                    assert(spec_first_named(fv, field_name@, fields@.len() as int) == i);
                    assert(fields@ == self.tables@[self.table as int].descriptor.field@);
                }
                return Some(&fields[i]);
            }
            i += 1;
        }
        None
    }

    /// The first field of its message type with number `field_number`.
    pub fn find_field_descriptor_by_number(&self, field_number: i32) -> (r: Option<&FieldDescriptorProto>)
        requires
            self.wf(),
        ensures
            ({
                let fields = self.tables@[self.table as int].descriptor.field@;
                let i = spec_first_with_number(fields.map_values(|f: FieldDescriptorProto| f@), field_number as int, fields.len() as int);
                match r {
                    Some(f) => i >= 0 && *f == fields[i],
                    None => i == -1,
                }
            }),
    {
        let fields = &self.tables[self.table].descriptor.field;
        let ghost fv = fields@.map_values(|f: FieldDescriptorProto| f@);
        let mut i: usize = 0;
        while i < fields.len()
            invariant
                i <= fields@.len(),
                self.table < self.tables@.len(),
                fields@ == self.tables@[self.table as int].descriptor.field@,
                fv == fields@.map_values(|f: FieldDescriptorProto| f@),
                spec_first_with_number(fv, field_number as int, i as int) == -1,
            decreases fields@.len() - i,
        {
            if fields[i].number == field_number {
                proof {
                    assert(fv[i as int] == fields@[i as int]@);
                    assert(spec_first_with_number(fv, field_number as int, i as int + 1) == i);
                    lemma_first_with_number_extend(fv, field_number as int, i as int + 1, fv.len() as int);
                }
                return Some(&fields[i]);
            }
            i += 1;
        }
        None
    }

    /// The value of field `field`, where it is present: see `spec_get_field`.
    /// Its number must have a decode entry.
    pub fn get_field(&self, field: &FieldDescriptorProto) -> (r: Option<Value<'a>>)
        requires
            self.wf(),
            0 <= field.number < self.tables@[self.table as int].decode_entries@.len(),
        ensures
            match r {
                Some(v) => spec_get_field(self.object@, self.tables@[self.table as int], field@) == Some(v@),
                None => spec_get_field(self.object@, self.tables@[self.table as int], field@) is None,
            },
            match r {
                Some(Value::Message(m)) => m.tables == self.tables,
                Some(Value::RepeatedMessage(a)) => a.tables == self.tables,
                _ => true,
            },
    {
        let object: &'a Object = self.object;
        let tables: &'a [Table] = self.tables;
        let table: &'a Table = &tables[self.table];
        let entry = table.decode_entries[field.number as usize];
        let off = entry.offset() as usize;
        if is_message(field) {
            if off >= table.aux_entries.len() {
                return None;
            }
            let aux = table.aux_entries[off];
            let slot = aux.offset as usize;
            if slot >= object.slots.len() {
                return None;
            }
            if is_repeated(field) {
                let cs: &'a [Object] = object.children(slot);
                if cs.len() == 0 {
                    return None;
                }
                let a = DynamicMessageArray { object: cs, tables, table: aux.child_table };
                proof {
                    assert(spec_object_views(cs@) =~= slot_repeated_message(object@.slots[slot as int]));
                }
                Some(Value::RepeatedMessage(a))
            } else {
                match object.child(slot) {
                    Some(c) => Some(Value::Message(DynamicMessage { object: c, tables, table: aux.child_table })),
                    None => None,
                }
            }
        } else {
            if off >= object.slots.len() {
                return None;
            }
            if is_repeated(field) {
                match field.field_type {
                    FieldType::String | FieldType::Bytes => {
                        let bs: &'a [Bytes] = object.get_bytes_slice(off);
                        proof {
                            assert(spec_bytes_views(bs@) =~= slot_repeated_bytes(object@.slots[off as int]));
                        }
                        if bs.len() == 0 {
                            None
                        } else if field.field_type == FieldType::String {
                            Some(Value::RepeatedString(bs))
                        } else {
                            Some(Value::RepeatedBytes(bs))
                        }
                    },
                    _ => {
                        let raw: &'a [u64] = object.get_slice(off);
                        if raw.len() == 0 {
                            return None;
                        }
                        let v = match field.field_type {
                            FieldType::Int32 | FieldType::Sint32 | FieldType::Sfixed32 | FieldType::Enum =>
                                Value::RepeatedInt32(to_i32_vec(raw)),
                            FieldType::Int64 | FieldType::Sint64 | FieldType::Sfixed64 =>
                                Value::RepeatedInt64(to_i64_vec(raw)),
                            FieldType::Uint32 | FieldType::Fixed32 => Value::RepeatedUInt32(to_u32_vec(raw)),
                            FieldType::Uint64 | FieldType::Fixed64 => Value::RepeatedUInt64(to_u64_vec(raw)),
                            FieldType::Float => Value::RepeatedFloat(to_u32_vec(raw)),
                            FieldType::Double => Value::RepeatedDouble(to_u64_vec(raw)),
                            _ => Value::RepeatedBool(to_bool_vec(raw)),
                        };
                        Some(v)
                    },
                }
            } else {
                let raw = object.get(off);
                let v = match field.field_type {
                    FieldType::Int32 | FieldType::Sint32 | FieldType::Sfixed32 | FieldType::Enum => Value::Int32((raw as u32) as i32),
                    FieldType::Int64 | FieldType::Sint64 | FieldType::Sfixed64 => Value::Int64(raw as i64),
                    FieldType::Uint32 | FieldType::Fixed32 => Value::UInt32(raw as u32),
                    FieldType::Uint64 | FieldType::Fixed64 => Value::UInt64(raw),
                    FieldType::Float => Value::Float(raw as u32),
                    FieldType::Double => Value::Double(raw),
                    FieldType::Bool => Value::Bool(raw != 0),
                    FieldType::String => Value::String(object.bytes(off)),
                    _ => Value::Bytes(object.bytes(off)),
                };
                let hb = entry.has_bit_idx();
                if hb < 64 && object.has_bit(hb as u8) {
                    Some(v)
                } else {
                    None
                }
            }
        }
    }
}

/// The first of the first `k` fields named `name`, or -1.
pub open spec fn spec_first_named(fields: Seq<FieldView>, name: Seq<char>, k: int) -> int
    decreases k,
{
    if k <= 0 {
        -1
    } else {
        let p = spec_first_named(fields, name, k - 1);
        if p >= 0 {
            p
        } else if fields[k - 1].name == name {
            k - 1
        } else {
            -1
        }
    }
}

proof fn lemma_first_named_extend(fields: Seq<FieldView>, name: Seq<char>, a: int, b: int)
    requires
        1 <= a <= b,
        spec_first_named(fields, name, a) >= 0,
    ensures
        spec_first_named(fields, name, b) == spec_first_named(fields, name, a),
    decreases b - a,
{
    if a < b {
        lemma_first_named_extend(fields, name, a, b - 1);
    }
}

proof fn lemma_first_with_number_extend(fields: Seq<FieldView>, n: int, a: int, b: int)
    requires
        1 <= a <= b,
        spec_first_with_number(fields, n, a) >= 0,
    ensures
        spec_first_with_number(fields, n, b) == spec_first_with_number(fields, n, a),
    decreases b - a,
{
    if a < b {
        lemma_first_with_number_extend(fields, n, a, b - 1);
    }
}

impl<'a> DynamicMessageArray<'a> {
    /// The number of messages.
    pub fn len(&self) -> (r: usize)
        ensures
            r == self.object@.len(),
    {
        self.object.len()
    }

    /// Whether there are none.
    pub fn is_empty(&self) -> (r: bool)
        ensures
            r == (self.object@.len() == 0),
    {
        self.object.len() == 0
    }

    /// Message `index`.
    pub fn get(&self, index: usize) -> (r: DynamicMessage<'a>)
        requires
            index < self.object@.len(),
        ensures
            *r.object == self.object@[index as int],
            r.tables == self.tables,
            r.table == self.table,
    {
        DynamicMessage { object: &self.object[index], tables: self.tables, table: self.table }
    }

    /// Walks the messages from the first.
    pub fn iter(&self) -> (r: DynamicMessageArrayIter<'a>)
        ensures
            r.array.object == self.object,
            r.array.tables == self.tables,
            r.array.table == self.table,
            r.index == 0,
    {
        DynamicMessageArrayIter {
            array: DynamicMessageArray { object: self.object, tables: self.tables, table: self.table },
            index: 0,
        }
    }
}

impl<'a> DynamicMessageArrayIter<'a> {
    /// The next message, if any is left.
    pub fn next(&mut self) -> (r: Option<DynamicMessage<'a>>)
        ensures
            final(self).array.object == old(self).array.object,
            final(self).array.tables == old(self).array.tables,
            final(self).array.table == old(self).array.table,
            old(self).index < old(self).array.object@.len() ==> (final(self).index == old(self).index + 1
                && (r matches Some(m) && *m.object == old(self).array.object@[old(self).index as int]
                && m.table == old(self).array.table && m.tables == old(self).array.tables)),
            old(self).index >= old(self).array.object@.len() ==> final(self).index == old(self).index && r is None,
    {
        if self.index < self.array.object.len() {
            let m = self.array.get(self.index);
            self.index = self.index + 1;
            Some(m)
        } else {
            None
        }
    }

    /// How many messages are left.
    pub fn len(&self) -> (r: usize)
        ensures
            r == if self.index <= self.array.object@.len() {
                self.array.object@.len() - self.index
            } else {
                0
            },
    {
        if self.index <= self.array.object.len() {
            self.array.object.len() - self.index
        } else {
            0
        }
    }
}


/// Whether tables can be built for message type `d`.
pub fn message_buildable(d: &DescriptorProto) -> (r: bool)
    ensures
        r == spec_buildable(d@),
{
    let ghost fv = d@.fields;
    let fields = &d.field;
    assert(fv == fields@.map_values(|f: FieldDescriptorProto| f@));
    let n = fields.len();
    if n > 0xFFFF {
        return false;
    }
    let mut has_bits: usize = 0;
    let mut max_number: i32 = 0;
    let mut i: usize = 0;
    while i < n
        invariant
            i <= n == fields@.len() == fv.len(),
            n <= 0xFFFF,
            fv == fields@.map_values(|f: FieldDescriptorProto| f@),
            has_bits == spec_count_has_bits(fv, i as int),
            has_bits <= i,
            i > 0 ==> max_number == spec_max_number_upto(fv, i as int),
            i == 0 ==> max_number == 0,
        decreases n - i,
    {
        assert(fv[i as int] == fields@[i as int]@);
        if needs_has_bit(&fields[i]) {
            has_bits += 1;
        }
        if i == 0 || fields[i].number > max_number {
            max_number = fields[i].number;
        }
        i += 1;
    }
    assert(max_number == spec_max_number(fv));
    assert(has_bits == spec_count_has_bits(fv, fv.len() as int));
    -1 <= max_number && max_number <= 2047 && has_bits <= 64
}

impl DescriptorPool {
    /// Adds the tables of `file` as `add_file` does where every message type
    /// of it can be built; otherwise leaves the pool as it is. Whether it
    /// added them.
    pub fn try_add_file(&mut self, file: &FileDescriptorProto) -> (r: bool)
        requires
            old(self).wf(),
        ensures
            final(self).wf(),
            r == ((forall|k: int| 0 <= k < spec_file_messages(*file).len() ==> spec_buildable(#[trigger] spec_file_messages(*file)[k].1))
                && old(self).tables@.len() + spec_file_messages(*file).len() <= usize::MAX),
            !r ==> *final(self) == *old(self),
            r ==> final(self).name_views() == old(self).name_views() + spec_file_messages(*file).map_values(|e: (Seq<char>, MessageView)| e.0),
            r ==> final(self).tables@.len() == old(self).tables@.len() + spec_file_messages(*file).len(),
            r ==> forall|k: int| 0 <= k < old(self).tables@.len() ==> #[trigger] final(self).tables@[k] == old(self).tables@[k],
            r ==> forall|k: int| 0 <= k < spec_file_messages(*file).len() ==> spec_table_of(
                #[trigger] final(self).tables@[old(self).tables@.len() + k],
                spec_file_messages(*file)[k].1,
                spec_file_proto3(*file),
                spec_children(spec_file_messages(*file)[k].1, final(self).name_views()),
            ),
    {
        let ghost flat = spec_file_messages(*file);
        let package: String = match &file.package {
            Some(p) => p.clone(),
            None => String::new(),
        };
        let mut names: Vec<String> = Vec::new();
        let mut descs: Vec<&DescriptorProto> = Vec::new();
        collect_top(&package, &file.message_type, &mut names, &mut descs);
        let mut j: usize = 0;
        while j < descs.len()
            invariant
                j <= descs@.len() == flat.len(),
                flat == spec_file_messages(*file),
                *self == *old(self),
                self.wf(),
                forall|k: int| 0 <= k < descs@.len() ==> (#[trigger] descs@[k])@ == flat[k].1,
                forall|k: int| 0 <= k < j ==> spec_buildable(#[trigger] flat[k].1),
            decreases descs@.len() - j,
        {
            if !message_buildable(descs[j]) {
                return false;
            }
            j += 1;
        }
        if self.tables.len() > usize::MAX - descs.len() {
            return false;
        }
        self.add_file(file);
        true
    }
}

} // verus!
