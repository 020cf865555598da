//! What reading gives back of the JSON form of a message: for messages of
//! plain types (no maps, no well-known types) with distinct JSON names, the
//! JSON text of a well-formed object reads back as the same object, provided
//! its floats and bytes survive the text (no NaN but the canonical one, no
//! non-finite element of a repeated float field, which JSON writers write as
//! null; base64 text that decodes back).
use vstd::prelude::*;
use vstd::string::StringSliceAdditionalSpecFns;
use crate::wire::FieldKind;
use crate::base::{
    ObjectView, spec_set_scalar, spec_set_bytes, spec_set_child, slot_scalar, slot_bytes,
    slot_repeated, slot_repeated_bytes, slot_message, slot_repeated_message,
};
use crate::tables::Table;
use crate::descriptor::{FieldType, FieldView};
use crate::decoding::{
    spec_entry_offset, spec_entry_has_bit, spec_empty_slot, spec_is_scalar,
    spec_is_repeated_scalar, spec_is_message_kind,
};
use crate::reflection::{
    ValueView, spec_get_field, spec_field_kind, spec_is_message, spec_is_repeated, spec_as_i32, spec_as_u32,
    spec_as_i64, spec_as_bool,
};
use crate::wellknown::{WellKnownType, spec_well_known};
use crate::roundtrip::{
    spec_pool_wf, spec_obj_wf, spec_field_wf, spec_child_wf, spec_child_table, spec_partial,
    spec_canonical, lemma_partial_zero, lemma_partial_full, lemma_entry_facts,
};
use crate::json::{
    JsonView, JsonError, spec_message_json, spec_fields_json, spec_value_json, spec_scalar_json,
    spec_array_json, spec_bytes_array_json, spec_base64_encode,
};
use crate::json_read::{
    JsonInputView, NumberValue, spec_read_message, spec_read_members, spec_apply_member,
    spec_read_messages, spec_last_json_named, spec_flexible_raw, spec_strict_raw, spec_strict_raws,
    spec_text_values, spec_base64_decode, spec_special_f32, spec_special_f64, spec_append_raws,
    spec_append_texts, spec_append_children,
};

verus! {

// ----- what a JSON reader gives for the text of a JSON value -----

/// Whether an `f32` is finite (JSON writers write the others as null).
pub open spec fn spec_f32_finite(b: u32) -> bool {
    (b >> 23u32) & 0xff != 0xff
}

/// Whether an `f64` is finite.
pub open spec fn spec_f64_finite(b: u64) -> bool {
    (b >> 52u64) & 0x7ff != 0x7ff
}

/// What a JSON reader reports for the text that a JSON writer makes of `j`:
/// null, booleans and strings as they are; a negative integer as a negative
/// integer, another as a non-negative one; a finite float as a number that
/// converts back to its bits, a non-finite one as null; arrays and objects
/// item by item, member names kept.
pub open spec fn spec_rereads(input: JsonInputView, j: JsonView) -> bool
    decreases j, 0int,
{
    match j {
        JsonView::Null => input is Null,
        JsonView::Bool(b) => input == JsonInputView::Bool(b),
        JsonView::Int(i) => input matches JsonInputView::Number(n) && n.value == (if i < 0 {
            NumberValue::NegInt(i)
        } else {
            NumberValue::PosInt(i as u64)
        }),
        JsonView::UInt(u) => input matches JsonInputView::Number(n) && n.value == NumberValue::PosInt(u),
        JsonView::Float(b) => if spec_f32_finite(b) {
            input matches JsonInputView::Number(n) && n.to_f32 == b
        } else {
            input is Null
        },
        JsonView::Double(b) => if spec_f64_finite(b) {
            input matches JsonInputView::Number(n) && n.to_f64 == b
        } else {
            input is Null
        },
        JsonView::String(s) => input matches JsonInputView::String(t) && t.text == s,
        JsonView::Array(items) => input matches JsonInputView::Array(xs) && xs.len() == items.len()
            && spec_rereads_items(xs, items, items.len() as int),
        JsonView::Object(ms) => input matches JsonInputView::Object(xs) && xs.len() == ms.len()
            && spec_rereads_members(xs, ms, ms.len() as int),
    }
}

/// The first `k` items are reread as `spec_rereads` says.
pub open spec fn spec_rereads_items(xs: Seq<JsonInputView>, items: Seq<JsonView>, k: int) -> bool
    decreases items, k,
{
    if k <= 0 || k > items.len() {
        true
    } else {
        spec_rereads_items(xs, items, k - 1) && spec_rereads(xs[k - 1], items[k - 1])
    }
}

/// The first `k` members are reread with their names.
pub open spec fn spec_rereads_members(xs: Seq<(Seq<u8>, JsonInputView)>, ms: Seq<(Seq<u8>, JsonView)>, k: int) -> bool
    decreases ms, k,
{
    if k <= 0 || k > ms.len() {
        true
    } else {
        spec_rereads_members(xs, ms, k - 1) && xs[k - 1].0 == ms[k - 1].0 && spec_rereads(xs[k - 1].1, ms[k - 1].1)
    }
}

proof fn lemma_rereads_item(xs: Seq<JsonInputView>, items: Seq<JsonView>, k: int, j: int)
    requires
        0 <= j < k <= items.len(),
        spec_rereads_items(xs, items, k),
    ensures
        spec_rereads(xs[j], items[j]),
    decreases k,
{
    if j < k - 1 {
        lemma_rereads_item(xs, items, k - 1, j);
    }
}

proof fn lemma_rereads_member(xs: Seq<(Seq<u8>, JsonInputView)>, ms: Seq<(Seq<u8>, JsonView)>, k: int, j: int)
    requires
        0 <= j < k <= ms.len(),
        spec_rereads_members(xs, ms, k),
    ensures
        xs[j].0 == ms[j].0,
        spec_rereads(xs[j].1, ms[j].1),
    decreases k,
{
    if j < k - 1 {
        lemma_rereads_member(xs, ms, k - 1, j);
    }
}

// ----- the messages the law speaks of -----

/// A table whose JSON form reads back: its encode entries follow its fields
/// one for one (kind and field number), its fields' JSON names are
/// distinct, and it is neither a well-known type nor a map entry.
pub open spec fn spec_json_table(table: Table) -> bool {
    let fields = table.descriptor@.fields;
    &&& fields.len() == table.encode_entries@.len()
    &&& forall|i: int|
        0 <= i < fields.len() ==> (#[trigger] table.encode_entries@[i]).kind == spec_field_kind(fields[i])
            && ((table.encode_entries@[i].encoded_tag as u64) >> 3u64) as int == fields[i].number as int
    &&& forall|i: int, j: int|
        #![trigger fields[i], fields[j]]
        0 <= i < j < fields.len() ==> vstd::utf8::encode_utf8(fields[i].json_name) != vstd::utf8::encode_utf8(
            fields[j].json_name,
        )
    &&& spec_well_known(table.descriptor.name@) == WellKnownType::Plain
    &&& !table.descriptor.map_entry
}

/// A well-formed pool of such tables.
pub open spec fn spec_json_pool(pool: Seq<Table>) -> bool {
    &&& spec_pool_wf(pool)
    &&& forall|t: int| 0 <= t < pool.len() ==> #[trigger] spec_json_table(pool[t])
}

/// An `f32` that its JSON text gives back: not a NaN but the canonical one.
pub open spec fn spec_f32_exact(b: u32) -> bool {
    spec_f32_finite(b) || b & 0x7f_ffff == 0 || b == 0x7fc0_0000u32
}

/// An `f64` that its JSON text gives back.
pub open spec fn spec_f64_exact(b: u64) -> bool {
    spec_f64_finite(b) || b & 0xf_ffff_ffff_ffff == 0 || b == 0x7ff8_0000_0000_0000u64
}

/// Bytes whose base64 text decodes back to them (which the base64 engine
/// promises of the text it writes).
pub open spec fn spec_base64_back(b: Seq<u8>) -> bool {
    spec_base64_decode(spec_base64_encode(b)) == Some(b)
}

/// Field `i` of `o` holds floats and bytes that its JSON text gives back, and
/// so do its children.
pub open spec fn spec_json_exact_field(pool: Seq<Table>, t: int, o: ObjectView, i: int, fuel: nat) -> bool
    decreases fuel, 0nat,
{
    let table = pool[t];
    let f = table.descriptor@.fields[i];
    let ty = f.field_type;
    let s = o.slots[i];
    if spec_is_message(f) {
        if spec_is_repeated(f) {
            forall|j: int|
                0 <= j < slot_repeated_message(s).len() ==> fuel > 0 && spec_json_exact(
                    pool,
                    spec_child_table(table, i),
                    #[trigger] slot_repeated_message(s)[j],
                    (fuel - 1) as nat,
                )
        } else {
            slot_message(s) matches Some(c) ==> fuel > 0 && spec_json_exact(pool, spec_child_table(table, i), c, (fuel - 1) as nat)
        }
    } else if spec_is_repeated(f) {
        if ty == FieldType::Float {
            forall|j: int| 0 <= j < slot_repeated(s).len() ==> spec_f32_finite(#[trigger] slot_repeated(s)[j] as u32)
        } else if ty == FieldType::Double {
            forall|j: int| 0 <= j < slot_repeated(s).len() ==> spec_f64_finite(#[trigger] slot_repeated(s)[j])
        } else if ty == FieldType::Bytes {
            forall|j: int|
                0 <= j < slot_repeated_bytes(s).len() ==> spec_base64_back(#[trigger] slot_repeated_bytes(s)[j])
        } else {
            true
        }
    } else if ty == FieldType::Bytes {
        spec_base64_back(slot_bytes(s))
    } else if ty == FieldType::Float {
        spec_f32_exact(slot_scalar(s) as u32)
    } else if ty == FieldType::Double {
        spec_f64_exact(slot_scalar(s))
    } else {
        true
    }
}

/// Every field of `o` holds floats and bytes that its JSON text gives back.
pub open spec fn spec_json_exact(pool: Seq<Table>, t: int, o: ObjectView, fuel: nat) -> bool
    decreases fuel, 1nat,
{
    forall|i: int| #![trigger o.slots[i]] 0 <= i < pool[t].encode_entries@.len() ==> spec_json_exact_field(pool, t, o, i, fuel)
}

// ----- single values -----

proof fn lemma_int_bits(raw: u64)
    by (bit_vector)
    ensures
        raw <= 0xffff_ffff ==> ((((raw as u32) as i32) as i64) as i32) as u32 as u64 == raw,
        raw <= 0xffff_ffff ==> (((((raw as u32) as i32) as i64) as u64) as i32) as u32 as u64 == raw,
        raw <= 0xffff_ffff && (((raw as u32) as i32) as i64) >= 0 ==> ((((raw as u32) as i32) as i64) as u64)
            <= 0x7fff_ffff,
        raw <= 0xffff_ffff && (((raw as u32) as i32) as i64) >= 0 ==> (((((raw as u32) as i32) as i64) as u64)
            as i32) == ((raw as u32) as i32),
        raw <= 0xffff_ffff ==> (((raw as u32) as i32) as i64) >= -0x8000_0000,
        raw <= 0xffff_ffff ==> (((raw as u32) as u64) as u32) as u64 == raw,
        raw <= 0xffff_ffff ==> ((raw as u32) as u64) == raw,
        (raw as i64) as u64 == raw,
        (raw as i64) >= 0 ==> ((raw as i64) as u64) == raw,
{
}

proof fn lemma_float_bits(b: u32, d: u64)
    by (bit_vector)
    ensures
        (b >> 23u32) & 0xff == 0xff && b & 0x7f_ffff == 0 && b >> 31u32 == 1 ==> b == 0xff80_0000u32,
        (b >> 23u32) & 0xff == 0xff && b & 0x7f_ffff == 0 && b >> 31u32 != 1 ==> b == 0x7f80_0000u32,
        (d >> 52u64) & 0x7ff == 0x7ff && d & 0xf_ffff_ffff_ffff == 0 && d >> 63u64 == 1 ==> d
            == 0xfff0_0000_0000_0000u64,
        (d >> 52u64) & 0x7ff == 0x7ff && d & 0xf_ffff_ffff_ffff == 0 && d >> 63u64 != 1 ==> d
            == 0x7ff0_0000_0000_0000u64,
{
}

proof fn lemma_special_texts()
    ensures
        spec_special_f32("NaN".spec_bytes()) == Some(0x7fc0_0000u32),
        spec_special_f32("Infinity".spec_bytes()) == Some(0x7f80_0000u32),
        spec_special_f32("-Infinity".spec_bytes()) == Some(0xff80_0000u32),
        spec_special_f64("NaN".spec_bytes()) == Some(0x7ff8_0000_0000_0000u64),
        spec_special_f64("Infinity".spec_bytes()) == Some(0x7ff0_0000_0000_0000u64),
        spec_special_f64("-Infinity".spec_bytes()) == Some(0xfff0_0000_0000_0000u64),
{
    reveal_strlit("NaN");
    reveal_strlit("Infinity");
    reveal_strlit("-Infinity");
    vstd::string::is_ascii_spec_bytes("NaN");
    vstd::string::is_ascii_spec_bytes("Infinity");
    vstd::string::is_ascii_spec_bytes("-Infinity");
    assert("NaN".spec_bytes().len() == 3);
    assert("Infinity".spec_bytes().len() == 8);
    assert("-Infinity".spec_bytes().len() == 9);
}

/// The value that a singular scalar field of type `ty` with raw bits `raw`
/// reads as (as `spec_get_field` gives it).
pub open spec fn spec_scalar_value(ty: FieldType, raw: u64) -> ValueView {
    match ty {
        FieldType::Int32 | FieldType::Sint32 | FieldType::Sfixed32 | FieldType::Enum => ValueView::Int32(spec_as_i32(raw)),
        FieldType::Int64 | FieldType::Sint64 | FieldType::Sfixed64 => ValueView::Int64(spec_as_i64(raw)),
        FieldType::Uint32 | FieldType::Fixed32 => ValueView::UInt32(spec_as_u32(raw)),
        FieldType::Uint64 | FieldType::Fixed64 => ValueView::UInt64(raw),
        FieldType::Float => ValueView::Float(spec_as_u32(raw)),
        FieldType::Double => ValueView::Double(raw),
        _ => ValueView::Bool(spec_as_bool(raw)),
    }
}

/// Raw bits that fit a scalar field of type `ty`.
pub open spec fn spec_raw_fits(ty: FieldType, raw: u64) -> bool {
    match ty {
        FieldType::Int32 | FieldType::Sint32 | FieldType::Sfixed32 | FieldType::Enum | FieldType::Uint32
        | FieldType::Fixed32 | FieldType::Float => raw <= u32::MAX,
        FieldType::Bool => raw <= 1,
        _ => true,
    }
}

/// A singular scalar reads back from its JSON form.
proof fn lemma_scalar_back(ty: FieldType, raw: u64, x: JsonInputView)
    requires
        ty != FieldType::String && ty != FieldType::Bytes && ty != FieldType::Message && ty != FieldType::Group,
        spec_raw_fits(ty, raw),
        ty == FieldType::Float ==> spec_f32_exact(raw as u32),
        ty == FieldType::Double ==> spec_f64_exact(raw),
        spec_scalar_json(spec_scalar_value(ty, raw)) is Ok,
        spec_rereads(x, spec_scalar_json(spec_scalar_value(ty, raw))->Ok_0),
    ensures
        spec_flexible_raw(ty, x) == Ok::<u64, JsonError>(raw),
{
    lemma_int_bits(raw);
    let b = raw as u32;
    lemma_float_bits(b, raw);
    lemma_special_texts();
}

/// A scalar element of a repeated field reads back strictly from its JSON
/// form.
proof fn lemma_strict_back(ty: FieldType, raw: u64, j: JsonView, x: JsonInputView)
    requires
        ty != FieldType::String && ty != FieldType::Bytes && ty != FieldType::Message && ty != FieldType::Group,
        spec_raw_fits(ty, raw),
        ty == FieldType::Float ==> spec_f32_finite(raw as u32),
        ty == FieldType::Double ==> spec_f64_finite(raw),
        j == spec_element_json(ty, raw),
        spec_rereads(x, j),
    ensures
        spec_strict_raw(ty, x) == Ok::<u64, JsonError>(raw),
{
    lemma_int_bits(raw);
}

/// The JSON form of an element of a repeated scalar field.
pub open spec fn spec_element_json(ty: FieldType, raw: u64) -> JsonView {
    match ty {
        FieldType::Int32 | FieldType::Sint32 | FieldType::Sfixed32 | FieldType::Enum => JsonView::Int(spec_as_i32(raw) as i64),
        FieldType::Int64 | FieldType::Sint64 | FieldType::Sfixed64 => JsonView::Int(spec_as_i64(raw)),
        FieldType::Uint32 | FieldType::Fixed32 => JsonView::UInt(spec_as_u32(raw) as u64),
        FieldType::Uint64 | FieldType::Fixed64 => JsonView::UInt(raw),
        FieldType::Float => JsonView::Float(spec_as_u32(raw)),
        FieldType::Double => JsonView::Double(raw),
        _ => JsonView::Bool(spec_as_bool(raw)),
    }
}

// ----- repeated values -----

proof fn lemma_strict_raws_back(ty: FieldType, raws: Seq<u64>, items: Seq<JsonView>, xs: Seq<JsonInputView>, k: int)
    requires
        ty != FieldType::String && ty != FieldType::Bytes && ty != FieldType::Message && ty != FieldType::Group,
        0 <= k <= raws.len(),
        items.len() == raws.len(),
        xs.len() == raws.len(),
        forall|j: int| 0 <= j < raws.len() ==> #[trigger] items[j] == spec_element_json(ty, raws[j]),
        forall|j: int| 0 <= j < raws.len() ==> spec_raw_fits(ty, #[trigger] raws[j]),
        ty == FieldType::Float ==> forall|j: int| 0 <= j < raws.len() ==> spec_f32_finite(#[trigger] raws[j] as u32),
        ty == FieldType::Double ==> forall|j: int| 0 <= j < raws.len() ==> spec_f64_finite(#[trigger] raws[j]),
        spec_rereads_items(xs, items, items.len() as int),
    ensures
        spec_strict_raws(ty, xs, k) == Ok::<Seq<u64>, JsonError>(raws.take(k)),
    decreases k,
{
    if k > 0 {
        lemma_strict_raws_back(ty, raws, items, xs, k - 1);
        lemma_rereads_item(xs, items, items.len() as int, k - 1);
        assert(spec_raw_fits(ty, raws[k - 1]));
        if ty == FieldType::Float {
            assert(spec_f32_finite(raws[k - 1] as u32));
        }
        if ty == FieldType::Double {
            assert(spec_f64_finite(raws[k - 1]));
        }
        lemma_strict_back(ty, raws[k - 1], items[k - 1], xs[k - 1]);
        assert(raws.take(k - 1).push(raws[k - 1]) =~= raws.take(k));
    } else {
        assert(raws.take(0) =~= Seq::<u64>::empty());
    }
}

proof fn lemma_texts_back(ty: FieldType, bs: Seq<Seq<u8>>, items: Seq<JsonView>, xs: Seq<JsonInputView>, k: int)
    requires
        ty == FieldType::String || ty == FieldType::Bytes,
        0 <= k <= bs.len(),
        items.len() == bs.len(),
        xs.len() == bs.len(),
        ty == FieldType::String ==> forall|j: int| 0 <= j < bs.len() ==> #[trigger] items[j] == JsonView::String(bs[j]),
        ty == FieldType::Bytes ==> forall|j: int|
            0 <= j < bs.len() ==> #[trigger] items[j] == JsonView::String(spec_base64_encode(bs[j])),
        ty == FieldType::Bytes ==> forall|j: int| 0 <= j < bs.len() ==> spec_base64_back(#[trigger] bs[j]),
        spec_rereads_items(xs, items, items.len() as int),
    ensures
        spec_text_values(ty, xs, k) == Ok::<Seq<Seq<u8>>, JsonError>(bs.take(k)),
    decreases k,
{
    if k > 0 {
        lemma_texts_back(ty, bs, items, xs, k - 1);
        lemma_rereads_item(xs, items, items.len() as int, k - 1);
        if ty == FieldType::Bytes {
            assert(items[k - 1] == JsonView::String(spec_base64_encode(bs[k - 1])));
            assert(spec_base64_back(bs[k - 1]));
        } else {
            assert(items[k - 1] == JsonView::String(bs[k - 1]));
        }
        assert(bs.take(k - 1).push(bs[k - 1]) =~= bs.take(k));
    } else {
        assert(bs.take(0) =~= Seq::<Seq<u8>>::empty());
    }
}

proof fn lemma_bytes_array_items(bs: Seq<Seq<u8>>, k: int)
    requires
        0 <= k <= bs.len(),
        forall|j: int| 0 <= j < bs.len() ==> (#[trigger] bs[j]).len() <= usize::MAX / 2,
    ensures
        spec_bytes_array_json(bs, k) is Ok,
        spec_bytes_array_json(bs, k)->Ok_0.len() == k,
        forall|j: int| 0 <= j < k ==> #[trigger] spec_bytes_array_json(bs, k)->Ok_0[j] == JsonView::String(
            spec_base64_encode(bs[j]),
        ),
    decreases k,
{
    if k > 0 {
        lemma_bytes_array_items(bs, k - 1);
        assert(bs[k - 1].len() <= usize::MAX / 2);
    }
}

proof fn lemma_bytes_array_ok(bs: Seq<Seq<u8>>, k: int, j: int)
    requires
        0 <= j < k <= bs.len(),
        spec_bytes_array_json(bs, k) is Ok,
    ensures
        bs[j].len() <= usize::MAX / 2,
    decreases k,
{
    if j < k - 1 {
        if spec_bytes_array_json(bs, k - 1) is Err {
        } else {
            lemma_bytes_array_ok(bs, k - 1, j);
        }
    }
}

// ----- fields -----

/// Facts about field `k` of a table of the pool: its encode entry, the decode
/// entry of its number, its slot.
proof fn lemma_field_facts(pool: Seq<Table>, t: int, k: int)
    requires
        spec_json_pool(pool),
        0 <= t < pool.len(),
        0 <= k < pool[t].descriptor@.fields.len(),
    ensures
        ({
            let table = pool[t];
            let fields = table.descriptor@.fields;
            let f = fields[k];
            let e = table.encode_entries@[k];
            let d = table.decode_entries@[f.number as int].0;
            &&& fields.len() == table.encode_entries@.len()
            &&& table.encode_entries@.len() == table.size
            &&& e.kind == spec_field_kind(f)
            &&& 0 <= f.number < table.decode_entries@.len()
            &&& spec_entry_offset(d) == e.offset as u32
            &&& spec_entry_has_bit(d) == e.has_bit as u32
            &&& e.has_bit < 64
            &&& (!spec_is_message(f) ==> e.offset as int == k)
            &&& (spec_is_message(f) ==> (e.offset as int) < table.aux_entries@.len()
                && table.aux_entries@[e.offset as int].offset as int == k
                && table.aux_entries@[e.offset as int].child_table as int == spec_child_table(table, k))
        }),
{
    let table = pool[t];
    let fields = table.descriptor@.fields;
    assert(spec_json_table(pool[t]));
    assert(table.encode_entries@[k].kind == spec_field_kind(fields[k]));
    lemma_entry_facts(pool, t, k);
    let f = fields[k];
    let e = table.encode_entries@[k];
    assert(spec_is_message(f) <==> spec_is_message_kind(e.kind));
}

proof fn lemma_last_named(fields: Seq<FieldView>, k: int, m: int)
    requires
        0 <= k < m <= fields.len(),
        forall|i: int, j: int|
            #![trigger fields[i], fields[j]]
            0 <= i < j < fields.len() ==> vstd::utf8::encode_utf8(fields[i].json_name) != vstd::utf8::encode_utf8(
                fields[j].json_name,
            ),
    ensures
        spec_last_json_named(fields, vstd::utf8::encode_utf8(fields[k].json_name), m) == k,
    decreases m,
{
    if m - 1 > k {
        assert(vstd::utf8::encode_utf8(fields[k].json_name) != vstd::utf8::encode_utf8(fields[m - 1].json_name));
        lemma_last_named(fields, k, m - 1);
    }
}

/// The members for a prefix of the fields are a prefix of the members.
proof fn lemma_fields_prefix(pool: Seq<Table>, t: int, o: ObjectView, k: int, n: int, fuel: nat)
    requires
        0 <= k <= n,
        spec_fields_json(pool, t, o, n, fuel) is Ok,
    ensures
        spec_fields_json(pool, t, o, k, fuel) is Ok,
        spec_fields_json(pool, t, o, k, fuel)->Ok_0.len() <= spec_fields_json(pool, t, o, n, fuel)->Ok_0.len(),
        spec_fields_json(pool, t, o, n, fuel)->Ok_0.take(spec_fields_json(pool, t, o, k, fuel)->Ok_0.len() as int)
            == spec_fields_json(pool, t, o, k, fuel)->Ok_0,
    decreases n - k,
{
    if k < n {
        if spec_fields_json(pool, t, o, n - 1, fuel) is Err {
            assert(spec_fields_json(pool, t, o, n, fuel) is Err);
        }
        lemma_fields_prefix(pool, t, o, k, n - 1, fuel);
        let a = spec_fields_json(pool, t, o, k, fuel)->Ok_0;
        let b = spec_fields_json(pool, t, o, n - 1, fuel)->Ok_0;
        let c = spec_fields_json(pool, t, o, n, fuel)->Ok_0;
        assert(c == b || c == b.push(c.last()));
        assert(c.take(a.len() as int) =~= b.take(a.len() as int));
    } else {
        let c = spec_fields_json(pool, t, o, n, fuel)->Ok_0;
        assert(c.take(c.len() as int) =~= c);
    }
}

/// A field that reads as absent is empty in the object, so the object built
/// so far stays as it is.
proof fn lemma_field_absent(pool: Seq<Table>, t: int, o: ObjectView, fuel: nat, k: int)
    requires
        spec_json_pool(pool),
        0 <= t < pool.len(),
        spec_obj_wf(pool, t, o, fuel),
        0 <= k < pool[t].descriptor@.fields.len(),
        spec_get_field(o, pool[t], pool[t].descriptor@.fields[k]) is None,
    ensures
        spec_partial(pool, t, o, (k + 1) as nat) == spec_partial(pool, t, o, k as nat),
{
    let table = pool[t];
    let f = table.descriptor@.fields[k];
    let e = table.encode_entries@[k];
    lemma_field_facts(pool, t, k);
    assert(spec_field_wf(pool, t, o, k, fuel));
    let p = spec_partial(pool, t, o, k as nat);
    let p1 = spec_partial(pool, t, o, (k + 1) as nat);
    assert(o.slots[k] == spec_empty_slot(e.kind)) by {
        if spec_is_scalar(e.kind) {
        } else if e.kind == FieldKind::Bytes {
            assert(slot_bytes(o.slots[k]) =~= Seq::<u8>::empty());
        } else if spec_is_repeated_scalar(e.kind) {
            assert(slot_repeated(o.slots[k]) =~= Seq::<u64>::empty());
        } else if e.kind == FieldKind::RepeatedBytes {
            assert(slot_repeated_bytes(o.slots[k]) =~= Seq::<Seq<u8>>::empty());
        } else if e.kind == FieldKind::Message || e.kind == FieldKind::Group {
        } else {
            assert(slot_repeated_message(o.slots[k]) =~= Seq::<ObjectView>::empty());
        }
    }
    assert(p1.slots =~= p.slots);
}

proof fn lemma_array_items(pool: Seq<Table>, ct: int, cs: Seq<ObjectView>, k: int, fuel: nat)
    requires
        0 <= k <= cs.len(),
        spec_array_json(pool, ct, cs, k, fuel) is Ok,
    ensures
        spec_array_json(pool, ct, cs, k, fuel)->Ok_0.len() == k,
        forall|j: int| 0 <= j < k ==> spec_message_json(pool, ct, #[trigger] cs[j], fuel) == Ok::<JsonView, JsonError>(
            spec_array_json(pool, ct, cs, k, fuel)->Ok_0[j],
        ),
    decreases k,
{
    if k > 0 {
        if spec_array_json(pool, ct, cs, k - 1, fuel) is Err {
            assert(spec_array_json(pool, ct, cs, k, fuel) is Err);
        }
        lemma_array_items(pool, ct, cs, k - 1, fuel);
    }
}

/// The JSON form of a message of a table of the pool is a JSON object.
proof fn lemma_message_json_object(pool: Seq<Table>, t: int, o: ObjectView, fuel: nat)
    requires
        spec_json_pool(pool),
        0 <= t < pool.len(),
        spec_message_json(pool, t, o, fuel) is Ok,
    ensures
        spec_message_json(pool, t, o, fuel)->Ok_0 is Object,
{
    assert(spec_json_table(pool[t]));
}

/// The read of the items of a repeated message field gives back its children.
proof fn lemma_read_children(pool: Seq<Table>, ct: int, cs: Seq<ObjectView>, items: Seq<JsonView>, xs: Seq<JsonInputView>, k: int, fuel: nat)
    requires
        spec_json_pool(pool),
        0 <= ct < pool.len(),
        0 <= k <= cs.len(),
        spec_array_json(pool, ct, cs, cs.len() as int, fuel) == Ok::<Seq<JsonView>, JsonError>(items),
        xs.len() == items.len(),
        spec_rereads_items(xs, items, items.len() as int),
        forall|j: int| 0 <= j < cs.len() ==> spec_obj_wf(pool, ct, #[trigger] cs[j], fuel),
        forall|j: int| 0 <= j < cs.len() ==> spec_json_exact(pool, ct, #[trigger] cs[j], fuel),
    ensures
        spec_read_messages(pool, ct, xs, k, fuel) == Ok::<Seq<ObjectView>, JsonError>(cs.take(k)),
    decreases fuel, 4int, k,
{
    if k > 0 {
        lemma_read_children(pool, ct, cs, items, xs, k - 1, fuel);
        lemma_array_items(pool, ct, cs, cs.len() as int, fuel);
        let c = cs[k - 1];
        assert(spec_message_json(pool, ct, c, fuel) == Ok::<JsonView, JsonError>(items[k - 1]));
        lemma_rereads_item(xs, items, items.len() as int, k - 1);
        assert(spec_obj_wf(pool, ct, c, fuel));
        assert(spec_json_exact(pool, ct, c, fuel));
        lemma_json_roundtrip(pool, ct, c, fuel, xs[k - 1]);
        assert(cs.take(k - 1).push(c) =~= cs.take(k));
    } else {
        assert(cs.take(0) =~= Seq::<ObjectView>::empty());
    }
}

/// The requirements of `lemma_field_present`.
pub open spec fn spec_present_field(pool: Seq<Table>, t: int, o: ObjectView, fuel: nat, k: int, x: JsonInputView) -> bool {
    &&& spec_json_pool(pool)
    &&& 0 <= t < pool.len()
    &&& spec_obj_wf(pool, t, o, fuel)
    &&& spec_json_exact(pool, t, o, fuel)
    &&& 0 <= k < pool[t].descriptor@.fields.len()
    &&& spec_get_field(o, pool[t], pool[t].descriptor@.fields[k]) is Some
    &&& spec_value_json(pool, spec_get_field(o, pool[t], pool[t].descriptor@.fields[k])->Some_0, fuel) is Ok
    &&& spec_rereads(x, spec_value_json(pool, spec_get_field(o, pool[t], pool[t].descriptor@.fields[k])->Some_0, fuel)->Ok_0)
}

/// What `lemma_field_present` gives.
pub open spec fn spec_field_applies(pool: Seq<Table>, t: int, o: ObjectView, fuel: nat, k: int, x: JsonInputView) -> bool {
    spec_apply_member(
        pool,
        t,
        spec_partial(pool, t, o, k as nat),
        vstd::utf8::encode_utf8(pool[t].descriptor@.fields[k].json_name),
        x,
        fuel,
    ) == Ok::<ObjectView, JsonError>(spec_partial(pool, t, o, (k + 1) as nat))
}

/// A present field, read back from its JSON member, is applied to the object
/// that holds the fields before it, giving the object with it too.
proof fn lemma_field_present(pool: Seq<Table>, t: int, o: ObjectView, fuel: nat, k: int, x: JsonInputView)
    requires
        spec_present_field(pool, t, o, fuel, k, x),
    ensures
        spec_field_applies(pool, t, o, fuel, k, x),
    decreases fuel, 1int, 1int,
{
    let table = pool[t];
    let f = table.descriptor@.fields[k];
    lemma_field_facts(pool, t, k);
    if spec_is_message(f) {
        lemma_message_field(pool, t, o, fuel, k, x);
    } else {
        lemma_scalar_field(pool, t, o, fuel, k, x);
    }
}

/// The facts of field `k` that both kinds of field need.
proof fn lemma_field_setup(pool: Seq<Table>, t: int, o: ObjectView, fuel: nat, k: int, x: JsonInputView)
    requires
        spec_present_field(pool, t, o, fuel, k, x),
    ensures
        ({
            let table = pool[t];
            let fields = table.descriptor@.fields;
            let e = table.encode_entries@[k];
            let p = spec_partial(pool, t, o, k as nat);
            &&& spec_last_json_named(fields, vstd::utf8::encode_utf8(fields[k].json_name), fields.len() as int) == k
            &&& spec_field_wf(pool, t, o, k, fuel)
            &&& spec_json_exact_field(pool, t, o, k, fuel)
            &&& p.slots.len() == table.size
            &&& p.slots[k] == spec_empty_slot(e.kind)
        }),
{
    let table = pool[t];
    let fields = table.descriptor@.fields;
    lemma_field_facts(pool, t, k);
    assert(spec_json_table(table));
    lemma_last_named(fields, k, fields.len() as int);
    assert(spec_field_wf(pool, t, o, k, fuel));
    assert(o.slots[k] == o.slots[k]);
    assert(spec_json_exact_field(pool, t, o, k, fuel));
}

#[verifier::rlimit(40)]
proof fn lemma_scalar_field(pool: Seq<Table>, t: int, o: ObjectView, fuel: nat, k: int, x: JsonInputView)
    requires
        spec_present_field(pool, t, o, fuel, k, x),
        !spec_is_message(pool[t].descriptor@.fields[k]),
    ensures
        spec_field_applies(pool, t, o, fuel, k, x),
{
    let table = pool[t];
    let fields = table.descriptor@.fields;
    let f = fields[k];
    let ty = f.field_type;
    let e = table.encode_entries@[k];
    let hb = e.has_bit as u64;
    lemma_field_facts(pool, t, k);
    lemma_field_setup(pool, t, o, fuel, k, x);
    let p = spec_partial(pool, t, o, k as nat);
    let p1 = spec_partial(pool, t, o, (k + 1) as nat);
    let v = spec_get_field(o, table, f)->Some_0;
    let jv = spec_value_json(pool, v, fuel)->Ok_0;
    if spec_is_repeated(f) {
        if ty == FieldType::String || ty == FieldType::Bytes {
            let bs = slot_repeated_bytes(o.slots[k]);
            let items = jv->Array_0;
            let xs = x->Array_0;
            if ty == FieldType::String {
                assert(items =~= bs.map_values(|b: Seq<u8>| JsonView::String(b)));
                lemma_texts_back(ty, bs, items, xs, bs.len() as int);
            } else {
                assert(spec_bytes_array_json(bs, bs.len() as int) == Ok::<Seq<JsonView>, JsonError>(items));
                assert forall|j: int| 0 <= j < bs.len() implies (#[trigger] bs[j]).len() <= usize::MAX / 2 by {
                    lemma_bytes_array_ok(bs, bs.len() as int, j);
                }
                lemma_bytes_array_items(bs, bs.len() as int);
                lemma_texts_back(ty, bs, items, xs, bs.len() as int);
            }
            assert(bs.take(bs.len() as int) =~= bs);
            assert(spec_append_texts(p, k, bs).slots =~= p1.slots);
        } else {
            lemma_repeated_scalar_field(pool, t, o, fuel, k, x);
        }
    } else if ty == FieldType::String || ty == FieldType::Bytes {
        let b = slot_bytes(o.slots[k]);
        assert(spec_set_bytes(p, k, hb, b).slots =~= p1.slots);
    } else {
        let raw = slot_scalar(o.slots[k]);
        assert(v == spec_scalar_value(ty, raw));
        assert(spec_canonical(e.kind, raw));
        assert(spec_raw_fits(ty, raw));
        lemma_scalar_back(ty, raw, x);
        assert(spec_set_scalar(p, k, hb, raw).slots =~= p1.slots);
    }
}

#[verifier::rlimit(40)]
proof fn lemma_repeated_scalar_field(pool: Seq<Table>, t: int, o: ObjectView, fuel: nat, k: int, x: JsonInputView)
    requires
        spec_present_field(pool, t, o, fuel, k, x),
        !spec_is_message(pool[t].descriptor@.fields[k]),
        spec_is_repeated(pool[t].descriptor@.fields[k]),
        pool[t].descriptor@.fields[k].field_type != FieldType::String,
        pool[t].descriptor@.fields[k].field_type != FieldType::Bytes,
    ensures
        spec_field_applies(pool, t, o, fuel, k, x),
{
    let table = pool[t];
    let fields = table.descriptor@.fields;
    let f = fields[k];
    let ty = f.field_type;
    let e = table.encode_entries@[k];
    lemma_field_facts(pool, t, k);
    lemma_field_setup(pool, t, o, fuel, k, x);
    let p = spec_partial(pool, t, o, k as nat);
    let p1 = spec_partial(pool, t, o, (k + 1) as nat);
    let v = spec_get_field(o, table, f)->Some_0;
    let jv = spec_value_json(pool, v, fuel)->Ok_0;
    let raws = slot_repeated(o.slots[k]);
    let items = jv->Array_0;
    let xs = x->Array_0;
    assert forall|j: int| 0 <= j < raws.len() implies #[trigger] items[j] == spec_element_json(ty, raws[j]) by {
    }
    assert forall|j: int| 0 <= j < raws.len() implies spec_raw_fits(ty, #[trigger] raws[j]) by {
        assert(spec_canonical(e.kind, raws[j]));
    }
    lemma_strict_raws_back(ty, raws, items, xs, raws.len() as int);
    assert(raws.take(raws.len() as int) =~= raws);
    assert(spec_append_raws(p, k, raws).slots =~= p1.slots);
}

proof fn lemma_message_field(pool: Seq<Table>, t: int, o: ObjectView, fuel: nat, k: int, x: JsonInputView)
    requires
        spec_present_field(pool, t, o, fuel, k, x),
        spec_is_message(pool[t].descriptor@.fields[k]),
    ensures
        spec_field_applies(pool, t, o, fuel, k, x),
    decreases fuel, 1int, 0int,
{
    if spec_is_repeated(pool[t].descriptor@.fields[k]) {
        lemma_children_field(pool, t, o, fuel, k, x);
    } else {
        lemma_child_field(pool, t, o, fuel, k, x);
    }
}

#[verifier::rlimit(40)]
proof fn lemma_child_field(pool: Seq<Table>, t: int, o: ObjectView, fuel: nat, k: int, x: JsonInputView)
    requires
        spec_present_field(pool, t, o, fuel, k, x),
        spec_is_message(pool[t].descriptor@.fields[k]),
        !spec_is_repeated(pool[t].descriptor@.fields[k]),
    ensures
        spec_field_applies(pool, t, o, fuel, k, x),
    decreases fuel, 0int, 1int,
{
    let table = pool[t];
    let fields = table.descriptor@.fields;
    let f = fields[k];
    let e = table.encode_entries@[k];
    lemma_field_facts(pool, t, k);
    lemma_field_setup(pool, t, o, fuel, k, x);
    let p = spec_partial(pool, t, o, k as nat);
    let p1 = spec_partial(pool, t, o, (k + 1) as nat);
    let v = spec_get_field(o, table, f)->Some_0;
    let jv = spec_value_json(pool, v, fuel)->Ok_0;
    let ct = spec_child_table(table, k);
    let aux = table.aux_entries@[e.offset as int];
    let c = slot_message(o.slots[k])->Some_0;
    assert(v == ValueView::Message(c, aux.child_table));
    assert(jv == spec_message_json(pool, ct, c, (fuel - 1) as nat)->Ok_0);
    assert(spec_child_wf(pool, ct, c, (fuel - 1) as nat, e.kind == FieldKind::Message));
    lemma_message_json_object(pool, ct, c, (fuel - 1) as nat);
    lemma_json_roundtrip(pool, ct, c, (fuel - 1) as nat, x);
    assert(spec_set_child(p, k, c).slots =~= p1.slots);
}

#[verifier::rlimit(40)]
proof fn lemma_children_field(pool: Seq<Table>, t: int, o: ObjectView, fuel: nat, k: int, x: JsonInputView)
    requires
        spec_present_field(pool, t, o, fuel, k, x),
        spec_is_message(pool[t].descriptor@.fields[k]),
        spec_is_repeated(pool[t].descriptor@.fields[k]),
    ensures
        spec_field_applies(pool, t, o, fuel, k, x),
    decreases fuel, 0int, 1int,
{
    let table = pool[t];
    let fields = table.descriptor@.fields;
    let f = fields[k];
    let e = table.encode_entries@[k];
    lemma_field_facts(pool, t, k);
    lemma_field_setup(pool, t, o, fuel, k, x);
    let p = spec_partial(pool, t, o, k as nat);
    let p1 = spec_partial(pool, t, o, (k + 1) as nat);
    let v = spec_get_field(o, table, f)->Some_0;
    let jv = spec_value_json(pool, v, fuel)->Ok_0;
    let ct = spec_child_table(table, k);
    let aux = table.aux_entries@[e.offset as int];
    let cs = slot_repeated_message(o.slots[k]);
    assert(v == ValueView::RepeatedMessage(cs, aux.child_table));
    assert(spec_json_table(pool[ct]));
    let items = spec_array_json(pool, ct, cs, cs.len() as int, (fuel - 1) as nat)->Ok_0;
    assert(jv == JsonView::Array(items));
    let xs = x->Array_0;
    assert forall|j: int| 0 <= j < cs.len() implies spec_obj_wf(pool, ct, #[trigger] cs[j], (fuel - 1) as nat) by {
        assert(spec_child_wf(pool, ct, cs[j], (fuel - 1) as nat, e.kind == FieldKind::RepeatedMessage));
    }
    lemma_read_children(pool, ct, cs, items, xs, cs.len() as int, (fuel - 1) as nat);
    lemma_array_items(pool, ct, cs, cs.len() as int, (fuel - 1) as nat);
    assert(xs.len() == cs.len());
    assert(cs.take(cs.len() as int) =~= cs);
    assert(spec_append_children(p, k, cs).slots =~= p1.slots);
}

/// The members for the first `k` fields, read back in order into a fresh
/// object, give the object that holds those fields of `o`.
proof fn lemma_members(pool: Seq<Table>, t: int, o: ObjectView, fuel: nat, xs: Seq<(Seq<u8>, JsonInputView)>, k: int)
    requires
        spec_json_pool(pool),
        0 <= t < pool.len(),
        spec_obj_wf(pool, t, o, fuel),
        spec_json_exact(pool, t, o, fuel),
        0 <= k <= pool[t].descriptor@.fields.len(),
        spec_fields_json(pool, t, o, pool[t].descriptor@.fields.len() as int, fuel) is Ok,
        xs.len() == spec_fields_json(pool, t, o, pool[t].descriptor@.fields.len() as int, fuel)->Ok_0.len(),
        spec_rereads_members(
            xs,
            spec_fields_json(pool, t, o, pool[t].descriptor@.fields.len() as int, fuel)->Ok_0,
            xs.len() as int,
        ),
    ensures
        spec_fields_json(pool, t, o, k, fuel) is Ok,
        spec_read_members(pool, t, xs, spec_fields_json(pool, t, o, k, fuel)->Ok_0.len() as int, fuel) == Ok::<
            ObjectView,
            JsonError,
        >(spec_partial(pool, t, o, k as nat)),
    decreases fuel, 2int, k,
{
    let n = pool[t].descriptor@.fields.len() as int;
    let ms = spec_fields_json(pool, t, o, n, fuel)->Ok_0;
    lemma_fields_prefix(pool, t, o, k, n, fuel);
    if k == 0 {
        lemma_partial_zero(pool, t, o);
    } else {
        lemma_members(pool, t, o, fuel, xs, k - 1);
        lemma_fields_prefix(pool, t, o, k - 1, n, fuel);
        let a = spec_fields_json(pool, t, o, k - 1, fuel)->Ok_0;
        let b = spec_fields_json(pool, t, o, k, fuel)->Ok_0;
        let f = pool[t].descriptor@.fields[k - 1];
        match spec_get_field(o, pool[t], f) {
            None => {
                assert(b == a);
                lemma_field_absent(pool, t, o, fuel, k - 1);
            },
            Some(v) => {
                let jv = spec_value_json(pool, v, fuel)->Ok_0;
                assert(b == a.push((vstd::utf8::encode_utf8(f.json_name), jv)));
                let m = a.len() as int;
                assert(ms.take(b.len() as int)[m] == b[m]);
                assert(ms[m] == (vstd::utf8::encode_utf8(f.json_name), jv));
                lemma_rereads_member(xs, ms, xs.len() as int, m);
                lemma_field_present(pool, t, o, fuel, k - 1, xs[m].1);
            },
        }
    }
}

/// Reading back the JSON form of a well-formed message of a pool of plain
/// types with distinct JSON names, whose floats and bytes survive the text,
/// gives the message itself: what a JSON reader reports for the text of
/// `spec_message_json(pool, t, o, fuel)` reads, at the same depth, as `o`.
pub proof fn lemma_json_roundtrip(pool: Seq<Table>, t: int, o: ObjectView, fuel: nat, input: JsonInputView)
    requires
        spec_json_pool(pool),
        0 <= t < pool.len(),
        spec_obj_wf(pool, t, o, fuel),
        spec_json_exact(pool, t, o, fuel),
        spec_message_json(pool, t, o, fuel) is Ok,
        spec_rereads(input, spec_message_json(pool, t, o, fuel)->Ok_0),
    ensures
        spec_read_message(pool, t, input, fuel) == Ok::<ObjectView, JsonError>(o),
    decreases fuel, 3int, 0int,
{
    let table = pool[t];
    let n = table.descriptor@.fields.len() as int;
    assert(spec_json_table(table));
    let ms = spec_fields_json(pool, t, o, n, fuel)->Ok_0;
    let xs = input->Object_0;
    lemma_members(pool, t, o, fuel, xs, n);
    lemma_fields_prefix(pool, t, o, n, n, fuel);
    lemma_field_facts_size(pool, t);
    lemma_partial_full(pool, t, o, fuel);
}

proof fn lemma_field_facts_size(pool: Seq<Table>, t: int)
    requires
        spec_json_pool(pool),
        0 <= t < pool.len(),
    ensures
        pool[t].descriptor@.fields.len() == pool[t].encode_entries@.len(),
{
    assert(spec_json_table(pool[t]));
}

} // verus!

verus! {

/// The member name written for an integer map key reads back, with the
/// key field's type, as the key's raw bits: signed keys as signed decimal
/// text, unsigned keys as unsigned decimal text.
pub proof fn lemma_map_key_text_reads_back(k: crate::json::MapKeyView, t: FieldType)
    ensures
        (k matches crate::json::MapKeyView::Int32(x) && (t == FieldType::Int32 || t == FieldType::Sint32
            || t == FieldType::Sfixed32)) ==> crate::json_read::spec_map_key_raw(t, crate::json::spec_map_key_text(k))
            == Some(((k->Int32_0) as u32) as u64),
        (k matches crate::json::MapKeyView::Int64(x) && crate::json_read::spec_is_i64_type(t))
            ==> crate::json_read::spec_map_key_raw(t, crate::json::spec_map_key_text(k)) == Some((k->Int64_0) as u64),
        (k matches crate::json::MapKeyView::UInt32(x) && crate::json_read::spec_is_u32_type(t))
            ==> crate::json_read::spec_map_key_raw(t, crate::json::spec_map_key_text(k)) == Some((k->UInt32_0) as u64),
        (k matches crate::json::MapKeyView::UInt64(x) && crate::json_read::spec_is_u64_type(t))
            ==> crate::json_read::spec_map_key_raw(t, crate::json::spec_map_key_text(k)) == Some(k->UInt64_0),
        (k matches crate::json::MapKeyView::Bool(b) && t == FieldType::Bool)
            ==> crate::json_read::spec_map_key_raw(t, crate::json::spec_map_key_text(k)) == Some(if k->Bool_0 { 1u64 } else { 0u64 }),
{
    match k {
        crate::json::MapKeyView::Bool(b) => {
            reveal_strlit("true");
            reveal_strlit("false");
            vstd::string::is_ascii_spec_bytes("true");
            vstd::string::is_ascii_spec_bytes("false");
            assert("true".spec_bytes().len() == 4);
            assert("false".spec_bytes().len() == 5);
        },
        crate::json::MapKeyView::Int32(x) => {
            crate::wellknown::lemma_signed_decimal_parses_i64(x as i64);
        },
        crate::json::MapKeyView::Int64(x) => {
            crate::wellknown::lemma_signed_decimal_parses_i64(x);
        },
        crate::json::MapKeyView::UInt32(x) => {
            crate::wellknown::lemma_decimal_digits(x as nat);
        },
        crate::json::MapKeyView::UInt64(x) => {
            crate::wellknown::lemma_decimal_digits(x as nat);
        },
        crate::json::MapKeyView::String(_) => {},
    }
}

/// An integer given as a JSON string of its decimal text reads, for a field
/// of a signed 64-bit type, as the integer's raw bits; for a signed 32-bit
/// type likewise where it fits; for an unsigned type, an unsigned integer
/// that fits reads as itself.
pub proof fn lemma_integer_text_reads_back(t: FieldType, v: i64, u: u64, p32: Option<u32>, p64: Option<u64>)
    ensures
        crate::json_read::spec_is_i64_type(t) ==> crate::json_read::spec_flexible_raw(
            t,
            crate::json_read::JsonInputView::String(
                crate::json_read::JsonTextView { text: crate::wellknown::spec_signed_decimal(v as int), parsed_f32: p32, parsed_f64: p64 },
            ),
        ) == Ok::<u64, JsonError>(v as u64),
        crate::json_read::spec_is_i32_type(t) && i32::MIN <= v <= i32::MAX ==> crate::json_read::spec_flexible_raw(
            t,
            crate::json_read::JsonInputView::String(
                crate::json_read::JsonTextView { text: crate::wellknown::spec_signed_decimal(v as int), parsed_f32: p32, parsed_f64: p64 },
            ),
        ) == Ok::<u64, JsonError>(((v as i32) as u32) as u64),
        crate::json_read::spec_is_u64_type(t) ==> crate::json_read::spec_flexible_raw(
            t,
            crate::json_read::JsonInputView::String(
                crate::json_read::JsonTextView { text: crate::wellknown::spec_decimal(u as nat), parsed_f32: p32, parsed_f64: p64 },
            ),
        ) == Ok::<u64, JsonError>(u),
        crate::json_read::spec_is_u32_type(t) && u <= u32::MAX ==> crate::json_read::spec_flexible_raw(
            t,
            crate::json_read::JsonInputView::String(
                crate::json_read::JsonTextView { text: crate::wellknown::spec_decimal(u as nat), parsed_f32: p32, parsed_f64: p64 },
            ),
        ) == Ok::<u64, JsonError>(u),
{
    crate::wellknown::lemma_signed_decimal_parses_i64(v);
    crate::wellknown::lemma_decimal_digits(u as nat);
}

} // verus!

verus! {

/// The JSON number of an integer as the reader hands it over.
pub open spec fn spec_int_number_value(v: int) -> crate::json_read::NumberValue {
    if v >= 0 {
        crate::json_read::NumberValue::PosInt(v as u64)
    } else {
        crate::json_read::NumberValue::NegInt(v as i64)
    }
}

/// A duration read from the members `seconds` and `nanos`, given as JSON
/// integers, succeeds exactly when the two make a valid duration, and then
/// holds them; likewise a timestamp with a valid timestamp.
pub proof fn lemma_time_members_read(
    table: Table,
    seconds: i64,
    nanos: i32,
    ns: crate::json_read::JsonNumber,
    nn: crate::json_read::JsonNumber,
)
    requires
        table.decode_entries@.len() > 2,
        ns.value == spec_int_number_value(seconds as int),
        nn.value == spec_int_number_value(nanos as int),
        ({
            let e1 = table.decode_entries@[1].0;
            let e2 = table.decode_entries@[2].0;
            let n = crate::decoding::spec_new_object(table).slots.len();
            &&& spec_entry_offset(e1) != spec_entry_offset(e2)
            &&& (spec_entry_offset(e1) as int) < n
            &&& (spec_entry_offset(e2) as int) < n
            &&& spec_entry_has_bit(e1) < 64
            &&& spec_entry_has_bit(e2) < 64
        }),
    ensures
        ({
            let members = seq![
                ("seconds".spec_bytes(), crate::json_read::JsonInputView::Number(ns)),
                ("nanos".spec_bytes(), crate::json_read::JsonInputView::Number(nn)),
            ];
            let off1 = spec_entry_offset(table.decode_entries@[1].0) as int;
            let off2 = spec_entry_offset(table.decode_entries@[2].0) as int;
            &&& (crate::json_read::spec_read_time(table, members, false) is Ok)
                == (crate::wellknown::spec_validate_duration(seconds, nanos) is Ok)
            &&& (crate::json_read::spec_read_time(table, members, true) is Ok)
                == (crate::wellknown::spec_validate_timestamp(seconds, nanos) is Ok)
            &&& forall|ts: bool| #[trigger] crate::json_read::spec_read_time(table, members, ts) matches Ok(o) ==> {
                &&& slot_scalar(o.slots[off1]) as i64 == seconds
                &&& (slot_scalar(o.slots[off2]) as u32) as i32 == nanos
            }
        }),
{
    reveal_strlit("seconds");
    reveal_strlit("nanos");
    vstd::string::is_ascii_spec_bytes("seconds");
    vstd::string::is_ascii_spec_bytes("nanos");
    assert("seconds".spec_bytes().len() == 7);
    assert("nanos".spec_bytes().len() == 5);
    assert("seconds".spec_bytes() != "nanos".spec_bytes());
    let members = seq![
        ("seconds".spec_bytes(), crate::json_read::JsonInputView::Number(ns)),
        ("nanos".spec_bytes(), crate::json_read::JsonInputView::Number(nn)),
    ];
    let e1 = table.decode_entries@[1].0;
    let e2 = table.decode_entries@[2].0;
    let off1 = spec_entry_offset(e1) as int;
    let off2 = spec_entry_offset(e2) as int;
    let o0 = crate::decoding::spec_new_object(table);
    let sraw = seconds as u64;
    let nraw = ((nanos as i32) as u32) as u64;
    assert(crate::json_read::spec_strict_raw(FieldType::Int64, crate::json_read::JsonInputView::Number(ns)) == Ok::<u64, JsonError>(sraw));
    assert(crate::json_read::spec_strict_raw(FieldType::Int32, crate::json_read::JsonInputView::Number(nn)) == Ok::<u64, JsonError>(nraw));
    assert(crate::json_read::spec_time_members(o0, e1, e2, members, 0) == Ok::<ObjectView, JsonError>(o0));
    assert(members[0] == ("seconds".spec_bytes(), crate::json_read::JsonInputView::Number(ns)));
    assert(members[1] == ("nanos".spec_bytes(), crate::json_read::JsonInputView::Number(nn)));
    let o1 = crate::base::spec_set_scalar(o0, off1, spec_entry_has_bit(e1) as u64, sraw);
    assert(crate::json_read::spec_time_members(o0, e1, e2, members, 1) == Ok::<ObjectView, JsonError>(o1));
    let o2 = crate::base::spec_set_scalar(o1, off2, spec_entry_has_bit(e2) as u64, nraw);
    assert(crate::json_read::spec_time_members(o0, e1, e2, members, 2) == Ok::<ObjectView, JsonError>(o2));
    assert(o2.slots[off1] == crate::base::SlotView::Scalar(sraw));
    assert(o2.slots[off2] == crate::base::SlotView::Scalar(nraw));
    assert((seconds as u64) as i64 == seconds && ((((nanos as u32) as u64) as u32) as i32) == nanos) by (bit_vector);
}

} // verus!
