//! The plain JSON form of an object, driven by its encode table: a member per
//! encode entry, named by the field's name, null where a field is absent.
use vstd::prelude::*;
use crate::base::{
    Object, ObjectView, spec_has_bit, slot_scalar, slot_bytes, slot_repeated, slot_repeated_bytes,
    slot_message, slot_repeated_message,
};
use crate::tables::Table;
use crate::descriptor::{FieldType, FieldView, FieldDescriptorProto};
use crate::reflection::{spec_is_message, spec_is_repeated, spec_make_tag, spec_natural_wire_type, calculate_tag, is_message, is_repeated};
use crate::json::{
    JsonValue, JsonView, JsonError, spec_json_result, spec_members_view, spec_items_view,
    spec_bytes_array_json, bytes_json, copy_bytes, lemma_object_view, lemma_array_view,
    lemma_bytes_array_err,
};

verus! {

/// The first of the first `k` fields whose tag, with its natural wire type,
/// is `tag`; -1 where there is none.
pub open spec fn spec_tag_field(fields: Seq<FieldView>, tag: u32, k: int) -> int
    decreases k,
{
    if k <= 0 {
        -1
    } else {
        let p = spec_tag_field(fields, tag, k - 1);
        if p >= 0 {
            p
        } else if spec_make_tag(fields[k - 1].number, spec_natural_wire_type(fields[k - 1].field_type)) == tag {
            k - 1
        } else {
            -1
        }
    }
}

/// The JSON number (or boolean) of a scalar of type `t` kept as raw bits
/// `raw`; floats as plain numbers.
pub open spec fn spec_scalar_field_json(t: FieldType, raw: u64) -> JsonView {
    match t {
        FieldType::Bool => JsonView::Bool(raw != 0),
        FieldType::Uint64 | FieldType::Fixed64 => JsonView::UInt(raw),
        FieldType::Uint32 | FieldType::Fixed32 => JsonView::UInt((raw as u32) as u64),
        FieldType::Int64 | FieldType::Sint64 | FieldType::Sfixed64 => JsonView::Int(raw as i64),
        FieldType::Int32 | FieldType::Sint32 | FieldType::Sfixed32 | FieldType::Enum => JsonView::Int(
            ((raw as u32) as i32) as i64,
        ),
        FieldType::Float => JsonView::Float(raw as u32),
        FieldType::Double => JsonView::Double(raw),
        _ => JsonView::Null,
    }
}

/// Bytes as a JSON array of their values.
pub open spec fn spec_byte_numbers(b: Seq<u8>) -> Seq<JsonView> {
    b.map_values(|x: u8| JsonView::UInt(x as u64))
}

/// The plain JSON form of object `o` of table `t`, with at most `fuel` levels
/// of nested messages: an object with a member per encode entry, in order.
pub open spec fn spec_table_json(pool: Seq<Table>, t: int, o: ObjectView, fuel: nat) -> Result<JsonView, JsonError>
    decreases fuel, 2nat, 0int,
{
    match spec_table_members(pool, t, o, pool[t].encode_entries@.len() as int, fuel) {
        Err(e) => Err(e),
        Ok(members) => Ok(JsonView::Object(members)),
    }
}

/// The members for the first `k` encode entries.
pub open spec fn spec_table_members(pool: Seq<Table>, t: int, o: ObjectView, k: int, fuel: nat) -> Result<Seq<(Seq<u8>, JsonView)>, JsonError>
    decreases fuel, 1nat, k,
{
    if k <= 0 {
        Ok(Seq::empty())
    } else {
        match spec_table_members(pool, t, o, k - 1, fuel) {
            Err(e) => Err(e),
            Ok(prev) => match spec_table_entry_json(pool, t, o, k - 1, fuel) {
                Err(e) => Err(e),
                Ok(m) => Ok(prev.push(m)),
            },
        }
    }
}

/// The member for encode entry `i`: the field whose tag the entry writes,
/// named by its name; null where an optional field is absent; an array for a
/// repeated field; strings as strings, singular bytes as an array of numbers,
/// repeated bytes as base64 strings.
pub open spec fn spec_table_entry_json(pool: Seq<Table>, t: int, o: ObjectView, i: int, fuel: nat) -> Result<(Seq<u8>, JsonView), JsonError>
    decreases fuel, 0nat, 0int,
{
    let table = pool[t];
    let e = table.encode_entries@[i];
    let fields = table.descriptor@.fields;
    let j = spec_tag_field(fields, e.encoded_tag, fields.len() as int);
    if j < 0 {
        Err(JsonError::MissingField)
    } else {
        let f = fields[j];
        let name = vstd::utf8::encode_utf8(f.name);
        let off = e.offset as int;
        let ty = f.field_type;
        if spec_is_message(f) {
            if off >= table.aux_entries@.len() {
                Err(JsonError::BadEntry)
            } else {
                let aux = table.aux_entries@[off];
                let slot = aux.offset as int;
                let ct = aux.child_table;
                if slot >= o.slots.len() {
                    Err(JsonError::BadEntry)
                } else if ct >= pool.len() {
                    Err(JsonError::MissingTable)
                } else if spec_is_repeated(f) {
                    let cs = slot_repeated_message(o.slots[slot]);
                    if cs.len() == 0 {
                        Ok((name, JsonView::Array(Seq::empty())))
                    } else if fuel == 0 {
                        Err(JsonError::TooDeep)
                    } else {
                        match spec_table_array_json(pool, ct as int, cs, cs.len() as int, (fuel - 1) as nat) {
                            Err(e) => Err(e),
                            Ok(items) => Ok((name, JsonView::Array(items))),
                        }
                    }
                } else {
                    match slot_message(o.slots[slot]) {
                        None => Ok((name, JsonView::Null)),
                        Some(c) => if fuel == 0 {
                            Err(JsonError::TooDeep)
                        } else {
                            match spec_table_json(pool, ct as int, c, (fuel - 1) as nat) {
                                Err(e) => Err(e),
                                Ok(j) => Ok((name, j)),
                            }
                        },
                    }
                }
            }
        } else if off >= o.slots.len() {
            Err(JsonError::BadEntry)
        } else if spec_is_repeated(f) {
            if ty == FieldType::String {
                Ok((name, JsonView::Array(slot_repeated_bytes(o.slots[off]).map_values(|b: Seq<u8>| JsonView::String(b)))))
            } else if ty == FieldType::Bytes {
                let bs = slot_repeated_bytes(o.slots[off]);
                match spec_bytes_array_json(bs, bs.len() as int) {
                    Err(e) => Err(e),
                    Ok(items) => Ok((name, JsonView::Array(items))),
                }
            } else {
                Ok((name, JsonView::Array(slot_repeated(o.slots[off]).map_values(|x: u64| spec_scalar_field_json(ty, x)))))
            }
        } else if e.has_bit >= 64 {
            Err(JsonError::BadEntry)
        } else if !spec_has_bit(o.has_bits, e.has_bit as u64) {
            Ok((name, JsonView::Null))
        } else if ty == FieldType::String {
            Ok((name, JsonView::String(slot_bytes(o.slots[off]))))
        } else if ty == FieldType::Bytes {
            Ok((name, JsonView::Array(spec_byte_numbers(slot_bytes(o.slots[off])))))
        } else {
            Ok((name, spec_scalar_field_json(ty, slot_scalar(o.slots[off]))))
        }
    }
}

/// The plain JSON forms of the first `k` messages of `cs`, of table `ct`.
pub open spec fn spec_table_array_json(pool: Seq<Table>, ct: int, cs: Seq<ObjectView>, k: int, fuel: nat) -> Result<Seq<JsonView>, JsonError>
    decreases fuel, 3nat, k,
{
    if k <= 0 {
        Ok(Seq::empty())
    } else {
        match spec_table_array_json(pool, ct, cs, k - 1, fuel) {
            Err(e) => Err(e),
            Ok(prev) => match spec_table_json(pool, ct, cs[k - 1], fuel) {
                Err(e) => Err(e),
                Ok(j) => Ok(prev.push(j)),
            },
        }
    }
}

fn scalar_field_json(t: FieldType, raw: u64) -> (r: JsonValue)
    ensures
        r@ == spec_scalar_field_json(t, raw),
{
    match t {
        FieldType::Bool => JsonValue::Bool(raw != 0),
        FieldType::Uint64 | FieldType::Fixed64 => JsonValue::UInt(raw),
        FieldType::Uint32 | FieldType::Fixed32 => JsonValue::UInt((raw as u32) as u64),
        FieldType::Int64 | FieldType::Sint64 | FieldType::Sfixed64 => JsonValue::Int(raw as i64),
        FieldType::Int32 | FieldType::Sint32 | FieldType::Sfixed32 | FieldType::Enum => JsonValue::Int(
            ((raw as u32) as i32) as i64,
        ),
        FieldType::Float => JsonValue::Float(raw as u32),
        FieldType::Double => JsonValue::Double(raw),
        _ => JsonValue::Null,
    }
}

/// The field that encode entry tag `tag` writes (see `spec_tag_field`).
fn tag_field(fields: &Vec<FieldDescriptorProto>, tag: u32) -> (r: Option<usize>)
    ensures
        ({
            let fv = fields@.map_values(|f: FieldDescriptorProto| f@);
            let j = spec_tag_field(fv, tag, fv.len() as int);
            match r {
                Some(i) => j == i && i < fields@.len(),
                None => j == -1,
            }
        }),
{
    let ghost fv = fields@.map_values(|f: FieldDescriptorProto| f@);
    let mut i: usize = 0;
    while i < fields.len()
        invariant
            i <= fields@.len(),
            fv == fields@.map_values(|f: FieldDescriptorProto| f@),
            spec_tag_field(fv, tag, i as int) == -1,
        decreases fields@.len() - i,
    {
        assert(fv[i as int] == fields@[i as int]@);
        if calculate_tag(&fields[i]) == tag {
            proof {
                lemma_tag_field_stays(fv, tag, i as int + 1, fv.len() as int);
            }
            return Some(i);
        }
        i += 1;
    }
    None
}

proof fn lemma_tag_field_stays(fields: Seq<FieldView>, tag: u32, a: int, b: int)
    requires
        1 <= a <= b,
        spec_tag_field(fields, tag, a) >= 0,
    ensures
        spec_tag_field(fields, tag, b) == spec_tag_field(fields, tag, a),
    decreases b - a,
{
    if a < b {
        lemma_tag_field_stays(fields, tag, a, b - 1);
    }
}

proof fn lemma_table_members_err(pool: Seq<Table>, t: int, o: ObjectView, a: int, b: int, fuel: nat)
    requires
        0 < a <= b,
        spec_table_members(pool, t, o, a, fuel) is Err,
    ensures
        spec_table_members(pool, t, o, b, fuel) == spec_table_members(pool, t, o, a, fuel),
    decreases b - a,
{
    if a < b {
        lemma_table_members_err(pool, t, o, a, b - 1, fuel);
    }
}

proof fn lemma_table_array_err(pool: Seq<Table>, ct: int, cs: Seq<ObjectView>, a: int, b: int, fuel: nat)
    requires
        0 < a <= b,
        spec_table_array_json(pool, ct, cs, a, fuel) is Err,
    ensures
        spec_table_array_json(pool, ct, cs, b, fuel) == spec_table_array_json(pool, ct, cs, a, fuel),
    decreases b - a,
{
    if a < b {
        lemma_table_array_err(pool, ct, cs, a, b - 1, fuel);
    }
}

/// The plain JSON form of `value`, an object of table `t` of `tables`, with
/// at most `fuel` levels of nested messages (see `spec_table_json`).
pub fn serde_serialize(value: &Object, tables: &[Table], t: usize, fuel: usize) -> (r: Result<JsonValue, JsonError>)
    requires
        t < tables@.len(),
    ensures
        spec_json_result(r) == spec_table_json(tables@, t as int, value@, fuel as nat),
    decreases fuel, 1int,
{
    let n = tables[t].encode_entries.len();
    let mut out: Vec<(Vec<u8>, JsonValue)> = Vec::new();
    assert(spec_members_view(out@) =~= Seq::empty());
    let mut i: usize = 0;
    while i < n
        invariant
            i <= n,
            t < tables@.len(),
            n == tables@[t as int].encode_entries@.len(),
            spec_table_members(tables@, t as int, value@, i as int, fuel as nat) == Ok::<Seq<(Seq<u8>, JsonView)>, JsonError>(
                spec_members_view(out@),
            ),
        decreases n - i,
    {
        let ghost prev = spec_members_view(out@);
        match entry_json(value, tables, t, i, fuel) {
            Err(e) => {
                proof {
                    lemma_table_members_err(tables@, t as int, value@, i as int + 1, n as int, fuel as nat);
                }
                return Err(e);
            },
            Ok((name, j)) => {
                let ghost m = (name@, j@);
                out.push((name, j));
                assert(spec_members_view(out@) =~= prev.push(m));
            },
        }
        i += 1;
    }
    proof {
        lemma_object_view(out);
    }
    Ok(JsonValue::Object(out))
}

/// The member for encode entry `i` (see `spec_table_entry_json`).
#[verifier::loop_isolation(false)]
fn entry_json(value: &Object, tables: &[Table], t: usize, i: usize, fuel: usize) -> (r: Result<(Vec<u8>, JsonValue), JsonError>)
    requires
        t < tables@.len(),
        i < tables@[t as int].encode_entries@.len(),
    ensures
        match r {
            Ok((name, j)) => spec_table_entry_json(tables@, t as int, value@, i as int, fuel as nat) == Ok::<(Seq<u8>, JsonView), JsonError>((name@, j@)),
            Err(e) => spec_table_entry_json(tables@, t as int, value@, i as int, fuel as nat) == Err::<(Seq<u8>, JsonView), JsonError>(e),
        },
    decreases fuel, 0int,
{
    let table = &tables[t];
    let e = table.encode_entries[i];
    let fields = &table.descriptor.field;
    proof {
        assert(table.descriptor@.fields =~= fields@.map_values(|f: FieldDescriptorProto| f@));
    }
    let j = match tag_field(fields, e.encoded_tag) {
        None => return Err(JsonError::MissingField),
        Some(j) => j,
    };
    let f = &fields[j];
    let name = copy_bytes(f.name.as_str().as_bytes());
    let off = e.offset as usize;
    let ty = f.field_type;
    if is_message(f) {
        if off >= table.aux_entries.len() {
            return Err(JsonError::BadEntry);
        }
        let aux = table.aux_entries[off];
        let slot = aux.offset as usize;
        let ct = aux.child_table;
        if slot >= value.slots.len() {
            return Err(JsonError::BadEntry);
        }
        if ct >= tables.len() {
            return Err(JsonError::MissingTable);
        }
        if is_repeated(f) {
            let cs = value.children(slot);
            let ghost cv = slot_repeated_message(value@.slots[slot as int]);
            if cs.len() == 0 {
                let items: Vec<JsonValue> = Vec::new();
                proof {
                    lemma_array_view(items);
                    assert(spec_items_view(items@) =~= Seq::empty());
                }
                return Ok((name, JsonValue::Array(items)));
            }
            if fuel == 0 {
                return Err(JsonError::TooDeep);
            }
            let mut items: Vec<JsonValue> = Vec::new();
            assert(spec_items_view(items@) =~= Seq::empty());
            let mut k: usize = 0;
            while k < cs.len()
                invariant
                    k <= cs@.len(),
                    ct < tables@.len(),
                    fuel > 0,
                    cv.len() == cs@.len(),
                    forall|m: int| 0 <= m < cs@.len() ==> #[trigger] cs@[m]@ == cv[m],
                    spec_table_array_json(tables@, ct as int, cv, k as int, (fuel - 1) as nat) == Ok::<Seq<JsonView>, JsonError>(
                        spec_items_view(items@),
                    ),
                decreases cs@.len() - k,
            {
                let ghost prev = spec_items_view(items@);
                assert(cs@[k as int]@ == cv[k as int]);
                match serde_serialize(&cs[k], tables, ct, fuel - 1) {
                    Err(err) => {
                        proof {
                            lemma_table_array_err(tables@, ct as int, cv, k as int + 1, cv.len() as int, (fuel - 1) as nat);
                        }
                        return Err(err);
                    },
                    Ok(x) => {
                        let ghost xv = x@;
                        items.push(x);
                        assert(spec_items_view(items@) =~= prev.push(xv));
                    },
                }
                k += 1;
            }
            proof {
                lemma_array_view(items);
            }
            return Ok((name, JsonValue::Array(items)));
        }
        return match value.child(slot) {
            None => Ok((name, JsonValue::Null)),
            Some(c) => {
                if fuel == 0 {
                    return Err(JsonError::TooDeep);
                }
                match serde_serialize(c, tables, ct, fuel - 1) {
                    Err(err) => Err(err),
                    Ok(x) => Ok((name, x)),
                }
            },
        };
    }
    if off >= value.slots.len() {
        return Err(JsonError::BadEntry);
    }
    if is_repeated(f) {
        if ty == FieldType::String || ty == FieldType::Bytes {
            let bs = value.get_bytes_slice(off);
            let ghost bv = slot_repeated_bytes(value@.slots[off as int]);
            let mut items: Vec<JsonValue> = Vec::new();
            assert(spec_items_view(items@) =~= Seq::empty());
            let mut k: usize = 0;
            while k < bs.len()
                invariant
                    k <= bs@.len(),
                    bv.len() == bs@.len(),
                    forall|m: int| 0 <= m < bs@.len() ==> #[trigger] bs@[m]@ == bv[m],
                    ty == FieldType::String ==> items@.len() == k,
                    ty == FieldType::String ==> forall|m: int| 0 <= m < k ==> (#[trigger] items@[m])@ == JsonView::String(bv[m]),
                    ty != FieldType::String ==> spec_bytes_array_json(bv, k as int) == Ok::<Seq<JsonView>, JsonError>(
                        spec_items_view(items@),
                    ),
                decreases bs@.len() - k,
            {
                let ghost prev = spec_items_view(items@);
                assert(bs@[k as int]@ == bv[k as int]);
                if ty == FieldType::String {
                    items.push(JsonValue::String(copy_bytes(bs[k].slice())));
                } else {
                    match bytes_json(bs[k].slice()) {
                        Err(err) => {
                            proof {
                                assert(spec_bytes_array_json(bv, k + 1) == Err::<Seq<JsonView>, JsonError>(err));
                                lemma_bytes_array_err(bv, k as int + 1, bv.len() as int);
                            }
                            return Err(err);
                        },
                        Ok(x) => {
                            let ghost xv = x@;
                            items.push(x);
                            assert(spec_items_view(items@) =~= prev.push(xv));
                        },
                    }
                }
                k += 1;
            }
            proof {
                lemma_array_view(items);
                if ty == FieldType::String {
                    assert(spec_items_view(items@) =~= bv.map_values(|b: Seq<u8>| JsonView::String(b)));
                } else {
                    assert(spec_items_view(items@) =~= spec_bytes_array_json(bv, bv.len() as int)->Ok_0);
                }
            }
            return Ok((name, JsonValue::Array(items)));
        }
        let raw = value.get_slice(off);
        let mut items: Vec<JsonValue> = Vec::new();
        let mut k: usize = 0;
        while k < raw.len()
            invariant
                k <= raw@.len(),
                items@.len() == k,
                forall|m: int| 0 <= m < k ==> (#[trigger] items@[m])@ == spec_scalar_field_json(ty, raw@[m]),
            decreases raw@.len() - k,
        {
            items.push(scalar_field_json(ty, raw[k]));
            k += 1;
        }
        proof {
            lemma_array_view(items);
            assert(spec_items_view(items@) =~= raw@.map_values(|x: u64| spec_scalar_field_json(ty, x)));
        }
        return Ok((name, JsonValue::Array(items)));
    }
    if e.has_bit >= 64 {
        return Err(JsonError::BadEntry);
    }
    if !value.has_bit(e.has_bit) {
        return Ok((name, JsonValue::Null));
    }
    if ty == FieldType::String {
        return Ok((name, JsonValue::String(copy_bytes(value.bytes(off)))));
    }
    if ty == FieldType::Bytes {
        let b = value.bytes(off);
        let mut items: Vec<JsonValue> = Vec::new();
        let mut k: usize = 0;
        while k < b.len()
            invariant
                k <= b@.len(),
                items@.len() == k,
                forall|m: int| 0 <= m < k ==> (#[trigger] items@[m])@ == JsonView::UInt(b@[m] as u64),
            decreases b@.len() - k,
        {
            items.push(JsonValue::UInt(b[k] as u64));
            k += 1;
        }
        proof {
            lemma_array_view(items);
            assert(spec_items_view(items@) =~= spec_byte_numbers(b@));
        }
        return Ok((name, JsonValue::Array(items)));
    }
    Ok((name, scalar_field_json(ty, value.get(off))))
}

/// An object of one table of a pool, to be written in its plain JSON form.
pub struct SerdeProtobuf<'a> {
    pub object: &'a Object,
    pub tables: &'a [Table],
    pub table: usize,
}

impl<'a> SerdeProtobuf<'a> {
    /// `object`, an object of table `table` of `tables`.
    pub fn new(object: &'a Object, tables: &'a [Table], table: usize) -> (r: Self)
        ensures
            r.object == object,
            r.tables == tables,
            r.table == table,
    {
        SerdeProtobuf { object, tables, table }
    }

    /// Its plain JSON form, with at most `depth` levels of nested messages.
    pub fn serialize(&self, depth: usize) -> (r: Result<JsonValue, JsonError>)
        requires
            self.table < self.tables@.len(),
        ensures
            spec_json_result(r) == spec_table_json(self.tables@, self.table as int, self.object@, depth as nat),
    {
        serde_serialize(self.object, self.tables, self.table, depth)
    }
}

/// Objects of one table of a pool, to be written as a JSON array of their
/// plain forms.
pub struct SerdeProtobufSlice<'a> {
    pub objects: &'a [Object],
    pub tables: &'a [Table],
    pub table: usize,
}

impl<'a> SerdeProtobufSlice<'a> {
    /// The JSON array of their plain forms, with at most `depth` levels of
    /// nested messages below them.
    pub fn serialize(&self, depth: usize) -> (r: Result<JsonValue, JsonError>)
        requires
            self.table < self.tables@.len(),
        ensures
            spec_json_result(r) == match spec_table_array_json(
                self.tables@,
                self.table as int,
                self.objects@.map_values(|o: Object| o@),
                self.objects@.len() as int,
                depth as nat,
            ) {
                Err(e) => Err::<JsonView, JsonError>(e),
                Ok(items) => Ok(JsonView::Array(items)),
            },
    {
        let ghost cv = self.objects@.map_values(|o: Object| o@);
        let mut items: Vec<JsonValue> = Vec::new();
        assert(spec_items_view(items@) =~= Seq::empty());
        let mut k: usize = 0;
        while k < self.objects.len()
            invariant
                k <= self.objects@.len(),
                self.table < self.tables@.len(),
                cv == self.objects@.map_values(|o: Object| o@),
                spec_table_array_json(self.tables@, self.table as int, cv, k as int, depth as nat) == Ok::<Seq<JsonView>, JsonError>(
                    spec_items_view(items@),
                ),
            decreases self.objects@.len() - k,
        {
            let ghost prev = spec_items_view(items@);
            assert(cv[k as int] == self.objects@[k as int]@);
            match serde_serialize(&self.objects[k], self.tables, self.table, depth) {
                Err(err) => {
                    proof {
                        lemma_table_array_err(self.tables@, self.table as int, cv, k as int + 1, cv.len() as int, depth as nat);
                    }
                    return Err(err);
                },
                Ok(x) => {
                    let ghost xv = x@;
                    items.push(x);
                    assert(spec_items_view(items@) =~= prev.push(xv));
                },
            }
            k += 1;
        }
        proof {
            lemma_array_view(items);
        }
        Ok(JsonValue::Array(items))
    }
}

} // verus!
