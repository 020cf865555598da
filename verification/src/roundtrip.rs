//! What decoding gives back of an encoding: a well-formed object of a
//! well-formed table decodes from its own encoding to itself.
use vstd::prelude::*;
use crate::wire::{
    FieldKind, spec_varint_bytes, spec_zigzag_encode, lemma_tag_roundtrip, lemma_size_roundtrip,
    lemma_varint_roundtrip, lemma_zigzag_roundtrip, lemma_varint_bytes_len,
};
use crate::base::{
    ObjectView, SlotView, spec_has_bit, spec_set_bit, spec_set_scalar, spec_set_bytes,
    spec_add_scalar, spec_add_bytes, spec_set_child, spec_add_child, with_slot,
};
use crate::tables::Table;
use crate::reflection::{
    spec_table_of, spec_count_has_bits, spec_count_messages, spec_message_slots, spec_first_with_number,
    spec_last_has_bit, spec_last_aux, spec_max_number, spec_max_number_upto, spec_decode_entry,
    spec_encode_entry, spec_field_kind, spec_is_message, spec_needs_has_bit, spec_wire_type_with_syntax,
    spec_natural_wire_type, spec_make_tag, spec_is_packed,
};
use crate::descriptor::{FieldView, MessageView};
use crate::decoding::spec_pack_entry;
use crate::wire::{
    spec_kind_to_u8, lemma_kind_u8_roundtrip,
};
use crate::decoding::{
    spec_entry_kind, spec_entry_offset, spec_entry_has_bit, spec_wire_type, spec_is_scalar,
    spec_is_repeated_scalar, spec_is_message_kind, spec_entry_slot, spec_empty_slot,
    spec_new_slots, spec_new_object, spec_read_scalar, spec_dec_field, spec_dec_loop, spec_dec_msg,
    spec_shift, spec_known,
};
use crate::encoding::{
    spec_tag_bytes, spec_to_varint, spec_scalar_payload, spec_enc_repeated, spec_end_tag,
    spec_enc_rep_bytes, spec_enc_msg, spec_enc_entries, spec_enc_entry, spec_enc_rep_msgs,
};

verus! {

/// Encode entry `i` of table `t` is consistent: a known kind, the slot `i`, a
/// has-bit below 64, a tag whose wire type fits the kind (or wire type 2 for a
/// packed repeated scalar field), and a decode entry for
/// its field number that agrees with it. (Where the child table of a message
/// field is, only matters for objects that hold a child there.)
pub open spec fn spec_entry_wf(pool: Seq<Table>, t: Table, i: int) -> bool {
    let e = t.encode_entries@[i];
    let fnum = (e.encoded_tag as u64) >> 3u64;
    &&& e.kind != FieldKind::Unknown
    &&& spec_entry_slot(t, e) == i
    &&& e.has_bit < 64
    &&& ((e.encoded_tag as u64) & 7 == spec_wire_type(e.kind) || (spec_is_repeated_scalar(e.kind)
        && (e.encoded_tag as u64) & 7 == 2))
    &&& 1 <= fnum < t.decode_entries@.len()
    &&& spec_entry_kind(t.decode_entries@[fnum as int].0) == e.kind
    &&& spec_entry_offset(t.decode_entries@[fnum as int].0) == e.offset as u32
    &&& spec_entry_has_bit(t.decode_entries@[fnum as int].0) == e.has_bit as u32
}

/// Table `t` of the pool has one slot per encode entry and consistent entries.
pub open spec fn spec_table_wf(pool: Seq<Table>, t: int) -> bool {
    &&& pool[t].encode_entries@.len() == pool[t].size
    &&& forall|i: int| 0 <= i < pool[t].encode_entries@.len() ==> #[trigger] spec_entry_wf(pool, pool[t], i)
}

/// Every table of the pool is well formed.
pub open spec fn spec_pool_wf(pool: Seq<Table>) -> bool {
    forall|t: int| 0 <= t < pool.len() ==> #[trigger] spec_table_wf(pool, t)
}

/// Raw bits that a field of kind `k` can hold: 32 bits for 32-bit kinds, 0 or 1
/// for booleans.
pub open spec fn spec_canonical(k: FieldKind, v: u64) -> bool {
    match k {
        FieldKind::Varint32 | FieldKind::Varint32Zigzag | FieldKind::Fixed32 | FieldKind::Int32
        | FieldKind::RepeatedVarint32 | FieldKind::RepeatedVarint32Zigzag
        | FieldKind::RepeatedFixed32 | FieldKind::RepeatedInt32 => v <= u32::MAX,
        FieldKind::Bool | FieldKind::RepeatedBool => v <= 1,
        _ => true,
    }
}

/// The has-bits of the present scalar and bytes fields among the first `i`
/// encode entries.
pub open spec fn spec_has_bits_upto(t: Table, o: ObjectView, i: nat) -> u64
    decreases i,
{
    if i == 0 {
        0
    } else {
        let prev = spec_has_bits_upto(t, o, (i - 1) as nat);
        let e = t.encode_entries@[i - 1];
        if (spec_is_scalar(e.kind) || e.kind == FieldKind::Bytes) && spec_has_bit(
            o.has_bits,
            e.has_bit as u64,
        ) {
            spec_set_bit(prev, e.has_bit as u64)
        } else {
            prev
        }
    }
}

/// The child table of message field `i` of table `t`.
pub open spec fn spec_child_table(t: Table, i: int) -> int {
    t.aux_entries@[t.encode_entries@[i].offset as int].child_table as int
}

/// A child fits: it is well formed, and a length-delimited one encodes to
/// fewer than 2^31 bytes.
pub open spec fn spec_child_wf(pool: Seq<Table>, ct: int, c: ObjectView, fuel: nat, delimited: bool) -> bool
    decreases fuel, 2nat,
{
    &&& spec_obj_wf(pool, ct, c, fuel)
    &&& (delimited ==> (spec_enc_msg(pool, ct, c, fuel) matches Some(b) && b.len() < 0x8000_0000))
}

/// Field `i` of `o` holds what its kind calls for: the matching sort of slot,
/// raw bits the kind can hold, empty values where the has-bit is clear,
/// lengths (packed values included) below 2^31, and well-formed children at
/// most `fuel` levels deep.
pub open spec fn spec_field_wf(pool: Seq<Table>, t: int, o: ObjectView, i: int, fuel: nat) -> bool
    decreases fuel, 0nat,
{
    let table = pool[t];
    let e = table.encode_entries@[i];
    let k = e.kind;
    let present = spec_has_bit(o.has_bits, e.has_bit as u64);
    if spec_is_scalar(k) {
        o.slots[i] matches SlotView::Scalar(v) && spec_canonical(k, v) && (!present ==> v == 0)
    } else if k == FieldKind::Bytes {
        o.slots[i] matches SlotView::Bytes(b) && b.len() < 0x8000_0000 && (!present ==> b.len()
            == 0)
    } else if spec_is_repeated_scalar(k) {
        o.slots[i] matches SlotView::Repeated(vs) && (forall|j: int|
            0 <= j < vs.len() ==> spec_canonical(k, #[trigger] vs[j])) && ((e.encoded_tag as u64) & 7 == 2
            ==> crate::encoding::spec_packed_payload(k, vs).len() < 0x8000_0000)
    } else if k == FieldKind::RepeatedBytes {
        o.slots[i] matches SlotView::RepeatedBytes(bs) && forall|j: int|
            0 <= j < bs.len() ==> (#[trigger] bs[j]).len() < 0x8000_0000
    } else if k == FieldKind::Message || k == FieldKind::Group {
        o.slots[i] matches SlotView::Message(m) && (m matches Some(c) ==> fuel > 0
            && spec_child_table(table, i) < pool.len() && spec_child_wf(
            pool,
            spec_child_table(table, i),
            c,
            (fuel - 1) as nat,
            k == FieldKind::Message,
        ))
    } else {
        o.slots[i] matches SlotView::RepeatedMessage(cs) && (cs.len() > 0 ==> fuel > 0
            && spec_child_table(table, i) < pool.len()) && forall|
            j: int,
        |
            0 <= j < cs.len() ==> spec_child_wf(
                pool,
                spec_child_table(table, i),
                #[trigger] cs[j],
                (fuel - 1) as nat,
                k == FieldKind::RepeatedMessage,
            )
    }
}

/// `o` is a well-formed object of table `t`: one slot per field, has-bits only
/// for present scalar and bytes fields, and every field well formed.
pub open spec fn spec_obj_wf(pool: Seq<Table>, t: int, o: ObjectView, fuel: nat) -> bool
    decreases fuel, 1nat,
{
    let table = pool[t];
    &&& o.slots.len() == table.size
    &&& o.has_bits == spec_has_bits_upto(table, o, table.encode_entries@.len())
    &&& forall|i: int| #![trigger o.slots[i]] 0 <= i < table.encode_entries@.len() ==> spec_field_wf(pool, t, o, i, fuel)
}


/// The object that decoding has built after the encodings of the first `i`
/// fields of `o`: those fields as in `o`, the others empty.
pub open spec fn spec_partial(pool: Seq<Table>, t: int, o: ObjectView, i: nat) -> ObjectView {
    let table = pool[t];
    ObjectView {
        has_bits: spec_has_bits_upto(table, o, i),
        slots: Seq::new(
            table.size as nat,
            |j: int|
                if j < i {
                    o.slots[j]
                } else {
                    spec_empty_slot(table.encode_entries@[j].kind)
                },
        ),
    }
}

proof fn lemma_shift_shift(r: Option<(ObjectView, nat)>, a: int, b: int)
    requires
        a >= 0,
        b >= 0,
    ensures
        spec_shift(spec_shift(r, a), b) == spec_shift(r, a + b),
{
}

proof fn lemma_new_slots(pool: Seq<Table>, t: int, k: nat)
    requires
        spec_pool_wf(pool),
        0 <= t < pool.len(),
        k <= pool[t].encode_entries@.len(),
    ensures
        spec_new_slots(pool[t], k).len() == pool[t].size,
        forall|j: int|
            0 <= j < pool[t].size ==> #[trigger] spec_new_slots(pool[t], k)[j] == if j < k {
                spec_empty_slot(pool[t].encode_entries@[j].kind)
            } else {
                SlotView::Scalar(0)
            },
    decreases k,
{
    assert(spec_table_wf(pool, t));
    if k > 0 {
        lemma_new_slots(pool, t, (k - 1) as nat);
        assert(spec_entry_wf(pool, pool[t], k - 1));
    }
}

pub(crate) proof fn lemma_partial_zero(pool: Seq<Table>, t: int, o: ObjectView)
    requires
        spec_pool_wf(pool),
        0 <= t < pool.len(),
    ensures
        spec_partial(pool, t, o, 0) == spec_new_object(pool[t]),
{
    assert(spec_table_wf(pool, t));
    lemma_new_slots(pool, t, pool[t].encode_entries@.len());
    assert(spec_partial(pool, t, o, 0).slots =~= spec_new_object(pool[t]).slots);
}

pub(crate) proof fn lemma_partial_full(pool: Seq<Table>, t: int, o: ObjectView, fuel: nat)
    requires
        spec_pool_wf(pool),
        0 <= t < pool.len(),
        spec_obj_wf(pool, t, o, fuel),
    ensures
        spec_partial(pool, t, o, pool[t].encode_entries@.len()) == o,
{
    assert(spec_table_wf(pool, t));
    assert(spec_partial(pool, t, o, pool[t].encode_entries@.len()).slots =~= o.slots);
}

/// Decoding a record whose value part decodes on its own: the loop moves past
/// tag and value and goes on with the rest.
proof fn lemma_loop_step(
    pool: Seq<Table>,
    t: int,
    tag: u32,
    x: Seq<u8>,
    rest: Seq<u8>,
    p: ObjectView,
    p2: ObjectView,
    fuel: nat,
    g: Option<u64>,
)
    requires
        (tag as u64) >> 3u64 != 0,
        (tag as u64) & 7 != 4,
        spec_dec_field(pool, t, x + rest, p, fuel, (tag as u64) >> 3u64, (tag as u64) & 7) == Some(
            (p2, x.len()),
        ),
    ensures
        spec_dec_loop(pool, t, spec_tag_bytes(tag) + x + rest, p, fuel, g) == spec_shift(
            spec_dec_loop(pool, t, rest, p2, fuel, g),
            (spec_tag_bytes(tag).len() + x.len()) as int,
        ),
{
    let tb = spec_tag_bytes(tag);
    let s = tb + x + rest;
    lemma_tag_roundtrip(tag as u64, x + rest);
    lemma_varint_bytes_len(tag as u64);
    assert(tb + (x + rest) =~= s);
    assert(s.skip(tb.len() as int) =~= x + rest);
    assert(s.skip((tb.len() + x.len()) as int) =~= rest);
}

/// A scalar value reads back from its bytes, whatever follows.
proof fn lemma_read_scalar_roundtrip(k: FieldKind, v: u64, rest: Seq<u8>)
    requires
        spec_is_scalar(k) || spec_is_repeated_scalar(k),
        spec_canonical(k, v),
    ensures
        spec_read_scalar(k, spec_scalar_payload(k, v) + rest) == Some(
            (v, spec_scalar_payload(k, v).len()),
        ),
        spec_scalar_payload(k, v).len() >= 1,
{
    let pl = spec_scalar_payload(k, v);
    if spec_wire_type(k) == 1 {
        vstd::bytes::lemma_auto_spec_u64_to_from_le_bytes();
        assert((pl + rest).subrange(0, 8) =~= pl);
    } else if spec_wire_type(k) == 5 {
        vstd::bytes::lemma_auto_spec_u32_to_from_le_bytes();
        assert((pl + rest).subrange(0, 4) =~= pl);
        assert(v <= 0xffff_ffff ==> (v as u32) as u64 == v) by (bit_vector);
    } else {
        let w = spec_to_varint(k, v);
        lemma_varint_roundtrip(w, rest);
        lemma_varint_bytes_len(w);
        match k {
            FieldKind::Varint32 | FieldKind::RepeatedVarint32 => {
                assert(v <= 0xffff_ffff ==> (((v as u32) as u64) as u32) as u64 == v) by (bit_vector);
            },
            FieldKind::Int32 | FieldKind::RepeatedInt32 => {
                assert(v <= 0xffff_ffff ==> (((((((v as u32) as i32) as i64) as u64) as u32) as u64) == v))
                    by (bit_vector);
            },
            FieldKind::Varint64Zigzag | FieldKind::RepeatedVarint64Zigzag => {
                let x = v as i64;
                lemma_zigzag_roundtrip(x);
                assert((v as i64) as u64 == v) by (bit_vector);
            },
            FieldKind::Varint32Zigzag | FieldKind::RepeatedVarint32Zigzag => {
                let x = ((v as u32) as i32) as i64;
                lemma_zigzag_roundtrip(x);
                assert(-0x8000_0000 <= x <= 0x7fff_ffff);
                assert(spec_zigzag_encode(x) <= 0xffff_ffff);
                let z = spec_zigzag_encode(x) as u64;
                assert(z <= 0xffff_ffff ==> (z as u32) as u64 == z) by (bit_vector);
                assert(v <= 0xffff_ffff ==> (((((v as u32) as i32) as i64) as i32) as u32) as u64 == v)
                    by (bit_vector);
            },
            _ => {},
        }
    }
}


/// Field `i` of table `t` in a well-formed pool: the facts that decoding its
/// records rests on.
pub(crate) proof fn lemma_entry_facts(pool: Seq<Table>, t: int, i: int)
    requires
        spec_pool_wf(pool),
        0 <= t < pool.len(),
        0 <= i < pool[t].encode_entries@.len(),
    ensures
        ({
            let table = pool[t];
            let e = table.encode_entries@[i];
            let fnum = (e.encoded_tag as u64) >> 3u64;
            let wt = (e.encoded_tag as u64) & 7;
            let d = table.decode_entries@[fnum as int].0;
            &&& spec_entry_wf(pool, table, i)
            &&& table.encode_entries@.len() == table.size
            &&& fnum != 0
            &&& wt != 4
            &&& fnum < table.decode_entries@.len()
            &&& spec_known(d, wt)
            &&& spec_entry_kind(d) == e.kind
            &&& spec_entry_offset(d) as int == e.offset as int
            &&& spec_entry_has_bit(d) as u64 == e.has_bit as u64
            &&& (!spec_is_message_kind(e.kind) ==> e.offset as int == i)
            &&& (spec_is_message_kind(e.kind) ==> (e.offset as int) < table.aux_entries@.len()
                && table.aux_entries@[e.offset as int].offset as int == i)
        }),
{
    assert(spec_table_wf(pool, t));
    assert(spec_entry_wf(pool, pool[t], i));
}

/// Decoding the encodings of the elements of a repeated scalar field appends
/// them to its slot.
proof fn lemma_rep_scalar(
    pool: Seq<Table>,
    t: int,
    i: int,
    vs: Seq<u64>,
    j: nat,
    p: ObjectView,
    rest: Seq<u8>,
    fuel: nat,
    g: Option<u64>,
)
    requires
        spec_pool_wf(pool),
        0 <= t < pool.len(),
        0 <= i < pool[t].encode_entries@.len(),
        spec_is_repeated_scalar(pool[t].encode_entries@[i].kind),
        (pool[t].encode_entries@[i].encoded_tag as u64) & 7 != 2,
        p.slots.len() == pool[t].size,
        p.slots[i] is Repeated,
        j <= vs.len(),
        forall|m: int| 0 <= m < vs.len() ==> spec_canonical(pool[t].encode_entries@[i].kind, #[trigger] vs[m]),
    ensures
        ({
            let e = pool[t].encode_entries@[i];
            let enc = spec_enc_repeated(e.encoded_tag, e.kind, vs.take(j as int));
            spec_dec_loop(pool, t, enc + rest, p, fuel, g) == spec_shift(
                spec_dec_loop(
                    pool,
                    t,
                    rest,
                    with_slot(p, i, SlotView::Repeated(crate::base::slot_repeated(p.slots[i]) + vs.take(j as int))),
                    fuel,
                    g,
                ),
                enc.len() as int,
            )
        }),
    decreases j,
{
    let e = pool[t].encode_entries@[i];
    let tag = e.encoded_tag;
    let k = e.kind;
    lemma_entry_facts(pool, t, i);
    if j == 0 {
        assert(vs.take(0) =~= Seq::<u64>::empty());
        assert(spec_enc_repeated(tag, k, vs.take(0)) + rest =~= rest);
        let p1 = with_slot(p, i, SlotView::Repeated(crate::base::slot_repeated(p.slots[i]) + vs.take(0)));
        assert(crate::base::slot_repeated(p.slots[i]) + vs.take(0) =~= crate::base::slot_repeated(p.slots[i]));
        assert(p1.slots =~= p.slots);
        assert(p1 == p);
    } else {
        let v = vs[j - 1];
        let pl = spec_scalar_payload(k, v);
        let tb = spec_tag_bytes(tag);
        let prev = spec_enc_repeated(tag, k, vs.take(j - 1));
        assert(vs.take(j as int).drop_last() =~= vs.take(j - 1));
        assert(vs.take(j as int).last() == v);
        assert(spec_enc_repeated(tag, k, vs.take(j as int)) == prev + tb + pl);
        lemma_rep_scalar(pool, t, i, vs, (j - 1) as nat, p, tb + pl + rest, fuel, g);
        assert(prev + tb + pl + rest =~= prev + (tb + pl + rest));
        let q = with_slot(p, i, SlotView::Repeated(crate::base::slot_repeated(p.slots[i]) + vs.take(j - 1)));
        lemma_read_scalar_roundtrip(k, v, rest);
        let q2 = spec_add_scalar(q, i, v);
        assert(spec_dec_field(pool, t, pl + rest, q, fuel, (tag as u64) >> 3u64, (tag as u64) & 7) == Some((q2, pl.len())));
        lemma_loop_step(pool, t, tag, pl, rest, q, q2, fuel, g);
        assert(crate::base::slot_repeated(p.slots[i]) + vs.take(j as int) =~= (crate::base::slot_repeated(p.slots[i]) + vs.take(j - 1)).push(v));
        assert(q2.slots =~= with_slot(p, i, SlotView::Repeated(crate::base::slot_repeated(p.slots[i]) + vs.take(j as int))).slots);
        lemma_shift_shift(spec_dec_loop(pool, t, rest, q2, fuel, g), (pl.len() + tb.len()) as int, prev.len() as int);
    }
}


/// The packed payload of values, seen from its first value.
proof fn lemma_payload_front(k: FieldKind, vs: Seq<u64>)
    requires
        vs.len() > 0,
    ensures
        crate::encoding::spec_packed_payload(k, vs) == spec_scalar_payload(k, vs[0])
            + crate::encoding::spec_packed_payload(k, vs.drop_first()),
    decreases vs.len(),
{
    if vs.len() == 1 {
        assert(vs.drop_last() =~= Seq::<u64>::empty());
        assert(vs.drop_first() =~= Seq::<u64>::empty());
        assert(crate::encoding::spec_packed_payload(k, Seq::<u64>::empty()) == Seq::<u8>::empty());
        assert(vs.last() == vs[0]);
        assert(crate::encoding::spec_packed_payload(k, vs) =~= spec_scalar_payload(k, vs[0]) + Seq::<u8>::empty());
    } else {
        let dl = vs.drop_last();
        let df = vs.drop_first();
        lemma_payload_front(k, dl);
        assert(dl.drop_first() =~= df.drop_last());
        assert(df.last() == vs.last());
        assert(dl[0] == vs[0]);
        let a = spec_scalar_payload(k, vs[0]);
        let m = crate::encoding::spec_packed_payload(k, dl.drop_first());
        let z = spec_scalar_payload(k, vs.last());
        assert(crate::encoding::spec_packed_payload(k, vs) == (a + m) + z);
        assert(crate::encoding::spec_packed_payload(k, df) == m + z);
        assert((a + m) + z =~= a + (m + z));
    }
}

/// Unpacking the packed payload of values appends them to the slot.
proof fn lemma_unpack_payload(k: FieldKind, vs: Seq<u64>, q: ObjectView, i: int)
    requires
        spec_is_repeated_scalar(k),
        0 <= i < q.slots.len(),
        q.slots[i] is Repeated,
        forall|m: int| 0 <= m < vs.len() ==> spec_canonical(k, #[trigger] vs[m]),
    ensures
        crate::decoding::spec_unpack(k, crate::encoding::spec_packed_payload(k, vs), q, i) == Some(
            with_slot(q, i, SlotView::Repeated(crate::base::slot_repeated(q.slots[i]) + vs)),
        ),
    decreases vs.len(),
{
    if vs.len() == 0 {
        assert(crate::base::slot_repeated(q.slots[i]) + vs =~= crate::base::slot_repeated(q.slots[i]));
        assert(with_slot(q, i, SlotView::Repeated(crate::base::slot_repeated(q.slots[i]) + vs)).slots =~= q.slots);
    } else {
        let pl = crate::encoding::spec_packed_payload(k, vs);
        let v0 = vs[0];
        let rest = crate::encoding::spec_packed_payload(k, vs.drop_first());
        lemma_payload_front(k, vs);
        assert(spec_canonical(k, vs[0]));
        lemma_read_scalar_roundtrip(k, v0, rest);
        let n = spec_scalar_payload(k, v0).len();
        assert(pl.skip(n as int) =~= rest);
        let q1 = spec_add_scalar(q, i, v0);
        assert forall|m: int| 0 <= m < vs.drop_first().len() implies spec_canonical(k, #[trigger] vs.drop_first()[m]) by {
            assert(vs.drop_first()[m] == vs[m + 1]);
        }
        lemma_unpack_payload(k, vs.drop_first(), q1, i);
        assert(crate::base::slot_repeated(q1.slots[i]) + vs.drop_first() =~= crate::base::slot_repeated(q.slots[i]) + vs);
        assert(with_slot(q1, i, SlotView::Repeated(crate::base::slot_repeated(q.slots[i]) + vs)).slots
            =~= with_slot(q, i, SlotView::Repeated(crate::base::slot_repeated(q.slots[i]) + vs)).slots);
    }
}

/// Decoding the packed form of a repeated scalar field appends its values to
/// its slot.
proof fn lemma_rep_packed(
    pool: Seq<Table>,
    t: int,
    i: int,
    vs: Seq<u64>,
    p: ObjectView,
    rest: Seq<u8>,
    fuel: nat,
    g: Option<u64>,
)
    requires
        spec_pool_wf(pool),
        0 <= t < pool.len(),
        0 <= i < pool[t].encode_entries@.len(),
        spec_is_repeated_scalar(pool[t].encode_entries@[i].kind),
        (pool[t].encode_entries@[i].encoded_tag as u64) & 7 == 2,
        p.slots.len() == pool[t].size,
        p.slots[i] is Repeated,
        forall|m: int| 0 <= m < vs.len() ==> spec_canonical(pool[t].encode_entries@[i].kind, #[trigger] vs[m]),
        crate::encoding::spec_packed_payload(pool[t].encode_entries@[i].kind, vs).len() < 0x8000_0000,
    ensures
        ({
            let e = pool[t].encode_entries@[i];
            let enc = crate::encoding::spec_enc_delimited(e.encoded_tag, crate::encoding::spec_packed_payload(e.kind, vs));
            spec_dec_loop(pool, t, enc + rest, p, fuel, g) == spec_shift(
                spec_dec_loop(
                    pool,
                    t,
                    rest,
                    with_slot(p, i, SlotView::Repeated(crate::base::slot_repeated(p.slots[i]) + vs)),
                    fuel,
                    g,
                ),
                enc.len() as int,
            )
        }),
{
    let e = pool[t].encode_entries@[i];
    let tag = e.encoded_tag;
    let k = e.kind;
    lemma_entry_facts(pool, t, i);
    let b = crate::encoding::spec_packed_payload(k, vs);
    let lb = spec_varint_bytes(b.len() as u64);
    let x = lb + b;
    let tb = spec_tag_bytes(tag);
    lemma_size_roundtrip(b.len() as u64, b + rest);
    assert(lb + (b + rest) =~= x + rest);
    assert((x + rest).subrange(lb.len() as int, (lb.len() + b.len()) as int) =~= b);
    lemma_unpack_payload(k, vs, p, i);
    let q2 = with_slot(p, i, SlotView::Repeated(crate::base::slot_repeated(p.slots[i]) + vs));
    assert(spec_dec_field(pool, t, x + rest, p, fuel, (tag as u64) >> 3u64, (tag as u64) & 7) == Some((q2, x.len())));
    lemma_loop_step(pool, t, tag, x, rest, p, q2, fuel, g);
    assert(crate::encoding::spec_enc_delimited(tag, b) =~= tb + x);
    assert(tb + x + rest =~= crate::encoding::spec_enc_delimited(tag, b) + rest);
}

/// Decoding the encodings of the elements of a repeated bytes field appends
/// them to its slot.
#[verifier::rlimit(40)]
proof fn lemma_rep_bytes(
    pool: Seq<Table>,
    t: int,
    i: int,
    bs: Seq<Seq<u8>>,
    j: nat,
    p: ObjectView,
    rest: Seq<u8>,
    fuel: nat,
    g: Option<u64>,
)
    requires
        spec_pool_wf(pool),
        0 <= t < pool.len(),
        0 <= i < pool[t].encode_entries@.len(),
        pool[t].encode_entries@[i].kind == FieldKind::RepeatedBytes,
        p.slots.len() == pool[t].size,
        p.slots[i] is RepeatedBytes,
        j <= bs.len(),
        forall|m: int| 0 <= m < bs.len() ==> (#[trigger] bs[m]).len() < 0x8000_0000,
    ensures
        ({
            let e = pool[t].encode_entries@[i];
            let enc = spec_enc_rep_bytes(e.encoded_tag, bs.take(j as int));
            spec_dec_loop(pool, t, enc + rest, p, fuel, g) == spec_shift(
                spec_dec_loop(
                    pool,
                    t,
                    rest,
                    with_slot(p, i, SlotView::RepeatedBytes(crate::base::slot_repeated_bytes(p.slots[i]) + bs.take(j as int))),
                    fuel,
                    g,
                ),
                enc.len() as int,
            )
        }),
    decreases j,
{
    let e = pool[t].encode_entries@[i];
    let tag = e.encoded_tag;
    lemma_entry_facts(pool, t, i);
    if j == 0 {
        assert(bs.take(0) =~= Seq::<Seq<u8>>::empty());
        assert(spec_enc_rep_bytes(tag, bs.take(0)) + rest =~= rest);
        let p1 = with_slot(p, i, SlotView::RepeatedBytes(crate::base::slot_repeated_bytes(p.slots[i]) + bs.take(0)));
        assert(crate::base::slot_repeated_bytes(p.slots[i]) + bs.take(0) =~= crate::base::slot_repeated_bytes(p.slots[i]));
        assert(p1.slots =~= p.slots);
        assert(p1 == p);
    } else {
        let b = bs[j - 1];
        let lb = spec_varint_bytes(b.len() as u64);
        let x = lb + b;
        let tb = spec_tag_bytes(tag);
        let prev = spec_enc_rep_bytes(tag, bs.take(j - 1));
        assert(bs.take(j as int).drop_last() =~= bs.take(j - 1));
        assert(bs.take(j as int).last() == b);
        assert(spec_enc_rep_bytes(tag, bs.take(j as int)) =~= prev + tb + x);
        lemma_rep_bytes(pool, t, i, bs, (j - 1) as nat, p, tb + x + rest, fuel, g);
        assert(prev + tb + x + rest =~= prev + (tb + x + rest));
        let q = with_slot(p, i, SlotView::RepeatedBytes(crate::base::slot_repeated_bytes(p.slots[i]) + bs.take(j - 1)));
        lemma_size_roundtrip(b.len() as u64, b + rest);
        assert(lb + (b + rest) =~= x + rest);
        assert((x + rest).subrange(lb.len() as int, (lb.len() + b.len()) as int) =~= b);
        let q2 = spec_add_bytes(q, i, b);
        assert(spec_dec_field(pool, t, x + rest, q, fuel, (tag as u64) >> 3u64, (tag as u64) & 7) == Some((q2, x.len())));
        lemma_loop_step(pool, t, tag, x, rest, q, q2, fuel, g);
        assert(crate::base::slot_repeated_bytes(p.slots[i]) + bs.take(j as int) =~= (crate::base::slot_repeated_bytes(p.slots[i]) + bs.take(j - 1)).push(b));
        assert(q2.slots =~= with_slot(p, i, SlotView::RepeatedBytes(crate::base::slot_repeated_bytes(p.slots[i]) + bs.take(j as int))).slots);
        lemma_shift_shift(spec_dec_loop(pool, t, rest, q2, fuel, g), (x.len() + tb.len()) as int, prev.len() as int);
    }
}

/// A group decodes from its fields and end tag to the object it was encoded from.
proof fn lemma_group_roundtrip(pool: Seq<Table>, ct: int, c: ObjectView, fuel: nat, tag: u32, rest: Seq<u8>)
    requires
        spec_pool_wf(pool),
        0 <= ct < pool.len(),
        spec_obj_wf(pool, ct, c, fuel),
        spec_enc_msg(pool, ct, c, fuel) is Some,
        (tag as u64) & 7 == 3,
        (tag as u64) >> 3u64 != 0,
    ensures
        ({
            let b = spec_enc_msg(pool, ct, c, fuel)->Some_0;
            let endb = spec_varint_bytes(spec_end_tag(tag) as u64);
            spec_dec_loop(pool, ct, b + endb + rest, spec_new_object(pool[ct]), fuel, Some((tag as u64) >> 3u64))
                == Some((c, (b.len() + endb.len()) as nat))
        }),
    decreases fuel, 3nat, 0nat,
{
    let b = spec_enc_msg(pool, ct, c, fuel)->Some_0;
    let et = spec_end_tag(tag);
    let endb = spec_varint_bytes(et as u64);
    let fnum = (tag as u64) >> 3u64;
    let n = pool[ct].encode_entries@.len();
    lemma_entries(pool, ct, c, fuel, n, endb + rest, Some(fnum));
    lemma_partial_zero(pool, ct, c);
    lemma_partial_full(pool, ct, c, fuel);
    assert(b + endb + rest =~= b + (endb + rest));
    assert((tag as u64) & 7 == 3 ==> tag != 0xffff_ffffu32) by (bit_vector);
    assert(et == (tag + 1) as u32);
    assert((tag as u64) & 7 == 3 && tag != 0xffff_ffffu32 ==> (((tag + 1) as u32) as u64) >> 3u64
        == (tag as u64) >> 3u64 && (((tag + 1) as u32) as u64) & 7 == 4) by (bit_vector);
    lemma_tag_roundtrip(et as u64, rest);
    lemma_varint_bytes_len(et as u64);
    assert(spec_dec_loop(pool, ct, endb + rest, c, fuel, Some(fnum)) == Some((c, endb.len())));
}

/// The bytes that follow the tag of a child record: the child's encoding and
/// the end tag for a group, the length and the encoding otherwise.
pub open spec fn spec_child_record(tag: u32, b: Seq<u8>, group: bool) -> Seq<u8> {
    if group {
        b + spec_varint_bytes(spec_end_tag(tag) as u64)
    } else {
        spec_varint_bytes(b.len() as u64) + b
    }
}

/// The value of a message (or group) field decodes to the child it was
/// encoded from, which is then set in, or appended to, the field's slot.
proof fn lemma_child_field(pool: Seq<Table>, t: int, i: int, c: ObjectView, q: ObjectView, rest: Seq<u8>, fuel: nat)
    requires
        spec_pool_wf(pool),
        0 <= t < pool.len(),
        0 <= i < pool[t].encode_entries@.len(),
        spec_is_message_kind(pool[t].encode_entries@[i].kind),
        spec_child_table(pool[t], i) < pool.len(),
        q.slots.len() == pool[t].size,
        (pool[t].encode_entries@[i].kind == FieldKind::Message || pool[t].encode_entries@[i].kind
            == FieldKind::Group) ==> q.slots[i] == SlotView::Message(None),
        spec_child_wf(
            pool,
            spec_child_table(pool[t], i),
            c,
            fuel,
            pool[t].encode_entries@[i].kind == FieldKind::Message || pool[t].encode_entries@[i].kind
                == FieldKind::RepeatedMessage,
        ),
        spec_enc_msg(pool, spec_child_table(pool[t], i), c, fuel) is Some,
    ensures
        ({
            let e = pool[t].encode_entries@[i];
            let k = e.kind;
            let group = k == FieldKind::Group || k == FieldKind::RepeatedGroup;
            let b = spec_enc_msg(pool, spec_child_table(pool[t], i), c, fuel)->Some_0;
            let x = spec_child_record(e.encoded_tag, b, group);
            let q2 = if k == FieldKind::RepeatedMessage || k == FieldKind::RepeatedGroup {
                spec_add_child(q, i, c)
            } else {
                spec_set_child(q, i, c)
            };
            spec_dec_field(pool, t, x + rest, q, fuel + 1, (e.encoded_tag as u64) >> 3u64, (e.encoded_tag as u64) & 7)
                == Some((q2, x.len()))
        }),
    decreases fuel, 3nat, 1nat,
{
    let e = pool[t].encode_entries@[i];
    let k = e.kind;
    let tag = e.encoded_tag;
    let group = k == FieldKind::Group || k == FieldKind::RepeatedGroup;
    let ct = spec_child_table(pool[t], i);
    let b = spec_enc_msg(pool, ct, c, fuel)->Some_0;
    let x = spec_child_record(tag, b, group);
    lemma_entry_facts(pool, t, i);
    assert(spec_obj_wf(pool, ct, c, fuel));
    lemma_partial_zero(pool, ct, c);
    if group {
        lemma_group_roundtrip(pool, ct, c, fuel, tag, rest);
        assert(b + spec_varint_bytes(spec_end_tag(tag) as u64) + rest =~= x + rest);
    } else {
        let lb = spec_varint_bytes(b.len() as u64);
        lemma_size_roundtrip(b.len() as u64, b + rest);
        assert(lb + (b + rest) =~= x + rest);
        assert((x + rest).subrange(lb.len() as int, (lb.len() + b.len()) as int) =~= b);
        lemma_roundtrip_msg(pool, ct, c, fuel);
    }
}

/// Decoding the encodings of the children of a repeated message (or group)
/// field appends them to its slot.
#[verifier::spinoff_prover]
#[verifier::rlimit(40)]
proof fn lemma_rep_msgs(
    pool: Seq<Table>,
    t: int,
    i: int,
    cs: Seq<ObjectView>,
    j: nat,
    p: ObjectView,
    rest: Seq<u8>,
    fuel: nat,
    g: Option<u64>,
)
    requires
        spec_pool_wf(pool),
        0 <= t < pool.len(),
        0 <= i < pool[t].encode_entries@.len(),
        pool[t].encode_entries@[i].kind == FieldKind::RepeatedMessage || pool[t].encode_entries@[i].kind == FieldKind::RepeatedGroup,
        p.slots.len() == pool[t].size,
        p.slots[i] is RepeatedMessage,
        j <= cs.len(),
        spec_child_table(pool[t], i) < pool.len(),
        forall|m: int| 0 <= m < cs.len() ==> spec_child_wf(pool, spec_child_table(pool[t], i), #[trigger] cs[m], fuel, pool[t].encode_entries@[i].kind == FieldKind::RepeatedMessage),
        spec_enc_rep_msgs(pool, spec_child_table(pool[t], i), pool[t].encode_entries@[i].encoded_tag, cs.take(j as int), fuel, pool[t].encode_entries@[i].kind == FieldKind::RepeatedGroup) is Some,
    ensures
        ({
            let e = pool[t].encode_entries@[i];
            let enc = spec_enc_rep_msgs(pool, spec_child_table(pool[t], i), e.encoded_tag, cs.take(j as int), fuel, e.kind == FieldKind::RepeatedGroup)->Some_0;
            spec_dec_loop(pool, t, enc + rest, p, fuel + 1, g) == spec_shift(
                spec_dec_loop(
                    pool,
                    t,
                    rest,
                    with_slot(p, i, SlotView::RepeatedMessage(crate::base::slot_repeated_message(p.slots[i]) + cs.take(j as int))),
                    fuel + 1,
                    g,
                ),
                enc.len() as int,
            )
        }),
    decreases fuel, 4nat, j,
{
    let e = pool[t].encode_entries@[i];
    let tag = e.encoded_tag;
    let k = e.kind;
    let group = k == FieldKind::RepeatedGroup;
    let ct = spec_child_table(pool[t], i);
    let base = crate::base::slot_repeated_message(p.slots[i]);
    lemma_entry_facts(pool, t, i);
    if j == 0 {
        assert(cs.take(0) =~= Seq::<ObjectView>::empty());
        assert(spec_enc_rep_msgs(pool, ct, tag, cs.take(0), fuel, group)->Some_0 + rest =~= rest);
        assert(base + cs.take(0) =~= base);
        assert(with_slot(p, i, SlotView::RepeatedMessage(base + cs.take(0))).slots =~= p.slots);
    } else {
        let c = cs[j - 1];
        assert(cs.take(j as int).drop_last() =~= cs.take(j - 1));
        assert(cs.take(j as int).last() == c);
        let prev = spec_enc_rep_msgs(pool, ct, tag, cs.take(j - 1), fuel, group)->Some_0;
        let b = spec_enc_msg(pool, ct, c, fuel)->Some_0;
        let tb = spec_tag_bytes(tag);
        let x = spec_child_record(tag, b, group);
        assert(spec_enc_rep_msgs(pool, ct, tag, cs.take(j as int), fuel, group)->Some_0 =~= prev + tb + x);
        lemma_rep_msgs(pool, t, i, cs, (j - 1) as nat, p, tb + x + rest, fuel, g);
        assert(prev + tb + x + rest =~= prev + (tb + x + rest));
        let q = with_slot(p, i, SlotView::RepeatedMessage(base + cs.take(j - 1)));
        let q2 = spec_add_child(q, i, c);
        lemma_child_field(pool, t, i, c, q, rest, fuel);
        lemma_loop_step(pool, t, tag, x, rest, q, q2, fuel + 1, g);
        assert(base + cs.take(j as int) =~= (base + cs.take(j - 1)).push(c));
        assert(q2.slots =~= with_slot(p, i, SlotView::RepeatedMessage(base + cs.take(j as int))).slots);
        lemma_shift_shift(spec_dec_loop(pool, t, rest, q2, fuel + 1, g), (x.len() + tb.len()) as int, prev.len() as int);
    }
}

/// The encoding of field `i` of `o`, when it is a single scalar or bytes field,
/// decodes into the object that holds the fields before it.
proof fn lemma_entry_single(pool: Seq<Table>, t: int, o: ObjectView, fuel: nat, i: int, rest: Seq<u8>, g: Option<u64>)
    requires
        spec_pool_wf(pool),
        0 <= t < pool.len(),
        0 <= i < pool[t].encode_entries@.len(),
        spec_obj_wf(pool, t, o, fuel),
        spec_field_wf(pool, t, o, i, fuel),
        spec_is_scalar(pool[t].encode_entries@[i].kind) || pool[t].encode_entries@[i].kind == FieldKind::Bytes,
        spec_enc_entry(pool, t, o, fuel, i) is Some,
    ensures
        ({
            let enc = spec_enc_entry(pool, t, o, fuel, i)->Some_0;
            spec_dec_loop(pool, t, enc + rest, spec_partial(pool, t, o, i as nat), fuel, g) == spec_shift(
                spec_dec_loop(pool, t, rest, spec_partial(pool, t, o, (i + 1) as nat), fuel, g),
                enc.len() as int,
            )
        }),
{
    let table = pool[t];
    let e = table.encode_entries@[i];
    let k = e.kind;
    let tag = e.encoded_tag;
    let hb = e.has_bit as u64;
    let enc = spec_enc_entry(pool, t, o, fuel, i)->Some_0;
    let p = spec_partial(pool, t, o, i as nat);
    let p1 = spec_partial(pool, t, o, (i + 1) as nat);
    lemma_entry_facts(pool, t, i);
    assert(p.slots[i] == spec_empty_slot(k));
    let present = spec_has_bit(o.has_bits, hb);
    if !present {
        assert(enc + rest =~= rest);
        if k == FieldKind::Bytes {
            assert(crate::base::slot_bytes(o.slots[i]) =~= Seq::<u8>::empty());
        }
        assert(p1.slots =~= p.slots);
    } else {
        assert(p1.has_bits == spec_set_bit(p.has_bits, hb));
        if k == FieldKind::Bytes {
            let b = crate::base::slot_bytes(o.slots[i]);
            let lb = spec_varint_bytes(b.len() as u64);
            let x = lb + b;
            assert(enc + rest =~= spec_tag_bytes(tag) + x + rest);
            lemma_size_roundtrip(b.len() as u64, b + rest);
            assert(lb + (b + rest) =~= x + rest);
            assert((x + rest).subrange(lb.len() as int, (lb.len() + b.len()) as int) =~= b);
            assert(spec_set_bytes(p, i, hb, b).slots =~= p1.slots);
            assert(spec_dec_field(pool, t, x + rest, p, fuel, (tag as u64) >> 3u64, (tag as u64) & 7) == Some((p1, x.len())));
            lemma_loop_step(pool, t, tag, x, rest, p, p1, fuel, g);
        } else {
            let v = crate::base::slot_scalar(o.slots[i]);
            let pl = spec_scalar_payload(k, v);
            assert(enc + rest =~= spec_tag_bytes(tag) + pl + rest);
            lemma_read_scalar_roundtrip(k, v, rest);
            assert(spec_set_scalar(p, i, hb, v).slots =~= p1.slots);
            assert(spec_dec_field(pool, t, pl + rest, p, fuel, (tag as u64) >> 3u64, (tag as u64) & 7) == Some((p1, pl.len())));
            lemma_loop_step(pool, t, tag, pl, rest, p, p1, fuel, g);
        }
    }
}

/// The encoding of field `i` of `o`, when it is a single message or group
/// field, decodes into the object that holds the fields before it.
proof fn lemma_entry_child(pool: Seq<Table>, t: int, o: ObjectView, fuel: nat, i: int, rest: Seq<u8>, g: Option<u64>)
    requires
        spec_pool_wf(pool),
        0 <= t < pool.len(),
        0 <= i < pool[t].encode_entries@.len(),
        spec_obj_wf(pool, t, o, fuel),
        spec_field_wf(pool, t, o, i, fuel),
        pool[t].encode_entries@[i].kind == FieldKind::Message || pool[t].encode_entries@[i].kind == FieldKind::Group,
        spec_enc_entry(pool, t, o, fuel, i) is Some,
    ensures
        ({
            let enc = spec_enc_entry(pool, t, o, fuel, i)->Some_0;
            spec_dec_loop(pool, t, enc + rest, spec_partial(pool, t, o, i as nat), fuel, g) == spec_shift(
                spec_dec_loop(pool, t, rest, spec_partial(pool, t, o, (i + 1) as nat), fuel, g),
                enc.len() as int,
            )
        }),
    decreases fuel, 0nat, 0nat,
{
    let table = pool[t];
    let e = table.encode_entries@[i];
    let k = e.kind;
    let tag = e.encoded_tag;
    let enc = spec_enc_entry(pool, t, o, fuel, i)->Some_0;
    let p = spec_partial(pool, t, o, i as nat);
    let p1 = spec_partial(pool, t, o, (i + 1) as nat);
    lemma_entry_facts(pool, t, i);
    assert(p.slots[i] == spec_empty_slot(k));
    let ct = spec_child_table(table, i);
    match crate::base::slot_message(o.slots[i]) {
        None => {
            assert(enc + rest =~= rest);
            assert(p1.slots =~= p.slots);
        },
        Some(c) => {
            let fuel1 = (fuel - 1) as nat;
            let b = spec_enc_msg(pool, ct, c, fuel1)->Some_0;
            let x = spec_child_record(tag, b, k == FieldKind::Group);
            assert(enc + rest =~= spec_tag_bytes(tag) + x + rest);
            assert(spec_set_child(p, i, c).slots =~= p1.slots);
            assert(spec_set_child(p, i, c) == p1);
            lemma_child_field(pool, t, i, c, p, rest, fuel1);
            lemma_loop_step(pool, t, tag, x, rest, p, p1, fuel, g);
        },
    }
}

/// The encoding of field `i` of `o`, when it is a repeated field, decodes into
/// the object that holds the fields before it.
proof fn lemma_entry_repeated(pool: Seq<Table>, t: int, o: ObjectView, fuel: nat, i: int, rest: Seq<u8>, g: Option<u64>)
    requires
        spec_pool_wf(pool),
        0 <= t < pool.len(),
        0 <= i < pool[t].encode_entries@.len(),
        spec_obj_wf(pool, t, o, fuel),
        spec_field_wf(pool, t, o, i, fuel),
        !spec_is_scalar(pool[t].encode_entries@[i].kind),
        pool[t].encode_entries@[i].kind != FieldKind::Bytes,
        pool[t].encode_entries@[i].kind != FieldKind::Message,
        pool[t].encode_entries@[i].kind != FieldKind::Group,
        spec_enc_entry(pool, t, o, fuel, i) is Some,
    ensures
        ({
            let enc = spec_enc_entry(pool, t, o, fuel, i)->Some_0;
            spec_dec_loop(pool, t, enc + rest, spec_partial(pool, t, o, i as nat), fuel, g) == spec_shift(
                spec_dec_loop(pool, t, rest, spec_partial(pool, t, o, (i + 1) as nat), fuel, g),
                enc.len() as int,
            )
        }),
    decreases fuel, 0nat, 0nat,
{
    let table = pool[t];
    let e = table.encode_entries@[i];
    let k = e.kind;
    let p = spec_partial(pool, t, o, i as nat);
    let p1 = spec_partial(pool, t, o, (i + 1) as nat);
    let enc = spec_enc_entry(pool, t, o, fuel, i)->Some_0;
    lemma_entry_facts(pool, t, i);
    assert(p.slots[i] == spec_empty_slot(k));
    if spec_is_repeated_scalar(k) {
        let vs = crate::base::slot_repeated(o.slots[i]);
        assert(crate::base::slot_repeated(p.slots[i]) + vs =~= vs);
        assert(with_slot(p, i, SlotView::Repeated(vs)).slots =~= p1.slots);
        if (e.encoded_tag as u64) & 7 == 2 {
            if vs.len() == 0 {
                assert(enc + rest =~= rest);
                assert(vs =~= Seq::<u64>::empty());
                assert(p1.slots =~= p.slots);
            } else {
                lemma_rep_packed(pool, t, i, vs, p, rest, fuel, g);
            }
        } else {
            lemma_rep_scalar(pool, t, i, vs, vs.len(), p, rest, fuel, g);
            assert(vs.take(vs.len() as int) =~= vs);
        }
    } else if k == FieldKind::RepeatedBytes {
        let bs = crate::base::slot_repeated_bytes(o.slots[i]);
        lemma_rep_bytes(pool, t, i, bs, bs.len(), p, rest, fuel, g);
        assert(bs.take(bs.len() as int) =~= bs);
        assert(crate::base::slot_repeated_bytes(p.slots[i]) + bs =~= bs);
        assert(with_slot(p, i, SlotView::RepeatedBytes(bs)).slots =~= p1.slots);
    } else {
        let cs = crate::base::slot_repeated_message(o.slots[i]);
        if cs.len() == 0 {
            assert(enc + rest =~= rest);
            assert(cs =~= Seq::<ObjectView>::empty());
            assert(p1.slots =~= p.slots);
        } else {
            let fuel1 = (fuel - 1) as nat;
            assert(cs.take(cs.len() as int) =~= cs);
            lemma_rep_msgs(pool, t, i, cs, cs.len(), p, rest, fuel1, g);
            assert(crate::base::slot_repeated_message(p.slots[i]) + cs =~= cs);
            assert(with_slot(p, i, SlotView::RepeatedMessage(cs)).slots =~= p1.slots);
        }
    }
}

/// Decoding the encoding of field `i` takes the object that holds fields
/// `0..i` of `o` to the one that holds fields `0..i+1`.
proof fn lemma_entry(pool: Seq<Table>, t: int, o: ObjectView, fuel: nat, i: int, rest: Seq<u8>, g: Option<u64>)
    requires
        spec_pool_wf(pool),
        0 <= t < pool.len(),
        spec_obj_wf(pool, t, o, fuel),
        0 <= i < pool[t].encode_entries@.len(),
        spec_enc_entry(pool, t, o, fuel, i) is Some,
    ensures
        ({
            let enc = spec_enc_entry(pool, t, o, fuel, i)->Some_0;
            spec_dec_loop(pool, t, enc + rest, spec_partial(pool, t, o, i as nat), fuel, g) == spec_shift(
                spec_dec_loop(pool, t, rest, spec_partial(pool, t, o, (i + 1) as nat), fuel, g),
                enc.len() as int,
            )
        }),
    decreases fuel, 1nat, 0nat,
{
    let k = pool[t].encode_entries@[i].kind;
    assert(spec_field_wf(pool, t, o, i, fuel));
    if spec_is_scalar(k) || k == FieldKind::Bytes {
        lemma_entry_single(pool, t, o, fuel, i, rest, g);
    } else if k == FieldKind::Message || k == FieldKind::Group {
        lemma_entry_child(pool, t, o, fuel, i, rest, g);
    } else {
        lemma_entry_repeated(pool, t, o, fuel, i, rest, g);
    }
}

/// Decoding the encodings of the first `k` fields of `o` from a fresh object
/// gives the object that holds those fields.
proof fn lemma_entries(pool: Seq<Table>, t: int, o: ObjectView, fuel: nat, k: nat, rest: Seq<u8>, g: Option<u64>)
    requires
        spec_pool_wf(pool),
        0 <= t < pool.len(),
        spec_obj_wf(pool, t, o, fuel),
        k <= pool[t].encode_entries@.len(),
        spec_enc_entries(pool, t, o, fuel, k) is Some,
    ensures
        ({
            let enc = spec_enc_entries(pool, t, o, fuel, k)->Some_0;
            spec_dec_loop(pool, t, enc + rest, spec_partial(pool, t, o, 0), fuel, g) == spec_shift(
                spec_dec_loop(pool, t, rest, spec_partial(pool, t, o, k), fuel, g),
                enc.len() as int,
            )
        }),
    decreases fuel, 2nat, k,
{
    if k == 0 {
        assert(spec_enc_entries(pool, t, o, fuel, 0)->Some_0 + rest =~= rest);
    } else {
        let a = spec_enc_entries(pool, t, o, fuel, (k - 1) as nat)->Some_0;
        let e = spec_enc_entry(pool, t, o, fuel, k - 1)->Some_0;
        lemma_entries(pool, t, o, fuel, (k - 1) as nat, e + rest, g);
        assert(a + e + rest =~= a + (e + rest));
        lemma_entry(pool, t, o, fuel, k - 1, rest, g);
        lemma_shift_shift(spec_dec_loop(pool, t, rest, spec_partial(pool, t, o, k), fuel, g), e.len() as int, a.len() as int);
    }
}


/// The children of a repeated message field that are well formed encode.
proof fn lemma_enc_rep_some(pool: Seq<Table>, ct: int, tag: u32, cs: Seq<ObjectView>, fuel: nat, delimited: bool, group: bool, j: nat)
    requires
        spec_pool_wf(pool),
        0 <= ct < pool.len(),
        j <= cs.len(),
        forall|m: int| 0 <= m < cs.len() ==> spec_child_wf(pool, ct, #[trigger] cs[m], fuel, delimited),
    ensures
        spec_enc_rep_msgs(pool, ct, tag, cs.take(j as int), fuel, group) is Some,
    decreases fuel, 3nat, j,
{
    if j > 0 {
        assert(cs.take(j as int).drop_last() =~= cs.take(j - 1));
        assert(cs.take(j as int).last() == cs[j - 1]);
        lemma_enc_rep_some(pool, ct, tag, cs, fuel, delimited, group, (j - 1) as nat);
        assert(spec_child_wf(pool, ct, cs[j - 1], fuel, delimited));
        lemma_enc_some(pool, ct, cs[j - 1], fuel);
    } else {
        assert(cs.take(0) =~= Seq::<ObjectView>::empty());
    }
}

/// Each field of a well-formed object encodes.
proof fn lemma_enc_entry_some(pool: Seq<Table>, t: int, o: ObjectView, fuel: nat, i: int)
    requires
        spec_pool_wf(pool),
        0 <= t < pool.len(),
        spec_obj_wf(pool, t, o, fuel),
        0 <= i < pool[t].encode_entries@.len(),
    ensures
        spec_enc_entry(pool, t, o, fuel, i) is Some,
    decreases fuel, 0nat, 0nat,
{
    let table = pool[t];
    let e = table.encode_entries@[i];
    let k = e.kind;
    lemma_entry_facts(pool, t, i);
    assert(spec_field_wf(pool, t, o, i, fuel));
    if k == FieldKind::Message || k == FieldKind::Group {
        match crate::base::slot_message(o.slots[i]) {
            None => {},
            Some(c) => {
                lemma_enc_some(pool, spec_child_table(table, i), c, (fuel - 1) as nat);
            },
        }
    } else if k == FieldKind::RepeatedMessage || k == FieldKind::RepeatedGroup {
        let cs = crate::base::slot_repeated_message(o.slots[i]);
        if cs.len() > 0 {
            lemma_enc_rep_some(pool, spec_child_table(table, i), e.encoded_tag, cs, (fuel - 1) as nat,
                k == FieldKind::RepeatedMessage, k == FieldKind::RepeatedGroup, cs.len());
            assert(cs.take(cs.len() as int) =~= cs);
        }
    }
}

/// The first `k` fields of a well-formed object encode.
proof fn lemma_enc_entries_some(pool: Seq<Table>, t: int, o: ObjectView, fuel: nat, k: nat)
    requires
        spec_pool_wf(pool),
        0 <= t < pool.len(),
        spec_obj_wf(pool, t, o, fuel),
        k <= pool[t].encode_entries@.len(),
    ensures
        spec_enc_entries(pool, t, o, fuel, k) is Some,
    decreases fuel, 1nat, k,
{
    if k > 0 {
        lemma_enc_entries_some(pool, t, o, fuel, (k - 1) as nat);
        lemma_enc_entry_some(pool, t, o, fuel, k - 1);
    }
}

/// A well-formed object encodes.
pub proof fn lemma_enc_some(pool: Seq<Table>, t: int, o: ObjectView, fuel: nat)
    requires
        spec_pool_wf(pool),
        0 <= t < pool.len(),
        spec_obj_wf(pool, t, o, fuel),
    ensures
        spec_enc_msg(pool, t, o, fuel) is Some,
    decreases fuel, 2nat, 0nat,
{
    lemma_enc_entries_some(pool, t, o, fuel, pool[t].encode_entries@.len());
}

/// A message decodes from its encoding, into a fresh object, to the object it
/// was encoded from.
pub proof fn lemma_roundtrip_msg(pool: Seq<Table>, t: int, o: ObjectView, fuel: nat)
    requires
        spec_pool_wf(pool),
        0 <= t < pool.len(),
        spec_obj_wf(pool, t, o, fuel),
    ensures
        spec_enc_msg(pool, t, o, fuel) is Some,
        spec_dec_msg(pool, t, spec_enc_msg(pool, t, o, fuel)->Some_0, spec_new_object(pool[t]), fuel)
            == Some(o),
    decreases fuel, 3nat, 0nat,
{
    lemma_enc_some(pool, t, o, fuel);
    let n = pool[t].encode_entries@.len();
    let b = spec_enc_msg(pool, t, o, fuel)->Some_0;
    lemma_entries(pool, t, o, fuel, n, Seq::empty(), None);
    assert(b + Seq::<u8>::empty() =~= b);
    lemma_partial_zero(pool, t, o);
    lemma_partial_full(pool, t, o, fuel);
}


// ----- tables built from descriptors -----

/// A message type whose table is well formed: fewer than 65536 fields with
/// distinct numbers between 1 and 2047, and at most 64 of them keeping a
/// has-bit.
pub open spec fn spec_plain_message(d: MessageView, proto3: bool) -> bool {
    let fields = d.fields;
    &&& fields.len() <= 0xFFFF
    &&& forall|i: int| 0 <= i < fields.len() ==> 1 <= #[trigger] fields[i].number <= 2047
    &&& forall|i: int, j: int| 0 <= i < j < fields.len() ==> #[trigger] fields[i].number != #[trigger] fields[j].number
    &&& spec_count_has_bits(fields, fields.len() as int) <= 64
}

proof fn lemma_first_unique(fields: Seq<FieldView>, i: int, k: int)
    requires
        0 <= i < k <= fields.len(),
        forall|a: int, b: int| 0 <= a < b < fields.len() ==> #[trigger] fields[a].number != #[trigger] fields[b].number,
    ensures
        spec_first_with_number(fields, fields[i].number as int, k) == i,
        spec_needs_has_bit(fields[i]) ==> spec_last_has_bit(fields, fields[i].number as int, k) == spec_count_has_bits(fields, i),
        spec_is_message(fields[i]) ==> spec_last_aux(fields, fields[i].number as int, k) == spec_count_messages(fields, i),
    decreases k,
{
    if k - 1 > i {
        lemma_first_unique(fields, i, k - 1);
        assert(fields[i].number != fields[k - 1].number);
    } else {
        lemma_first_absent(fields, fields[i].number as int, i);
    }
}

proof fn lemma_first_absent(fields: Seq<FieldView>, n: int, k: int)
    requires
        0 <= k <= fields.len(),
        forall|a: int| 0 <= a < k ==> #[trigger] fields[a].number != n,
    ensures
        spec_first_with_number(fields, n, k) == -1,
    decreases k,
{
    if k > 0 {
        lemma_first_absent(fields, n, k - 1);
    }
}

proof fn lemma_counts_below(fields: Seq<FieldView>, i: int, k: int)
    requires
        0 <= i < k <= fields.len(),
    ensures
        spec_needs_has_bit(fields[i]) ==> spec_count_has_bits(fields, i) < spec_count_has_bits(fields, k),
        spec_is_message(fields[i]) ==> spec_count_messages(fields, i) < spec_count_messages(fields, k),
        spec_count_has_bits(fields, i) <= spec_count_has_bits(fields, k),
        spec_count_messages(fields, i) <= spec_count_messages(fields, k),
    decreases k,
{
    if k - 1 > i {
        lemma_counts_below(fields, i, k - 1);
    }
}

proof fn lemma_count_le(fields: Seq<FieldView>, k: int)
    requires
        0 <= k,
    ensures
        spec_count_messages(fields, k) <= k,
        spec_count_has_bits(fields, k) <= k,
    decreases k,
{
    if k > 0 {
        lemma_count_le(fields, k - 1);
    }
}

proof fn lemma_slot_of_message(fields: Seq<FieldView>, i: int, k: int)
    requires
        0 <= i < k <= fields.len(),
        spec_is_message(fields[i]),
    ensures
        spec_message_slots(fields, k).len() == spec_count_messages(fields, k),
        spec_count_messages(fields, i) < spec_message_slots(fields, k).len(),
        spec_message_slots(fields, k)[spec_count_messages(fields, i) as int] == i,
    decreases k,
{
    lemma_slots_len(fields, k);
    if k - 1 > i {
        lemma_slot_of_message(fields, i, k - 1);
        lemma_slots_len(fields, k - 1);
    } else {
        lemma_slots_len(fields, i);
    }
}

proof fn lemma_slots_len(fields: Seq<FieldView>, k: int)
    ensures
        spec_message_slots(fields, k).len() == spec_count_messages(fields, k),
    decreases k,
{
    if k > 0 {
        lemma_slots_len(fields, k - 1);
    }
}

proof fn lemma_max_bound(fields: Seq<FieldView>, i: int, k: int)
    requires
        0 <= i < k <= fields.len(),
    ensures
        fields[i].number <= spec_max_number_upto(fields, k),
    decreases k,
{
    if k - 1 > i {
        lemma_max_bound(fields, i, k - 1);
    }
}

proof fn lemma_unpack(kind: crate::wire::FieldKind, hb: u32, off: usize)
    requires
        hb < 256,
    ensures
        crate::decoding::spec_entry_kind(spec_pack_entry(kind, hb, off)) == kind,
        crate::decoding::spec_entry_has_bit(spec_pack_entry(kind, hb, off)) == hb,
        crate::decoding::spec_entry_offset(spec_pack_entry(kind, hb, off)) == (off & 0xFFFF) as u32,
{
    lemma_kind_u8_roundtrip(kind);
    let k = spec_kind_to_u8(kind);
    let o = (off & 0xFFFF) as u32;
    assert(off & 0xFFFF <= 0xffff) by (bit_vector);
    assert(hb < 256 && k <= 22 && o <= 0xffff ==> ((((o << 16u32) | (hb << 8u32) | (k as u32)) & 0xff) as u8
        == k && (((o << 16u32) | (hb << 8u32) | (k as u32)) >> 8u32) & 0xff == hb && ((o << 16u32) | (hb
        << 8u32) | (k as u32)) >> 16u32 == o)) by (bit_vector);
}

proof fn lemma_tag_parts(number: i32, wt: u32)
    requires
        1 <= number <= 2047,
        wt < 8,
    ensures
        (spec_make_tag(number, wt) as u64) & 7 == wt as u64,
        (spec_make_tag(number, wt) as u64) >> 3u64 == number as u64,
{
    let n = number as u32;
    assert(1 <= n <= 2047 && wt < 8 ==> (((n << 3u32) | wt) as u64) & 7 == wt as u64 && (((n << 3u32)
        | wt) as u64) >> 3u64 == n as u64) by (bit_vector);
}

/// A table built from a message type with distinct field numbers between 1
/// and 2047, no packed fields and at most 64 has-bit fields is well formed,
/// whatever its child tables: so every well-formed object of it decodes from
/// its encoding back to itself.
pub proof fn lemma_built_table_wf(pool: Seq<Table>, t: int, d: MessageView, proto3: bool, children: Seq<usize>)
    requires
        0 <= t < pool.len(),
        spec_table_of(pool[t], d, proto3, children),
        spec_plain_message(d, proto3),
    ensures
        spec_table_wf(pool, t),
{
    let table = pool[t];
    let fields = d.fields;
    let n = fields.len() as int;
    assert forall|i: int| 0 <= i < table.encode_entries@.len() implies #[trigger] spec_entry_wf(pool, table, i) by {
        let f = fields[i];
        let e = table.encode_entries@[i];
        assert(e == spec_encode_entry(fields, i, proto3));
        lemma_first_unique(fields, i, n);
        lemma_counts_below(fields, i, n);
        lemma_max_bound(fields, i, n);
        let nat_wt = spec_natural_wire_type(f.field_type);
        let wt = spec_wire_type_with_syntax(f, proto3);
        lemma_tag_parts(f.number, wt);
        assert(nat_wt as u64 == crate::decoding::spec_wire_type(e.kind));
        if wt != nat_wt {
            assert(spec_is_packed(f, proto3));
            assert(wt == 2);
            assert(spec_is_repeated_scalar(e.kind));
        }
        let fnum = (e.encoded_tag as u64) >> 3u64;
        assert(fnum == f.number as u64);
        assert(spec_max_number(fields) == spec_max_number_upto(fields, n));
        let de = table.decode_entries@[fnum as int].0;
        assert(de == spec_decode_entry(fields, f.number as int));
        lemma_count_le(fields, i);
        if spec_is_message(f) {
            lemma_slot_of_message(fields, i, n);
            lemma_unpack(spec_field_kind(f), 0, spec_count_messages(fields, i) as usize);
            assert(spec_count_messages(fields, i) < 0x10000);
            let cu = spec_count_messages(fields, i) as usize;
            assert(cu <= 0xFFFF ==> cu & 0xFFFF == cu) by (bit_vector);
            assert(table.aux_entries@[e.offset as int].offset == i as u32);
            assert(crate::decoding::spec_is_message_kind(e.kind));
            assert(spec_entry_slot(table, e) == i);
        } else {
            let hb: u32 = if spec_needs_has_bit(f) {
                spec_count_has_bits(fields, i) as u32
            } else {
                0
            };
            lemma_unpack(spec_field_kind(f), hb, i as usize);
            let iu = i as usize;
            assert(iu <= 0xFFFF ==> iu & 0xFFFF == iu) by (bit_vector);
            assert(!crate::decoding::spec_is_message_kind(e.kind));
            assert(spec_entry_slot(table, e) == i);
        }
        assert(e.kind != FieldKind::Unknown);
        assert(e.has_bit < 64);
        assert(1 <= fnum < table.decode_entries@.len());
        assert(crate::decoding::spec_entry_kind(de) == e.kind);
        assert(crate::decoding::spec_entry_offset(de) == e.offset as u32);
        assert(crate::decoding::spec_entry_has_bit(de) == e.has_bit as u32);
    }
}

} // verus!

verus! {

/// Field `fnum` of table `t` is a repeated scalar field of kind `k` whose
/// values live in slot `off` of `p`.
pub open spec fn spec_rep_scalar_field(pool: Seq<Table>, t: int, fnum: u64, k: FieldKind, p: ObjectView, off: int) -> bool {
    &&& 0 <= t < pool.len()
    &&& 1 <= fnum < pool[t].decode_entries@.len()
    &&& spec_is_repeated_scalar(k)
    &&& spec_entry_kind(pool[t].decode_entries@[fnum as int].0) == k
    &&& spec_entry_offset(pool[t].decode_entries@[fnum as int].0) as int == off
    &&& 0 <= off < p.slots.len()
    &&& p.slots[off] is Repeated
}

/// The values of a repeated scalar field, each with its own tag, decode to
/// those values appended to its slot.
proof fn lemma_dec_unpacked(
    pool: Seq<Table>,
    t: int,
    tag: u32,
    k: FieldKind,
    vs: Seq<u64>,
    j: nat,
    p: ObjectView,
    off: int,
    rest: Seq<u8>,
    fuel: nat,
)
    requires
        spec_rep_scalar_field(pool, t, (tag as u64) >> 3u64, k, p, off),
        (tag as u64) & 7 == spec_wire_type(k),
        j <= vs.len(),
        forall|m: int| 0 <= m < vs.len() ==> spec_canonical(k, #[trigger] vs[m]),
    ensures
        ({
            let enc = spec_enc_repeated(tag, k, vs.take(j as int));
            spec_dec_loop(pool, t, enc + rest, p, fuel, None) == spec_shift(
                spec_dec_loop(pool, t, rest, with_slot(p, off, SlotView::Repeated(crate::base::slot_repeated(p.slots[off]) + vs.take(j as int))), fuel, None),
                enc.len() as int,
            )
        }),
    decreases j,
{
    if j == 0 {
        assert(vs.take(0) =~= Seq::<u64>::empty());
        assert(spec_enc_repeated(tag, k, vs.take(0)) + rest =~= rest);
        assert(crate::base::slot_repeated(p.slots[off]) + vs.take(0) =~= crate::base::slot_repeated(p.slots[off]));
        assert(with_slot(p, off, SlotView::Repeated(crate::base::slot_repeated(p.slots[off]) + vs.take(0))).slots =~= p.slots);
    } else {
        let v = vs[j - 1];
        let pl = spec_scalar_payload(k, v);
        let tb = spec_tag_bytes(tag);
        let prev = spec_enc_repeated(tag, k, vs.take(j - 1));
        assert(vs.take(j as int).drop_last() =~= vs.take(j - 1));
        assert(vs.take(j as int).last() == v);
        assert(spec_enc_repeated(tag, k, vs.take(j as int)) == prev + tb + pl);
        lemma_dec_unpacked(pool, t, tag, k, vs, (j - 1) as nat, p, off, tb + pl + rest, fuel);
        assert(prev + tb + pl + rest =~= prev + (tb + pl + rest));
        let q = with_slot(p, off, SlotView::Repeated(crate::base::slot_repeated(p.slots[off]) + vs.take(j - 1)));
        lemma_read_scalar_roundtrip(k, v, rest);
        let q2 = spec_add_scalar(q, off, v);
        assert(spec_dec_field(pool, t, pl + rest, q, fuel, (tag as u64) >> 3u64, (tag as u64) & 7) == Some((q2, pl.len())));
        lemma_loop_step(pool, t, tag, pl, rest, q, q2, fuel, None);
        assert(crate::base::slot_repeated(p.slots[off]) + vs.take(j as int) =~= (crate::base::slot_repeated(p.slots[off]) + vs.take(j - 1)).push(v));
        assert(q2.slots =~= with_slot(p, off, SlotView::Repeated(crate::base::slot_repeated(p.slots[off]) + vs.take(j as int))).slots);
        lemma_shift_shift(spec_dec_loop(pool, t, rest, q2, fuel, None), (pl.len() + tb.len()) as int, prev.len() as int);
    }
}

/// A repeated scalar field reads the same values whether they come packed
/// (a tag of the field with wire type 2, one length, the values back to back)
/// or unpacked (each value with a tag of the field with the kind's own wire
/// type): both append the values to the field's slot, in order.
pub proof fn lemma_packed_unpacked_agree(
    pool: Seq<Table>,
    t: int,
    fnum: u64,
    k: FieldKind,
    vs: Seq<u64>,
    o: ObjectView,
    off: int,
    fuel: nat,
    packed_tag: u32,
    plain_tag: u32,
)
    requires
        spec_rep_scalar_field(pool, t, fnum, k, o, off),
        (packed_tag as u64) >> 3u64 == fnum,
        (packed_tag as u64) & 7 == 2,
        (plain_tag as u64) >> 3u64 == fnum,
        (plain_tag as u64) & 7 == spec_wire_type(k),
        forall|m: int| 0 <= m < vs.len() ==> spec_canonical(k, #[trigger] vs[m]),
        crate::encoding::spec_packed_payload(k, vs).len() < 0x8000_0000,
    ensures
        ({
            let packed = crate::encoding::spec_enc_delimited(packed_tag, crate::encoding::spec_packed_payload(k, vs));
            let unpacked = spec_enc_repeated(plain_tag, k, vs);
            let expected = with_slot(o, off, SlotView::Repeated(crate::base::slot_repeated(o.slots[off]) + vs));
            &&& spec_dec_msg(pool, t, packed, o, fuel) == Some(expected)
            &&& spec_dec_msg(pool, t, unpacked, o, fuel) == Some(expected)
        }),
{
    let expected = with_slot(o, off, SlotView::Repeated(crate::base::slot_repeated(o.slots[off]) + vs));
    let empty = Seq::<u8>::empty();
    // unpacked
    lemma_dec_unpacked(pool, t, plain_tag, k, vs, vs.len(), o, off, empty, fuel);
    assert(vs.take(vs.len() as int) =~= vs);
    let unpacked = spec_enc_repeated(plain_tag, k, vs);
    assert(unpacked + empty =~= unpacked);
    // packed
    let b = crate::encoding::spec_packed_payload(k, vs);
    let lb = spec_varint_bytes(b.len() as u64);
    let x = lb + b;
    lemma_size_roundtrip(b.len() as u64, b + empty);
    assert(lb + (b + empty) =~= x + empty);
    assert((x + empty).subrange(lb.len() as int, (lb.len() + b.len()) as int) =~= b);
    lemma_unpack_payload(k, vs, o, off);
    assert(spec_dec_field(pool, t, x + empty, o, fuel, fnum, 2) == Some((expected, x.len())));
    lemma_loop_step(pool, t, packed_tag, x, empty, o, expected, fuel, None);
    let packed = crate::encoding::spec_enc_delimited(packed_tag, b);
    assert(spec_tag_bytes(packed_tag) + x + empty =~= packed);
}

} // verus!

verus! {

/// An explicit `packed` option decides whether a repeated scalar field is
/// written packed, whatever the file's syntax: in the table built from the
/// message type, the field's tag carries wire type 2 exactly when the option
/// says packed.
pub proof fn lemma_packed_option_decides(t: Table, d: MessageView, proto3: bool, children: Seq<usize>, i: int, p: bool)
    requires
        spec_table_of(t, d, proto3, children),
        0 <= i < d.fields.len(),
        d.fields[i].label == crate::descriptor::Label::Repeated,
        d.fields[i].options == Some(crate::descriptor::FieldOptions { packed: Some(p) }),
        spec_natural_wire_type(d.fields[i].field_type) == 0 || spec_natural_wire_type(d.fields[i].field_type) == 1
            || spec_natural_wire_type(d.fields[i].field_type) == 5,
        1 <= d.fields[i].number <= 2047,
    ensures
        ((t.encode_entries@[i].encoded_tag as u64) & 7 == 2) == p,
        (t.encode_entries@[i].encoded_tag as u64) >> 3u64 == d.fields[i].number as u64,
{
    let f = d.fields[i];
    assert(t.encode_entries@[i] == spec_encode_entry(d.fields, i, proto3));
    let wt = spec_wire_type_with_syntax(f, proto3);
    assert(spec_is_packed(f, proto3) == p);
    lemma_tag_parts(f.number, wt);
}

/// The field number, slot and child table of singular message field `tag`
/// of table `t` fit `o` and the pool.
pub open spec fn spec_message_field_fits(pool: Seq<Table>, t: int, o: ObjectView, tag: u32) -> bool {
    let f = (tag as u64) >> 3u64;
    &&& 0 <= t < pool.len()
    &&& (tag as u64) & 7 == 2
    &&& f >= 1
    &&& f < pool[t].decode_entries@.len()
    &&& spec_entry_kind(pool[t].decode_entries@[f as int].0) == FieldKind::Message
    &&& ({
        let off = spec_entry_offset(pool[t].decode_entries@[f as int].0) as int;
        &&& off < pool[t].aux_entries@.len()
        &&& (pool[t].aux_entries@[off].offset as int) < o.slots.len()
        &&& (pool[t].aux_entries@[off].child_table as int) < pool.len()
    })
}

/// The aux entry of singular message field `tag` of table `t`.
pub open spec fn spec_message_field_aux(pool: Seq<Table>, t: int, tag: u32) -> crate::tables::AuxTableEntry {
    pool[t].aux_entries@[spec_entry_offset(pool[t].decode_entries@[((tag as u64) >> 3u64) as int].0) as int]
}

/// One occurrence of a singular message field decodes its value into the
/// child the object holds (or a fresh one) and sets that child.
proof fn lemma_message_occurrence(pool: Seq<Table>, t: int, p: ObjectView, fuel: nat, tag: u32, x: Seq<u8>, rest: Seq<u8>)
    requires
        spec_message_field_fits(pool, t, p, tag),
        fuel > 0,
        x.len() < 0x8000_0000,
        ({
            let aux = spec_message_field_aux(pool, t, tag);
            spec_dec_msg(pool, aux.child_table as int, x, crate::decoding::spec_child_or_new(pool, p, aux.offset as int, aux.child_table as int), (fuel - 1) as nat) is Some
        }),
    ensures
        ({
            let aux = spec_message_field_aux(pool, t, tag);
            let c = spec_dec_msg(pool, aux.child_table as int, x, crate::decoding::spec_child_or_new(pool, p, aux.offset as int, aux.child_table as int), (fuel - 1) as nat)->Some_0;
            let enc = crate::encoding::spec_enc_delimited(tag, x);
            spec_dec_loop(pool, t, enc + rest, p, fuel, None) == spec_shift(
                spec_dec_loop(pool, t, rest, spec_set_child(p, aux.offset as int, c), fuel, None),
                enc.len() as int,
            )
        }),
{
    let f = (tag as u64) >> 3u64;
    let aux = spec_message_field_aux(pool, t, tag);
    let c = spec_dec_msg(pool, aux.child_table as int, x, crate::decoding::spec_child_or_new(pool, p, aux.offset as int, aux.child_table as int), (fuel - 1) as nat)->Some_0;
    let lx = spec_varint_bytes(x.len() as u64);
    let y = lx + x;
    lemma_size_roundtrip(x.len() as u64, x + rest);
    assert(lx + (x + rest) =~= y + rest);
    assert((y + rest).subrange(lx.len() as int, (lx.len() + x.len()) as int) =~= x);
    let p2 = spec_set_child(p, aux.offset as int, c);
    assert(spec_dec_field(pool, t, y + rest, p, fuel, f, 2) == Some((p2, y.len())));
    lemma_loop_step(pool, t, tag, y, rest, p, p2, fuel, None);
    assert(crate::encoding::spec_enc_delimited(tag, x) + rest =~= spec_tag_bytes(tag) + y + rest);
}

/// Two occurrences of a singular message field merge: decoding the field's
/// value `a` and then its value `b` gives the child that decoding `a`
/// followed by `b` into one fresh child gives.
pub proof fn lemma_singular_message_merges(pool: Seq<Table>, t: int, o: ObjectView, fuel: nat, tag: u32, a: Seq<u8>, b: Seq<u8>)
    requires
        spec_message_field_fits(pool, t, o, tag),
        o.slots[spec_message_field_aux(pool, t, tag).offset as int] == SlotView::Message(None),
        fuel > 0,
        a.len() < 0x8000_0000,
        b.len() < 0x8000_0000,
        ({
            let ct = spec_message_field_aux(pool, t, tag).child_table as int;
            &&& spec_dec_msg(pool, ct, a, spec_new_object(pool[ct]), (fuel - 1) as nat) is Some
            &&& spec_dec_msg(pool, ct, a + b, spec_new_object(pool[ct]), (fuel - 1) as nat) is Some
        }),
    ensures
        ({
            let aux = spec_message_field_aux(pool, t, tag);
            let ct = aux.child_table as int;
            spec_dec_msg(
                pool,
                t,
                crate::encoding::spec_enc_delimited(tag, a) + crate::encoding::spec_enc_delimited(tag, b),
                o,
                fuel,
            ) == Some(spec_set_child(
                o,
                aux.offset as int,
                spec_dec_msg(pool, ct, a + b, spec_new_object(pool[ct]), (fuel - 1) as nat)->Some_0,
            ))
        }),
{
    let aux = spec_message_field_aux(pool, t, tag);
    let slot = aux.offset as int;
    let ct = aux.child_table as int;
    let fresh = spec_new_object(pool[ct]);
    let f1 = (fuel - 1) as nat;
    let ca = spec_dec_msg(pool, ct, a, fresh, f1)->Some_0;
    crate::locality::lemma_dec_concat(pool, ct, a, b, fresh, f1);
    let cab = spec_dec_msg(pool, ct, a + b, fresh, f1)->Some_0;
    let o1 = spec_set_child(o, slot, ca);
    let o2 = spec_set_child(o1, slot, cab);
    let eb = crate::encoding::spec_enc_delimited(tag, b);
    let empty = Seq::<u8>::empty();
    assert(crate::decoding::spec_child_or_new(pool, o, slot, ct) == fresh);
    lemma_message_occurrence(pool, t, o, fuel, tag, a, eb);
    assert(o1.slots.len() == o.slots.len());
    assert(crate::decoding::spec_child_or_new(pool, o1, slot, ct) == ca);
    lemma_message_occurrence(pool, t, o1, fuel, tag, b, empty);
    assert(eb + empty =~= eb);
    crate::base::lemma_with_slot_twice(o, slot, SlotView::Message(Some(ca)), SlotView::Message(Some(cab)));
}

/// The field number, slot and child table of repeated message field `tag`
/// of table `t` fit `o` and the pool.
pub open spec fn spec_rep_message_field_fits(pool: Seq<Table>, t: int, o: ObjectView, tag: u32) -> bool {
    let f = (tag as u64) >> 3u64;
    &&& 0 <= t < pool.len()
    &&& (tag as u64) & 7 == 2
    &&& f >= 1
    &&& f < pool[t].decode_entries@.len()
    &&& spec_entry_kind(pool[t].decode_entries@[f as int].0) == FieldKind::RepeatedMessage
    &&& ({
        let off = spec_entry_offset(pool[t].decode_entries@[f as int].0) as int;
        &&& off < pool[t].aux_entries@.len()
        &&& (pool[t].aux_entries@[off].offset as int) < o.slots.len()
        &&& (pool[t].aux_entries@[off].child_table as int) < pool.len()
    })
}

/// One occurrence of a repeated message field appends the child decoded,
/// from a fresh object, from its value.
proof fn lemma_rep_message_occurrence(pool: Seq<Table>, t: int, p: ObjectView, fuel: nat, tag: u32, x: Seq<u8>, rest: Seq<u8>)
    requires
        spec_rep_message_field_fits(pool, t, p, tag),
        fuel > 0,
        x.len() < 0x8000_0000,
        ({
            let aux = spec_message_field_aux(pool, t, tag);
            spec_dec_msg(pool, aux.child_table as int, x, spec_new_object(pool[aux.child_table as int]), (fuel - 1) as nat) is Some
        }),
    ensures
        ({
            let aux = spec_message_field_aux(pool, t, tag);
            let c = spec_dec_msg(pool, aux.child_table as int, x, spec_new_object(pool[aux.child_table as int]), (fuel - 1) as nat)->Some_0;
            let enc = crate::encoding::spec_enc_delimited(tag, x);
            spec_dec_loop(pool, t, enc + rest, p, fuel, None) == spec_shift(
                spec_dec_loop(pool, t, rest, crate::base::spec_add_child(p, aux.offset as int, c), fuel, None),
                enc.len() as int,
            )
        }),
{
    let f = (tag as u64) >> 3u64;
    let aux = spec_message_field_aux(pool, t, tag);
    let c = spec_dec_msg(pool, aux.child_table as int, x, spec_new_object(pool[aux.child_table as int]), (fuel - 1) as nat)->Some_0;
    let lx = spec_varint_bytes(x.len() as u64);
    let y = lx + x;
    lemma_size_roundtrip(x.len() as u64, x + rest);
    assert(lx + (x + rest) =~= y + rest);
    assert((y + rest).subrange(lx.len() as int, (lx.len() + x.len()) as int) =~= x);
    let p2 = crate::base::spec_add_child(p, aux.offset as int, c);
    assert(spec_dec_field(pool, t, y + rest, p, fuel, f, 2) == Some((p2, y.len())));
    lemma_loop_step(pool, t, tag, y, rest, p, p2, fuel, None);
    assert(crate::encoding::spec_enc_delimited(tag, x) + rest =~= spec_tag_bytes(tag) + y + rest);
}

/// Two occurrences of a repeated message field each add a child, in order,
/// decoded from a fresh object: they do not merge.
pub proof fn lemma_repeated_message_appends(pool: Seq<Table>, t: int, o: ObjectView, fuel: nat, tag: u32, a: Seq<u8>, b: Seq<u8>)
    requires
        spec_rep_message_field_fits(pool, t, o, tag),
        o.slots[spec_message_field_aux(pool, t, tag).offset as int] is RepeatedMessage,
        fuel > 0,
        a.len() < 0x8000_0000,
        b.len() < 0x8000_0000,
        ({
            let ct = spec_message_field_aux(pool, t, tag).child_table as int;
            &&& spec_dec_msg(pool, ct, a, spec_new_object(pool[ct]), (fuel - 1) as nat) is Some
            &&& spec_dec_msg(pool, ct, b, spec_new_object(pool[ct]), (fuel - 1) as nat) is Some
        }),
    ensures
        ({
            let aux = spec_message_field_aux(pool, t, tag);
            let ct = aux.child_table as int;
            let slot = aux.offset as int;
            spec_dec_msg(
                pool,
                t,
                crate::encoding::spec_enc_delimited(tag, a) + crate::encoding::spec_enc_delimited(tag, b),
                o,
                fuel,
            ) == Some(crate::base::with_slot(
                o,
                slot,
                SlotView::RepeatedMessage(crate::base::slot_repeated_message(o.slots[slot]) + seq![
                    spec_dec_msg(pool, ct, a, spec_new_object(pool[ct]), (fuel - 1) as nat)->Some_0,
                    spec_dec_msg(pool, ct, b, spec_new_object(pool[ct]), (fuel - 1) as nat)->Some_0,
                ]),
            ))
        }),
{
    let aux = spec_message_field_aux(pool, t, tag);
    let slot = aux.offset as int;
    let ct = aux.child_table as int;
    let fresh = spec_new_object(pool[ct]);
    let f1 = (fuel - 1) as nat;
    let ca = spec_dec_msg(pool, ct, a, fresh, f1)->Some_0;
    let cb = spec_dec_msg(pool, ct, b, fresh, f1)->Some_0;
    let o1 = crate::base::spec_add_child(o, slot, ca);
    let o2 = crate::base::spec_add_child(o1, slot, cb);
    let eb = crate::encoding::spec_enc_delimited(tag, b);
    let empty = Seq::<u8>::empty();
    lemma_rep_message_occurrence(pool, t, o, fuel, tag, a, eb);
    assert(o1.slots.len() == o.slots.len());
    lemma_rep_message_occurrence(pool, t, o1, fuel, tag, b, empty);
    assert(eb + empty =~= eb);
    let old_cs = crate::base::slot_repeated_message(o.slots[slot]);
    assert(crate::base::slot_repeated_message(o1.slots[slot]) == old_cs.push(ca));
    assert(old_cs.push(ca).push(cb) =~= old_cs + seq![ca, cb]);
    crate::base::lemma_with_slot_twice(o, slot, SlotView::RepeatedMessage(old_cs.push(ca)), SlotView::RepeatedMessage(old_cs + seq![ca, cb]));
}

} // verus!
