//! Table-driven encoding of objects into the protobuf wire format.
use vstd::prelude::*;
use crate::wire::{
    FieldKind, spec_varint_bytes, spec_zigzag_encode, zigzag_encode, append_varint, append_fixed32,
    append_fixed64, append_slice,
};
use crate::base::{
    Object, ObjectView, spec_has_bit, slot_scalar, slot_bytes, slot_repeated, slot_repeated_bytes,
    slot_message, slot_repeated_message,
};
use crate::decoding::{spec_wire_type, spec_is_scalar, spec_is_repeated_scalar, wire_type, is_scalar, is_repeated_scalar};
use crate::tables::Table;

verus! {

/// An encode table entry: the has-bit index, the kind, the offset (slot, or
/// aux index for message fields) and the tag written before each value.
#[derive(Clone, Copy)]
pub struct TableEntry {
    pub has_bit: u8,
    pub kind: FieldKind,
    pub offset: u16,
    pub encoded_tag: u32,
}


/// The bytes of a tag.
pub open spec fn spec_tag_bytes(tag: u32) -> Seq<u8> {
    spec_varint_bytes(tag as u64)
}

/// The varint value that raw bits `raw` of a field of kind `k` are written as.
pub open spec fn spec_to_varint(k: FieldKind, raw: u64) -> u64 {
    match k {
        FieldKind::Varint32 | FieldKind::RepeatedVarint32 => (raw as u32) as u64,
        FieldKind::Int32 | FieldKind::RepeatedInt32 => (((raw as u32) as i32) as i64) as u64,
        FieldKind::Varint64Zigzag | FieldKind::RepeatedVarint64Zigzag => spec_zigzag_encode(
            raw as i64,
        ) as u64,
        FieldKind::Varint32Zigzag | FieldKind::RepeatedVarint32Zigzag => spec_zigzag_encode(
            ((raw as u32) as i32) as i64,
        ) as u64,
        _ => raw,
    }
}

/// The bytes that a scalar value with raw bits `raw` of kind `k` is written as.
pub open spec fn spec_scalar_payload(k: FieldKind, raw: u64) -> Seq<u8> {
    if spec_wire_type(k) == 1 {
        vstd::bytes::spec_u64_to_le_bytes(raw)
    } else if spec_wire_type(k) == 5 {
        vstd::bytes::spec_u32_to_le_bytes(raw as u32)
    } else {
        spec_varint_bytes(spec_to_varint(k, raw))
    }
}

/// Each value of a repeated scalar field written with its tag, in order.
pub open spec fn spec_enc_repeated(tag: u32, k: FieldKind, vals: Seq<u64>) -> Seq<u8>
    decreases vals.len(),
{
    if vals.len() == 0 {
        Seq::empty()
    } else {
        spec_enc_repeated(tag, k, vals.drop_last()) + spec_tag_bytes(tag) + spec_scalar_payload(
            k,
            vals.last(),
        )
    }
}

/// The values of a repeated scalar field written back to back, without tags:
/// the payload of its packed form.
pub open spec fn spec_packed_payload(k: FieldKind, vals: Seq<u64>) -> Seq<u8>
    decreases vals.len(),
{
    if vals.len() == 0 {
        Seq::empty()
    } else {
        spec_packed_payload(k, vals.drop_last()) + spec_scalar_payload(k, vals.last())
    }
}

/// A repeated scalar field as written: where its tag carries wire type 2, one
/// tag, one length and the values packed (nothing where there are none);
/// otherwise each value with its own tag.
pub open spec fn spec_enc_repeated_field(tag: u32, k: FieldKind, vals: Seq<u64>) -> Seq<u8> {
    if (tag as u64) & 7 == 2 {
        if vals.len() == 0 {
            Seq::empty()
        } else {
            spec_enc_delimited(tag, spec_packed_payload(k, vals))
        }
    } else {
        spec_enc_repeated(tag, k, vals)
    }
}

/// A length-delimited value: its tag, its length and its bytes.
pub open spec fn spec_enc_delimited(tag: u32, b: Seq<u8>) -> Seq<u8> {
    spec_tag_bytes(tag) + spec_varint_bytes(b.len() as u64) + b
}

/// The end tag of a group that starts with `tag` (wire type 3 becomes 4).
pub open spec fn spec_end_tag(tag: u32) -> u32 {
    if tag == u32::MAX {
        0
    } else {
        (tag + 1) as u32
    }
}

/// A group: its start tag, its fields and its end tag.
pub open spec fn spec_enc_group(tag: u32, b: Seq<u8>) -> Seq<u8> {
    spec_tag_bytes(tag) + b + spec_varint_bytes(spec_end_tag(tag) as u64)
}

/// Each element of a repeated bytes field written length-delimited, in order.
pub open spec fn spec_enc_rep_bytes(tag: u32, vals: Seq<Seq<u8>>) -> Seq<u8>
    decreases vals.len(),
{
    if vals.len() == 0 {
        Seq::empty()
    } else {
        spec_enc_rep_bytes(tag, vals.drop_last()) + spec_enc_delimited(tag, vals.last())
    }
}

/// The encoding of a message of table `t` with at most `fuel` levels of nested
/// messages and groups: its encode entries' encodings in table order.
pub open spec fn spec_enc_msg(pool: Seq<Table>, t: int, o: ObjectView, fuel: nat) -> Option<Seq<u8>>
    decreases fuel, 2nat, 0nat,
{
    spec_enc_entries(pool, t, o, fuel, pool[t].encode_entries@.len())
}

/// The encodings of the first `k` encode entries of table `t`, in order.
pub open spec fn spec_enc_entries(pool: Seq<Table>, t: int, o: ObjectView, fuel: nat, k: nat) -> Option<Seq<u8>>
    decreases fuel, 1nat, k,
{
    if k == 0 {
        Some(Seq::empty())
    } else {
        match spec_enc_entries(pool, t, o, fuel, (k - 1) as nat) {
            Some(a) => match spec_enc_entry(pool, t, o, fuel, (k - 1) as int) {
                Some(b) => Some(a + b),
                None => None,
            },
            None => None,
        }
    }
}

/// Children of a repeated message (or group) field written in order.
pub open spec fn spec_enc_rep_msgs(pool: Seq<Table>, ct: int, tag: u32, cs: Seq<ObjectView>, fuel: nat, group: bool) -> Option<Seq<u8>>
    decreases fuel, 3nat, cs.len(),
{
    if cs.len() == 0 {
        Some(Seq::empty())
    } else {
        match spec_enc_rep_msgs(pool, ct, tag, cs.drop_last(), fuel, group) {
            Some(a) => match spec_enc_msg(pool, ct, cs.last(), fuel) {
                Some(b) => Some(
                    a + if group {
                        spec_enc_group(tag, b)
                    } else {
                        spec_enc_delimited(tag, b)
                    },
                ),
                None => None,
            },
            None => None,
        }
    }
}

/// The encoding of encode entry `i` of table `t` for object `o`: nothing for an
/// absent field, one tagged value for a present one, each element for a
/// repeated one. `None` where the entry is malformed or nesting goes deeper
/// than `fuel`.
pub open spec fn spec_enc_entry(pool: Seq<Table>, t: int, o: ObjectView, fuel: nat, i: int) -> Option<Seq<u8>>
    decreases fuel, 0nat, 0nat,
{
    let table = pool[t];
    if !(0 <= i < table.encode_entries@.len()) {
        None
    } else {
        let e = table.encode_entries@[i];
        let k = e.kind;
        let tag = e.encoded_tag;
        let hb = e.has_bit as u64;
        let off = e.offset as int;
        if k == FieldKind::Unknown {
            None
        } else if spec_is_scalar(k) || k == FieldKind::Bytes {
            if off >= o.slots.len() || hb >= 64 {
                None
            } else if !spec_has_bit(o.has_bits, hb) {
                Some(Seq::empty())
            } else if k == FieldKind::Bytes {
                Some(spec_enc_delimited(tag, slot_bytes(o.slots[off])))
            } else {
                Some(spec_tag_bytes(tag) + spec_scalar_payload(k, slot_scalar(o.slots[off])))
            }
        } else if spec_is_repeated_scalar(k) {
            if off >= o.slots.len() {
                None
            } else {
                Some(spec_enc_repeated_field(tag, k, slot_repeated(o.slots[off])))
            }
        } else if k == FieldKind::RepeatedBytes {
            if off >= o.slots.len() {
                None
            } else {
                Some(spec_enc_rep_bytes(tag, slot_repeated_bytes(o.slots[off])))
            }
        } else {
            // message and group kinds
            if off >= table.aux_entries@.len() {
                None
            } else {
                let aux = table.aux_entries@[off];
                let slot = aux.offset as int;
                let ct = aux.child_table as int;
                if slot >= o.slots.len() {
                    None
                } else if k == FieldKind::Message || k == FieldKind::Group {
                    match slot_message(o.slots[slot]) {
                        None => Some(Seq::empty()),
                        Some(c) => if fuel == 0 || ct >= pool.len() {
                            None
                        } else {
                            match spec_enc_msg(pool, ct, c, (fuel - 1) as nat) {
                                Some(b) => Some(
                                    if k == FieldKind::Group {
                                        spec_enc_group(tag, b)
                                    } else {
                                        spec_enc_delimited(tag, b)
                                    },
                                ),
                                None => None,
                            }
                        },
                    }
                } else {
                    let cs = slot_repeated_message(o.slots[slot]);
                    if cs.len() == 0 {
                        Some(Seq::empty())
                    } else if fuel == 0 || ct >= pool.len() {
                        None
                    } else {
                        spec_enc_rep_msgs(
                            pool,
                            ct,
                            tag,
                            cs,
                            (fuel - 1) as nat,
                            k == FieldKind::RepeatedGroup,
                        )
                    }
                }
            }
        }
    }
}


/// Appends the bytes that scalar raw bits `raw` of kind `k` are written as.
fn write_scalar(k: FieldKind, raw: u64, out: &mut Vec<u8>)
    ensures
        final(out)@ == old(out)@ + spec_scalar_payload(k, raw),
{
    let w = wire_type(k);
    if w == 1 {
        append_fixed64(out, raw);
    } else if w == 5 {
        append_fixed32(out, raw as u32);
    } else {
        let v = match k {
            FieldKind::Varint32 | FieldKind::RepeatedVarint32 => (raw as u32) as u64,
            FieldKind::Int32 | FieldKind::RepeatedInt32 => (((raw as u32) as i32) as i64) as u64,
            FieldKind::Varint64Zigzag | FieldKind::RepeatedVarint64Zigzag => zigzag_encode(raw as i64),
            FieldKind::Varint32Zigzag | FieldKind::RepeatedVarint32Zigzag => zigzag_encode(
                ((raw as u32) as i32) as i64,
            ),
            _ => raw,
        };
        append_varint(out, v);
    }
}

/// Appends each value of a repeated scalar field with its tag.
fn write_repeated(tag: u32, k: FieldKind, vals: &[u64], out: &mut Vec<u8>)
    ensures
        final(out)@ == old(out)@ + spec_enc_repeated(tag, k, vals@),
{
    let mut i: usize = 0;
    while i < vals.len()
        invariant
            i <= vals@.len(),
            out@ == old(out)@ + spec_enc_repeated(tag, k, vals@.subrange(0, i as int)),
        decreases vals@.len() - i,
    {
        let ghost before = out@;
        append_varint(out, tag as u64);
        write_scalar(k, vals[i], out);
        assert(vals@.subrange(0, i + 1).drop_last() =~= vals@.subrange(0, i as int));
        assert(out@ =~= old(out)@ + spec_enc_repeated(tag, k, vals@.subrange(0, i + 1)));
        i = i + 1;
    }
    assert(vals@.subrange(0, vals@.len() as int) =~= vals@);
}

/// Appends the values of a repeated scalar field back to back, without tags.
fn write_packed_payload(k: FieldKind, vals: &[u64], out: &mut Vec<u8>)
    ensures
        final(out)@ == old(out)@ + spec_packed_payload(k, vals@),
{
    let mut i: usize = 0;
    while i < vals.len()
        invariant
            i <= vals@.len(),
            out@ == old(out)@ + spec_packed_payload(k, vals@.subrange(0, i as int)),
        decreases vals@.len() - i,
    {
        write_scalar(k, vals[i], out);
        assert(vals@.subrange(0, i + 1).drop_last() =~= vals@.subrange(0, i as int));
        assert(out@ =~= old(out)@ + spec_packed_payload(k, vals@.subrange(0, i + 1)));
        i = i + 1;
    }
    assert(vals@.subrange(0, vals@.len() as int) =~= vals@);
}

/// Appends a repeated scalar field: packed where its tag carries wire type 2,
/// each value with its own tag otherwise.
fn write_repeated_field(tag: u32, k: FieldKind, vals: &[u64], out: &mut Vec<u8>)
    ensures
        final(out)@ == old(out)@ + spec_enc_repeated_field(tag, k, vals@),
{
    if (tag as u64) & 7 == 2 {
        if vals.len() == 0 {
            assert(out@ =~= old(out)@ + Seq::<u8>::empty());
            return;
        }
        let mut payload: Vec<u8> = Vec::new();
        write_packed_payload(k, vals, &mut payload);
        assert(payload@ =~= spec_packed_payload(k, vals@));
        write_delimited(tag, payload.as_slice(), out);
    } else {
        write_repeated(tag, k, vals, out);
    }
}

/// Appends a length-delimited value: tag, length and bytes.
fn write_delimited(tag: u32, b: &[u8], out: &mut Vec<u8>)
    ensures
        final(out)@ == old(out)@ + spec_enc_delimited(tag, b@),
{
    append_varint(out, tag as u64);
    append_varint(out, b.len() as u64);
    append_slice(out, b);
    assert(out@ =~= old(out)@ + spec_enc_delimited(tag, b@));
}

/// Appends a group: start tag, fields and end tag.
fn write_group(tag: u32, b: &[u8], out: &mut Vec<u8>)
    ensures
        final(out)@ == old(out)@ + spec_enc_group(tag, b@),
{
    append_varint(out, tag as u64);
    append_slice(out, b);
    let end_tag: u32 = if tag == u32::MAX {
        0
    } else {
        tag + 1
    };
    append_varint(out, end_tag as u64);
    assert(out@ =~= old(out)@ + spec_enc_group(tag, b@));
}

/// Appends each element of a repeated bytes field, length-delimited.
fn write_rep_bytes(tag: u32, vals: &[crate::containers::Bytes], out: &mut Vec<u8>, ghost_vals: Ghost<Seq<Seq<u8>>>)
    requires
        vals@.len() == ghost_vals@.len(),
        forall|j: int| 0 <= j < vals@.len() ==> #[trigger] vals@[j]@ == ghost_vals@[j],
    ensures
        final(out)@ == old(out)@ + spec_enc_rep_bytes(tag, ghost_vals@),
{
    let mut i: usize = 0;
    while i < vals.len()
        invariant
            i <= vals@.len(),
            vals@.len() == ghost_vals@.len(),
            forall|j: int| 0 <= j < vals@.len() ==> #[trigger] vals@[j]@ == ghost_vals@[j],
            out@ == old(out)@ + spec_enc_rep_bytes(tag, ghost_vals@.subrange(0, i as int)),
        decreases vals@.len() - i,
    {
        let b = vals[i].slice();
        assert(b@ == ghost_vals@[i as int]);
        write_delimited(tag, b, out);
        assert(ghost_vals@.subrange(0, i + 1).drop_last() =~= ghost_vals@.subrange(0, i as int));
        assert(out@ =~= old(out)@ + spec_enc_rep_bytes(tag, ghost_vals@.subrange(0, i + 1)));
        i = i + 1;
    }
    assert(ghost_vals@.subrange(0, vals@.len() as int) =~= ghost_vals@);
}

/// Appends the encoding of `obj` as a message of table `t`; false where
/// `spec_enc_msg` has none.
pub fn encode_message(pool: &[Table], t: usize, obj: &Object, fuel: usize, out: &mut Vec<u8>) -> (r: bool)
    requires
        t < pool@.len(),
    ensures
        match spec_enc_msg(pool@, t as int, obj@, fuel as nat) {
            Some(b) => r && final(out)@ == old(out)@ + b,
            None => !r,
        },
    decreases fuel, 2nat, 0nat,
{
    let n = pool[t].encode_entries.len();
    let mut k: usize = 0;
    while k < n
        invariant
            k <= n,
            n == pool@[t as int].encode_entries@.len(),
            t < pool@.len(),
            spec_enc_entries(pool@, t as int, obj@, fuel as nat, k as nat) matches Some(a) && out@ == old(out)@ + a,
        decreases n - k,
    {
        let ghost before = out@;
        if !encode_entry(pool, t, obj, fuel, k, out) {
            proof {
                lemma_entries_none(pool@, t as int, obj@, fuel as nat, (k + 1) as nat);
            }
            return false;
        }
        assert(out@ =~= old(out)@ + spec_enc_entries(pool@, t as int, obj@, fuel as nat, (k + 1) as nat)->Some_0);
        k = k + 1;
    }
    true
}

/// Appends the encoding of encode entry `i` of table `t` for `obj`.
fn encode_entry(pool: &[Table], t: usize, obj: &Object, fuel: usize, i: usize, out: &mut Vec<u8>) -> (r: bool)
    requires
        t < pool@.len(),
        i < pool@[t as int].encode_entries@.len(),
    ensures
        match spec_enc_entry(pool@, t as int, obj@, fuel as nat, i as int) {
            Some(b) => r && final(out)@ == old(out)@ + b,
            None => !r,
        },
    decreases fuel, 0nat, 0nat,
{
    let table = &pool[t];
    let e = table.encode_entries[i];
    let k = e.kind;
    let tag = e.encoded_tag;
    let hb = e.has_bit;
    let off = e.offset as usize;
    if k == FieldKind::Unknown {
        return false;
    }
    if is_scalar(k) || k == FieldKind::Bytes {
        if off >= obj.slots.len() || hb >= 64 {
            return false;
        }
        if !obj.has_bit(hb) {
            assert(out@ =~= old(out)@ + Seq::<u8>::empty());
            return true;
        }
        if k == FieldKind::Bytes {
            write_delimited(tag, obj.bytes(off), out);
        } else {
            append_varint(out, tag as u64);
            write_scalar(k, obj.get(off), out);
            assert(out@ =~= old(out)@ + (spec_tag_bytes(tag) + spec_scalar_payload(k, slot_scalar(obj@.slots[off as int]))));
        }
        return true;
    }
    if is_repeated_scalar(k) {
        if off >= obj.slots.len() {
            return false;
        }
        write_repeated_field(tag, k, obj.get_slice(off), out);
        return true;
    }
    if k == FieldKind::RepeatedBytes {
        if off >= obj.slots.len() {
            return false;
        }
        write_rep_bytes(tag, obj.get_bytes_slice(off), out, Ghost(slot_repeated_bytes(obj@.slots[off as int])));
        return true;
    }
    if off >= table.aux_entries.len() {
        return false;
    }
    let aux = table.aux_entries[off];
    let slot = aux.offset as usize;
    let ct = aux.child_table;
    if slot >= obj.slots.len() {
        return false;
    }
    if k == FieldKind::Message || k == FieldKind::Group {
        match obj.child(slot) {
            None => {
                assert(out@ =~= old(out)@ + Seq::<u8>::empty());
                true
            },
            Some(c) => {
                if fuel == 0 || ct >= pool.len() {
                    return false;
                }
                let mut b: Vec<u8> = Vec::new();
                if !encode_message(pool, ct, c, fuel - 1, &mut b) {
                    return false;
                }
                assert(b@ =~= Seq::<u8>::empty() + b@);
                if k == FieldKind::Group {
                    write_group(tag, b.as_slice(), out);
                } else {
                    write_delimited(tag, b.as_slice(), out);
                }
                true
            },
        }
    } else {
        let cs = obj.children(slot);
        if cs.len() == 0 {
            assert(out@ =~= old(out)@ + Seq::<u8>::empty());
            return true;
        }
        if fuel == 0 || ct >= pool.len() {
            return false;
        }
        write_rep_msgs(pool, ct, tag, cs, fuel - 1, k == FieldKind::RepeatedGroup, out, Ghost(slot_repeated_message(obj@.slots[slot as int])))
    }
}

/// Appends the children of a repeated message (or group) field, in order.
fn write_rep_msgs(
    pool: &[Table],
    ct: usize,
    tag: u32,
    cs: &[Object],
    fuel: usize,
    group: bool,
    out: &mut Vec<u8>,
    views: Ghost<Seq<ObjectView>>,
) -> (r: bool)
    requires
        ct < pool@.len(),
        cs@.len() == views@.len(),
        forall|j: int| 0 <= j < cs@.len() ==> #[trigger] cs@[j]@ == views@[j],
    ensures
        match spec_enc_rep_msgs(pool@, ct as int, tag, views@, fuel as nat, group) {
            Some(b) => r && final(out)@ == old(out)@ + b,
            None => !r,
        },
    decreases fuel, 3nat, cs@.len(),
{
    let mut i: usize = 0;
    while i < cs.len()
        invariant
            i <= cs@.len(),
            ct < pool@.len(),
            cs@.len() == views@.len(),
            forall|j: int| 0 <= j < cs@.len() ==> #[trigger] cs@[j]@ == views@[j],
            spec_enc_rep_msgs(pool@, ct as int, tag, views@.subrange(0, i as int), fuel as nat, group) matches Some(a) && out@ == old(out)@ + a,
        decreases cs@.len() - i,
    {
        assert(views@.subrange(0, i + 1).drop_last() =~= views@.subrange(0, i as int));
        assert(views@.subrange(0, i + 1).last() == cs@[i as int]@);
        let mut b: Vec<u8> = Vec::new();
        if !encode_message(pool, ct, &cs[i], fuel, &mut b) {
            proof {
                lemma_rep_msgs_none(pool@, ct as int, tag, views@, fuel as nat, group, (i + 1) as nat);
            }
            return false;
        }
        assert(b@ =~= Seq::<u8>::empty() + b@);
        if group {
            write_group(tag, b.as_slice(), out);
        } else {
            write_delimited(tag, b.as_slice(), out);
        }
        assert(out@ =~= old(out)@ + spec_enc_rep_msgs(pool@, ct as int, tag, views@.subrange(0, i + 1), fuel as nat, group)->Some_0);
        i = i + 1;
    }
    assert(views@.subrange(0, cs@.len() as int) =~= views@);
    true
}

/// Once the first entries fail to encode, the whole message does.
proof fn lemma_entries_none(pool: Seq<Table>, t: int, o: ObjectView, fuel: nat, k: nat)
    requires
        k <= pool[t].encode_entries@.len(),
        spec_enc_entries(pool, t, o, fuel, k) is None,
    ensures
        spec_enc_msg(pool, t, o, fuel) is None,
    decreases pool[t].encode_entries@.len() - k,
{
    if k < pool[t].encode_entries@.len() {
        lemma_entries_none(pool, t, o, fuel, k + 1);
    }
}

/// Once a prefix of the children fails to encode, the whole field does.
proof fn lemma_rep_msgs_none(pool: Seq<Table>, ct: int, tag: u32, cs: Seq<ObjectView>, fuel: nat, group: bool, i: nat)
    requires
        i <= cs.len(),
        spec_enc_rep_msgs(pool, ct, tag, cs.subrange(0, i as int), fuel, group) is None,
    ensures
        spec_enc_rep_msgs(pool, ct, tag, cs, fuel, group) is None,
    decreases cs.len() - i,
{
    if i < cs.len() {
        assert(cs.subrange(0, (i + 1) as int).drop_last() =~= cs.subrange(0, i as int));
        lemma_rep_msgs_none(pool, ct, tag, cs, fuel, group, i + 1);
    } else {
        assert(cs.subrange(0, i as int) =~= cs);
    }
}

} // verus!
