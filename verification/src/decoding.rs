//! Table-driven decoding of the protobuf wire format into objects.
use vstd::prelude::*;
use crate::wire::{
    FieldKind, spec_kind_from_u8, spec_kind_to_u8, lemma_kind_u8_roundtrip, spec_read_varint,
    spec_read_tag, spec_read_size, spec_zigzag_decode, read_varint, read_tag, read_size,
    read_fixed32, read_fixed64, zigzag_decode,
};
use crate::base::Object;
use crate::base::{
    ObjectView, SlotView, spec_set_scalar, spec_set_bytes, spec_add_scalar, spec_add_bytes,
    spec_set_child, spec_add_child, slot_message,
};
use crate::tables::Table;

verus! {

/// A decode table entry, packed in 32 bits: the kind in bits 0..8, the has-bit
/// index in bits 8..16 and the offset (slot, or aux index for message fields)
/// in bits 16..32.
#[derive(Clone, Copy)]
pub struct TableEntry(pub u32);

pub open spec fn spec_entry_kind(e: u32) -> FieldKind {
    spec_kind_from_u8((e & 0xff) as u8)
}

pub open spec fn spec_entry_has_bit(e: u32) -> u32 {
    (e >> 8u32) & 0xff
}

pub open spec fn spec_entry_offset(e: u32) -> u32 {
    e >> 16u32
}

/// The packed form of a kind, a has-bit index and an offset.
pub open spec fn spec_pack_entry(kind: FieldKind, has_bit_idx: u32, offset: usize) -> u32 {
    (((offset & 0xFFFF) as u32) << 16u32) | (has_bit_idx << 8u32) | (spec_kind_to_u8(kind) as u32)
}

impl TableEntry {
    /// Packs a kind, a has-bit index below 256 and an offset (its low 16 bits).
    pub fn new(kind: FieldKind, has_bit_idx: u32, offset: usize) -> (r: Self)
        ensures
            r.0 == spec_pack_entry(kind, has_bit_idx, offset),
            has_bit_idx < 256 ==> spec_entry_kind(r.0) == kind && spec_entry_has_bit(r.0)
                == has_bit_idx && spec_entry_offset(r.0) == (offset & 0xFFFF) as u32,
    {
        let k = kind.to_u8();
        let r = (((offset & 0xFFFF) as u32) << 16) | (has_bit_idx << 8) | (k as u32);
        proof {
            lemma_kind_u8_roundtrip(kind);
            let o = (offset & 0xFFFF) as u32;
            assert(offset & 0xFFFF <= 0xffff) by (bit_vector);
            assert(has_bit_idx < 256 && k <= 22 && o <= 0xffff ==> ((((o << 16u32) | (has_bit_idx
                << 8u32) | (k as u32)) & 0xff) as u8 == k && (((o << 16u32) | (has_bit_idx << 8u32)
                | (k as u32)) >> 8u32) & 0xff == has_bit_idx && ((o << 16u32) | (has_bit_idx << 8u32)
                | (k as u32)) >> 16u32 == o)) by (bit_vector);
        }
        TableEntry(r)
    }

    /// The kind of the field.
    pub fn kind(&self) -> (r: FieldKind)
        ensures
            r == spec_entry_kind(self.0),
    {
        FieldKind::from_u8((self.0 & 0xff) as u8)
    }

    /// The has-bit index of the field.
    pub fn has_bit_idx(&self) -> (r: u32)
        ensures
            r == spec_entry_has_bit(self.0),
            r < 256,
    {
        let v = self.0;
        assert((v >> 8u32) & 0xff < 256) by (bit_vector);
        (v >> 8) & 0xff
    }

    /// The slot of the field.
    pub fn offset(&self) -> (r: u32)
        ensures
            r == spec_entry_offset(self.0),
            r <= 0xffff,
    {
        let v = self.0;
        assert(v >> 16u32 <= 0xffff) by (bit_vector);
        v >> 16
    }

    /// The aux entry index of a message field.
    pub fn aux_offset(&self) -> (r: u32)
        ensures
            r == spec_entry_offset(self.0),
            r <= 0xffff,
    {
        let v = self.0;
        assert(v >> 16u32 <= 0xffff) by (bit_vector);
        v >> 16
    }
}


/// The wire type that values of a kind are written with (8 for `Unknown`,
/// which no wire type matches).
pub open spec fn spec_wire_type(k: FieldKind) -> u64 {
    match k {
        FieldKind::Varint64 | FieldKind::Varint32 | FieldKind::Varint64Zigzag
        | FieldKind::Varint32Zigzag | FieldKind::Bool | FieldKind::Int32 | FieldKind::RepeatedVarint64
        | FieldKind::RepeatedVarint32 | FieldKind::RepeatedVarint64Zigzag
        | FieldKind::RepeatedVarint32Zigzag | FieldKind::RepeatedBool | FieldKind::RepeatedInt32 => 0,
        FieldKind::Fixed64 | FieldKind::RepeatedFixed64 => 1,
        FieldKind::Fixed32 | FieldKind::RepeatedFixed32 => 5,
        FieldKind::Bytes | FieldKind::Message | FieldKind::RepeatedBytes
        | FieldKind::RepeatedMessage => 2,
        FieldKind::Group | FieldKind::RepeatedGroup => 3,
        FieldKind::Unknown => 8,
    }
}

/// Kinds of single scalar fields.
pub open spec fn spec_is_scalar(k: FieldKind) -> bool {
    match k {
        FieldKind::Varint64 | FieldKind::Varint32 | FieldKind::Varint64Zigzag
        | FieldKind::Varint32Zigzag | FieldKind::Bool | FieldKind::Fixed64
        | FieldKind::Fixed32 | FieldKind::Int32 => true,
        _ => false,
    }
}

/// Kinds of repeated scalar fields, which may also come packed.
pub open spec fn spec_is_repeated_scalar(k: FieldKind) -> bool {
    match k {
        FieldKind::RepeatedVarint64 | FieldKind::RepeatedVarint32
        | FieldKind::RepeatedVarint64Zigzag | FieldKind::RepeatedVarint32Zigzag
        | FieldKind::RepeatedBool | FieldKind::RepeatedFixed64
        | FieldKind::RepeatedFixed32 | FieldKind::RepeatedInt32 => true,
        _ => false,
    }
}

/// Kinds whose field refers to child objects through an aux entry.
pub open spec fn spec_is_message_kind(k: FieldKind) -> bool {
    match k {
        FieldKind::Message | FieldKind::Group | FieldKind::RepeatedMessage
        | FieldKind::RepeatedGroup => true,
        _ => false,
    }
}

/// The raw bits that a varint value is stored as, for a field of kind `k`.
pub open spec fn spec_from_varint(k: FieldKind, v: u64) -> u64 {
    match k {
        FieldKind::Varint32 | FieldKind::RepeatedVarint32 | FieldKind::Int32
        | FieldKind::RepeatedInt32 => (v as u32) as u64,
        FieldKind::Varint64Zigzag | FieldKind::RepeatedVarint64Zigzag => (spec_zigzag_decode(
            v,
        ) as i64) as u64,
        FieldKind::Varint32Zigzag | FieldKind::RepeatedVarint32Zigzag => (((spec_zigzag_decode(
            (v as u32) as u64,
        ) as i64) as i32) as u32) as u64,
        FieldKind::Bool | FieldKind::RepeatedBool => if v != 0 {
            1
        } else {
            0
        },
        _ => v,
    }
}

/// One scalar value of a field of kind `k` at the start of `s`: its raw bits and
/// the bytes it takes.
pub open spec fn spec_read_scalar(k: FieldKind, s: Seq<u8>) -> Option<(u64, nat)> {
    if spec_wire_type(k) == 1 {
        if s.len() >= 8 {
            Some((vstd::bytes::spec_u64_from_le_bytes(s.subrange(0, 8)), 8))
        } else {
            None
        }
    } else if spec_wire_type(k) == 5 {
        if s.len() >= 4 {
            Some((vstd::bytes::spec_u32_from_le_bytes(s.subrange(0, 4)) as u64, 4))
        } else {
            None
        }
    } else {
        match spec_read_varint(s) {
            Some((v, n)) => Some((spec_from_varint(k, v), n)),
            None => None,
        }
    }
}

/// Appends the packed values in `s` to repeated slot `slot`; all of `s` must
/// be taken up by whole values.
pub open spec fn spec_unpack(k: FieldKind, s: Seq<u8>, o: ObjectView, slot: int) -> Option<ObjectView>
    decreases s.len(),
{
    if s.len() == 0 {
        Some(o)
    } else {
        match spec_read_scalar(k, s) {
            Some((v, n)) => if 1 <= n <= s.len() {
                spec_unpack(k, s.skip(n as int), spec_add_scalar(o, slot, v), slot)
            } else {
                None
            },
            None => None,
        }
    }
}

/// A fresh object for table `t`: no has-bits, and each field's slot empty.
pub open spec fn spec_new_object(t: Table) -> ObjectView {
    ObjectView { has_bits: 0, slots: spec_new_slots(t, t.encode_entries@.len() as nat) }
}

/// The slot that encode entry `e` of table `t` keeps its value in (-1 where the
/// entry refers to a missing aux entry).
pub open spec fn spec_entry_slot(t: Table, e: crate::encoding::TableEntry) -> int {
    if spec_is_message_kind(e.kind) {
        if (e.offset as int) < t.aux_entries@.len() {
            t.aux_entries@[e.offset as int].offset as int
        } else {
            -1
        }
    } else {
        e.offset as int
    }
}

/// The empty value of a slot for a field of kind `k`.
pub open spec fn spec_empty_slot(k: FieldKind) -> SlotView {
    match k {
        FieldKind::Bytes => SlotView::Bytes(Seq::empty()),
        FieldKind::Message | FieldKind::Group => SlotView::Message(None),
        FieldKind::RepeatedBytes => SlotView::RepeatedBytes(Seq::empty()),
        FieldKind::RepeatedMessage | FieldKind::RepeatedGroup => SlotView::RepeatedMessage(
            Seq::empty(),
        ),
        _ => if spec_is_repeated_scalar(k) {
            SlotView::Repeated(Seq::empty())
        } else {
            SlotView::Scalar(0)
        },
    }
}

/// The slots of a fresh object after the first `k` encode entries have set up
/// their empty values.
pub open spec fn spec_new_slots(t: Table, k: nat) -> Seq<SlotView>
    decreases k,
{
    if k == 0 {
        Seq::new(t.size as nat, |i: int| SlotView::Scalar(0))
    } else {
        let prev = spec_new_slots(t, (k - 1) as nat);
        let e = t.encode_entries@[k - 1];
        let slot = spec_entry_slot(t, e);
        if 0 <= slot < prev.len() {
            prev.update(slot, spec_empty_slot(e.kind))
        } else {
            prev
        }
    }
}

/// Whether a field with decode entry `e` is decoded from wire type `wt` (and not
/// skipped as unknown).
pub open spec fn spec_known(e: u32, wt: u64) -> bool {
    let k = spec_entry_kind(e);
    k != FieldKind::Unknown && (wt == spec_wire_type(k) || (wt == 2 && spec_is_repeated_scalar(k)))
}

/// The child object that a message field decodes into: the present child, or a
/// fresh object of the child's table.
pub open spec fn spec_child_or_new(pool: Seq<Table>, o: ObjectView, slot: int, ct: int) -> ObjectView {
    match slot_message(o.slots[slot]) {
        Some(c) => c,
        None => spec_new_object(pool[ct]),
    }
}

/// Decodes the value of field `fnum` (wire type `wt`) of table `t` at the start
/// of `s` into `o`: the updated object and the bytes taken. Fields that the
/// table does not know, or that come with another wire type, are skipped.
pub open spec fn spec_dec_field(
    pool: Seq<Table>,
    t: int,
    s: Seq<u8>,
    o: ObjectView,
    fuel: nat,
    fnum: u64,
    wt: u64,
) -> Option<(ObjectView, nat)>
    decreases fuel, s.len(), 0nat,
{
    let table = pool[t];
    if fnum < table.decode_entries@.len() && spec_known(table.decode_entries@[fnum as int].0, wt) {
        let e = table.decode_entries@[fnum as int].0;
        let k = spec_entry_kind(e);
        let off = spec_entry_offset(e) as int;
        let hb = spec_entry_has_bit(e) as u64;
        if spec_is_scalar(k) {
            match spec_read_scalar(k, s) {
                Some((v, n)) => if off < o.slots.len() && hb < 64 {
                    Some((spec_set_scalar(o, off, hb, v), n))
                } else {
                    None
                },
                None => None,
            }
        } else if k == FieldKind::Bytes {
            match spec_read_size(s) {
                Some((len, n)) => if n + len <= s.len() && off < o.slots.len() && hb < 64 {
                    Some((spec_set_bytes(o, off, hb, s.subrange(n as int, n + len)), (n + len) as nat))
                } else {
                    None
                },
                None => None,
            }
        } else if spec_is_repeated_scalar(k) {
            if off >= o.slots.len() {
                None
            } else if wt == 2 {
                match spec_read_size(s) {
                    Some((len, n)) => if n + len <= s.len() {
                        match spec_unpack(k, s.subrange(n as int, n + len), o, off) {
                            Some(o2) => Some((o2, (n + len) as nat)),
                            None => None,
                        }
                    } else {
                        None
                    },
                    None => None,
                }
            } else {
                match spec_read_scalar(k, s) {
                    Some((v, n)) => Some((spec_add_scalar(o, off, v), n)),
                    None => None,
                }
            }
        } else if k == FieldKind::RepeatedBytes {
            match spec_read_size(s) {
                Some((len, n)) => if n + len <= s.len() && off < o.slots.len() {
                    Some((spec_add_bytes(o, off, s.subrange(n as int, n + len)), (n + len) as nat))
                } else {
                    None
                },
                None => None,
            }
        } else {
            // message and group kinds
            if fuel == 0 || off >= table.aux_entries@.len() {
                None
            } else {
                let aux = table.aux_entries@[off];
                let slot = aux.offset as int;
                let ct = aux.child_table as int;
                if slot >= o.slots.len() || ct >= pool.len() {
                    None
                } else {
                    let repeated = k == FieldKind::RepeatedMessage || k == FieldKind::RepeatedGroup;
                    let child0 = if repeated {
                        spec_new_object(pool[ct])
                    } else {
                        spec_child_or_new(pool, o, slot, ct)
                    };
                    let res = if k == FieldKind::Message || k == FieldKind::RepeatedMessage {
                        match spec_read_size(s) {
                            Some((len, n)) => if n + len <= s.len() {
                                match spec_dec_msg(
                                    pool,
                                    ct,
                                    s.subrange(n as int, n + len),
                                    child0,
                                    (fuel - 1) as nat,
                                ) {
                                    Some(c) => Some((c, (n + len) as nat)),
                                    None => None,
                                }
                            } else {
                                None
                            },
                            None => None,
                        }
                    } else {
                        spec_dec_loop(pool, ct, s, child0, (fuel - 1) as nat, Some(fnum))
                    };
                    match res {
                        Some((c, m)) => if repeated {
                            Some((spec_add_child(o, slot, c), m))
                        } else {
                            Some((spec_set_child(o, slot, c), m))
                        },
                        None => None,
                    }
                }
            }
        }
    } else {
        match spec_skip_field(s, wt, fuel, fnum) {
            Some(n) => Some((o, n)),
            None => None,
        }
    }
}

/// Decodes fields of table `t` from the start of `s` into `o`. Without a group,
/// all of `s` is decoded; inside group `g`, decoding stops after the group's end
/// tag. Gives the updated object and the bytes taken.
pub open spec fn spec_dec_loop(
    pool: Seq<Table>,
    t: int,
    s: Seq<u8>,
    o: ObjectView,
    fuel: nat,
    group: Option<u64>,
) -> Option<(ObjectView, nat)>
    decreases fuel, s.len(), 1nat,
{
    if s.len() == 0 {
        if group is None {
            Some((o, 0))
        } else {
            None
        }
    } else {
        match spec_read_tag(s) {
            None => None,
            Some((tag, n)) => {
                let fnum = tag >> 3u64;
                let wt = tag & 7;
                if !(1 <= n <= s.len()) || fnum == 0 {
                    None
                } else if wt == 4 {
                    if group == Some(fnum) {
                        Some((o, n))
                    } else {
                        None
                    }
                } else {
                    match spec_dec_field(pool, t, s.skip(n as int), o, fuel, fnum, wt) {
                        None => None,
                        Some((o2, m)) => if n + m <= s.len() {
                            match spec_dec_loop(pool, t, s.skip((n + m) as int), o2, fuel, group) {
                                Some((o3, k)) => Some((o3, n + m + k)),
                                None => None,
                            }
                        } else {
                            None
                        },
                    }
                }
            },
        }
    }
}

/// Decodes all of `s` as fields of table `t` into `o`, with at most `fuel`
/// levels of nested messages and groups.
pub open spec fn spec_dec_msg(pool: Seq<Table>, t: int, s: Seq<u8>, o: ObjectView, fuel: nat) -> Option<ObjectView>
    decreases fuel, s.len(), 2nat,
{
    match spec_dec_loop(pool, t, s, o, fuel, None) {
        Some((o2, _)) => Some(o2),
        None => None,
    }
}

/// The bytes that an unknown field of wire type `wt` takes at the start of `s`.
pub open spec fn spec_skip_field(s: Seq<u8>, wt: u64, fuel: nat, fnum: u64) -> Option<nat>
    decreases fuel, s.len(), 0nat,
{
    if wt == 0 {
        match spec_read_varint(s) {
            Some((_, n)) => Some(n),
            None => None,
        }
    } else if wt == 1 {
        if s.len() >= 8 {
            Some(8)
        } else {
            None
        }
    } else if wt == 2 {
        match spec_read_size(s) {
            Some((len, n)) => if n + len <= s.len() {
                Some((n + len) as nat)
            } else {
                None
            },
            None => None,
        }
    } else if wt == 3 {
        if fuel > 0 {
            spec_skip_group(s, (fuel - 1) as nat, fnum)
        } else {
            None
        }
    } else if wt == 5 {
        if s.len() >= 4 {
            Some(4)
        } else {
            None
        }
    } else {
        None
    }
}

/// The bytes that the rest of unknown group `fnum` takes at the start of `s`,
/// up to and including its end tag.
pub open spec fn spec_skip_group(s: Seq<u8>, fuel: nat, fnum: u64) -> Option<nat>
    decreases fuel, s.len(), 1nat,
{
    if s.len() == 0 {
        None
    } else {
        match spec_read_tag(s) {
            None => None,
            Some((tag, n)) => {
                let f = tag >> 3u64;
                let w = tag & 7;
                if !(1 <= n <= s.len()) || f == 0 {
                    None
                } else if w == 4 {
                    if f == fnum {
                        Some(n)
                    } else {
                        None
                    }
                } else {
                    match spec_skip_field(s.skip(n as int), w, fuel, f) {
                        None => None,
                        Some(m) => if n + m <= s.len() {
                            match spec_skip_group(s.skip((n + m) as int), fuel, fnum) {
                                Some(k) => Some(n + m + k),
                                None => None,
                            }
                        } else {
                            None
                        },
                    }
                }
            },
        }
    }
}


/// Moves the byte count of a decoding result `d` further.
pub open spec fn spec_shift(r: Option<(ObjectView, nat)>, d: int) -> Option<(ObjectView, nat)> {
    match r {
        Some((o, n)) => Some((o, (n + d) as nat)),
        None => None,
    }
}

/// The wire type that values of kind `k` are written with.
pub fn wire_type(k: FieldKind) -> (r: u64)
    ensures
        r == spec_wire_type(k),
{
    match k {
        FieldKind::Varint64 | FieldKind::Varint32 | FieldKind::Varint64Zigzag
        | FieldKind::Varint32Zigzag | FieldKind::Bool | FieldKind::Int32 | FieldKind::RepeatedVarint64
        | FieldKind::RepeatedVarint32 | FieldKind::RepeatedVarint64Zigzag
        | FieldKind::RepeatedVarint32Zigzag | FieldKind::RepeatedBool | FieldKind::RepeatedInt32 => 0,
        FieldKind::Fixed64 | FieldKind::RepeatedFixed64 => 1,
        FieldKind::Fixed32 | FieldKind::RepeatedFixed32 => 5,
        FieldKind::Bytes | FieldKind::Message | FieldKind::RepeatedBytes
        | FieldKind::RepeatedMessage => 2,
        FieldKind::Group | FieldKind::RepeatedGroup => 3,
        FieldKind::Unknown => 8,
    }
}

/// Whether `k` is the kind of a single scalar field.
pub fn is_scalar(k: FieldKind) -> (r: bool)
    ensures
        r == spec_is_scalar(k),
{
    match k {
        FieldKind::Varint64 | FieldKind::Varint32 | FieldKind::Varint64Zigzag
        | FieldKind::Varint32Zigzag | FieldKind::Bool | FieldKind::Fixed64
        | FieldKind::Fixed32 | FieldKind::Int32 => true,
        _ => false,
    }
}

/// Whether `k` is the kind of a repeated scalar field.
pub fn is_repeated_scalar(k: FieldKind) -> (r: bool)
    ensures
        r == spec_is_repeated_scalar(k),
{
    match k {
        FieldKind::RepeatedVarint64 | FieldKind::RepeatedVarint32
        | FieldKind::RepeatedVarint64Zigzag | FieldKind::RepeatedVarint32Zigzag
        | FieldKind::RepeatedBool | FieldKind::RepeatedFixed64
        | FieldKind::RepeatedFixed32 | FieldKind::RepeatedInt32 => true,
        _ => false,
    }
}

/// The raw bits that varint value `v` is stored as, for a field of kind `k`.
pub fn from_varint(k: FieldKind, v: u64) -> (r: u64)
    ensures
        r == spec_from_varint(k, v),
{
    match k {
        FieldKind::Varint32 | FieldKind::RepeatedVarint32 | FieldKind::Int32
        | FieldKind::RepeatedInt32 => (v as u32) as u64,
        FieldKind::Varint64Zigzag | FieldKind::RepeatedVarint64Zigzag => zigzag_decode(v) as u64,
        FieldKind::Varint32Zigzag | FieldKind::RepeatedVarint32Zigzag => {
            ((zigzag_decode((v as u32) as u64) as i32) as u32) as u64
        },
        FieldKind::Bool | FieldKind::RepeatedBool => if v != 0 {
            1
        } else {
            0
        },
        _ => v,
    }
}

/// Reads one scalar value of kind `k` at `buf[pos]`: its raw bits and the
/// position after it.
pub fn read_scalar(k: FieldKind, buf: &[u8], pos: usize) -> (r: Option<(u64, usize)>)
    requires
        pos <= buf@.len(),
    ensures
        match spec_read_scalar(k, buf@.skip(pos as int)) {
            Some((v, n)) => r == Some((v, (pos + n) as usize)) && pos + n <= buf@.len() && n >= 1,
            None => r is None,
        },
{
    proof {
        assert(buf@.skip(pos as int) =~= buf@.subrange(pos as int, buf@.len() as int));
        crate::wire::lemma_varint_from_len(buf@.skip(pos as int), 0, 10, 1);
    }
    let w = wire_type(k);
    if w == 1 {
        proof {
            assert(buf@.len() - pos >= 8 ==> buf@.skip(pos as int).subrange(0, 8) =~= buf@.subrange(pos as int, pos + 8));
        }
        read_fixed64(buf, pos)
    } else if w == 5 {
        proof {
            assert(buf@.len() - pos >= 4 ==> buf@.skip(pos as int).subrange(0, 4) =~= buf@.subrange(pos as int, pos + 4));
        }
        match read_fixed32(buf, pos) {
            Some((v, p)) => Some((v as u64, p)),
            None => None,
        }
    } else {
        match read_varint(buf, pos) {
            Some((v, p)) => Some((from_varint(k, v), p)),
            None => None,
        }
    }
}

/// Appends the packed values in `buf[pos..]` to repeated slot `slot`.
fn unpack(k: FieldKind, buf: &[u8], pos: usize, obj: &mut Object, slot: usize) -> (r: bool)
    requires
        pos <= buf@.len(),
        slot < old(obj).slots@.len(),
    ensures
        match spec_unpack(k, buf@.skip(pos as int), old(obj)@, slot as int) {
            Some(o) => r && final(obj)@ == o,
            None => !r,
        },
{
    let mut p = pos;
    while p < buf.len()
        invariant
            pos <= p <= buf@.len(),
            slot < obj.slots@.len(),
            spec_unpack(k, buf@.skip(pos as int), old(obj)@, slot as int) == spec_unpack(
                k,
                buf@.skip(p as int),
                obj@,
                slot as int,
            ),
        decreases buf@.len() - p,
    {
        match read_scalar(k, buf, p) {
            Some((v, q)) => {
                assert(buf@.skip(p as int).skip((q - p) as int) =~= buf@.skip(q as int));
                obj.add(slot, v);
                p = q;
            },
            None => {
                return false;
            },
        }
    }
    assert(buf@.skip(p as int).len() == 0);
    true
}

/// Skips an unknown field of wire type `wt` at `buf[pos]`; gives the position
/// after it.
pub(crate) fn skip_field(buf: &[u8], pos: usize, wt: u64, fuel: usize, fnum: u64) -> (r: Option<usize>)
    requires
        pos <= buf@.len(),
    ensures
        match spec_skip_field(buf@.skip(pos as int), wt, fuel as nat, fnum) {
            Some(n) => r == Some((pos + n) as usize) && pos + n <= buf@.len(),
            None => r is None,
        },
    decreases fuel, buf@.len() - pos, 0nat,
{
    proof {
        assert(buf@.skip(pos as int) =~= buf@.subrange(pos as int, buf@.len() as int));
    }
    if wt == 0 {
        match read_varint(buf, pos) {
            Some((_, p)) => Some(p),
            None => None,
        }
    } else if wt == 1 {
        if buf.len() - pos >= 8 {
            Some(pos + 8)
        } else {
            None
        }
    } else if wt == 2 {
        match read_size(buf, pos) {
            Some((len, p)) => if len <= buf.len() - p {
                Some(p + len)
            } else {
                None
            },
            None => None,
        }
    } else if wt == 3 {
        if fuel > 0 {
            skip_group(buf, pos, fuel - 1, fnum)
        } else {
            None
        }
    } else if wt == 5 {
        if buf.len() - pos >= 4 {
            Some(pos + 4)
        } else {
            None
        }
    } else {
        None
    }
}

/// Skips the rest of unknown group `fnum` at `buf[pos]`, up to and including its
/// end tag; gives the position after it.
fn skip_group(buf: &[u8], pos: usize, fuel: usize, fnum: u64) -> (r: Option<usize>)
    requires
        pos <= buf@.len(),
    ensures
        match spec_skip_group(buf@.skip(pos as int), fuel as nat, fnum) {
            Some(n) => r == Some((pos + n) as usize) && pos + n <= buf@.len(),
            None => r is None,
        },
    decreases fuel, buf@.len() - pos, 1nat,
{
    let ghost res = spec_skip_group(buf@.skip(pos as int), fuel as nat, fnum);
    let mut p = pos;
    loop
        invariant
            pos <= p <= buf@.len(),
            res == spec_skip_group(buf@.skip(pos as int), fuel as nat, fnum),
            res == match spec_skip_group(buf@.skip(p as int), fuel as nat, fnum) {
                Some(n) => Some((n + (p - pos)) as nat),
                None => None,
            },
        decreases buf@.len() - p,
    {
        if p == buf.len() {
            return None;
        }
        proof {
            assert(buf@.skip(p as int) =~= buf@.subrange(p as int, buf@.len() as int));
        }
        let (tag, q) = match read_tag(buf, p) {
            Some(x) => x,
            None => {
                return None;
            },
        };
        let tag64 = tag as u64;
        let f = tag64 >> 3;
        let w = tag64 & 7;
        if f == 0 {
            return None;
        }
        if w == 4 {
            if f == fnum {
                return Some(q);
            } else {
                return None;
            }
        }
        proof {
            assert(buf@.skip(p as int).skip((q - p) as int) =~= buf@.skip(q as int));
        }
        match skip_field(buf, q, w, fuel, f) {
            Some(p2) => {
                proof {
                    assert(buf@.skip(p as int).skip((p2 - p) as int) =~= buf@.skip(p2 as int));
                }
                p = p2;
            },
            None => {
                return None;
            },
        }
    }
}


/// Decodes the value of field `fnum` (wire type `wt`) of table `t` at
/// `buf[pos]` into `obj`; gives the position after it.
pub(crate) fn decode_field(
    pool: &[Table],
    t: usize,
    buf: &[u8],
    pos: usize,
    obj: &mut Object,
    fuel: usize,
    fnum: u64,
    wt: u64,
) -> (r: Option<usize>)
    requires
        t < pool@.len(),
        pos <= buf@.len(),
    ensures
        match spec_dec_field(pool@, t as int, buf@.skip(pos as int), old(obj)@, fuel as nat, fnum, wt) {
            Some((o, m)) => r == Some((pos + m) as usize) && pos + m <= buf@.len() && final(obj)@ == o,
            None => r is None,
        },
    decreases fuel, buf@.len() - pos, 0nat,
{
    let ghost s = buf@.skip(pos as int);
    proof {
        assert(s =~= buf@.subrange(pos as int, buf@.len() as int));
    }
    let table = &pool[t];
    let known = if fnum < table.decode_entries.len() as u64 {
        let e = table.decode_entries[fnum as usize];
        let k = e.kind();
        k != FieldKind::Unknown && (wt == wire_type(k) || (wt == 2 && is_repeated_scalar(k)))
    } else {
        false
    };
    if !known {
        return match skip_field(buf, pos, wt, fuel, fnum) {
            Some(p) => Some(p),
            None => None,
        };
    }
    let e = table.decode_entries[fnum as usize];
    let k = e.kind();
    let off = e.offset() as usize;
    let hb = e.has_bit_idx();
    if is_scalar(k) {
        match read_scalar(k, buf, pos) {
            Some((v, p)) => {
                if off < obj.slots.len() && hb < 64 {
                    obj.set(off, hb, v);
                    Some(p)
                } else {
                    None
                }
            },
            None => None,
        }
    } else if k == FieldKind::Bytes || k == FieldKind::RepeatedBytes {
        match read_size(buf, pos) {
            Some((len, p)) => {
                if len <= buf.len() - p && off < obj.slots.len() && (k == FieldKind::RepeatedBytes
                    || hb < 64) {
                    let bytes = vstd::slice::slice_subrange(buf, p, p + len);
                    proof {
                        assert(bytes@ =~= s.subrange((p - pos) as int, (p - pos) + len));
                    }
                    if k == FieldKind::Bytes {
                        obj.set_bytes(off, hb, bytes);
                    } else {
                        obj.add_bytes(off, bytes);
                    }
                    Some(p + len)
                } else {
                    None
                }
            },
            None => None,
        }
    } else if is_repeated_scalar(k) {
        if off >= obj.slots.len() {
            return None;
        }
        if wt == 2 {
            match read_size(buf, pos) {
                Some((len, p)) => {
                    if len <= buf.len() - p {
                        let frame = vstd::slice::slice_subrange(buf, 0, p + len);
                        proof {
                            assert(frame@.skip(p as int) =~= s.subrange((p - pos) as int, (p - pos) + len));
                        }
                        if unpack(k, frame, p, obj, off) {
                            Some(p + len)
                        } else {
                            None
                        }
                    } else {
                        None
                    }
                },
                None => None,
            }
        } else {
            match read_scalar(k, buf, pos) {
                Some((v, p)) => {
                    obj.add(off, v);
                    Some(p)
                },
                None => None,
            }
        }
    } else {
        // message and group kinds
        if fuel == 0 || off >= table.aux_entries.len() {
            return None;
        }
        let aux = table.aux_entries[off];
        let slot = aux.offset as usize;
        let ct = aux.child_table;
        if slot >= obj.slots.len() || ct >= pool.len() {
            return None;
        }
        let repeated = k == FieldKind::RepeatedMessage || k == FieldKind::RepeatedGroup;
        let ghost o0 = obj@;
        let mut child = if repeated {
            Object::create(&pool[ct])
        } else {
            match obj.take_child(slot) {
                Some(c) => c,
                None => Object::create(&pool[ct]),
            }
        };
        assert(child@ == if repeated {
            spec_new_object(pool@[ct as int])
        } else {
            spec_child_or_new(pool@, o0, slot as int, ct as int)
        });
        let end = if k == FieldKind::Message || k == FieldKind::RepeatedMessage {
            match read_size(buf, pos) {
                Some((len, p)) => {
                    if len <= buf.len() - p {
                        let frame = vstd::slice::slice_subrange(buf, 0, p + len);
                        proof {
                            assert(frame@.skip(p as int) =~= s.subrange((p - pos) as int, (p - pos) + len));
                        }
                        match decode_loop(pool, ct, frame, p, &mut child, fuel - 1, None) {
                            Some(_) => Some(p + len),
                            None => None,
                        }
                    } else {
                        None
                    }
                },
                None => None,
            }
        } else {
            decode_loop(pool, ct, buf, pos, &mut child, fuel - 1, Some(fnum))
        };
        match end {
            Some(p) => {
                if repeated {
                    obj.add_child(slot, child);
                } else {
                    obj.set_child(slot, child);
                    proof {
                        crate::base::lemma_with_slot_twice(o0, slot as int, SlotView::Message(None), SlotView::Message(Some(child@)));
                    }
                }
                Some(p)
            },
            None => None,
        }
    }
}

/// Decodes fields of table `t` from `buf[pos]` on into `obj`: to the end of
/// `buf` without a group, or through the end tag of group `group`. Gives the
/// position after the last byte taken.
fn decode_loop(
    pool: &[Table],
    t: usize,
    buf: &[u8],
    pos: usize,
    obj: &mut Object,
    fuel: usize,
    group: Option<u64>,
) -> (r: Option<usize>)
    requires
        t < pool@.len(),
        pos <= buf@.len(),
    ensures
        match spec_dec_loop(pool@, t as int, buf@.skip(pos as int), old(obj)@, fuel as nat, group) {
            Some((o, n)) => r == Some((pos + n) as usize) && pos + n <= buf@.len() && final(obj)@ == o,
            None => r is None,
        },
    decreases fuel, buf@.len() - pos, 1nat,
{
    let ghost res = spec_dec_loop(pool@, t as int, buf@.skip(pos as int), obj@, fuel as nat, group);
    let mut p = pos;
    loop
        invariant
            pos <= p <= buf@.len(),
            t < pool@.len(),
            res == spec_dec_loop(pool@, t as int, buf@.skip(pos as int), old(obj)@, fuel as nat, group),
            res == spec_shift(spec_dec_loop(pool@, t as int, buf@.skip(p as int), obj@, fuel as nat, group), p - pos),
        decreases buf@.len() - p,
    {
        if p == buf.len() {
            return match group {
                None => Some(p),
                Some(_) => None,
            };
        }
        proof {
            assert(buf@.skip(p as int) =~= buf@.subrange(p as int, buf@.len() as int));
        }
        let (tag, q) = match read_tag(buf, p) {
            Some(x) => x,
            None => {
                return None;
            },
        };
        let tag64 = tag as u64;
        let f = tag64 >> 3;
        let w = tag64 & 7;
        if f == 0 {
            return None;
        }
        if w == 4 {
            return match group {
                Some(g) => if g == f {
                    Some(q)
                } else {
                    None
                },
                None => None,
            };
        }
        proof {
            assert(buf@.skip(p as int).skip((q - p) as int) =~= buf@.skip(q as int));
        }
        match decode_field(pool, t, buf, q, obj, fuel, f, w) {
            Some(p2) => {
                proof {
                    assert(buf@.skip(p as int).skip((p2 - p) as int) =~= buf@.skip(p2 as int));
                }
                p = p2;
            },
            None => {
                return None;
            },
        }
    }
}

/// Decodes all of `buf` as a message of table `t` into `obj`, with at most
/// `stack_depth` levels of nested messages and groups. Whether it succeeded.
pub fn decode_message(pool: &[Table], t: usize, buf: &[u8], obj: &mut Object, stack_depth: usize) -> (r: bool)
    requires
        t < pool@.len(),
    ensures
        r == spec_dec_msg(pool@, t as int, buf@, old(obj)@, stack_depth as nat) is Some,
        r ==> final(obj)@ == spec_dec_msg(pool@, t as int, buf@, old(obj)@, stack_depth as nat)->Some_0,
{
    assert(buf@.skip(0) =~= buf@);
    decode_loop(pool, t, buf, 0, obj, stack_depth, None).is_some()
}

} // verus!
