//! The object model: a message object holds its has-bits and one slot per field.
use vstd::prelude::*;
use crate::containers::{Bytes, RepeatedField};
use crate::tables::Table;
use crate::wire::FieldKind;
use crate::decoding::{
    spec_new_object, spec_new_slots, spec_entry_slot, spec_empty_slot,
};

verus! {

/// A reference to a child message; `None` where the field is not present.
pub struct Message(pub Option<Box<Object>>);

impl Message {
    /// A reference to `msg`.
    pub fn new(msg: Object) -> (r: Message)
        ensures
            r.0 == Some(Box::new(msg)),
    {
        Message(Some(Box::new(msg)))
    }
}

/// The storage of one field of an object.
///
/// Scalars are held as 64 raw bits: 32-bit values in the low half, booleans as
/// 0 or 1, signed values in two's complement.
pub enum Slot {
    Scalar(u64),
    Bytes(Bytes),
    Message(Message),
    Repeated(RepeatedField<u64>),
    RepeatedBytes(RepeatedField<Bytes>),
    RepeatedMessage(RepeatedField<Object>),
}

/// A message object: a bit per optional scalar field that records its presence,
/// and the field slots.
pub struct Object {
    pub has_bits: u64,
    pub slots: Vec<Slot>,
}

/// What a slot holds, as mathematical values.
pub enum SlotView {
    Scalar(u64),
    Bytes(Seq<u8>),
    Message(Option<ObjectView>),
    Repeated(Seq<u64>),
    RepeatedBytes(Seq<Seq<u8>>),
    RepeatedMessage(Seq<ObjectView>),
}

/// What an object holds, as mathematical values.
pub struct ObjectView {
    pub has_bits: u64,
    pub slots: Seq<SlotView>,
}

pub open spec fn slot_view(s: Slot) -> SlotView
    decreases s,
{
    match s {
        Slot::Scalar(v) => SlotView::Scalar(v),
        Slot::Bytes(b) => SlotView::Bytes(b.vec@),
        Slot::Message(m) => match m.0 {
            Some(b) => SlotView::Message(Some(object_view(*b))),
            None => SlotView::Message(None),
        },
        Slot::Repeated(r) => SlotView::Repeated(r.vec@),
        Slot::RepeatedBytes(r) => SlotView::RepeatedBytes(
            Seq::new(r.vec@.len(), |i: int| r.vec@[i].vec@),
        ),
        Slot::RepeatedMessage(r) => SlotView::RepeatedMessage(
            Seq::new(
                r.vec@.len(),
                |i: int|
                    if 0 <= i < r.vec@.len() {
                        proof {
                            assert(decreases_to!(r => r.vec));
                            assert(decreases_to!(r.vec => r.vec@));
                            assert(decreases_to!(r.vec@ => r.vec@[i]));
                        }
                        object_view(r.vec@[i])
                    } else {
                        ObjectView { has_bits: 0, slots: Seq::empty() }
                    },
            ),
        ),
    }
}

pub open spec fn object_view(o: Object) -> ObjectView
    decreases o,
{
    ObjectView {
        has_bits: o.has_bits,
        slots: Seq::new(
            o.slots@.len(),
            |i: int|
                if 0 <= i < o.slots@.len() {
                    proof {
                        assert(decreases_to!(o.slots => o.slots@));
                        assert(decreases_to!(o.slots@ => o.slots@[i]));
                    }
                    slot_view(o.slots@[i])
                } else {
                    SlotView::Scalar(0)
                },
        ),
    }
}

impl View for Object {
    type V = ObjectView;

    open spec fn view(&self) -> ObjectView {
        object_view(*self)
    }
}

/// Whether bit `idx` is set in `bits`.
pub open spec fn spec_has_bit(bits: u64, idx: u64) -> bool {
    bits & (1u64 << idx) != 0
}

/// `bits` with bit `idx` set.
pub open spec fn spec_set_bit(bits: u64, idx: u64) -> u64 {
    bits | (1u64 << idx)
}

/// The raw bits of a scalar slot; slots of another sort read as 0.
pub open spec fn slot_scalar(s: SlotView) -> u64 {
    match s {
        SlotView::Scalar(v) => v,
        _ => 0,
    }
}

/// The contents of a bytes slot; slots of another sort read as empty.
pub open spec fn slot_bytes(s: SlotView) -> Seq<u8> {
    match s {
        SlotView::Bytes(b) => b,
        _ => Seq::empty(),
    }
}

/// The elements of a repeated scalar slot; slots of another sort read as empty.
pub open spec fn slot_repeated(s: SlotView) -> Seq<u64> {
    match s {
        SlotView::Repeated(r) => r,
        _ => Seq::empty(),
    }
}

/// The elements of a repeated bytes slot; slots of another sort read as empty.
pub open spec fn slot_repeated_bytes(s: SlotView) -> Seq<Seq<u8>> {
    match s {
        SlotView::RepeatedBytes(r) => r,
        _ => Seq::empty(),
    }
}

/// The child of a message slot; slots of another sort read as absent.
pub open spec fn slot_message(s: SlotView) -> Option<ObjectView> {
    match s {
        SlotView::Message(m) => m,
        _ => None,
    }
}

/// The children of a repeated message slot; slots of another sort read as empty.
pub open spec fn slot_repeated_message(s: SlotView) -> Seq<ObjectView> {
    match s {
        SlotView::RepeatedMessage(r) => r,
        _ => Seq::empty(),
    }
}

/// `o` with slot `i` replaced by `s`.
pub open spec fn with_slot(o: ObjectView, i: int, s: SlotView) -> ObjectView {
    ObjectView { has_bits: o.has_bits, slots: o.slots.update(i, s) }
}

/// Sets a scalar field and its has-bit.
pub open spec fn spec_set_scalar(o: ObjectView, i: int, hb: u64, v: u64) -> ObjectView {
    ObjectView { has_bits: spec_set_bit(o.has_bits, hb), slots: o.slots.update(i, SlotView::Scalar(v)) }
}

/// Sets a bytes field and its has-bit.
pub open spec fn spec_set_bytes(o: ObjectView, i: int, hb: u64, b: Seq<u8>) -> ObjectView {
    ObjectView { has_bits: spec_set_bit(o.has_bits, hb), slots: o.slots.update(i, SlotView::Bytes(b)) }
}

/// Appends to a repeated scalar field.
pub open spec fn spec_add_scalar(o: ObjectView, i: int, v: u64) -> ObjectView {
    with_slot(o, i, SlotView::Repeated(slot_repeated(o.slots[i]).push(v)))
}

/// Appends to a repeated bytes field.
pub open spec fn spec_add_bytes(o: ObjectView, i: int, b: Seq<u8>) -> ObjectView {
    with_slot(o, i, SlotView::RepeatedBytes(slot_repeated_bytes(o.slots[i]).push(b)))
}

/// Sets the child of a message field.
pub open spec fn spec_set_child(o: ObjectView, i: int, c: ObjectView) -> ObjectView {
    with_slot(o, i, SlotView::Message(Some(c)))
}

/// Appends a child to a repeated message field.
pub open spec fn spec_add_child(o: ObjectView, i: int, c: ObjectView) -> ObjectView {
    with_slot(o, i, SlotView::RepeatedMessage(slot_repeated_message(o.slots[i]).push(c)))
}

proof fn lemma_view_update(o: Object, slots2: Vec<Slot>, i: int, s: Slot)
    requires
        0 <= i < o.slots@.len(),
        slots2@ == o.slots@.update(i, s),
    ensures
        object_view(Object { has_bits: o.has_bits, slots: slots2 }).slots == object_view(o).slots.update(
            i,
            slot_view(s),
        ),
{
    assert(object_view(Object { has_bits: o.has_bits, slots: slots2 }).slots =~= object_view(
        o,
    ).slots.update(i, slot_view(s)));
}

/// Setting a slot twice leaves what the second setting put there.
pub proof fn lemma_with_slot_twice(o: ObjectView, i: int, a: SlotView, b: SlotView)
    requires
        0 <= i < o.slots.len(),
    ensures
        with_slot(with_slot(o, i, a), i, b) == with_slot(o, i, b),
{
    assert(with_slot(with_slot(o, i, a), i, b).slots =~= with_slot(o, i, b).slots);
}

impl Object {
    /// Whether has-bit `has_bit_idx` is set.
    pub fn has_bit(&self, has_bit_idx: u8) -> (r: bool)
        requires
            has_bit_idx < 64,
        ensures
            r == spec_has_bit(self.has_bits, has_bit_idx as u64),
    {
        self.has_bits & (1u64 << has_bit_idx) != 0
    }

    /// Sets has-bit `has_bit_idx`.
    pub fn set_has_bit(&mut self, has_bit_idx: u32)
        requires
            has_bit_idx < 64,
        ensures
            final(self).has_bits == spec_set_bit(old(self).has_bits, has_bit_idx as u64),
            final(self).slots == old(self).slots,
    {
        self.has_bits = self.has_bits | (1u64 << has_bit_idx);
    }

    /// Takes slot `i` out, leaving an empty scalar in its place.
    fn take_slot(&mut self, i: usize) -> (r: Slot)
        requires
            i < old(self).slots@.len(),
        ensures
            r == old(self).slots@[i as int],
            slot_view(r) == old(self)@.slots[i as int],
            final(self)@ == with_slot(old(self)@, i as int, SlotView::Scalar(0)),
            final(self).slots@.len() == old(self).slots@.len(),
    {
        let ghost o = *self;
        let mut tmp = Slot::Scalar(0);
        std::mem::swap(&mut self.slots[i], &mut tmp);
        proof {
            lemma_view_update(o, self.slots, i as int, Slot::Scalar(0));
        }
        tmp
    }

    /// Puts `s` into slot `i`.
    pub(crate) fn put_slot(&mut self, i: usize, s: Slot)
        requires
            i < old(self).slots@.len(),
        ensures
            final(self)@ == with_slot(old(self)@, i as int, slot_view(s)),
            final(self).slots@.len() == old(self).slots@.len(),
    {
        let ghost o = *self;
        let mut tmp = s;
        std::mem::swap(&mut self.slots[i], &mut tmp);
        proof {
            lemma_view_update(o, self.slots, i as int, s);
        }
    }

    /// The raw bits of scalar slot `i` (0 where it holds something else).
    pub fn get(&self, i: usize) -> (r: u64)
        requires
            i < self.slots@.len(),
        ensures
            r == slot_scalar(self@.slots[i as int]),
    {
        match &self.slots[i] {
            Slot::Scalar(v) => *v,
            _ => 0,
        }
    }

    /// The elements of repeated scalar slot `i` (empty where it holds something else).
    pub fn get_slice(&self, i: usize) -> (r: &[u64])
        requires
            i < self.slots@.len(),
        ensures
            r@ == slot_repeated(self@.slots[i as int]),
    {
        match &self.slots[i] {
            Slot::Repeated(r) => r.slice(),
            _ => &[],
        }
    }

    /// The contents of bytes slot `i` (empty where it holds something else).
    pub fn bytes(&self, i: usize) -> (r: &[u8])
        requires
            i < self.slots@.len(),
        ensures
            r@ == slot_bytes(self@.slots[i as int]),
    {
        match &self.slots[i] {
            Slot::Bytes(b) => b.slice(),
            _ => &[],
        }
    }

    /// Sets scalar slot `i` to `val` and sets has-bit `has_bit_idx`.
    pub fn set(&mut self, i: usize, has_bit_idx: u32, val: u64)
        requires
            i < old(self).slots@.len(),
            has_bit_idx < 64,
        ensures
            final(self)@ == spec_set_scalar(old(self)@, i as int, has_bit_idx as u64, val),
            final(self).slots@.len() == old(self).slots@.len(),
    {
        self.set_has_bit(has_bit_idx);
        self.put_slot(i, Slot::Scalar(val));
    }

    /// Sets bytes slot `i` to a copy of `bytes` and sets has-bit `has_bit_idx`.
    pub fn set_bytes(&mut self, i: usize, has_bit_idx: u32, bytes: &[u8])
        requires
            i < old(self).slots@.len(),
            has_bit_idx < 64,
        ensures
            final(self)@ == spec_set_bytes(old(self)@, i as int, has_bit_idx as u64, bytes@),
            final(self).slots@.len() == old(self).slots@.len(),
    {
        self.set_has_bit(has_bit_idx);
        self.put_slot(i, Slot::Bytes(Bytes::from_slice(bytes)));
    }

    /// Appends `val` to repeated scalar slot `i`.
    pub fn add(&mut self, i: usize, val: u64)
        requires
            i < old(self).slots@.len(),
        ensures
            final(self)@ == spec_add_scalar(old(self)@, i as int, val),
            final(self).slots@.len() == old(self).slots@.len(),
    {
        let s = self.take_slot(i);
        let mut r = match s {
            Slot::Repeated(r) => r,
            _ => RepeatedField::new(),
        };
        r.push(val);
        self.put_slot(i, Slot::Repeated(r));
        proof {
            lemma_with_slot_twice(old(self)@, i as int, SlotView::Scalar(0), slot_view(Slot::Repeated(r)));
        }
    }

    /// Appends a copy of `bytes` to repeated bytes slot `i`.
    pub fn add_bytes(&mut self, i: usize, bytes: &[u8])
        requires
            i < old(self).slots@.len(),
        ensures
            final(self)@ == spec_add_bytes(old(self)@, i as int, bytes@),
            final(self).slots@.len() == old(self).slots@.len(),
    {
        let s = self.take_slot(i);
        let mut r = match s {
            Slot::RepeatedBytes(r) => r,
            _ => RepeatedField::new(),
        };
        let ghost before = r;
        assert(slot_repeated_bytes(old(self)@.slots[i as int]) == Seq::new(before.vec@.len(), |j: int| before.vec@[j].vec@));
        r.push(Bytes::from_slice(bytes));
        assert(Seq::new(r.vec@.len(), |j: int| r.vec@[j].vec@) =~= Seq::new(
            before.vec@.len(),
            |j: int| before.vec@[j].vec@,
        ).push(bytes@));
        self.put_slot(i, Slot::RepeatedBytes(r));
        proof {
            lemma_with_slot_twice(old(self)@, i as int, SlotView::Scalar(0), slot_view(Slot::RepeatedBytes(r)));
        }
    }

    /// Takes the child out of message slot `i`, leaving the field absent.
    pub fn take_child(&mut self, i: usize) -> (r: Option<Object>)
        requires
            i < old(self).slots@.len(),
        ensures
            match r {
                Some(c) => slot_message(old(self)@.slots[i as int]) == Some(c@),
                None => slot_message(old(self)@.slots[i as int]) is None,
            },
            final(self)@ == with_slot(old(self)@, i as int, SlotView::Message(None)),
            final(self).slots@.len() == old(self).slots@.len(),
    {
        let s = self.take_slot(i);
        self.put_slot(i, Slot::Message(Message(None)));
        proof {
            lemma_with_slot_twice(old(self)@, i as int, SlotView::Scalar(0), SlotView::Message(None));
        }
        match s {
            Slot::Message(m) => match m.0 {
                Some(b) => Some(*b),
                None => None,
            },
            _ => None,
        }
    }

    /// Makes `child` the child of message slot `i`.
    pub fn set_child(&mut self, i: usize, child: Object)
        requires
            i < old(self).slots@.len(),
        ensures
            final(self)@ == spec_set_child(old(self)@, i as int, child@),
            final(self).slots@.len() == old(self).slots@.len(),
    {
        self.put_slot(i, Slot::Message(Message::new(child)));
    }

    /// Appends `child` to repeated message slot `i`.
    pub fn add_child(&mut self, i: usize, child: Object)
        requires
            i < old(self).slots@.len(),
        ensures
            final(self)@ == spec_add_child(old(self)@, i as int, child@),
            final(self).slots@.len() == old(self).slots@.len(),
    {
        let s = self.take_slot(i);
        let mut r = match s {
            Slot::RepeatedMessage(r) => r,
            _ => RepeatedField::new(),
        };
        let ghost before = r;
        assert(slot_repeated_message(old(self)@.slots[i as int]) =~= slot_repeated_message(slot_view(Slot::RepeatedMessage(before))));
        r.push(child);
        assert(slot_view(Slot::RepeatedMessage(r)) == SlotView::RepeatedMessage(
            slot_repeated_message(slot_view(Slot::RepeatedMessage(before))).push(child@),
        )) by {
            assert(slot_view(Slot::RepeatedMessage(r))->RepeatedMessage_0 =~= slot_view(
                Slot::RepeatedMessage(before),
            )->RepeatedMessage_0.push(child@));
        }
        self.put_slot(i, Slot::RepeatedMessage(r));
        proof {
            lemma_with_slot_twice(old(self)@, i as int, SlotView::Scalar(0), slot_view(Slot::RepeatedMessage(r)));
        }
    }
}


/// The empty value of a slot for a field of kind `k`.
pub fn empty_slot(k: FieldKind) -> (r: Slot)
    ensures
        slot_view(r) == spec_empty_slot(k),
{
    match k {
        FieldKind::Bytes => Slot::Bytes(Bytes::new()),
        FieldKind::Message | FieldKind::Group => Slot::Message(Message(None)),
        FieldKind::RepeatedBytes => {
            let r = Slot::RepeatedBytes(RepeatedField::new());
            assert(slot_repeated_bytes(slot_view(r)) =~= Seq::empty());
            r
        },
        FieldKind::RepeatedMessage | FieldKind::RepeatedGroup => {
            let r = Slot::RepeatedMessage(RepeatedField::new());
            assert(slot_repeated_message(slot_view(r)) =~= Seq::empty());
            r
        },
        FieldKind::RepeatedVarint64 | FieldKind::RepeatedVarint32
        | FieldKind::RepeatedVarint64Zigzag | FieldKind::RepeatedVarint32Zigzag
        | FieldKind::RepeatedBool | FieldKind::RepeatedFixed64 | FieldKind::RepeatedFixed32
        | FieldKind::RepeatedInt32 => {
            Slot::Repeated(RepeatedField::new())
        },
        _ => Slot::Scalar(0),
    }
}

/// The slot that encode entry `e` keeps its value in, if the table has it.
pub fn entry_slot(table: &Table, e: crate::encoding::TableEntry) -> (r: Option<usize>)
    ensures
        spec_entry_slot(*table, e) >= 0 ==> r == Some(spec_entry_slot(*table, e) as usize),
        spec_entry_slot(*table, e) < 0 ==> r is None,
{
    match e.kind {
        FieldKind::Message | FieldKind::Group | FieldKind::RepeatedMessage
        | FieldKind::RepeatedGroup => {
            if (e.offset as usize) < table.aux_entries.len() {
                Some(table.aux_entries[e.offset as usize].offset as usize)
            } else {
                None
            }
        },
        _ => Some(e.offset as usize),
    }
}

impl Object {
    /// A fresh object for `table`: no has-bits, and each field's slot empty.
    pub fn create(table: &Table) -> (r: Object)
        ensures
            r@ == spec_new_object(*table),
            r.slots@.len() == table.size,
    {
        let mut slots: Vec<Slot> = Vec::new();
        let n = table.size as usize;
        let mut i: usize = 0;
        while i < n
            invariant
                i <= n,
                n == table.size,
                slots@.len() == i,
                forall|j: int| 0 <= j < i ==> slots@[j] == Slot::Scalar(0),
            decreases n - i,
        {
            slots.push(Slot::Scalar(0));
            i = i + 1;
        }
        let mut o = Object { has_bits: 0, slots };
        assert(o@.slots =~= spec_new_slots(*table, 0));
        let mut k: usize = 0;
        while k < table.encode_entries.len()
            invariant
                k <= table.encode_entries@.len(),
                o@ == (ObjectView { has_bits: 0, slots: spec_new_slots(*table, k as nat) }),
                o.slots@.len() == table.size,
                spec_new_slots(*table, k as nat).len() == table.size,
            decreases table.encode_entries@.len() - k,
        {
            let e = table.encode_entries[k];
            match entry_slot(table, e) {
                Some(sl) => {
                    if sl < o.slots.len() {
                        o.put_slot(sl, empty_slot(e.kind));
                    }
                },
                None => {},
            }
            k = k + 1;
        }
        o
    }
}


impl Object {
    /// The child of message slot `i`, if present.
    pub fn child(&self, i: usize) -> (r: Option<&Object>)
        requires
            i < self.slots@.len(),
        ensures
            match r {
                Some(c) => slot_message(self@.slots[i as int]) == Some(c@),
                None => slot_message(self@.slots[i as int]) is None,
            },
    {
        match &self.slots[i] {
            Slot::Message(m) => match &m.0 {
                Some(b) => Some(&**b),
                None => None,
            },
            _ => None,
        }
    }

    /// The children of repeated message slot `i` (empty where it holds something else).
    pub fn children(&self, i: usize) -> (r: &[Object])
        requires
            i < self.slots@.len(),
        ensures
            r@.len() == slot_repeated_message(self@.slots[i as int]).len(),
            forall|j: int| 0 <= j < r@.len() ==> #[trigger] r@[j]@ == slot_repeated_message(self@.slots[i as int])[j],
    {
        match &self.slots[i] {
            Slot::RepeatedMessage(r) => r.slice(),
            _ => &[],
        }
    }

    /// The elements of repeated bytes slot `i` (empty where it holds something else).
    pub fn get_bytes_slice(&self, i: usize) -> (r: &[Bytes])
        requires
            i < self.slots@.len(),
        ensures
            r@.len() == slot_repeated_bytes(self@.slots[i as int]).len(),
            forall|j: int| 0 <= j < r@.len() ==> #[trigger] r@[j]@ == slot_repeated_bytes(self@.slots[i as int])[j],
    {
        match &self.slots[i] {
            Slot::RepeatedBytes(r) => r.slice(),
            _ => &[],
        }
    }
}

} // verus!
