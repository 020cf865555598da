//! Message tables: the per-message data that drives decoding and encoding.
use vstd::prelude::*;

verus! {

/// Where a message field keeps its child: the slot of the field and the table
/// of the child message (an index into the pool of tables).
#[derive(Clone, Copy)]
pub struct AuxTableEntry {
    pub offset: u32,
    pub child_table: usize,
}

/// The table of one message type.
///
/// `decode_entries` is indexed by field number; `encode_entries` lists the
/// fields in the order they are written; message fields refer to
/// `aux_entries` by index.
pub struct Table {
    pub size: u16,
    pub descriptor: crate::descriptor::DescriptorProto,
    pub encode_entries: Vec<crate::encoding::TableEntry>,
    pub decode_entries: Vec<crate::decoding::TableEntry>,
    pub aux_entries: Vec<AuxTableEntry>,
}

impl Table {
    /// The decode entries, indexed by field number.
    pub fn decode_entries(&self) -> (r: &[crate::decoding::TableEntry])
        ensures
            r@ == self.decode_entries@,
    {
        self.decode_entries.as_slice()
    }

    /// The encode entries, in writing order.
    pub fn encode_entries(&self) -> (r: &[crate::encoding::TableEntry])
        ensures
            r@ == self.encode_entries@,
    {
        self.encode_entries.as_slice()
    }

    /// The aux entry at `index`, if there is one.
    pub fn aux_entry(&self, index: usize) -> (r: Option<AuxTableEntry>)
        ensures
            index < self.aux_entries@.len() ==> r == Some(self.aux_entries@[index as int]),
            index >= self.aux_entries@.len() ==> r is None,
    {
        if index < self.aux_entries.len() {
            Some(self.aux_entries[index])
        } else {
            None
        }
    }

    /// The decode entry of field `field_number`, if the table reaches that far.
    pub fn entry(&self, field_number: u32) -> (r: Option<crate::decoding::TableEntry>)
        ensures
            field_number < self.decode_entries@.len() ==> r == Some(
                self.decode_entries@[field_number as int],
            ),
            field_number >= self.decode_entries@.len() ==> r is None,
    {
        if (field_number as usize) < self.decode_entries.len() {
            Some(self.decode_entries[field_number as usize])
        } else {
            None
        }
    }
}

/// A table whose entries are laid out in arrays of fixed lengths, as a
/// schema compiler writes them.
pub struct TableWithEntries<const E: usize, const D: usize, const A: usize> {
    pub encode_entries: [crate::encoding::TableEntry; E],
    pub size: u16,
    pub descriptor: crate::descriptor::DescriptorProto,
    pub decode_entries: [crate::decoding::TableEntry; D],
    pub aux_entries: [AuxTableEntry; A],
}

fn array_to_vec<T: Copy, const N: usize>(a: &[T; N]) -> (r: Vec<T>)
    ensures
        r@ == a@,
{
    let mut v: Vec<T> = Vec::new();
    let mut i: usize = 0;
    while i < N
        invariant
            i <= N,
            a@.len() == N,
            v@ == a@.take(i as int),
        decreases N - i,
    {
        v.push(a[i]);
        i += 1;
        assert(v@ =~= a@.take(i as int));
    }
    assert(a@.take(N as int) =~= a@);
    v
}

impl<const E: usize, const D: usize, const A: usize> TableWithEntries<E, D, A> {
    /// The table with these entries.
    pub fn into_table(self) -> (r: Table)
        ensures
            r.size == self.size,
            r.descriptor == self.descriptor,
            r.encode_entries@ == self.encode_entries@,
            r.decode_entries@ == self.decode_entries@,
            r.aux_entries@ == self.aux_entries@,
    {
        let encode_entries = array_to_vec(&self.encode_entries);
        let decode_entries = array_to_vec(&self.decode_entries);
        let aux_entries = array_to_vec(&self.aux_entries);
        Table { size: self.size, descriptor: self.descriptor, encode_entries, decode_entries, aux_entries }
    }
}

} // verus!
