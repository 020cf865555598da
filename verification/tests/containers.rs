use protocrap::containers::{RawVec, RepeatedField};
use protocrap::samples::test_pool;
use protocrap::tables::TableWithEntries;

#[test]
fn repeated_field_push_insert_remove() {
    let mut rf: RepeatedField<u32> = RepeatedField::new();
    rf.push(1);
    rf.push(3);
    rf.insert(1, 2);
    assert_eq!(rf.slice(), &[1, 2, 3]);
    assert_eq!(rf.remove(0), 1);
    assert_eq!(rf.pop(), Some(3));
    assert_eq!(rf.slice(), &[2]);
    rf.assign(&[7, 8, 9]);
    rf.reserve(100);
    assert_eq!(rf.slice(), &[7, 8, 9]);
    assert_eq!(rf.cap(), 100);
    rf.reserve(5);
    assert_eq!(rf.cap(), 100);
    let from = RepeatedField::from_slice(&[4u8, 5]);
    assert_eq!(from.len(), 2);
}

#[test]
fn drain_and_into_iter_hand_out_in_order_from_both_ends() {
    let mut rf = RepeatedField::from_slice(&[1u8, 2, 3, 4]);
    let mut d = rf.drain();
    assert!(rf.is_empty());
    assert_eq!(d.len(), 4);
    assert_eq!(d.next(), Some(1));
    assert_eq!(d.next_back(), Some(4));
    assert_eq!(d.next(), Some(2));
    assert_eq!(d.next(), Some(3));
    assert_eq!(d.next(), None);
    assert_eq!(d.next_back(), None);
    let mut it = RepeatedField::from_slice(&[10u16, 20]).into_iter();
    assert_eq!(it.next_back(), Some(20));
    assert_eq!(it.next(), Some(10));
    assert_eq!(it.next(), None);
}

#[test]
fn raw_vec_grows_to_one_then_doubles() {
    let mut rv = RawVec::new(8);
    let mut len = 0usize;
    assert_eq!(rv.push_uninitialized(&mut len, 8), 0);
    assert_eq!(rv.cap(), 1);
    assert_eq!(rv.push_uninitialized(&mut len, 8), 8);
    assert_eq!(rv.cap(), 2);
    assert_eq!(rv.push_uninitialized(&mut len, 8), 16);
    assert_eq!(rv.cap(), 4);
    assert_eq!(len, 3);
    rv.reserve(10, 8);
    assert_eq!(rv.cap(), 10);
    rv.reserve(5, 8);
    assert_eq!(rv.cap(), 10);
    assert_eq!(rv.pop(&mut len, 8), Some(16));
    assert_eq!(len, 2);
    let rv = rv.grow(0, 8);
    assert_eq!(rv.cap(), 20);
}

#[test]
fn table_with_entries_keeps_its_entries() {
    let pool = test_pool();
    let t = &pool.tables[0];
    let laid_out: TableWithEntries<7, 8, 3> = TableWithEntries {
        encode_entries: [
            t.encode_entries[0],
            t.encode_entries[1],
            t.encode_entries[2],
            t.encode_entries[3],
            t.encode_entries[4],
            t.encode_entries[5],
            t.encode_entries[6],
        ],
        size: t.size,
        descriptor: t.descriptor.copy(),
        decode_entries: [
            t.decode_entries[0],
            t.decode_entries[1],
            t.decode_entries[2],
            t.decode_entries[3],
            t.decode_entries[4],
            t.decode_entries[5],
            t.decode_entries[6],
            t.decode_entries[7],
        ],
        aux_entries: [t.aux_entries[0], t.aux_entries[1], t.aux_entries[2]],
    };
    let table = laid_out.into_table();
    assert_eq!(table.size, t.size);
    assert_eq!(table.encode_entries.len(), 7);
    assert_eq!(table.decode_entries[3].0, t.decode_entries[3].0);
    assert_eq!(table.aux_entries[2].child_table, t.aux_entries[2].child_table);
}
