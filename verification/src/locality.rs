//! A field's decoding depends on its own bytes alone, and takes as many bytes
//! as skipping it does: the facts that decoding a message piece by piece
//! rests on.
use vstd::prelude::*;
use crate::wire::{spec_agree, lemma_varint_from_prefix, lemma_varint_from_len, spec_varint_from};
use crate::base::ObjectView;
use crate::decoding::{
    spec_dec_field, spec_dec_loop, spec_skip_field, spec_skip_group, spec_read_scalar,
    spec_wire_type, spec_known, spec_entry_kind, spec_is_scalar, spec_is_repeated_scalar,
};
use crate::tables::Table;

verus! {

/// Strings that agree on `l` bytes agree on the `l - n` bytes after the first `n`.
proof fn lemma_agree_skip(s1: Seq<u8>, s2: Seq<u8>, l: nat, n: nat)
    requires
        spec_agree(s1, s2, l),
        n <= l,
    ensures
        spec_agree(s1.skip(n as int), s2.skip(n as int), (l - n) as nat),
{
    assert forall|i: int| 0 <= i < l - n implies s1.skip(n as int)[i] == s2.skip(n as int)[i] by {
        assert(s1[n + i] == s2[n + i]);
    }
}

/// Strings that agree on `l` bytes have the same bytes `a..b` within them.
proof fn lemma_agree_subrange(s1: Seq<u8>, s2: Seq<u8>, l: nat, a: int, b: int)
    requires
        spec_agree(s1, s2, l),
        0 <= a <= b <= l,
    ensures
        s1.subrange(a, b) == s2.subrange(a, b),
{
    assert forall|i: int| 0 <= i < b - a implies s1.subrange(a, b)[i] == s2.subrange(a, b)[i] by {
        assert(s1[a + i] == s2[a + i]);
    }
    assert(s1.subrange(a, b) =~= s2.subrange(a, b));
}

/// A scalar value is read from its own bytes alone.
proof fn lemma_read_scalar_prefix(k: crate::wire::FieldKind, s1: Seq<u8>, s2: Seq<u8>, l: nat)
    requires
        spec_agree(s1, s2, l),
        spec_read_scalar(k, s1) matches Some((v, n)) && n <= l,
    ensures
        spec_read_scalar(k, s2) == spec_read_scalar(k, s1),
{
    if spec_wire_type(k) == 1 {
        lemma_agree_subrange(s1, s2, l, 0, 8);
    } else if spec_wire_type(k) == 5 {
        lemma_agree_subrange(s1, s2, l, 0, 4);
    } else {
        lemma_varint_from_prefix(s1, s2, 0, 10, 1, l);
    }
}

/// Skipping a field depends on its own bytes alone.
pub proof fn lemma_skip_field_prefix(s1: Seq<u8>, s2: Seq<u8>, wt: u64, fuel: nat, fnum: u64, l: nat)
    requires
        spec_agree(s1, s2, l),
        spec_skip_field(s1, wt, fuel, fnum) matches Some(m) && m <= l,
    ensures
        spec_skip_field(s2, wt, fuel, fnum) == spec_skip_field(s1, wt, fuel, fnum),
    decreases fuel, s1.len(), 0nat,
{
    if wt == 0 {
        lemma_varint_from_prefix(s1, s2, 0, 10, 1, l);
    } else if wt == 2 {
        lemma_varint_from_prefix(s1, s2, 0, 5, 7, l);
    } else if wt == 3 {
        lemma_skip_group_prefix(s1, s2, (fuel - 1) as nat, fnum, l);
    }
}

/// Skipping the rest of a group depends on its own bytes alone.
pub proof fn lemma_skip_group_prefix(s1: Seq<u8>, s2: Seq<u8>, fuel: nat, fnum: u64, l: nat)
    requires
        spec_agree(s1, s2, l),
        spec_skip_group(s1, fuel, fnum) matches Some(m) && m <= l,
    ensures
        spec_skip_group(s2, fuel, fnum) == spec_skip_group(s1, fuel, fnum),
    decreases fuel, s1.len(), 1nat,
{
    let (tag, n) = crate::wire::spec_read_tag(s1)->Some_0;
    lemma_varint_from_len(s1, 0, 5, 15);
    let f = tag >> 3u64;
    let w = tag & 7;
    if w != 4 {
        let m = spec_skip_field(s1.skip(n as int), w, fuel, f)->Some_0;
        let k = spec_skip_group(s1.skip((n + m) as int), fuel, fnum)->Some_0;
        assert(n + m + k <= l);
        lemma_varint_from_prefix(s1, s2, 0, 5, 15, l);
        lemma_agree_skip(s1, s2, l, n);
        lemma_skip_field_prefix(s1.skip(n as int), s2.skip(n as int), w, fuel, f, (l - n) as nat);
        lemma_agree_skip(s1, s2, l, n + m);
        lemma_skip_group_prefix(s1.skip((n + m) as int), s2.skip((n + m) as int), fuel, fnum, (l - n - m) as nat);
    } else {
        lemma_varint_from_prefix(s1, s2, 0, 5, 15, l);
    }
}

/// Decoding a field depends on its own bytes alone.
pub proof fn lemma_dec_field_prefix(
    pool: Seq<Table>,
    t: int,
    s1: Seq<u8>,
    s2: Seq<u8>,
    o: ObjectView,
    fuel: nat,
    fnum: u64,
    wt: u64,
    l: nat,
)
    requires
        spec_agree(s1, s2, l),
        spec_dec_field(pool, t, s1, o, fuel, fnum, wt) matches Some((o2, m)) && m <= l,
    ensures
        spec_dec_field(pool, t, s2, o, fuel, fnum, wt) == spec_dec_field(pool, t, s1, o, fuel, fnum, wt),
    decreases fuel, s1.len(), 0nat,
{
    let table = pool[t];
    if fnum < table.decode_entries@.len() && spec_known(table.decode_entries@[fnum as int].0, wt) {
        let e = table.decode_entries@[fnum as int].0;
        let k = spec_entry_kind(e);
        if spec_is_scalar(k) {
            lemma_read_scalar_prefix(k, s1, s2, l);
        } else if k == crate::wire::FieldKind::Bytes || k == crate::wire::FieldKind::RepeatedBytes {
            lemma_varint_from_prefix(s1, s2, 0, 5, 7, l);
            let (len, n) = crate::wire::spec_read_size(s1)->Some_0;
            lemma_agree_subrange(s1, s2, l, n as int, n + len);
        } else if spec_is_repeated_scalar(k) {
            if wt == 2 {
                lemma_varint_from_prefix(s1, s2, 0, 5, 7, l);
                let (len, n) = crate::wire::spec_read_size(s1)->Some_0;
                lemma_agree_subrange(s1, s2, l, n as int, n + len);
            } else {
                lemma_read_scalar_prefix(k, s1, s2, l);
            }
        } else if k == crate::wire::FieldKind::Message || k == crate::wire::FieldKind::RepeatedMessage {
            lemma_varint_from_prefix(s1, s2, 0, 5, 7, l);
            let (len, n) = crate::wire::spec_read_size(s1)->Some_0;
            lemma_agree_subrange(s1, s2, l, n as int, n + len);
        } else {
            let off = crate::decoding::spec_entry_offset(e) as int;
            let aux = table.aux_entries@[off];
            let slot = aux.offset as int;
            let ct = aux.child_table as int;
            let repeated = k == crate::wire::FieldKind::RepeatedMessage || k == crate::wire::FieldKind::RepeatedGroup;
            let child0 = if repeated {
                crate::decoding::spec_new_object(pool[ct])
            } else {
                crate::decoding::spec_child_or_new(pool, o, slot, ct)
            };
            lemma_dec_loop_prefix(pool, ct, s1, s2, child0, (fuel - 1) as nat, fnum, l);
        }
    } else {
        lemma_skip_field_prefix(s1, s2, wt, fuel, fnum, l);
    }
}

/// Decoding the rest of a group depends on its own bytes alone.
pub proof fn lemma_dec_loop_prefix(
    pool: Seq<Table>,
    t: int,
    s1: Seq<u8>,
    s2: Seq<u8>,
    o: ObjectView,
    fuel: nat,
    g: u64,
    l: nat,
)
    requires
        spec_agree(s1, s2, l),
        spec_dec_loop(pool, t, s1, o, fuel, Some(g)) matches Some((o2, m)) && m <= l,
    ensures
        spec_dec_loop(pool, t, s2, o, fuel, Some(g)) == spec_dec_loop(pool, t, s1, o, fuel, Some(g)),
    decreases fuel, s1.len(), 1nat,
{
    let (tag, n) = crate::wire::spec_read_tag(s1)->Some_0;
    lemma_varint_from_len(s1, 0, 5, 15);
    lemma_varint_from_prefix(s1, s2, 0, 5, 15, l);
    let f = tag >> 3u64;
    let w = tag & 7;
    if w != 4 {
        let (o2, m) = spec_dec_field(pool, t, s1.skip(n as int), o, fuel, f, w)->Some_0;
        let (o3, k) = spec_dec_loop(pool, t, s1.skip((n + m) as int), o2, fuel, Some(g))->Some_0;
        assert(n + m + k <= l);
        lemma_agree_skip(s1, s2, l, n);
        lemma_dec_field_prefix(pool, t, s1.skip(n as int), s2.skip(n as int), o, fuel, f, w, (l - n) as nat);
        lemma_agree_skip(s1, s2, l, n + m);
        lemma_dec_loop_prefix(pool, t, s1.skip((n + m) as int), s2.skip((n + m) as int), o2, fuel, g, (l - n - m) as nat);
    }
}

/// Decoding a field takes as many bytes as skipping it.
pub proof fn lemma_dec_field_len(pool: Seq<Table>, t: int, s: Seq<u8>, o: ObjectView, fuel: nat, fnum: u64, wt: u64)
    requires
        spec_dec_field(pool, t, s, o, fuel, fnum, wt) is Some,
    ensures
        spec_skip_field(s, wt, fuel, fnum) == Some(spec_dec_field(pool, t, s, o, fuel, fnum, wt)->Some_0.1),
    decreases fuel, s.len(), 0nat,
{
    let table = pool[t];
    if fnum < table.decode_entries@.len() && spec_known(table.decode_entries@[fnum as int].0, wt) {
        let e = table.decode_entries@[fnum as int].0;
        let k = spec_entry_kind(e);
        if k == crate::wire::FieldKind::Group || k == crate::wire::FieldKind::RepeatedGroup {
            let off = crate::decoding::spec_entry_offset(e) as int;
            let aux = table.aux_entries@[off];
            let slot = aux.offset as int;
            let ct = aux.child_table as int;
            let repeated = k == crate::wire::FieldKind::RepeatedMessage || k == crate::wire::FieldKind::RepeatedGroup;
            let child0 = if repeated {
                crate::decoding::spec_new_object(pool[ct])
            } else {
                crate::decoding::spec_child_or_new(pool, o, slot, ct)
            };
            lemma_dec_loop_len(pool, ct, s, child0, (fuel - 1) as nat, fnum);
        }
    }
}

/// Decoding the rest of a group takes as many bytes as skipping it.
pub proof fn lemma_dec_loop_len(pool: Seq<Table>, t: int, s: Seq<u8>, o: ObjectView, fuel: nat, g: u64)
    requires
        spec_dec_loop(pool, t, s, o, fuel, Some(g)) is Some,
    ensures
        spec_skip_group(s, fuel, g) == Some(spec_dec_loop(pool, t, s, o, fuel, Some(g))->Some_0.1),
    decreases fuel, s.len(), 1nat,
{
    let (tag, n) = crate::wire::spec_read_tag(s)->Some_0;
    let f = tag >> 3u64;
    let w = tag & 7;
    if w != 4 {
        let (o2, m) = spec_dec_field(pool, t, s.skip(n as int), o, fuel, f, w)->Some_0;
        lemma_dec_field_len(pool, t, s.skip(n as int), o, fuel, f, w);
        lemma_dec_loop_len(pool, t, s.skip((n + m) as int), o2, fuel, g);
    }
}

} // verus!

verus! {

/// Decoding a message's bytes followed by more bytes is decoding the first
/// part, then the rest into what the first part gave: fields that come later
/// merge into those decoded before.
pub proof fn lemma_dec_concat(pool: Seq<Table>, t: int, a: Seq<u8>, b: Seq<u8>, o: ObjectView, fuel: nat)
    requires
        crate::decoding::spec_dec_msg(pool, t, a, o, fuel) is Some,
    ensures
        crate::decoding::spec_dec_msg(pool, t, a + b, o, fuel)
            == crate::decoding::spec_dec_msg(pool, t, b, crate::decoding::spec_dec_msg(pool, t, a, o, fuel)->Some_0, fuel),
    decreases a.len(),
{
    if a.len() == 0 {
        assert(a + b =~= b);
    } else {
        let q = a + b;
        let (tag, n) = crate::wire::spec_read_tag(a)->Some_0;
        let f = tag >> 3u64;
        let w = tag & 7;
        lemma_varint_from_len(a, 0, 5, 15);
        assert(spec_agree(a, q, a.len()));
        lemma_varint_from_prefix(a, q, 0, 5, 15, a.len());
        let (o2, m) = spec_dec_field(pool, t, a.skip(n as int), o, fuel, f, w)->Some_0;
        assert(q.skip(n as int) =~= a.skip(n as int) + b);
        assert(spec_agree(a.skip(n as int), q.skip(n as int), (a.len() - n) as nat));
        lemma_dec_field_prefix(pool, t, a.skip(n as int), q.skip(n as int), o, fuel, f, w, (a.len() - n) as nat);
        assert(q.skip((n + m) as int) =~= a.skip((n + m) as int) + b);
        lemma_dec_concat(pool, t, a.skip((n + m) as int), b, o2, fuel);
    }
}

/// `u` is one complete field that table `t` does not declare (with that wire
/// type): a tag of a field number of at least 1 and a wire type other than an
/// end-group, then a value that takes the rest of `u`.
pub open spec fn spec_unknown_field(pool: Seq<Table>, t: int, u: Seq<u8>, fuel: nat) -> bool {
    crate::wire::spec_read_tag(u) matches Some((tag, n)) && {
        let f = tag >> 3u64;
        let w = tag & 7;
        let table = pool[t];
        &&& f >= 1
        &&& w != 4
        &&& !(f < table.decode_entries@.len() && spec_known(table.decode_entries@[f as int].0, w))
        &&& n <= u.len()
        &&& spec_skip_field(u.skip(n as int), w, fuel, f) == Some((u.len() - n) as nat)
    }
}

/// An unknown field is dropped wherever it stands: after a message's bytes
/// and before them, decoding gives what the message's bytes alone give.
pub proof fn lemma_unknown_field_dropped(pool: Seq<Table>, t: int, data: Seq<u8>, u: Seq<u8>, o: ObjectView, fuel: nat)
    requires
        crate::decoding::spec_dec_msg(pool, t, data, o, fuel) is Some,
        spec_unknown_field(pool, t, u, fuel),
    ensures
        crate::decoding::spec_dec_msg(pool, t, data + u, o, fuel) == crate::decoding::spec_dec_msg(pool, t, data, o, fuel),
        crate::decoding::spec_dec_msg(pool, t, u + data, o, fuel) == crate::decoding::spec_dec_msg(pool, t, data, o, fuel),
{
    let (tag, n) = crate::wire::spec_read_tag(u)->Some_0;
    let f = tag >> 3u64;
    let w = tag & 7;
    lemma_varint_from_len(u, 0, 5, 15);
    // u alone decodes to the object it is decoded into
    assert forall|x: ObjectView| crate::decoding::spec_dec_msg(pool, t, u, x, fuel) == Some(x) by {
        assert(spec_dec_field(pool, t, u.skip(n as int), x, fuel, f, w) == Some((x, (u.len() - n) as nat)));
        assert(u.skip(u.len() as int) =~= Seq::<u8>::empty());
    }
    lemma_dec_concat(pool, t, data, u, o, fuel);
    lemma_dec_concat(pool, t, u, data, o, fuel);
}

} // verus!
