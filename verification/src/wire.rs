//! Wire-format primitives: zigzag coding, varints, tags and cursors.
use vstd::prelude::*;

verus! {

/// The value that a zigzag-coded `n` stands for.
pub open spec fn spec_zigzag_decode(n: u64) -> int {
    if n % 2 == 0 {
        (n / 2) as int
    } else {
        -((n / 2) as int) - 1
    }
}

/// The zigzag code of `n`.
pub open spec fn spec_zigzag_encode(n: i64) -> int {
    if n >= 0 {
        2 * n
    } else {
        -2 * n - 1
    }
}

/// Maps an unsigned zigzag code back to the signed value it stands for.
pub fn zigzag_decode(n: u64) -> (r: i64)
    ensures
        r as int == spec_zigzag_decode(n),
{
    assert(n >> 1 <= 0x7fff_ffff_ffff_ffff && n & 1 <= 1) by (bit_vector);
    let half = (n >> 1) as i64;
    let sign = -((n & 1) as i64);
    let r = half ^ sign;
    assert(r as int == spec_zigzag_decode(n)) by (bit_vector)
        requires
            half == (n >> 1) as i64,
            sign == -((n & 1) as i64),
            r == half ^ sign,
    ;
    r
}

/// Maps a signed value to its zigzag code: small magnitudes get small codes.
pub fn zigzag_encode(n: i64) -> (r: u64)
    ensures
        r as int == spec_zigzag_encode(n),
{
    let r = ((n as u64) << 1) ^ ((n >> 63) as u64);
    assert(r as int == spec_zigzag_encode(n)) by (bit_vector)
        requires
            r == ((n as u64) << 1) ^ ((n >> 63) as u64),
    ;
    r
}

} // verus!

verus! {

/// Bytes at which a varint, tag or size code stops: `cap` bytes at most, and the
/// last of `cap` bytes must lie in `1..=last_max`.
pub open spec fn spec_varint_from(s: Seq<u8>, k: nat, cap: nat, last_max: u8) -> Option<(u64, nat)>
    decreases cap - k,
{
    if k >= cap || k >= s.len() {
        None
    } else if k + 1 == cap && !(1 <= s[k as int] && s[k as int] <= last_max) {
        None
    } else if s[k as int] < 0x80 {
        Some((s[k as int] as u64, k + 1))
    } else {
        match spec_varint_from(s, k + 1, cap, last_max) {
            Some((r, n)) => Some((((s[k as int] & 0x7f) as u64) | (r << 7u64), n)),
            None => None,
        }
    }
}

/// A 64-bit varint at the start of `s`: its value and its length in bytes.
pub open spec fn spec_read_varint(s: Seq<u8>) -> Option<(u64, nat)> {
    spec_varint_from(s, 0, 10, 1)
}

/// A tag at the start of `s` (at most 5 bytes, value below 2^32).
pub open spec fn spec_read_tag(s: Seq<u8>) -> Option<(u64, nat)> {
    spec_varint_from(s, 0, 5, 15)
}

/// A length prefix at the start of `s` (at most 5 bytes, value below 2^31).
pub open spec fn spec_read_size(s: Seq<u8>) -> Option<(u64, nat)> {
    spec_varint_from(s, 0, 5, 7)
}

/// The varint encoding of `v`: 7 bits per byte, low bits first, high bit set on
/// every byte but the last.
pub open spec fn spec_varint_bytes(v: u64) -> Seq<u8>
    decreases v,
{
    if v < 0x80 {
        seq![v as u8]
    } else {
        proof {
            assert(v >= 0x80 ==> v >> 7u64 < v) by (bit_vector);
        }
        seq![((v & 0x7f) | 0x80) as u8] + spec_varint_bytes(v >> 7u64)
    }
}

pub proof fn lemma_varint_bytes_len(v: u64)
    ensures
        1 <= spec_varint_bytes(v).len() <= 10,
        spec_varint_bytes(v).len() == 1 <==> v < 0x80,
    decreases v,
{
    if v >= 0x80 {
        assert(v >= 0x80 ==> v >> 7u64 < v) by (bit_vector);
        assert((v >> 7u64) >> 57u64 == 0) by (bit_vector);
        lemma_varint_bytes_len_bound(v >> 7u64, 1);
    }
}

proof fn lemma_varint_bytes_len_bound(v: u64, k: nat)
    requires
        1 <= k <= 9,
        v >> ((64 - 7 * k) as u64) == 0,
    ensures
        spec_varint_bytes(v).len() <= 10 - k,
    decreases v,
{
    if v >= 0x80 {
        assert(v >= 0x80 ==> v >> 7u64 < v) by (bit_vector);
        if k == 9 {
            assert(v >> 1u64 == 0 ==> v < 0x80) by (bit_vector);
        } else {
            let s = (64 - 7 * k) as u64;
            let s1 = (64 - 7 * (k + 1)) as u64;
            assert(v >> s == 0 && s1 + 7 == s && s <= 57 ==> (v >> 7u64) >> s1 == 0) by (bit_vector);
            lemma_varint_bytes_len_bound(v >> 7u64, k + 1);
        }
    }
}

/// Reading a varint back from its encoding, whatever follows it, gives the value
/// and the encoding's length.
pub proof fn lemma_varint_roundtrip(v: u64, t: Seq<u8>)
    ensures
        spec_read_varint(spec_varint_bytes(v) + t) == Some((v, spec_varint_bytes(v).len())),
{
    assert(v >> 63u64 <= 1) by (bit_vector);
    lemma_varint_from_roundtrip(v, Seq::empty(), t, 0, 10, 1);
    assert(Seq::<u8>::empty() + spec_varint_bytes(v) + t =~= spec_varint_bytes(v) + t);
}

/// A tag written as a varint reads back as the same tag.
pub proof fn lemma_tag_roundtrip(v: u64, t: Seq<u8>)
    requires
        v <= u32::MAX,
    ensures
        spec_read_tag(spec_varint_bytes(v) + t) == Some((v, spec_varint_bytes(v).len())),
{
    assert(v <= 0xffff_ffff ==> v >> 28u64 <= 15) by (bit_vector);
    lemma_varint_from_roundtrip(v, Seq::empty(), t, 0, 5, 15);
    assert(Seq::<u8>::empty() + spec_varint_bytes(v) + t =~= spec_varint_bytes(v) + t);
}

/// A length below 2^31 written as a varint reads back as the same length.
pub proof fn lemma_size_roundtrip(v: u64, t: Seq<u8>)
    requires
        v < 0x8000_0000,
    ensures
        spec_read_size(spec_varint_bytes(v) + t) == Some((v, spec_varint_bytes(v).len())),
{
    assert(v < 0x8000_0000 ==> v >> 28u64 <= 7) by (bit_vector);
    lemma_varint_from_roundtrip(v, Seq::empty(), t, 0, 5, 7);
    assert(Seq::<u8>::empty() + spec_varint_bytes(v) + t =~= spec_varint_bytes(v) + t);
}

proof fn lemma_varint_from_roundtrip(v: u64, pre: Seq<u8>, t: Seq<u8>, k: nat, cap: nat, last_max: u8)
    requires
        pre.len() == k,
        5 <= cap <= 10,
        k < cap,
        1 <= last_max < 0x80,
        k > 0 ==> v > 0,
        v >> ((7 * (cap - 1 - k)) as u64) <= last_max as u64,
    ensures
        spec_varint_from(pre + spec_varint_bytes(v) + t, k, cap, last_max) == Some(
            (v, k + spec_varint_bytes(v).len()),
        ),
    decreases v,
{
    let s = pre + spec_varint_bytes(v) + t;
    let sh = (7 * (cap - 1 - k)) as u64;
    if v < 0x80 {
        assert(s[k as int] == v as u8);
        if k + 1 == cap {
            assert(sh == 0);
            assert(v >> 0u64 == v) by (bit_vector);
        }
    } else {
        assert(v >= 0x80 ==> v >> 7u64 < v) by (bit_vector);
        if k + 1 == cap {
            assert(sh == 0);
            assert(v >> 0u64 == v) by (bit_vector);
        }
        let b = ((v & 0x7f) | 0x80) as u8;
        assert(s[k as int] == b);
        let pre2 = pre.push(b);
        assert(pre2 + spec_varint_bytes(v >> 7u64) + t =~= s);
        assert(v >= 0x80 ==> (v >> 7u64) > 0) by (bit_vector);
        let sh1 = (7 * (cap - 1 - (k + 1))) as u64;
        assert(sh == sh1 + 7 && sh <= 63 ==> (v >> 7u64) >> sh1 == v >> sh) by (bit_vector);
        lemma_varint_from_roundtrip(v >> 7u64, pre2, t, k + 1, cap, last_max);
        assert(b >= 0x80) by (bit_vector)
            requires
                b == ((v & 0x7f) | 0x80) as u8,
        ;
        assert((((b & 0x7f) as u64) | ((v >> 7u64) << 7u64)) == v) by (bit_vector)
            requires
                b == ((v & 0x7f) | 0x80) as u8,
        ;
    }
}

/// A code occupies bytes `k..n` of `s`, with `n` at most `cap`.
pub proof fn lemma_varint_from_len(s: Seq<u8>, k: nat, cap: nat, last_max: u8)
    ensures
        spec_varint_from(s, k, cap, last_max) matches Some((v, n)) ==> k < n && n <= s.len() && n <= cap,
    decreases cap - k,
{
    if k < cap && k < s.len() && !(k + 1 == cap && !(1 <= s[k as int] && s[k as int] <= last_max))
        && s[k as int] >= 0x80 {
        lemma_varint_from_len(s, k + 1, cap, last_max);
    }
}

/// Two byte strings agree on their first `l` bytes.
pub open spec fn spec_agree(s1: Seq<u8>, s2: Seq<u8>, l: nat) -> bool {
    &&& l <= s1.len()
    &&& l <= s2.len()
    &&& forall|i: int| 0 <= i < l ==> s1[i] == s2[i]
}

/// A code is read from its own bytes alone: another string that agrees on
/// them reads the same code.
pub proof fn lemma_varint_from_prefix(s1: Seq<u8>, s2: Seq<u8>, k: nat, cap: nat, last_max: u8, l: nat)
    requires
        spec_agree(s1, s2, l),
        spec_varint_from(s1, k, cap, last_max) matches Some((v, n)) && n <= l,
    ensures
        spec_varint_from(s2, k, cap, last_max) == spec_varint_from(s1, k, cap, last_max),
    decreases cap - k,
{
    lemma_varint_from_len(s1, k, cap, last_max);
    assert(s1[k as int] == s2[k as int]);
    if s1[k as int] >= 0x80 && !(k + 1 == cap && !(1 <= s1[k as int] && s1[k as int] <= last_max)) {
        lemma_varint_from_prefix(s1, s2, k + 1, cap, last_max, l);
    }
}

/// Reads the code that starts at `buf[start]`, from its `k`-th byte on.
fn read_varint_from(buf: &[u8], start: usize, k: usize, cap: usize, last_max: u8) -> (r: Option<
    (u64, usize),
>)
    requires
        start <= buf.len(),
        k < cap <= 10,
        last_max < 0x80,
    ensures
        match spec_varint_from(buf@.subrange(start as int, buf@.len() as int), k as nat, cap as nat, last_max) {
            Some((v, n)) => r == Some((v, (start + n) as usize)),
            None => r is None,
        },
    decreases cap - k,
{
    let ghost s = buf@.subrange(start as int, buf@.len() as int);
    proof {
        lemma_varint_from_len(s, k as nat, cap as nat, last_max);
    }
    if k >= buf.len() - start {
        return None;
    }
    let b = buf[start + k];
    assert(b == s[k as int]);
    if k + 1 == cap {
        if b == 0 || b > last_max {
            return None;
        }
        return Some((b as u64, start + k + 1));
    }
    if b < 0x80 {
        return Some((b as u64, start + k + 1));
    }
    match read_varint_from(buf, start, k + 1, cap, last_max) {
        Some((r, n)) => Some((((b & 0x7f) as u64) | (r << 7u64), n)),
        None => None,
    }
}

/// Reads a 64-bit varint at `buf[pos]`: its value and the position after it.
pub fn read_varint(buf: &[u8], pos: usize) -> (r: Option<(u64, usize)>)
    requires
        pos <= buf.len(),
    ensures
        match spec_read_varint(buf@.subrange(pos as int, buf@.len() as int)) {
            Some((v, n)) => r == Some((v, (pos + n) as usize)) && pos + n <= buf@.len() && n >= 1,
            None => r is None,
        },
{
    proof {
        lemma_varint_from_len(buf@.subrange(pos as int, buf@.len() as int), 0, 10, 1);
    }
    read_varint_from(buf, pos, 0, 10, 1)
}

/// Reads a tag (at most 5 bytes) at `buf[pos]`.
pub fn read_tag(buf: &[u8], pos: usize) -> (r: Option<(u32, usize)>)
    requires
        pos <= buf.len(),
    ensures
        match spec_read_tag(buf@.subrange(pos as int, buf@.len() as int)) {
            Some((v, n)) => r == Some((v as u32, (pos + n) as usize)) && v <= u32::MAX && pos + n <= buf@.len() && n >= 1,
            None => r is None,
        },
{
    let r = read_varint_from(buf, pos, 0, 5, 15);
    proof {
        lemma_capped_bound(buf@.subrange(pos as int, buf@.len() as int), 0, 5, 15);
        lemma_varint_from_len(buf@.subrange(pos as int, buf@.len() as int), 0, 5, 15);
        assert(16u64 << 28u64 == 0x1_0000_0000u64) by (bit_vector);
    }
    match r {
        Some((v, n)) => Some((v as u32, n)),
        None => None,
    }
}

/// Reads a length prefix (at most 5 bytes, below 2^31) at `buf[pos]`.
pub fn read_size(buf: &[u8], pos: usize) -> (r: Option<(usize, usize)>)
    requires
        pos <= buf.len(),
    ensures
        match spec_read_size(buf@.subrange(pos as int, buf@.len() as int)) {
            Some((v, n)) => r == Some((v as usize, (pos + n) as usize)) && v < 0x8000_0000 && pos + n <= buf@.len() && n >= 1,
            None => r is None,
        },
{
    let r = read_varint_from(buf, pos, 0, 5, 7);
    proof {
        lemma_capped_bound(buf@.subrange(pos as int, buf@.len() as int), 0, 5, 7);
        lemma_varint_from_len(buf@.subrange(pos as int, buf@.len() as int), 0, 5, 7);
        assert(8u64 << 28u64 == 0x8000_0000u64) by (bit_vector);
    }
    match r {
        Some((v, n)) => Some((v as usize, n)),
        None => None,
    }
}

/// A code of at most 5 bytes whose last byte is at most `last_max` stays below
/// `(last_max + 1) * 2^28`.
proof fn lemma_capped_bound(s: Seq<u8>, k: nat, cap: nat, last_max: u8)
    requires
        cap == 5,
        k < 5,
        1 <= last_max <= 15,
    ensures
        spec_varint_from(s, k, cap, last_max) matches Some((v, n)) ==> v < ((((last_max as int) + 1) as u64) << ((7 * (4 - k)) as u64)),
    decreases cap - k,
{
    let m = ((last_max as int) + 1) as u64;
    let sh = (7 * (4 - k)) as u64;
    match spec_varint_from(s, k, cap, last_max) {
        Some((v, n)) => {
            if k + 1 == cap {
                assert(sh == 0);
                assert(m << 0u64 == m) by (bit_vector);
            } else if s[k as int] < 0x80 {
                assert(v < 0x80);
                assert(1 <= m <= 16 && 7 <= sh <= 28 ==> 0x80 <= (m << sh)) by (bit_vector);
            } else {
                lemma_capped_bound(s, k + 1, cap, last_max);
                let b = s[k as int];
                let r = spec_varint_from(s, k + 1, cap, last_max).unwrap().0;
                let sh1 = (7 * (4 - (k + 1))) as u64;
                assert(r < (m << sh1) && sh == sh1 + 7 && sh1 <= 21 && 1 <= m <= 16
                    ==> (((b & 0x7f) as u64) | (r << 7u64)) < (m << sh)) by (bit_vector);
            }
        },
        None => {},
    }
}

} // verus!

verus! {

/// Decoding the zigzag code of a value gives the value back.
pub proof fn lemma_zigzag_roundtrip(x: i64)
    ensures
        0 <= spec_zigzag_encode(x) <= u64::MAX,
        spec_zigzag_decode(spec_zigzag_encode(x) as u64) == x,
{
}

/// Zigzag-coding the value that a code stands for gives the code back.
pub proof fn lemma_zigzag_roundtrip_code(y: u64)
    ensures
        i64::MIN <= spec_zigzag_decode(y) <= i64::MAX,
        spec_zigzag_encode(spec_zigzag_decode(y) as i64) == y,
{
}

/// Appends the varint encoding of `v` to `out`.
pub fn append_varint(out: &mut Vec<u8>, v: u64)
    ensures
        final(out)@ == old(out)@ + spec_varint_bytes(v),
{
    let mut n = v;
    while n >= 0x80
        invariant
            old(out)@ + spec_varint_bytes(v) == out@ + spec_varint_bytes(n),
        decreases n,
    {
        let b = ((n & 0x7f) | 0x80) as u8;
        let ghost before = out@;
        assert(n >= 0x80 ==> n >> 7u64 < n) by (bit_vector);
        assert(spec_varint_bytes(n) == seq![b] + spec_varint_bytes(n >> 7u64));
        out.push(b);
        assert(out@ + spec_varint_bytes(n >> 7u64) =~= before + (seq![b] + spec_varint_bytes(n >> 7u64)));
        n = n >> 7;
    }
    out.push(n as u8);
    assert(spec_varint_bytes(n) == seq![n as u8]);
}

/// The number of bytes in the varint encoding of `n`.
pub fn varint_size(n: u64) -> (r: usize)
    ensures
        r == spec_varint_bytes(n).len(),
        1 <= r <= 10,
{
    proof {
        lemma_varint_bytes_len(n);
    }
    let mut m = n;
    let mut r: usize = 1;
    while m >= 0x80
        invariant
            spec_varint_bytes(n).len() == r - 1 + spec_varint_bytes(m).len(),
            1 <= r <= 10,
            spec_varint_bytes(n).len() <= 10,
        decreases m,
    {
        assert(m >= 0x80 ==> m >> 7u64 < m) by (bit_vector);
        assert(spec_varint_bytes(m) == seq![((m & 0x7f) | 0x80) as u8] + spec_varint_bytes(m >> 7u64));
        proof {
            lemma_varint_bytes_len(m >> 7u64);
        }
        m = m >> 7;
        r = r + 1;
    }
    r
}

/// Reads 4 little-endian bytes at `buf[pos]`.
pub fn read_fixed32(buf: &[u8], pos: usize) -> (r: Option<(u32, usize)>)
    requires
        pos <= buf.len(),
    ensures
        buf@.len() - pos >= 4 ==> r == Some(
            (
                vstd::bytes::spec_u32_from_le_bytes(buf@.subrange(pos as int, pos + 4)),
                (pos + 4) as usize,
            ),
        ),
        buf@.len() - pos < 4 ==> r is None,
{
    if buf.len() - pos < 4 {
        return None;
    }
    let s = vstd::slice::slice_subrange(buf, pos, pos + 4);
    Some((vstd::bytes::u32_from_le_bytes(s), pos + 4))
}

/// Reads 8 little-endian bytes at `buf[pos]`.
pub fn read_fixed64(buf: &[u8], pos: usize) -> (r: Option<(u64, usize)>)
    requires
        pos <= buf.len(),
    ensures
        buf@.len() - pos >= 8 ==> r == Some(
            (
                vstd::bytes::spec_u64_from_le_bytes(buf@.subrange(pos as int, pos + 8)),
                (pos + 8) as usize,
            ),
        ),
        buf@.len() - pos < 8 ==> r is None,
{
    if buf.len() - pos < 8 {
        return None;
    }
    let s = vstd::slice::slice_subrange(buf, pos, pos + 8);
    Some((vstd::bytes::u64_from_le_bytes(s), pos + 8))
}

/// Appends `v` as 4 little-endian bytes.
pub fn append_fixed32(out: &mut Vec<u8>, v: u32)
    ensures
        final(out)@ == old(out)@ + vstd::bytes::spec_u32_to_le_bytes(v),
{
    let mut b = vstd::bytes::u32_to_le_bytes(v);
    out.append(&mut b);
}

/// Appends `v` as 8 little-endian bytes.
pub fn append_fixed64(out: &mut Vec<u8>, v: u64)
    ensures
        final(out)@ == old(out)@ + vstd::bytes::spec_u64_to_le_bytes(v),
{
    let mut b = vstd::bytes::u64_to_le_bytes(v);
    out.append(&mut b);
}

/// Appends a copy of `bytes` to `out`.
pub fn append_slice(out: &mut Vec<u8>, bytes: &[u8])
    ensures
        final(out)@ == old(out)@ + bytes@,
{
    let mut i: usize = 0;
    while i < bytes.len()
        invariant
            i <= bytes@.len(),
            out@ == old(out)@ + bytes@.subrange(0, i as int),
        decreases bytes@.len() - i,
    {
        out.push(bytes[i]);
        assert(old(out)@ + bytes@.subrange(0, i + 1) =~= old(out)@ + bytes@.subrange(0, i as int)
            + seq![bytes@[i as int]]);
        i = i + 1;
    }
    assert(bytes@.subrange(0, bytes@.len() as int) =~= bytes@);
}

} // verus!

verus! {

/// How a field is stored in an object and written on the wire.
#[derive(Clone, Copy, PartialEq, Eq, Debug, Structural)]
pub enum FieldKind {
    Unknown,
    Varint64,
    Varint32,
    Varint64Zigzag,
    Varint32Zigzag,
    Bool,
    Fixed64,
    Fixed32,
    Bytes,
    Message,
    Group,
    RepeatedVarint64,
    RepeatedVarint32,
    RepeatedVarint64Zigzag,
    RepeatedVarint32Zigzag,
    RepeatedBool,
    RepeatedFixed64,
    RepeatedFixed32,
    RepeatedBytes,
    RepeatedMessage,
    RepeatedGroup,
    /// A signed 32-bit value (int32 or enum), written sign-extended to 64 bits.
    Int32,
    /// Repeated signed 32-bit values, each written sign-extended to 64 bits.
    RepeatedInt32,
}

/// The number that stands for a kind in a packed table entry.
pub open spec fn spec_kind_to_u8(k: FieldKind) -> u8 {
    match k {
        FieldKind::Unknown => 0,
        FieldKind::Varint64 => 1,
        FieldKind::Varint32 => 2,
        FieldKind::Varint64Zigzag => 3,
        FieldKind::Varint32Zigzag => 4,
        FieldKind::Bool => 5,
        FieldKind::Fixed64 => 6,
        FieldKind::Fixed32 => 7,
        FieldKind::Bytes => 8,
        FieldKind::Message => 9,
        FieldKind::Group => 10,
        FieldKind::RepeatedVarint64 => 11,
        FieldKind::RepeatedVarint32 => 12,
        FieldKind::RepeatedVarint64Zigzag => 13,
        FieldKind::RepeatedVarint32Zigzag => 14,
        FieldKind::RepeatedBool => 15,
        FieldKind::RepeatedFixed64 => 16,
        FieldKind::RepeatedFixed32 => 17,
        FieldKind::RepeatedBytes => 18,
        FieldKind::RepeatedMessage => 19,
        FieldKind::RepeatedGroup => 20,
        FieldKind::Int32 => 21,
        FieldKind::RepeatedInt32 => 22,
    }
}

/// The kind that a number stands for; numbers past the last kind stand for `Unknown`.
pub open spec fn spec_kind_from_u8(b: u8) -> FieldKind {
    if b == 1 {
        FieldKind::Varint64
    } else if b == 2 {
        FieldKind::Varint32
    } else if b == 3 {
        FieldKind::Varint64Zigzag
    } else if b == 4 {
        FieldKind::Varint32Zigzag
    } else if b == 5 {
        FieldKind::Bool
    } else if b == 6 {
        FieldKind::Fixed64
    } else if b == 7 {
        FieldKind::Fixed32
    } else if b == 8 {
        FieldKind::Bytes
    } else if b == 9 {
        FieldKind::Message
    } else if b == 10 {
        FieldKind::Group
    } else if b == 11 {
        FieldKind::RepeatedVarint64
    } else if b == 12 {
        FieldKind::RepeatedVarint32
    } else if b == 13 {
        FieldKind::RepeatedVarint64Zigzag
    } else if b == 14 {
        FieldKind::RepeatedVarint32Zigzag
    } else if b == 15 {
        FieldKind::RepeatedBool
    } else if b == 16 {
        FieldKind::RepeatedFixed64
    } else if b == 17 {
        FieldKind::RepeatedFixed32
    } else if b == 18 {
        FieldKind::RepeatedBytes
    } else if b == 19 {
        FieldKind::RepeatedMessage
    } else if b == 20 {
        FieldKind::RepeatedGroup
    } else if b == 21 {
        FieldKind::Int32
    } else if b == 22 {
        FieldKind::RepeatedInt32
    } else {
        FieldKind::Unknown
    }
}

/// Every kind is read back from its number.
pub proof fn lemma_kind_u8_roundtrip(k: FieldKind)
    ensures
        spec_kind_from_u8(spec_kind_to_u8(k)) == k,
        spec_kind_to_u8(k) <= 22,
{
}

impl FieldKind {
    /// The number that stands for this kind in a packed table entry.
    pub fn to_u8(self) -> (r: u8)
        ensures
            r == spec_kind_to_u8(self),
    {
        match self {
            FieldKind::Unknown => 0,
            FieldKind::Varint64 => 1,
            FieldKind::Varint32 => 2,
            FieldKind::Varint64Zigzag => 3,
            FieldKind::Varint32Zigzag => 4,
            FieldKind::Bool => 5,
            FieldKind::Fixed64 => 6,
            FieldKind::Fixed32 => 7,
            FieldKind::Bytes => 8,
            FieldKind::Message => 9,
            FieldKind::Group => 10,
            FieldKind::RepeatedVarint64 => 11,
            FieldKind::RepeatedVarint32 => 12,
            FieldKind::RepeatedVarint64Zigzag => 13,
            FieldKind::RepeatedVarint32Zigzag => 14,
            FieldKind::RepeatedBool => 15,
            FieldKind::RepeatedFixed64 => 16,
            FieldKind::RepeatedFixed32 => 17,
            FieldKind::RepeatedBytes => 18,
            FieldKind::RepeatedMessage => 19,
            FieldKind::RepeatedGroup => 20,
            FieldKind::Int32 => 21,
            FieldKind::RepeatedInt32 => 22,
        }
    }

    /// The kind that a number stands for (`Unknown` past the last kind).
    pub fn from_u8(b: u8) -> (r: FieldKind)
        ensures
            r == spec_kind_from_u8(b),
    {
        if b == 1 {
            FieldKind::Varint64
        } else if b == 2 {
            FieldKind::Varint32
        } else if b == 3 {
            FieldKind::Varint64Zigzag
        } else if b == 4 {
            FieldKind::Varint32Zigzag
        } else if b == 5 {
            FieldKind::Bool
        } else if b == 6 {
            FieldKind::Fixed64
        } else if b == 7 {
            FieldKind::Fixed32
        } else if b == 8 {
            FieldKind::Bytes
        } else if b == 9 {
            FieldKind::Message
        } else if b == 10 {
            FieldKind::Group
        } else if b == 11 {
            FieldKind::RepeatedVarint64
        } else if b == 12 {
            FieldKind::RepeatedVarint32
        } else if b == 13 {
            FieldKind::RepeatedVarint64Zigzag
        } else if b == 14 {
            FieldKind::RepeatedVarint32Zigzag
        } else if b == 15 {
            FieldKind::RepeatedBool
        } else if b == 16 {
            FieldKind::RepeatedFixed64
        } else if b == 17 {
            FieldKind::RepeatedFixed32
        } else if b == 18 {
            FieldKind::RepeatedBytes
        } else if b == 19 {
            FieldKind::RepeatedMessage
        } else if b == 20 {
            FieldKind::RepeatedGroup
        } else if b == 21 {
            FieldKind::Int32
        } else if b == 22 {
            FieldKind::RepeatedInt32
        } else {
            FieldKind::Unknown
        }
    }
}

/// A read position in a byte buffer.
pub struct ReadCursor(pub usize);

impl ReadCursor {
    /// A cursor at the start of `buffer`, and the buffer's end position.
    pub fn new(buffer: &[u8]) -> (r: (ReadCursor, usize))
        ensures
            r.0.0 == 0,
            r.1 == buffer@.len(),
    {
        (ReadCursor(0), buffer.len())
    }

    /// Reads a 64-bit varint and moves past it.
    pub fn read_varint(&mut self, buf: &[u8]) -> (r: Option<u64>)
        requires
            old(self).0 <= buf.len(),
        ensures
            match spec_read_varint(buf@.subrange(old(self).0 as int, buf@.len() as int)) {
                Some((v, n)) => r == Some(v) && final(self).0 == old(self).0 + n,
                None => r is None && final(self).0 == old(self).0,
            },
    {
        match read_varint(buf, self.0) {
            Some((v, p)) => {
                self.0 = p;
                Some(v)
            },
            None => None,
        }
    }

    /// Reads a tag and moves past it.
    pub fn read_tag(&mut self, buf: &[u8]) -> (r: Option<u32>)
        requires
            old(self).0 <= buf.len(),
        ensures
            match spec_read_tag(buf@.subrange(old(self).0 as int, buf@.len() as int)) {
                Some((v, n)) => r == Some(v as u32) && final(self).0 == old(self).0 + n,
                None => r is None && final(self).0 == old(self).0,
            },
    {
        match read_tag(buf, self.0) {
            Some((v, p)) => {
                self.0 = p;
                Some(v)
            },
            None => None,
        }
    }

    /// Reads a length prefix and moves past it.
    pub fn read_size(&mut self, buf: &[u8]) -> (r: Option<usize>)
        requires
            old(self).0 <= buf.len(),
        ensures
            match spec_read_size(buf@.subrange(old(self).0 as int, buf@.len() as int)) {
                Some((v, n)) => r == Some(v as usize) && final(self).0 == old(self).0 + n,
                None => r is None && final(self).0 == old(self).0,
            },
    {
        match read_size(buf, self.0) {
            Some((v, p)) => {
                self.0 = p;
                Some(v)
            },
            None => None,
        }
    }

    /// Reads `len` bytes and moves past them; `None` where fewer remain.
    pub fn read_slice<'a>(&mut self, buf: &'a [u8], len: usize) -> (r: Option<&'a [u8]>)
        requires
            old(self).0 <= buf.len(),
        ensures
            buf@.len() - old(self).0 >= len ==> r is Some && r.unwrap()@ == buf@.subrange(
                old(self).0 as int,
                old(self).0 + len,
            ) && final(self).0 == old(self).0 + len,
            buf@.len() - old(self).0 < len ==> r is None && final(self).0 == old(self).0,
    {
        if buf.len() - self.0 < len {
            return None;
        }
        let s = vstd::slice::slice_subrange(buf, self.0, self.0 + len);
        self.0 = self.0 + len;
        Some(s)
    }

    /// Reads the two bytes at the cursor as a little-endian number, without moving.
    pub fn peek_tag(&self, buf: &[u8]) -> (r: Option<u32>)
        requires
            self.0 <= buf.len(),
        ensures
            buf@.len() - self.0 >= 2 ==> r == Some((buf@[self.0 as int] as u32 + 256 * (buf@[self.0 + 1] as u32)) as u32),
            buf@.len() - self.0 < 2 ==> r is None,
    {
        if buf.len() - self.0 < 2 {
            return None;
        }
        Some(buf[self.0] as u32 + 256 * (buf[self.0 + 1] as u32))
    }
}

/// A write position in a byte buffer that moves from the buffer's end
/// towards its start: each write puts its bytes just before the position.
pub struct WriteCursor(pub usize);

/// `buf` after `bytes` were written just before position `pos` of `old`.
pub open spec fn spec_written_before(old: Seq<u8>, pos: int, bytes: Seq<u8>) -> Seq<u8> {
    old.subrange(0, pos - bytes.len()) + bytes + old.subrange(pos, old.len() as int)
}

impl WriteCursor {
    /// A cursor at the end of `buffer`, and the buffer's start position.
    pub fn new(buffer: &[u8]) -> (r: (WriteCursor, usize))
        ensures
            r.0.0 == buffer@.len(),
            r.1 == 0,
    {
        (WriteCursor(buffer.len()), 0)
    }

    /// Puts `bytes` just before the cursor and moves the cursor before them.
    fn put(&mut self, buf: &mut [u8], bytes: &[u8])
        requires
            old(self).0 <= old(buf)@.len(),
            bytes@.len() <= old(self).0,
        ensures
            final(self).0 == old(self).0 - bytes@.len(),
            final(buf)@ == spec_written_before(old(buf)@, old(self).0 as int, bytes@),
    {
        let start = self.0 - bytes.len();
        let mut j: usize = 0;
        while j < bytes.len()
            invariant
                start + bytes@.len() == old(self).0,
                old(self).0 <= old(buf)@.len(),
                buf@.len() == old(buf)@.len(),
                j <= bytes@.len(),
                forall|i: int| 0 <= i < buf@.len() ==> #[trigger] buf@[i] == if start <= i < start + j {
                    bytes@[i - start]
                } else {
                    old(buf)@[i]
                },
            decreases bytes@.len() - j,
        {
            buf[start + j] = bytes[j];
            j += 1;
        }
        self.0 = start;
        assert(buf@ =~= spec_written_before(old(buf)@, old(self).0 as int, bytes@));
    }

    /// Writes the varint encoding of `n` just before the cursor.
    pub fn write_varint(&mut self, buf: &mut [u8], n: u64)
        requires
            old(self).0 <= old(buf)@.len(),
            spec_varint_bytes(n).len() <= old(self).0,
        ensures
            final(self).0 == old(self).0 - spec_varint_bytes(n).len(),
            final(buf)@ == spec_written_before(old(buf)@, old(self).0 as int, spec_varint_bytes(n)),
    {
        let mut b: Vec<u8> = Vec::new();
        append_varint(&mut b, n);
        assert(b@ =~= spec_varint_bytes(n));
        self.put(buf, b.as_slice());
    }

    /// Writes the encoding of a tag just before the cursor.
    pub fn write_tag(&mut self, buf: &mut [u8], tag: u32)
        requires
            old(self).0 <= old(buf)@.len(),
            spec_varint_bytes(tag as u64).len() <= old(self).0,
        ensures
            final(self).0 == old(self).0 - spec_varint_bytes(tag as u64).len(),
            final(buf)@ == spec_written_before(old(buf)@, old(self).0 as int, spec_varint_bytes(tag as u64)),
    {
        self.write_varint(buf, tag as u64);
    }

    /// Writes a copy of `slice` just before the cursor.
    pub fn write_slice(&mut self, buf: &mut [u8], slice: &[u8])
        requires
            old(self).0 <= old(buf)@.len(),
            slice@.len() <= old(self).0,
        ensures
            final(self).0 == old(self).0 - slice@.len(),
            final(buf)@ == spec_written_before(old(buf)@, old(self).0 as int, slice@),
    {
        self.put(buf, slice);
    }

    /// Writes `v` as 8 little-endian bytes just before the cursor.
    pub fn write_fixed64(&mut self, buf: &mut [u8], v: u64)
        requires
            old(self).0 <= old(buf)@.len(),
            8 <= old(self).0,
        ensures
            final(self).0 == old(self).0 - 8,
            final(buf)@ == spec_written_before(old(buf)@, old(self).0 as int, vstd::bytes::spec_u64_to_le_bytes(v)),
    {
        let mut b: Vec<u8> = Vec::new();
        append_fixed64(&mut b, v);
        proof {
            vstd::bytes::lemma_auto_spec_u64_to_from_le_bytes();
        }
        assert(b@ =~= vstd::bytes::spec_u64_to_le_bytes(v));
        self.put(buf, b.as_slice());
    }

    /// Writes `v` as 4 little-endian bytes just before the cursor.
    pub fn write_fixed32(&mut self, buf: &mut [u8], v: u32)
        requires
            old(self).0 <= old(buf)@.len(),
            4 <= old(self).0,
        ensures
            final(self).0 == old(self).0 - 4,
            final(buf)@ == spec_written_before(old(buf)@, old(self).0 as int, vstd::bytes::spec_u32_to_le_bytes(v)),
    {
        let mut b: Vec<u8> = Vec::new();
        append_fixed32(&mut b, v);
        proof {
            vstd::bytes::lemma_auto_spec_u32_to_from_le_bytes();
        }
        assert(b@ =~= vstd::bytes::spec_u32_to_le_bytes(v));
        self.put(buf, b.as_slice());
    }
}

} // verus!
