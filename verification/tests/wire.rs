use protocrap::wire::{read_varint, varint_size, zigzag_decode, zigzag_encode, ReadCursor, WriteCursor};

#[test]
fn zigzag_maps_small_magnitudes_to_small_codes() {
    assert_eq!(zigzag_encode(0), 0);
    assert_eq!(zigzag_encode(-1), 1);
    assert_eq!(zigzag_encode(1), 2);
    assert_eq!(zigzag_encode(-2), 3);
    assert_eq!(zigzag_encode(i64::MIN), u64::MAX);
    for x in [0i64, 1, -1, 12345, -987654321, i64::MAX, i64::MIN] {
        assert_eq!(zigzag_decode(zigzag_encode(x)), x);
    }
    for y in [0u64, 1, 2, 3, u64::MAX, 1 << 63] {
        assert_eq!(zigzag_encode(zigzag_decode(y)), y);
    }
}

#[test]
fn varints_write_and_read_back() {
    let mut buf = [0u8; 4];
    let (mut c, begin) = WriteCursor::new(&buf);
    assert_eq!(begin, 0);
    assert_eq!(c.0, 4);
    c.write_varint(&mut buf, 300);
    assert_eq!(buf, [0x00, 0x00, 0xAC, 0x02]);
    assert_eq!(c.0 - begin, 2);

    let mut out = [0u8; 17];
    let (mut w, start) = WriteCursor::new(&out);
    w.write_fixed32(&mut out, 0xDEADBEEF);
    w.write_tag(&mut out, (1 << 3) | 2);
    w.write_varint(&mut out, u64::MAX);
    w.write_varint(&mut out, 300);
    assert_eq!(w.0, start);
    assert_eq!(&out[..2], &[0xAC, 0x02]);
    assert_eq!(varint_size(300), 2);
    assert_eq!(varint_size(u64::MAX), 10);
    let buf = out.to_vec();
    let (mut r, end) = ReadCursor::new(&buf);
    assert_eq!(end, buf.len());
    assert_eq!(r.read_varint(&buf), Some(300));
    assert_eq!(r.read_varint(&buf), Some(u64::MAX));
    assert_eq!(r.read_tag(&buf), Some(10));
    assert_eq!(r.read_slice(&buf, 4), Some(&[0xEF, 0xBE, 0xAD, 0xDE][..]));
    assert_eq!(r.read_varint(&buf), None);
    assert_eq!(read_varint(&[0x80, 0x80], 0), None);
    let mut s = [9u8; 5];
    let (mut ws, _) = WriteCursor::new(&s);
    ws.write_slice(&mut s, b"ab");
    assert_eq!(s, [9, 9, 9, b'a', b'b']);
}
