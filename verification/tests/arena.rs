use protocrap::arena::{Arena, DEFAULT_BLOCK_SIZE};

#[test]
fn test_basic_allocation() {
    let mut arena = Arena::new();

    let ptr1 = arena.allocate::<u32>();
    let ptr2 = arena.allocate::<u64>();

    arena.write_u32(ptr1, 0, 42);
    arena.write_u64(ptr2, 0, 1337);

    assert_eq!(arena.read_u32(ptr1, 0), 42);
    assert_eq!(arena.read_u64(ptr2, 0), 1337);
}

#[test]
fn test_slice_allocation() {
    let mut arena = Arena::new();

    let slice = arena.alloc_slice::<u32>(100);
    arena.write_u32(slice.ptr, 0, 1);
    arena.write_u32(slice.ptr, 99, 2);

    assert_eq!(slice.len, 100);
    assert_eq!(arena.read_u32(slice.ptr, 0), 1);
    assert_eq!(arena.read_u32(slice.ptr, 99), 2);
}

#[test]
fn test_alignment() {
    let mut arena = Arena::new();

    let _u8_ptr = arena.allocate::<u8>();
    let u64_ptr = arena.allocate::<u64>();

    assert_eq!(u64_ptr.addr % std::mem::align_of::<u64>(), 0);
}

#[test]
fn test_large_allocation() {
    let mut arena = Arena::new();

    let large_slice = arena.alloc_slice::<u8>(DEFAULT_BLOCK_SIZE * 2);
    arena.write_u8(large_slice.ptr, 0, 1);
    arena.write_u8(large_slice.ptr, large_slice.len - 1, 2);

    assert_eq!(arena.read_u8(large_slice.ptr, 0), 1);
    assert_eq!(arena.read_u8(large_slice.ptr, large_slice.len - 1), 2);
}

#[test]
fn first_block_has_default_size() {
    let mut arena = Arena::new();
    assert_eq!(arena.bytes_allocated(), 0);
    let _p = arena.allocate::<u64>();
    // header 24 bytes, the u64 at 24, padded to 32, then 8192 bytes
    assert_eq!(arena.bytes_allocated(), 32 + 8192);
    let _q = arena.allocate::<u64>();
    assert_eq!(arena.bytes_allocated(), 32 + 8192);
}

#[test]
fn blocks_double_in_size() {
    let mut arena = Arena::new();
    let _a = arena.alloc_slice::<u8>(8000);
    // header 24 + 8000 padded to 8024, then 8192 bytes
    assert_eq!(arena.bytes_allocated(), 16216);
    // fits in the 8192 free bytes
    let _b = arena.alloc_slice::<u8>(8000);
    assert_eq!(arena.bytes_allocated(), 16216);
    // 192 bytes left: a new block of 24 + 1000 and twice the current size
    let _c = arena.alloc_slice::<u8>(1000);
    assert_eq!(arena.bytes_allocated(), 16216 + 1024 + 2 * 16216);
}

#[test]
fn large_allocation_keeps_current_block() {
    let mut arena = Arena::new();
    let small = arena.allocate::<u32>();
    let before = arena.bytes_allocated();
    // much space left: a block of its own
    let _big = arena.alloc_slice::<u8>(20000);
    assert_eq!(arena.bytes_allocated(), before + 24 + 20000);
    let next = arena.allocate::<u32>();
    // the free part of the block starts after the first allocation padded to 8
    assert_eq!(next.addr, small.addr + 8);
}

#[test]
fn writes_do_not_touch_other_allocations() {
    let mut arena = Arena::new();
    let a = arena.allocate::<u32>();
    let b = arena.allocate::<u32>();
    arena.write_u32(a, 0, 7);
    arena.write_u32(b, 0, 9);
    assert_eq!(arena.read_u32(a, 0), 7);
    assert_eq!(arena.read_u32(b, 0), 9);
}

#[test]
fn zero_size_allocations_are_never_at_address_zero() {
    let mut arena = Arena::new();
    let p = arena.alloc_raw(0, 1);
    assert!(p.addr > 0);
    assert_eq!(p.len, 0);
    let q = arena.alloc_raw(0, 8);
    assert!(q.addr > 0);
    assert_eq!(q.addr % 8, 0);
    let s = arena.alloc_slice::<u64>(0);
    assert!(s.ptr.addr > 0);
}
