//! A bump allocator over blocks of memory that are freed all at once.
//!
//! Memory is one address space of bytes; blocks are laid out in it one after
//! another, each at an address aligned for what it holds. Small allocations
//! are carved from the current block by moving a cursor; an allocation that
//! does not fit either gets a block of its own (where much of the current
//! block is still free) or starts a new, larger current block.
use vstd::prelude::*;

verus! {

/// The size of the first block.
pub const DEFAULT_BLOCK_SIZE: usize = 8192;

/// The size that blocks stop growing at.
pub const MAX_BLOCK_SIZE: usize = 1048576;

/// The free space of the current block that is worth keeping.
pub const SIGNIFICANT_SPACE_THRESHOLD: usize = 512;

/// The size of the header at the start of every block.
pub const BLOCK_HEADER_SIZE: usize = 24;

/// The alignment of block headers.
pub const BLOCK_HEADER_ALIGN: usize = 8;

/// `x` rounded up to a multiple of `a`.
pub open spec fn spec_round_up(x: int, a: int) -> int {
    ((x + a - 1) / a) * a
}

/// An allocation: `len` bytes from address `addr`.
#[derive(Clone, Copy, PartialEq, Eq, Debug, Structural)]
pub struct ArenaPtr {
    pub addr: usize,
    pub len: usize,
}

/// An allocation of `len` values of `elem_size` bytes each.
#[derive(Clone, Copy, PartialEq, Eq, Debug, Structural)]
pub struct ArenaSlice {
    pub ptr: ArenaPtr,
    pub len: usize,
}

pub open spec fn spec_disjoint(a: ArenaPtr, b: ArenaPtr) -> bool {
    a.addr + a.len <= b.addr || b.addr + b.len <= a.addr
}

pub struct Arena {
    memory: Vec<u8>,
    block_sizes: Vec<usize>,
    current_size: usize,
    cursor: usize,
    end: usize,
    allocations: Ghost<Seq<ArenaPtr>>,
}

impl Arena {
    /// The bytes of the address space.
    pub closed spec fn spec_memory(&self) -> Seq<u8> {
        self.memory@
    }

    /// The allocations made so far, in order.
    pub closed spec fn spec_allocations(&self) -> Seq<ArenaPtr> {
        self.allocations@
    }

    /// The sizes of the blocks taken so far, including their headers.
    pub closed spec fn spec_block_sizes(&self) -> Seq<usize> {
        self.block_sizes@
    }

    /// The size of the current block (0 where there is none).
    pub closed spec fn spec_current_size(&self) -> usize {
        self.current_size
    }

    /// The free part of the current block: from the cursor to its end.
    pub closed spec fn spec_free(&self) -> (usize, usize) {
        (self.cursor, self.end)
    }

    pub closed spec fn wf(&self) -> bool {
        &&& self.cursor <= self.end <= self.memory@.len()
        &&& (self.cursor < self.end ==> self.cursor > 0)
        &&& forall|i: int| 0 <= i < self.allocations@.len() ==> (#[trigger] self.allocations@[i]).addr + self.allocations@[i].len <= self.memory@.len()
        &&& forall|i: int| 0 <= i < self.allocations@.len() ==> spec_disjoint(#[trigger] self.allocations@[i], ArenaPtr { addr: self.cursor, len: (self.end - self.cursor) as usize })
        &&& forall|i: int, j: int| 0 <= i < j < self.allocations@.len() ==> spec_disjoint(#[trigger] self.allocations@[i], #[trigger] self.allocations@[j])
        &&& self.memory@.len() <= isize::MAX
        &&& self.current_size <= self.memory@.len()
        &&& spec_sum(self.block_sizes@) <= self.memory@.len()
    }

    /// An empty arena: no blocks, no allocations.
    pub fn new() -> (r: Self)
        ensures
            r.wf(),
            r.spec_allocations() == Seq::<ArenaPtr>::empty(),
            r.spec_block_sizes() == Seq::<usize>::empty(),
            r.spec_current_size() == 0,
            r.spec_free() == (0usize, 0usize),
            r.spec_memory().len() == 0,
    {
        Arena {
            memory: Vec::new(),
            block_sizes: Vec::new(),
            current_size: 0,
            cursor: 0,
            end: 0,
            allocations: Ghost(Seq::empty()),
        }
    }

    /// Allocates room for a value of type `T`.
    pub fn allocate<T>(&mut self) -> (r: ArenaPtr)
        requires
            old(self).wf(),
            old(self).spec_memory().len() + vstd::layout::size_of::<T>() + 32 * vstd::layout::align_of::<T>() + 0x40_0000 <= isize::MAX,
        ensures
            final(self).wf(),
            r.len == vstd::layout::size_of::<T>(),
            (r.addr as int) % (vstd::layout::align_of::<T>() as int) == 0,
            r.addr > 0,
            final(self).spec_allocations() == old(self).spec_allocations().push(r),
            old(self).spec_memory().is_prefix_of(final(self).spec_memory()),
            final(self).spec_memory().len() <= old(self).spec_memory().len() + vstd::layout::size_of::<T>() + 32 * vstd::layout::align_of::<T>() + 0x40_0000,
    {
        vstd::layout::layout_for_type_is_valid::<T>();
        let size = core::mem::size_of::<T>();
        let align = core::mem::align_of::<T>();
        self.alloc_raw(size, align)
    }

    /// Allocates room for `len` values of type `T`.
    pub fn alloc_slice<T>(&mut self, len: usize) -> (r: ArenaSlice)
        requires
            old(self).wf(),
            old(self).spec_memory().len() + len * vstd::layout::size_of::<T>() + 32 * vstd::layout::align_of::<T>() + 0x40_0000 <= isize::MAX,
        ensures
            final(self).wf(),
            r.len == len,
            r.ptr.len == len * vstd::layout::size_of::<T>(),
            (r.ptr.addr as int) % (vstd::layout::align_of::<T>() as int) == 0,
            r.ptr.addr > 0,
            final(self).spec_allocations() == old(self).spec_allocations().push(r.ptr),
            old(self).spec_memory().is_prefix_of(final(self).spec_memory()),
            final(self).spec_memory().len() <= old(self).spec_memory().len() + len * vstd::layout::size_of::<T>() + 32 * vstd::layout::align_of::<T>() + 0x40_0000,
    {
        vstd::layout::layout_for_type_is_valid::<T>();
        let size = core::mem::size_of::<T>();
        let align = core::mem::align_of::<T>();
        assert(size as int == vstd::layout::size_of::<T>());
        assert(align as int == vstd::layout::align_of::<T>());
        assert(len * size == len * vstd::layout::size_of::<T>());
        assert(len * size <= isize::MAX) by (nonlinear_arith)
            requires
                self.memory@.len() + len * size + 32 * align + 0x40_0000 <= isize::MAX;
        let bytes = len * size;
        let ptr = self.alloc_raw(bytes, align);
        ArenaSlice { ptr, len }
    }

    /// Allocates `size` bytes at a nonzero address that is a multiple of
    /// `align`: from the current block where they fit (an arena without a
    /// block yet starts one, even for zero bytes); else in a block of their own
    /// where the current block still has `SIGNIFICANT_SPACE_THRESHOLD` bytes
    /// free; else at the start of a new current block.
    pub fn alloc_raw(&mut self, size: usize, align: usize) -> (r: ArenaPtr)
        requires
            old(self).wf(),
            align >= 1,
            old(self).spec_memory().len() + size + 32 * align + 0x40_0000 <= isize::MAX,
        ensures
            final(self).wf(),
            r.len == size,
            r.addr % align == 0,
            r.addr > 0,
            final(self).spec_allocations() == old(self).spec_allocations().push(r),
            old(self).spec_memory().is_prefix_of(final(self).spec_memory()),
            final(self).spec_memory().len() <= old(self).spec_memory().len() + size + 32 * align + 0x40_0000,
            ({
                let (cursor, end) = old(self).spec_free();
                let aligned = spec_round_up(cursor as int, align as int);
                if 0 < aligned <= end && end - aligned >= size {
                    &&& r.addr == aligned
                    &&& final(self).spec_free() == ((aligned + size) as usize, end)
                    &&& final(self).spec_block_sizes() == old(self).spec_block_sizes()
                    &&& final(self).spec_memory() == old(self).spec_memory()
                } else if aligned <= end && end - aligned >= SIGNIFICANT_SPACE_THRESHOLD {
                    &&& final(self).spec_free() == old(self).spec_free()
                    &&& final(self).spec_block_sizes() == old(self).spec_block_sizes().push(spec_dedicated_size(size as int, align as int) as usize)
                } else {
                    let block = spec_new_block_size(old(self).spec_current_size());
                    &&& final(self).spec_current_size() == spec_block_layout_size(size as int, align as int, block as int)
                    &&& final(self).spec_block_sizes() == old(self).spec_block_sizes().push(final(self).spec_current_size())
                    &&& final(self).spec_free().1 - final(self).spec_free().0 == spec_block_layout_size(size as int, align as int, block as int) - spec_first_size(size as int, align as int)
                }
            }),
    {
        let aligned = round_up(self.cursor, align);
        let available: usize = if aligned <= self.end {
            self.end - aligned
        } else {
            0
        };
        if aligned > 0 && aligned <= self.end && available >= size {
            proof {
                lemma_round_up(self.cursor as int, align as int);
            }
            let r = ArenaPtr { addr: aligned, len: size };
            self.cursor = aligned + size;
            proof {
                self.allocations@ = self.allocations@.push(r);
                assert(self.memory@.is_prefix_of(self.memory@)) by {
                    assert(self.memory@.subrange(0, self.memory@.len() as int) =~= self.memory@);
                }
            }
            return r;
        }
        self.alloc_outlined(size, align, available)
    }

    fn alloc_outlined(&mut self, size: usize, align: usize, available: usize) -> (r: ArenaPtr)
        requires
            old(self).wf(),
            align >= 1,
            old(self).spec_memory().len() + size + 32 * align + 0x40_0000 <= isize::MAX,
            available == if spec_round_up(old(self).cursor as int, align as int) <= old(self).end {
                old(self).end - spec_round_up(old(self).cursor as int, align as int)
            } else {
                0
            },
        ensures
            final(self).wf(),
            r.len == size,
            r.addr % align == 0,
            r.addr > 0,
            final(self).spec_allocations() == old(self).spec_allocations().push(r),
            old(self).spec_memory().is_prefix_of(final(self).spec_memory()),
            final(self).spec_memory().len() <= old(self).spec_memory().len() + size + 32 * align + 0x40_0000,
            available >= SIGNIFICANT_SPACE_THRESHOLD ==> final(self).spec_free() == old(self).spec_free()
                && final(self).spec_block_sizes() == old(self).spec_block_sizes().push(spec_dedicated_size(size as int, align as int) as usize),
            available < SIGNIFICANT_SPACE_THRESHOLD ==> ({
                let block = spec_new_block_size(old(self).spec_current_size());
                &&& final(self).spec_current_size() == spec_block_layout_size(size as int, align as int, block as int)
                &&& final(self).spec_block_sizes() == old(self).spec_block_sizes().push(final(self).spec_current_size())
                &&& final(self).spec_free().1 - final(self).spec_free().0 == spec_block_layout_size(size as int, align as int, block as int) - spec_first_size(size as int, align as int)
            }),
    {
        if available >= SIGNIFICANT_SPACE_THRESHOLD {
            self.alloc_dedicated(size, align)
        } else {
            self.allocate_new_block(size, align)
        }
    }

    /// Pads memory to a multiple of `8 * align` and appends a zeroed block of
    /// `total` bytes there; its start.
    fn append_block(&mut self, total: usize, align: usize) -> (base: usize)
        requires
            old(self).wf(),
            align >= 1,
            total + 16 * align <= isize::MAX - old(self).memory@.len(),
        ensures
            final(self).wf(),
            (base as int) % (8 * align as int) == 0,
            old(self).memory@.len() <= base,
            base + total == final(self).memory@.len(),
            base < old(self).memory@.len() + 8 * align,
            old(self).memory@.is_prefix_of(final(self).memory@),
            final(self).allocations == old(self).allocations,
            final(self).cursor == old(self).cursor,
            final(self).end == old(self).end,
            final(self).block_sizes == old(self).block_sizes,
            final(self).current_size == old(self).current_size,
    {
        let unit = 8 * align;
        let base = round_up(self.memory.len(), unit);
        proof {
            lemma_round_up(self.memory@.len() as int, unit as int);
        }
        let target = base + total;
        let ghost before = self.memory@;
        while self.memory.len() < target
            invariant
                target == base + total,
                target <= isize::MAX,
                before.len() <= self.memory@.len() <= target,
                before.is_prefix_of(self.memory@),
                self.cursor == old(self).cursor,
                self.end == old(self).end,
                self.allocations == old(self).allocations,
                self.block_sizes == old(self).block_sizes,
                self.current_size == old(self).current_size,
                before == old(self).memory@,
            decreases target - self.memory@.len(),
        {
            self.memory.push(0);
            proof {
                assert(self.memory@.subrange(0, before.len() as int) =~= before);
            }
        }
        base
    }

    /// Allocates `size` bytes in a block of their own; the current block
    /// stays as it is.
    fn alloc_dedicated(&mut self, size: usize, align: usize) -> (r: ArenaPtr)
        requires
            old(self).wf(),
            align >= 1,
            old(self).spec_memory().len() + size + 32 * align + 0x40_0000 <= isize::MAX,
        ensures
            final(self).wf(),
            r.len == size,
            r.addr % align == 0,
            r.addr > 0,
            final(self).spec_allocations() == old(self).spec_allocations().push(r),
            old(self).spec_memory().is_prefix_of(final(self).spec_memory()),
            final(self).spec_memory().len() <= old(self).spec_memory().len() + size + 32 * align + 0x40_0000,
            final(self).spec_free() == old(self).spec_free(),
            final(self).spec_current_size() == old(self).spec_current_size(),
            final(self).spec_block_sizes() == old(self).spec_block_sizes().push(spec_dedicated_size(size as int, align as int) as usize),
    {
        let data_offset = round_up(BLOCK_HEADER_SIZE, align);
        let block_align = if align > BLOCK_HEADER_ALIGN { align } else { BLOCK_HEADER_ALIGN };
        proof {
            lemma_round_up(BLOCK_HEADER_SIZE as int, align as int);
        }
        let total = round_up(data_offset + size, block_align);
        proof {
            lemma_round_up((data_offset + size) as int, block_align as int);
        }
        let base = self.append_block(total, align);
        let ghost sizes0 = self.block_sizes@;
        self.block_sizes.push(total);
        assert(self.block_sizes@.drop_last() =~= sizes0);
        let r = ArenaPtr { addr: base + data_offset, len: size };
        proof {
            lemma_aligned_sum(base as int, data_offset as int, align as int);
            self.allocations@ = self.allocations@.push(r);
        }
        r
    }

    /// Starts a new current block: one sized for `size` bytes at `align`
    /// followed by `DEFAULT_BLOCK_SIZE` bytes for the first block, and by twice
    /// the size of the current one (up to `MAX_BLOCK_SIZE`) after that; the
    /// `size` bytes are allocated at its start.
    fn allocate_new_block(&mut self, size: usize, align: usize) -> (r: ArenaPtr)
        requires
            old(self).wf(),
            align >= 1,
            old(self).spec_memory().len() + size + 32 * align + 0x40_0000 <= isize::MAX,
        ensures
            final(self).wf(),
            r.len == size,
            r.addr % align == 0,
            r.addr > 0,
            final(self).spec_allocations() == old(self).spec_allocations().push(r),
            old(self).spec_memory().is_prefix_of(final(self).spec_memory()),
            final(self).spec_memory().len() <= old(self).spec_memory().len() + size + 32 * align + 0x40_0000,
            ({
                let block = spec_new_block_size(old(self).spec_current_size());
                &&& final(self).spec_current_size() == spec_block_layout_size(size as int, align as int, block as int)
                &&& final(self).spec_block_sizes() == old(self).spec_block_sizes().push(final(self).spec_current_size())
                &&& final(self).spec_free().1 - final(self).spec_free().0 == spec_block_layout_size(size as int, align as int, block as int) - spec_first_size(size as int, align as int)
            }),
    {
        let data_offset = round_up(BLOCK_HEADER_SIZE, align);
        let block_align = if align > BLOCK_HEADER_ALIGN { align } else { BLOCK_HEADER_ALIGN };
        proof {
            lemma_round_up(BLOCK_HEADER_SIZE as int, align as int);
        }
        let first = round_up(data_offset + size, block_align);
        proof {
            lemma_round_up((data_offset + size) as int, block_align as int);
        }
        let new_block_size: usize = if self.current_size == 0 {
            DEFAULT_BLOCK_SIZE
        } else if self.current_size * 2 < MAX_BLOCK_SIZE {
            self.current_size * 2
        } else {
            MAX_BLOCK_SIZE
        };
        let total = round_up(first + new_block_size, block_align);
        proof {
            lemma_round_up((first + new_block_size) as int, block_align as int);
        }
        let base = self.append_block(total, align);
        let ghost sizes0 = self.block_sizes@;
        self.block_sizes.push(total);
        assert(self.block_sizes@.drop_last() =~= sizes0);
        self.current_size = total;
        self.cursor = base + first;
        self.end = base + total;
        let r = ArenaPtr { addr: base + data_offset, len: size };
        proof {
            lemma_aligned_sum(base as int, data_offset as int, align as int);
            self.allocations@ = self.allocations@.push(r);
        }
        r
    }
}

/// The size of a block of its own for `size` bytes at `align`: the header, the
/// bytes, padded to the block's alignment.
pub open spec fn spec_dedicated_size(size: int, align: int) -> int {
    let block_align = if align > BLOCK_HEADER_ALIGN { align } else { BLOCK_HEADER_ALIGN as int };
    spec_round_up(spec_round_up(BLOCK_HEADER_SIZE as int, align) + size, block_align)
}

/// The bytes that follow the first allocation in a new current block.
pub open spec fn spec_new_block_size(current_size: usize) -> usize {
    if current_size == 0 {
        DEFAULT_BLOCK_SIZE
    } else if current_size * 2 < MAX_BLOCK_SIZE {
        (current_size * 2) as usize
    } else {
        MAX_BLOCK_SIZE
    }
}

/// The size of a new current block: header and first allocation padded to the
/// block's alignment, then `extra` bytes, padded again.
pub open spec fn spec_block_layout_size(size: int, align: int, extra: int) -> int {
    let block_align = if align > BLOCK_HEADER_ALIGN { align } else { BLOCK_HEADER_ALIGN as int };
    spec_round_up(spec_first_size(size, align) + extra, block_align)
}

/// The header and the first allocation of a new block, padded to the
/// block's alignment: where its free part starts.
pub open spec fn spec_first_size(size: int, align: int) -> int {
    let block_align = if align > BLOCK_HEADER_ALIGN { align } else { BLOCK_HEADER_ALIGN as int };
    spec_round_up(spec_round_up(BLOCK_HEADER_SIZE as int, align) + size, block_align)
}

/// `x` rounded up to a multiple of `a`.
fn round_up(x: usize, a: usize) -> (r: usize)
    requires
        a >= 1,
        x + a <= usize::MAX,
    ensures
        r == spec_round_up(x as int, a as int),
{
    proof {
        lemma_round_up(x as int, a as int);
    }
    ((x + a - 1) / a) * a
}

/// A multiple of `8 * a` plus a multiple of `a` is a multiple of `a`.
proof fn lemma_aligned_sum(base: int, off: int, a: int)
    requires
        a >= 1,
        base >= 0,
        off >= 0,
        base % (8 * a) == 0,
        off % a == 0,
    ensures
        (base + off) % a == 0,
{
    let k = base / (8 * a);
    vstd::arithmetic::div_mod::lemma_fundamental_div_mod(base, 8 * a);
    assert(base == a * (8 * k)) by (nonlinear_arith)
        requires
            base == (8 * a) * k + base % (8 * a),
            base % (8 * a) == 0;
    let m = off / a;
    vstd::arithmetic::div_mod::lemma_fundamental_div_mod(off, a);
    assert(base + off == a * (8 * k + m)) by (nonlinear_arith)
        requires
            base == a * (8 * k),
            off == a * m + off % a,
            off % a == 0;
    vstd::arithmetic::div_mod::lemma_mod_multiples_basic(8 * k + m, a);
    assert((8 * k + m) * a == a * (8 * k + m)) by (nonlinear_arith);
}

proof fn lemma_round_up(x: int, a: int)
    requires
        a >= 1,
        x >= 0,
    ensures
        x <= spec_round_up(x, a) < x + a,
        spec_round_up(x, a) % a == 0,
{
    let q = (x + a - 1) / a;
    vstd::arithmetic::div_mod::lemma_fundamental_div_mod(x + a - 1, a);
    vstd::arithmetic::div_mod::lemma_mod_multiples_basic(q, a);
    assert(q * a == a * q) by (nonlinear_arith);
    assert(0 <= (x + a - 1) % a < a) by {
        vstd::arithmetic::div_mod::lemma_mod_bound(x + a - 1, a);
    }
}


impl Arena {
    /// Whether `p` is one of the allocations made.
    pub open spec fn spec_allocated(&self, p: ArenaPtr) -> bool {
        exists|k: int| 0 <= k < self.spec_allocations().len() && #[trigger] self.spec_allocations()[k] == p
    }

    proof fn lemma_allocated_in_memory(&self, p: ArenaPtr)
        requires
            self.wf(),
            self.spec_allocated(p),
        ensures
            p.addr + p.len <= self.spec_memory().len(),
    {
        let k = choose|k: int| 0 <= k < self.spec_allocations().len() && #[trigger] self.spec_allocations()[k] == p;
        assert(self.allocations@[k] == p);
    }

    /// Writes `bytes` into allocation `p` from byte `at` on; no other byte of
    /// memory changes.
    pub fn write_bytes(&mut self, p: ArenaPtr, at: usize, bytes: &[u8])
        requires
            old(self).wf(),
            old(self).spec_allocated(p),
            at + bytes@.len() <= p.len,
        ensures
            final(self).wf(),
            final(self).spec_allocations() == old(self).spec_allocations(),
            final(self).spec_block_sizes() == old(self).spec_block_sizes(),
            final(self).spec_current_size() == old(self).spec_current_size(),
            final(self).spec_free() == old(self).spec_free(),
            final(self).spec_memory().len() == old(self).spec_memory().len(),
            forall|i: int| 0 <= i < old(self).spec_memory().len() ==> #[trigger] final(self).spec_memory()[i] == if p.addr + at <= i < p.addr + at + bytes@.len() {
                bytes@[i - p.addr - at]
            } else {
                old(self).spec_memory()[i]
            },
    {
        proof {
            self.lemma_allocated_in_memory(p);
        }
        let start = p.addr + at;
        let mut i: usize = 0;
        while i < bytes.len()
            invariant
                i <= bytes@.len(),
                start == p.addr + at,
                start + bytes@.len() <= self.memory@.len(),
                self.memory@.len() <= isize::MAX,
                self.memory@.len() == old(self).memory@.len(),
                self.allocations == old(self).allocations,
                self.block_sizes == old(self).block_sizes,
                self.cursor == old(self).cursor,
                self.end == old(self).end,
                self.current_size == old(self).current_size,
                forall|k: int| 0 <= k < self.memory@.len() ==> #[trigger] self.memory@[k] == if start <= k < start + i {
                    bytes@[k - start]
                } else {
                    old(self).memory@[k]
                },
            decreases bytes@.len() - i,
        {
            self.memory.set(start + i, bytes[i]);
            i += 1;
        }
    }

    /// The `n` bytes of allocation `p` from byte `at` on.
    pub fn read_bytes(&self, p: ArenaPtr, at: usize, n: usize) -> (r: Vec<u8>)
        requires
            self.wf(),
            self.spec_allocated(p),
            at + n <= p.len,
        ensures
            r@ == self.spec_memory().subrange(p.addr + at, p.addr + at + n),
    {
        proof {
            self.lemma_allocated_in_memory(p);
        }
        let start = p.addr + at;
        let mut r: Vec<u8> = Vec::new();
        let mut i: usize = 0;
        while i < n
            invariant
                i <= n,
                start == p.addr + at,
                start + n <= self.memory@.len(),
                self.memory@.len() <= isize::MAX,
                r@ == self.memory@.subrange(start as int, start + i),
            decreases n - i,
        {
            r.push(self.memory[start + i]);
            i += 1;
            assert(r@ =~= self.memory@.subrange(start as int, start + i));
        }
        r
    }

    /// Writes `v` as element `index` of a slice of `u32` values at `p`.
    pub fn write_u32(&mut self, p: ArenaPtr, index: usize, v: u32)
        requires
            old(self).wf(),
            old(self).spec_allocated(p),
            4 * index + 4 <= p.len,
        ensures
            final(self).wf(),
            final(self).spec_allocations() == old(self).spec_allocations(),
            final(self).spec_block_sizes() == old(self).spec_block_sizes(),
            final(self).spec_current_size() == old(self).spec_current_size(),
            final(self).spec_free() == old(self).spec_free(),
            final(self).spec_memory().len() == old(self).spec_memory().len(),
            final(self).spec_memory().subrange(p.addr + 4 * index, p.addr + 4 * index + 4) == vstd::bytes::spec_u32_to_le_bytes(v),
            forall|i: int| 0 <= i < old(self).spec_memory().len() && !(p.addr + 4 * index <= i < p.addr + 4 * index + 4) ==> #[trigger] final(self).spec_memory()[i] == old(self).spec_memory()[i],
    {
        let mut b: Vec<u8> = Vec::new();
        crate::wire::append_fixed32(&mut b, v);
        proof {
            vstd::bytes::lemma_auto_spec_u32_to_from_le_bytes();
            assert(b@ =~= vstd::bytes::spec_u32_to_le_bytes(v));
        }
        self.write_bytes(p, 4 * index, b.as_slice());
        assert(self.spec_memory().subrange(p.addr + 4 * index, p.addr + 4 * index + 4) =~= b@);
    }

    /// Element `index` of a slice of `u32` values at `p`.
    pub fn read_u32(&self, p: ArenaPtr, index: usize) -> (r: u32)
        requires
            self.wf(),
            self.spec_allocated(p),
            4 * index + 4 <= p.len,
        ensures
            r == vstd::bytes::spec_u32_from_le_bytes(self.spec_memory().subrange(p.addr + 4 * index, p.addr + 4 * index + 4)),
    {
        let b = self.read_bytes(p, 4 * index, 4);
        match crate::wire::read_fixed32(b.as_slice(), 0) {
            Some((v, _)) => {
                assert(b@.subrange(0, 4) =~= b@);
                v
            },
            None => 0,
        }
    }

    /// Writes `v` as element `index` of a slice of `u64` values at `p`.
    pub fn write_u64(&mut self, p: ArenaPtr, index: usize, v: u64)
        requires
            old(self).wf(),
            old(self).spec_allocated(p),
            8 * index + 8 <= p.len,
        ensures
            final(self).wf(),
            final(self).spec_allocations() == old(self).spec_allocations(),
            final(self).spec_block_sizes() == old(self).spec_block_sizes(),
            final(self).spec_current_size() == old(self).spec_current_size(),
            final(self).spec_free() == old(self).spec_free(),
            final(self).spec_memory().len() == old(self).spec_memory().len(),
            final(self).spec_memory().subrange(p.addr + 8 * index, p.addr + 8 * index + 8) == vstd::bytes::spec_u64_to_le_bytes(v),
            forall|i: int| 0 <= i < old(self).spec_memory().len() && !(p.addr + 8 * index <= i < p.addr + 8 * index + 8) ==> #[trigger] final(self).spec_memory()[i] == old(self).spec_memory()[i],
    {
        let mut b: Vec<u8> = Vec::new();
        crate::wire::append_fixed64(&mut b, v);
        proof {
            vstd::bytes::lemma_auto_spec_u64_to_from_le_bytes();
            assert(b@ =~= vstd::bytes::spec_u64_to_le_bytes(v));
        }
        self.write_bytes(p, 8 * index, b.as_slice());
        assert(self.spec_memory().subrange(p.addr + 8 * index, p.addr + 8 * index + 8) =~= b@);
    }

    /// Element `index` of a slice of `u64` values at `p`.
    pub fn read_u64(&self, p: ArenaPtr, index: usize) -> (r: u64)
        requires
            self.wf(),
            self.spec_allocated(p),
            8 * index + 8 <= p.len,
        ensures
            r == vstd::bytes::spec_u64_from_le_bytes(self.spec_memory().subrange(p.addr + 8 * index, p.addr + 8 * index + 8)),
    {
        let b = self.read_bytes(p, 8 * index, 8);
        match crate::wire::read_fixed64(b.as_slice(), 0) {
            Some((v, _)) => {
                assert(b@.subrange(0, 8) =~= b@);
                v
            },
            None => 0,
        }
    }

    /// Writes byte `v` at index `index` of allocation `p`.
    pub fn write_u8(&mut self, p: ArenaPtr, index: usize, v: u8)
        requires
            old(self).wf(),
            old(self).spec_allocated(p),
            index < p.len,
        ensures
            final(self).wf(),
            final(self).spec_allocations() == old(self).spec_allocations(),
            final(self).spec_block_sizes() == old(self).spec_block_sizes(),
            final(self).spec_current_size() == old(self).spec_current_size(),
            final(self).spec_free() == old(self).spec_free(),
            final(self).spec_memory() == old(self).spec_memory().update(p.addr + index, v),
    {
        let mut b: Vec<u8> = Vec::new();
        b.push(v);
        self.write_bytes(p, index, b.as_slice());
        assert(self.spec_memory() =~= old(self).spec_memory().update(p.addr + index, v));
    }

    /// Byte `index` of allocation `p`.
    pub fn read_u8(&self, p: ArenaPtr, index: usize) -> (r: u8)
        requires
            self.wf(),
            self.spec_allocated(p),
            index < p.len,
        ensures
            r == self.spec_memory()[p.addr + index],
    {
        let b = self.read_bytes(p, index, 1);
        b[0]
    }

    /// The bytes taken by all blocks so far, headers included.
    pub fn bytes_allocated(&self) -> (r: usize)
        requires
            self.wf(),
        ensures
            r == spec_sum(self.spec_block_sizes()),
    {
        let mut total: usize = 0;
        let mut i: usize = 0;
        while i < self.block_sizes.len()
            invariant
                i <= self.block_sizes@.len(),
                total == spec_sum(self.block_sizes@.take(i as int)),
                spec_sum(self.block_sizes@) <= usize::MAX,
            decreases self.block_sizes@.len() - i,
        {
            proof {
                assert(self.block_sizes@.take(i + 1).drop_last() =~= self.block_sizes@.take(i as int));
                lemma_sum_prefix(self.block_sizes@, i + 1);
            }
            total = total + self.block_sizes[i];
            i += 1;
        }
        assert(self.block_sizes@.take(i as int) =~= self.block_sizes@);
        total
    }
}

/// The sum of the sizes.
pub open spec fn spec_sum(s: Seq<usize>) -> int
    decreases s.len(),
{
    if s.len() == 0 {
        0
    } else {
        spec_sum(s.drop_last()) + s.last()
    }
}

proof fn lemma_sum_prefix(s: Seq<usize>, k: int)
    requires
        0 <= k <= s.len(),
    ensures
        spec_sum(s.take(k)) <= spec_sum(s),
    decreases s.len() - k,
{
    if k < s.len() {
        lemma_sum_prefix(s, k + 1);
        assert(s.take(k + 1).drop_last() =~= s.take(k));
    } else {
        assert(s.take(k) =~= s);
    }
}

/// Distinct allocations of an arena never share a byte.
pub proof fn lemma_allocations_disjoint(arena: &Arena, i: int, j: int)
    requires
        arena.wf(),
        0 <= i < j < arena.spec_allocations().len(),
    ensures
        spec_disjoint(arena.spec_allocations()[i], arena.spec_allocations()[j]),
{
}

} // verus!
