//! The arena: one contiguous block of bytes that backs a loaded record
//! and all of its dynamically sized sub-structures.

use vstd::prelude::*;

use crate::layout::Layout;

verus! {

/// An allocated block of memory. The entire block holds one schematized
/// definition together with any dynamic data it uses; the block is the
/// sole owner of those bytes.
pub struct BlockHandle {
    data: Vec<u8>,
}

impl View for BlockHandle {
    type V = Seq<u8>;

    closed spec fn view(&self) -> Seq<u8> {
        self.data@
    }
}

impl BlockHandle {
    /// Number of bytes the block holds.
    pub fn len(&self) -> (r: usize)
        ensures
            r == self@.len(),
    {
        self.data.len()
    }

    /// Whether the block holds no memory at all.
    pub fn is_null(&self) -> (r: bool)
        ensures
            r == (self@.len() == 0),
    {
        self.data.len() == 0
    }

    /// One byte of the block.
    pub fn read_byte(&self, i: usize) -> (r: u8)
        requires
            i < self@.len(),
        ensures
            r == self@[i as int],
    {
        self.data[i]
    }

    /// Overwrites one byte of the block.
    pub fn write_byte(&mut self, i: usize, b: u8)
        requires
            i < old(self)@.len(),
        ensures
            final(self)@ == old(self)@.update(i as int, b),
    {
        self.data.set(i, b);
    }

    /// Copies `bytes` into the block at byte offset `off`; all other bytes
    /// keep their values.
    pub fn write_bytes(&mut self, off: usize, bytes: &[u8])
        requires
            off + bytes@.len() <= old(self)@.len(),
        ensures
            final(self)@.len() == old(self)@.len(),
            final(self)@.subrange(off as int, off + bytes@.len()) == bytes@,
            forall|m: int|
                0 <= m < old(self)@.len() && !(off <= m < off + bytes@.len())
                    ==> #[trigger] final(self)@[m] == old(self)@[m],
    {
        let n = bytes.len();
        let total = self.data.len();
        let mut k: usize = 0;
        while k < n
            invariant
                k <= n,
                n == bytes@.len(),
                off + n <= self@.len(),
                self@.len() == total,
                self@.len() == old(self)@.len(),
                self@.subrange(off as int, off + k) =~= bytes@.subrange(0, k as int),
                forall|m: int|
                    0 <= m < old(self)@.len() && !(off <= m < off + k) ==> self@[m] == old(
                        self,
                    )@[m],
            decreases n - k,
        {
            self.data.set(off + k, bytes[k]);
            k = k + 1;
        }
        proof {
            assert(self@.subrange(off as int, off + n) =~= bytes@.subrange(0, n as int));
            assert(bytes@.subrange(0, n as int) =~= bytes@);
        }
    }

    /// A copy of `n` bytes of the block starting at byte offset `off`.
    pub fn read_bytes(&self, off: usize, n: usize) -> (r: Vec<u8>)
        requires
            off + n <= self@.len(),
        ensures
            r@ == self@.subrange(off as int, off + n),
    {
        let mut out: Vec<u8> = Vec::new();
        let total = self.data.len();
        let mut k: usize = 0;
        while k < n
            invariant
                k <= n,
                off + n <= self@.len(),
                self@.len() == total,
                out@ =~= self@.subrange(off as int, off + k),
            decreases n - k,
        {
            out.push(self.data[off + k]);
            k = k + 1;
        }
        proof {
            assert(out@ =~= self@.subrange(off as int, off + n));
        }
        out
    }
}

/// Allocates the block of memory one loaded definition will live in,
/// zero-filled, of the layout's size.
pub fn allocate_block(layout: Layout) -> (r: BlockHandle)
    ensures
        r@.len() == layout.size,
        forall|m: int| 0 <= m < r@.len() ==> r@[m] == 0u8,
{
    let n = layout.size;
    let mut data: Vec<u8> = Vec::new();
    let mut k: usize = 0;
    while k < n
        invariant
            k <= n,
            data@.len() == k,
            forall|m: int| 0 <= m < k ==> data@[m] == 0u8,
        decreases n - k,
    {
        data.push(0u8);
        k = k + 1;
    }
    BlockHandle { data }
}

/// A pointer to an item within a block: a byte offset into the arena, or
/// null. The offset must respect the item's alignment; the layout
/// arithmetic of the sizing pass guarantees that.
#[derive(PartialEq, Eq, Structural, Clone, Copy, Debug)]
pub struct BlockPointer {
    /// Byte offset of the item within its block.
    pub offset: usize,
    /// Whether this pointer points at nothing.
    pub absent: bool,
}

impl BlockPointer {
    /// Whether this pointer points at nothing.
    pub fn is_null(&self) -> (r: bool)
        ensures
            r == self.absent,
    {
        self.absent
    }

    /// The pointer that points at nothing.
    pub fn null() -> (r: BlockPointer)
        ensures
            r.absent,
            r.offset == 0,
    {
        BlockPointer { offset: 0, absent: true }
    }

    /// A live pointer at the given byte offset of its block.
    pub fn from_raw_parts(offset: usize) -> (r: BlockPointer)
        ensures
            !r.absent,
            r.offset == offset,
    {
        BlockPointer { offset, absent: false }
    }

    /// The byte offset this pointer stands for.
    pub fn get_offset(&self) -> (r: usize)
        ensures
            r == self.offset,
    {
        self.offset
    }
}

} // verus!
