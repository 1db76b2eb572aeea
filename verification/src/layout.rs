//! Arena layout arithmetic: running size and alignment of the packed block.
//!
//! The sizing pass threads a [`Layout`] through every field of the target
//! type; dynamically sized data extends it and yields the byte offset the
//! data will be written at. Overflowing the address space is a
//! [`LayoutError`].

use vstd::prelude::*;

verus! {

/// A running arena layout: the bytes laid out so far and the strictest
/// alignment seen.
#[derive(PartialEq, Eq, Structural, Clone, Copy, Debug)]
pub struct Layout {
    /// Bytes laid out so far.
    pub size: usize,
    /// Alignment of the whole block.
    pub align: usize,
}

/// Failure of the layout arithmetic: the block would not fit the address
/// space.
#[derive(PartialEq, Eq, Structural, Clone, Copy, Debug)]
pub struct LayoutError;

/// The smallest multiple of `align` that is at least `size`.
pub open spec fn spec_round_up(size: nat, align: nat) -> nat {
    ((((size + align - 1) as int) / (align as int)) * (align as int)) as nat
}

/// Round-up facts: the result is a multiple of the alignment, at least the
/// size, and less than one alignment past it.
pub proof fn lemma_round_up(size: nat, align: nat)
    requires
        align >= 1,
    ensures
        (spec_round_up(size, align) as int) % (align as int) == 0,
        size <= spec_round_up(size, align) < size + align,
        (size as int) % (align as int) == 0 ==> spec_round_up(size, align) == size,
{
    let q: int = ((size + align - 1) / (align as int));
    assert((q * align) % (align as int) == 0) by (nonlinear_arith)
        requires align >= 1,
    ;
    assert(size <= q * align < size + align) by (nonlinear_arith)
        requires align >= 1, q == ((size + align - 1) / (align as int)),
    ;
    if (size as int) % (align as int) == 0 {
        assert(q * align == size) by (nonlinear_arith)
            requires align >= 1, (size as int) % (align as int) == 0, q == ((size + align - 1) / (align as int)),
        ;
    }
}

impl Layout {
    /// A layout is well formed when its alignment is positive.
    pub open spec fn wf(self) -> bool {
        self.align >= 1
    }

    /// A fresh layout of the given size and alignment.
    pub fn from_size_align(size: usize, align: usize) -> (r: Layout)
        requires
            align >= 1,
        ensures
            r == (Layout { size, align }),
            r.wf(),
    {
        Layout { size, align }
    }

    /// Mirror of [`Layout::extend`]: the extended layout and the offset the
    /// new data starts at, or `None` when the block would overflow.
    pub open spec fn spec_extend(self, other: Layout) -> Option<(Layout, nat)> {
        let off = spec_round_up(self.size as nat, other.align as nat);
        if off + other.size > usize::MAX as nat {
            None
        } else {
            Some(
                (
                    Layout {
                        size: (off + other.size) as usize,
                        align: if self.align >= other.align {
                            self.align
                        } else {
                            other.align
                        },
                    },
                    off,
                ),
            )
        }
    }

    /// Extends this layout by a block of the other layout's size and
    /// alignment; yields the new running layout and the byte offset at
    /// which the block begins.
    pub fn extend(self, other: Layout) -> (r: Result<(Layout, usize), LayoutError>)
        requires
            self.wf(),
            other.wf(),
        ensures
            match r {
                Ok((l2, off)) => self.spec_extend(other) == Some((l2, off as nat)) && l2.wf()
                    && l2.size >= self.size && l2.align >= self.align && l2.align >= other.align
                    && off >= self.size && off as nat + other.size == l2.size,
                Err(_) => self.spec_extend(other) is None,
            },
    {
        proof {
            lemma_round_up(self.size as nat, other.align as nat);
        }
        let size128 = self.size as u128;
        let align128 = other.align as u128;
        let off128 = ((size128 + align128 - 1) / align128) * align128;
        let other_size128 = other.size as u128;
        if off128 + other_size128 > usize::MAX as u128 {
            Err(LayoutError)
        } else {
            let off = off128 as usize;
            let size = off + other.size;
            let align = if self.align >= other.align {
                self.align
            } else {
                other.align
            };
            Ok((Layout { size, align }, off))
        }
    }

    /// Mirror of [`Layout::pad_to_align`]: the size padded up to a multiple
    /// of the alignment, or `None` when that would overflow.
    pub open spec fn spec_pad(self) -> Option<Layout> {
        let padded = spec_round_up(self.size as nat, self.align as nat);
        if padded > usize::MAX as nat {
            None
        } else {
            Some(Layout { size: padded as usize, align: self.align })
        }
    }

    /// Pads the size up to a multiple of the alignment, completing the
    /// block's layout.
    pub fn pad_to_align(self) -> (r: Result<Layout, LayoutError>)
        requires
            self.wf(),
        ensures
            match r {
                Ok(l2) => self.spec_pad() == Some(l2) && l2.wf() && l2.size >= self.size
                    && l2.align == self.align,
                Err(_) => self.spec_pad() is None,
            },
    {
        proof {
            lemma_round_up(self.size as nat, self.align as nat);
        }
        let size128 = self.size as u128;
        let align128 = self.align as u128;
        let padded128 = ((size128 + align128 - 1) / align128) * align128;
        if padded128 > usize::MAX as u128 {
            Err(LayoutError)
        } else {
            Ok(Layout { size: padded128 as usize, align: self.align })
        }
    }
}

/// Mirror of [`array_size`]: the bytes an array of `count` elements of
/// `elem_size` bytes each occupies, or `None` when that overflows.
pub open spec fn spec_array_size(elem_size: nat, count: nat) -> Option<nat> {
    if elem_size * count > usize::MAX as nat {
        None
    } else {
        Some(elem_size * count)
    }
}

/// Bytes occupied by an array of `count` elements of `elem_size` bytes
/// each, laid out back to back.
pub fn array_size(elem_size: usize, count: usize) -> (r: Result<usize, LayoutError>)
    ensures
        match r {
            Ok(n) => spec_array_size(elem_size as nat, count as nat) == Some(n as nat),
            Err(_) => spec_array_size(elem_size as nat, count as nat) is None,
        },
{
    proof {
        assert((elem_size as u128) * (count as u128) <= (u64::MAX as u128) * (u64::MAX
            as u128)) by (nonlinear_arith)
            requires
                (elem_size as u128) <= (u64::MAX as u128),
                (count as u128) <= (u64::MAX as u128),
        ;
    }
    let prod128 = (elem_size as u128) * (count as u128);
    if prod128 > usize::MAX as u128 {
        Err(LayoutError)
    } else {
        Ok(prod128 as usize)
    }
}

} // verus!
