//! An arena whose cursor moves from the low end of its region upward.
use vstd::prelude::*;

use crate::align::{
    align_up, is_power_of_two, lemma_add_mask_rounds_up, lemma_align_up, lemma_multiple_of_smaller,
    lemma_pad_formula, lemma_round_up_overflow, lemma_sum_of_multiples, pad,
};
use crate::layout::Layout;
use vstd::arithmetic::div_mod::lemma_small_mod;

verus! {

/// Bytes that the fast path skips before the block: none when the cursor is
/// already known to be aligned enough, else the distance to the next multiple
/// of `align`.
pub open spec fn up_fast_offset(cursor: int, align: int, min_align: int) -> int {
    if align > min_align {
        pad(cursor, align)
    } else {
        0
    }
}

/// Bytes that the fast path consumes: the skipped bytes, the block, and the
/// padding that brings the block's size to a multiple of `min_align`.
pub open spec fn up_fast_need(cursor: int, l: Layout, min_align: int) -> int {
    up_fast_offset(cursor, l.align() as int, min_align) + l.size() + pad(l.size() as int, min_align)
}

/// The fast path succeeds exactly when what it consumes fits before `end`.
pub open spec fn up_fast_fits(cursor: int, end: int, l: Layout, min_align: int) -> bool {
    up_fast_need(cursor, l, min_align) <= end - cursor
}

/// The address that the fast path returns, if it succeeds.
pub open spec fn up_fast_result(cursor: int, end: int, l: Layout, min_align: int) -> Option<int> {
    if up_fast_fits(cursor, end, l, min_align) {
        Some(cursor + up_fast_offset(cursor, l.align() as int, min_align))
    } else {
        None
    }
}

/// The cursor after a fast-path request.
pub open spec fn up_fast_cursor(cursor: int, end: int, l: Layout, min_align: int) -> int {
    if up_fast_fits(cursor, end, l, min_align) {
        cursor + up_fast_need(cursor, l, min_align)
    } else {
        cursor
    }
}

/// The checked path succeeds exactly when the block, placed at the cursor
/// rounded up to `align`, ends at or before `end`.
pub open spec fn up_checked_fits(cursor: int, end: int, l: Layout) -> bool {
    align_up(cursor, l.align() as int) + l.size() <= end
}

/// The address that the checked path returns, if it succeeds.
pub open spec fn up_checked_result(cursor: int, end: int, l: Layout) -> Option<int> {
    if up_checked_fits(cursor, end, l) {
        Some(align_up(cursor, l.align() as int))
    } else {
        None
    }
}

/// The cursor after a checked-path request.
pub open spec fn up_checked_cursor(cursor: int, end: int, l: Layout) -> int {
    if up_checked_fits(cursor, end, l) {
        align_up(cursor, l.align() as int) + l.size()
    } else {
        cursor
    }
}

/// A bump arena over the addresses `[start, end)` that hands out blocks at
/// increasing addresses. Blocks are live from `start` up to the cursor.
///
/// `MIN_ALIGN` is a power of two that divides `start`; the fast path keeps the
/// cursor a multiple of it, so requests aligned to at most `MIN_ALIGN` need no
/// rounding.
pub struct BumpUp<const MIN_ALIGN: usize> {
    start: usize,
    end: usize,
    ptr: usize,
}

impl<const MIN_ALIGN: usize> BumpUp<MIN_ALIGN> {
    /// The lowest address of the region.
    pub closed spec fn start(&self) -> usize {
        self.start
    }

    /// One past the highest address of the region.
    pub closed spec fn end(&self) -> usize {
        self.end
    }

    /// The first address that no live block covers.
    pub closed spec fn cursor(&self) -> usize {
        self.ptr
    }

    pub open spec fn wf(&self) -> bool {
        &&& is_power_of_two(MIN_ALIGN)
        &&& self.start() % MIN_ALIGN == 0
        &&& self.start() <= self.cursor() <= self.end()
    }

    /// An empty arena over a region of `cap` bytes whose base is address 0.
    pub fn with_capacity(cap: usize) -> (r: Self)
        requires
            is_power_of_two(MIN_ALIGN),
            cap + 7 <= isize::MAX,
        ensures
            r.wf(),
            r.start() == 0,
            r.end() == cap,
            r.cursor() == r.start(),
    {
        proof {
            lemma_small_mod(0, MIN_ALIGN as nat);
        }
        BumpUp { start: 0, end: cap, ptr: 0 }
    }

    /// An empty arena over the `cap` bytes that begin at address `start`.
    pub fn from_region(start: usize, cap: usize) -> (r: Self)
        requires
            is_power_of_two(MIN_ALIGN),
            start % MIN_ALIGN == 0,
            start + cap <= usize::MAX,
        ensures
            r.wf(),
            r.start() == start,
            r.end() == start + cap,
            r.cursor() == start,
    {
        BumpUp { start, end: start + cap, ptr: start }
    }

    /// Frees every block at once.
    pub fn clear(&mut self)
        requires
            old(self).wf(),
        ensures
            final(self).wf(),
            final(self).start() == old(self).start(),
            final(self).end() == old(self).end(),
            final(self).cursor() == old(self).start(),
    {
        self.ptr = self.start;
    }

    /// The distance from `size` up to the next multiple of `align`.
    fn align_offset(size: usize, align: usize) -> (r: usize)
        requires
            is_power_of_two(align),
        ensures
            r == pad(size as int, align as int),
            r < align,
    {
        proof {
            lemma_pad_formula(size, align);
            lemma_pad_formula((align - (size & ((align - 1) as usize))) as usize, align);
        }
        (align - (size & (align - 1))) & (align - 1)
    }

    /// Allocates with overflow-checked rounding of the cursor up to the
    /// layout's alignment.
    pub fn alloc_orig(&mut self, layout: Layout) -> (r: Option<usize>)
        requires
            old(self).wf(),
            layout.is_valid(),
        ensures
            final(self).wf(),
            final(self).start() == old(self).start(),
            final(self).end() == old(self).end(),
            r is Some <==> up_checked_fits(old(self).cursor() as int, old(self).end() as int, layout),
            r matches Some(a) ==> Some(a as int) == up_checked_result(
                old(self).cursor() as int,
                old(self).end() as int,
                layout,
            ),
            final(self).cursor() == up_checked_cursor(
                old(self).cursor() as int,
                old(self).end() as int,
                layout,
            ),
    {
        let align = layout.align();
        let size = layout.size();
        let ptr = self.ptr;
        proof {
            lemma_align_up(ptr as int, align as int);
        }
        let aligned = match ptr.checked_add(align - 1) {
            Some(p) => {
                proof {
                    lemma_add_mask_rounds_up(ptr, align);
                }
                p & !(align - 1)
            },
            None => {
                proof {
                    lemma_round_up_overflow(ptr, align);
                }
                return None;
            },
        };
        let new_ptr = match aligned.checked_add(size) {
            Some(p) => p,
            None => {
                return None;
            },
        };
        if new_ptr > self.end {
            return None;
        }
        self.ptr = new_ptr;
        Some(aligned)
    }

    /// Allocates, skipping the rounding of the cursor when the layout's
    /// alignment is at most `MIN_ALIGN`, and padding each block's size to a
    /// multiple of `MIN_ALIGN`. A request succeeds only when the padded block
    /// fits, so the cursor never passes `end`.
    pub fn alloc_fast(&mut self, layout: Layout) -> (r: Option<usize>)
        requires
            old(self).wf(),
            layout.is_valid(),
        ensures
            final(self).wf(),
            final(self).start() == old(self).start(),
            final(self).end() == old(self).end(),
            r is Some <==> up_fast_fits(old(self).cursor() as int, old(self).end() as int, layout, MIN_ALIGN as int),
            r matches Some(a) ==> Some(a as int) == up_fast_result(
                old(self).cursor() as int,
                old(self).end() as int,
                layout,
                MIN_ALIGN as int,
            ),
            final(self).cursor() == up_fast_cursor(
                old(self).cursor() as int,
                old(self).end() as int,
                layout,
                MIN_ALIGN as int,
            ),
            old(self).cursor() % MIN_ALIGN == 0 ==> final(self).cursor() % MIN_ALIGN == 0,
            old(self).cursor() % MIN_ALIGN == 0 ==> (r matches Some(a) ==> a % layout.align() == 0),
    {
        let ptr = self.ptr;
        let align = layout.align();
        let align_offset = if align > MIN_ALIGN {
            Self::align_offset(ptr, align)
        } else {
            0
        };
        let size = layout.size() + align_offset;
        let available = self.end - ptr;
        let end_offset = Self::align_offset(layout.size(), MIN_ALIGN);
        if available >= size && available - size >= end_offset {
            let aligned_size = size + end_offset;
            let result = ptr + align_offset;
            self.ptr = ptr + aligned_size;
            proof {
                let m = MIN_ALIGN as int;
                lemma_align_up(layout.size() as int, m);
                if ptr % MIN_ALIGN == 0 {
                    if align > MIN_ALIGN {
                        lemma_align_up(ptr as int, align as int);
                        lemma_multiple_of_smaller(result, MIN_ALIGN, align);
                    } else {
                        lemma_multiple_of_smaller(ptr, align, MIN_ALIGN);
                    }
                    lemma_sum_of_multiples(result as int, layout.size() + end_offset, m);
                }
            }
            Some(result)
        } else {
            None
        }
    }
}

} // verus!
