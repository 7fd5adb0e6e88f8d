//! An arena whose cursor moves from the high end of its region downward.
use vstd::prelude::*;

use crate::align::{
    align_down, align_up, is_power_of_two, lemma_add_mask_rounds_up, lemma_align_down,
    lemma_align_up, lemma_difference_of_multiples, lemma_multiple_of_smaller,
    lemma_power_of_two_bound, round_mut_ptr_down_to,
};
use crate::layout::Layout;
use vstd::arithmetic::div_mod::lemma_small_mod;

verus! {

/// The checked path succeeds exactly when the block fits below the cursor
/// and, moved down to its alignment, still starts at or above `start`.
pub open spec fn down_checked_fits(cursor: int, start: int, l: Layout) -> bool {
    cursor >= l.size() && align_down(cursor - l.size(), l.align() as int) >= start
}

/// The address that the checked path returns, if it succeeds.
pub open spec fn down_checked_result(cursor: int, start: int, l: Layout) -> Option<int> {
    if down_checked_fits(cursor, start, l) {
        Some(align_down(cursor - l.size(), l.align() as int))
    } else {
        None
    }
}

/// The cursor after a checked-path request.
pub open spec fn down_checked_cursor(cursor: int, start: int, l: Layout) -> int {
    if down_checked_fits(cursor, start, l) {
        align_down(cursor - l.size(), l.align() as int)
    } else {
        cursor
    }
}

/// The fast path's candidate address: the cursor moved down to a multiple of
/// `min_align`, less the block's size padded to a multiple of `min_align`,
/// moved down to the layout's alignment only when that exceeds `min_align`.
pub open spec fn down_fast_candidate(cursor: int, l: Layout, min_align: int) -> int {
    let c = align_down(cursor, min_align) - align_up(l.size() as int, min_align);
    if l.align() > min_align {
        align_down(c, l.align() as int)
    } else {
        c
    }
}

/// The fast path succeeds exactly when the padded block fits below the cursor
/// and its candidate address is at or above `start`.
pub open spec fn down_fast_fits(cursor: int, start: int, l: Layout, min_align: int) -> bool {
    align_down(cursor, min_align) >= align_up(l.size() as int, min_align) && down_fast_candidate(
        cursor,
        l,
        min_align,
    ) >= start
}

/// The address that the fast path returns, if it succeeds.
pub open spec fn down_fast_result(cursor: int, start: int, l: Layout, min_align: int) -> Option<int> {
    if down_fast_fits(cursor, start, l, min_align) {
        Some(down_fast_candidate(cursor, l, min_align))
    } else {
        None
    }
}

/// The cursor after a fast-path request.
pub open spec fn down_fast_cursor(cursor: int, start: int, l: Layout, min_align: int) -> int {
    if down_fast_fits(cursor, start, l, min_align) {
        down_fast_candidate(cursor, l, min_align)
    } else {
        cursor
    }
}

/// A bump arena over the addresses `[start, end)` that hands out blocks at
/// decreasing addresses. Blocks are live from the cursor up to `end`.
///
/// `MIN_ALIGN` is a power of two that divides `start`. The fast path first
/// moves the cursor down to a multiple of `MIN_ALIGN` and then by multiples
/// of it, so every block it hands out starts at a multiple of `MIN_ALIGN`, and
/// requests aligned to at most `MIN_ALIGN` need no further rounding.
pub struct BumpDown<const MIN_ALIGN: usize> {
    start: usize,
    ptr: usize,
    end: usize,
}

impl<const MIN_ALIGN: usize> BumpDown<MIN_ALIGN> {
    /// The lowest address of the region.
    pub closed spec fn start(&self) -> usize {
        self.start
    }

    /// One past the highest address of the region.
    pub closed spec fn end(&self) -> usize {
        self.end
    }

    /// The lowest address that a live block covers, or `end` when none is live.
    pub closed spec fn cursor(&self) -> usize {
        self.ptr
    }

    pub open spec fn wf(&self) -> bool {
        &&& is_power_of_two(MIN_ALIGN)
        &&& self.start() % MIN_ALIGN == 0
        &&& self.start() <= self.cursor() <= self.end()
    }

    /// An empty arena over a region of `cap` bytes whose base is address 0.
    pub fn with_capacity(cap: usize) -> (r: Self)
        requires
            is_power_of_two(MIN_ALIGN),
            cap + 7 <= isize::MAX,
        ensures
            r.wf(),
            r.start() == 0,
            r.end() == cap,
            r.cursor() == r.end(),
    {
        proof {
            lemma_small_mod(0, MIN_ALIGN as nat);
        }
        BumpDown { start: 0, ptr: cap, end: cap }
    }

    /// An empty arena over the `cap` bytes that begin at address `start`.
    pub fn from_region(start: usize, cap: usize) -> (r: Self)
        requires
            is_power_of_two(MIN_ALIGN),
            start % MIN_ALIGN == 0,
            start + cap <= usize::MAX,
        ensures
            r.wf(),
            r.start() == start,
            r.end() == start + cap,
            r.cursor() == r.end(),
    {
        BumpDown { start, ptr: start + cap, end: start + cap }
    }

    /// Frees every block at once.
    pub fn clear(&mut self)
        requires
            old(self).wf(),
        ensures
            final(self).wf(),
            final(self).start() == old(self).start(),
            final(self).end() == old(self).end(),
            final(self).cursor() == old(self).end(),
    {
        self.ptr = self.end;
    }

    /// The fast path's candidate address below `ptr`, or `None` when the
    /// padded block does not fit below `ptr` moved down to a multiple of
    /// `MIN_ALIGN`.
    fn reserve_space_for(layout: Layout, ptr: usize) -> (r: Option<usize>)
        requires
            is_power_of_two(MIN_ALIGN),
            layout.is_valid(),
        ensures
            r is Some <==> align_down(ptr as int, MIN_ALIGN as int) >= align_up(
                layout.size() as int,
                MIN_ALIGN as int,
            ),
            r matches Some(a) ==> a == down_fast_candidate(ptr as int, layout, MIN_ALIGN as int),
    {
        proof {
            lemma_power_of_two_bound(MIN_ALIGN);
            lemma_add_mask_rounds_up(layout.size(), MIN_ALIGN);
        }
        let size = (layout.size() + MIN_ALIGN - 1) & !(MIN_ALIGN - 1);
        let ptr = round_mut_ptr_down_to(ptr, MIN_ALIGN);
        if ptr < size {
            return None;
        }
        let ptr = ptr - size;
        if layout.align() > MIN_ALIGN {
            Some(round_mut_ptr_down_to(ptr, layout.align()))
        } else {
            Some(ptr)
        }
    }

    /// Allocates by moving the cursor down by the block's size and then down
    /// to the layout's alignment.
    pub fn alloc_orig(&mut self, layout: Layout) -> (r: Option<usize>)
        requires
            old(self).wf(),
            layout.is_valid(),
        ensures
            final(self).wf(),
            final(self).start() == old(self).start(),
            final(self).end() == old(self).end(),
            r is Some <==> down_checked_fits(old(self).cursor() as int, old(self).start() as int, layout),
            r matches Some(a) ==> Some(a as int) == down_checked_result(
                old(self).cursor() as int,
                old(self).start() as int,
                layout,
            ),
            r matches Some(a) ==> a % layout.align() == 0,
            final(self).cursor() == down_checked_cursor(
                old(self).cursor() as int,
                old(self).start() as int,
                layout,
            ),
    {
        let ptr = self.ptr;
        let start = self.start;
        if ptr < layout.size() {
            return None;
        }
        let ptr = ptr - layout.size();
        let aligned_ptr = round_mut_ptr_down_to(ptr, layout.align());
        proof {
            lemma_align_down(ptr as int, layout.align() as int);
        }
        if aligned_ptr >= start {
            self.ptr = aligned_ptr;
            Some(aligned_ptr)
        } else {
            None
        }
    }

    /// Allocates by moving the cursor down to a multiple of `MIN_ALIGN` and
    /// then by the block's size padded to a multiple of `MIN_ALIGN`, rounding
    /// further down only for layouts aligned to more than `MIN_ALIGN`.
    pub fn alloc_fast(&mut self, layout: Layout) -> (r: Option<usize>)
        requires
            old(self).wf(),
            layout.is_valid(),
        ensures
            final(self).wf(),
            final(self).start() == old(self).start(),
            final(self).end() == old(self).end(),
            r is Some <==> down_fast_fits(
                old(self).cursor() as int,
                old(self).start() as int,
                layout,
                MIN_ALIGN as int,
            ),
            r matches Some(a) ==> Some(a as int) == down_fast_result(
                old(self).cursor() as int,
                old(self).start() as int,
                layout,
                MIN_ALIGN as int,
            ),
            final(self).cursor() == down_fast_cursor(
                old(self).cursor() as int,
                old(self).start() as int,
                layout,
                MIN_ALIGN as int,
            ),
            r matches Some(a) ==> a % layout.align() == 0 && a % MIN_ALIGN == 0,
    {
        let ptr = self.ptr;
        let start = self.start;
        proof {
            lemma_align_up(layout.size() as int, MIN_ALIGN as int);
        }
        if ptr < layout.size() {
            return None;
        }
        let aligned_ptr = match Self::reserve_space_for(layout, ptr) {
            Some(p) => p,
            None => {
                return None;
            },
        };
        let ghost rounded = align_down(ptr as int, MIN_ALIGN as int);
        let ghost c = rounded - align_up(layout.size() as int, MIN_ALIGN as int);
        proof {
            if layout.align() > MIN_ALIGN {
                lemma_align_down(c, layout.align() as int);
            }
        }
        if aligned_ptr >= start {
            self.ptr = aligned_ptr;
            proof {
                lemma_align_down(ptr as int, MIN_ALIGN as int);
                lemma_difference_of_multiples(
                    rounded,
                    align_up(layout.size() as int, MIN_ALIGN as int),
                    MIN_ALIGN as int,
                );
                if layout.align() > MIN_ALIGN {
                    lemma_multiple_of_smaller(aligned_ptr, MIN_ALIGN, layout.align());
                } else {
                    lemma_multiple_of_smaller(aligned_ptr, layout.align(), MIN_ALIGN);
                }
            }
            Some(aligned_ptr)
        } else {
            None
        }
    }
}

} // verus!
