//! The size and alignment of a requested block.
use vstd::prelude::*;

use crate::align::{
    is_power_of_two, lemma_is_pow2_bits, lemma_isize_max_mod, lemma_power_of_two_bound,
};
use vstd::layout::{align_of, layout_for_type_is_valid, size_of};

verus! {

/// A request for `size` bytes at an address that is a multiple of `align`.
///
/// Only valid layouts can be built: `align` is a power of two, and `size`
/// rounded up to a multiple of `align` does not exceed `isize::MAX`.
#[derive(Clone, Copy, Debug, PartialEq, Eq)]
pub struct Layout {
    size: usize,
    align: usize,
}

/// The conditions under which `size` and `align` make a layout.
pub open spec fn valid_layout(size: usize, align: usize) -> bool {
    is_power_of_two(align) && size + align - 1 <= isize::MAX
}

impl Layout {
    pub closed spec fn spec_size(&self) -> usize {
        self.size
    }

    pub closed spec fn spec_align(&self) -> usize {
        self.align
    }

    /// The alignment is a power of two, and the size rounded up to it fits
    /// in `isize`.
    pub open spec fn is_valid(&self) -> bool {
        valid_layout(self.spec_size(), self.spec_align())
    }

    /// The layout of `size` bytes aligned to `align`, or `None` when the two
    /// do not make a valid layout.
    pub fn from_size_align(size: usize, align: usize) -> (r: Option<Layout>)
        ensures
            r is Some <==> valid_layout(size, align),
            r matches Some(l) ==> l.size() == size && l.align() == align && l.is_valid(),
    {
        if align == 0 || align & (align - 1) != 0 {
            return None;
        }
        proof {
            lemma_power_of_two_bound(align);
        }
        if size > isize::MAX as usize - (align - 1) {
            return None;
        }
        Some(Layout { size, align })
    }

    /// The layout of a value of type `T`.
    pub fn new<T>() -> (r: Layout)
        ensures
            r.size() as nat == size_of::<T>(),
            r.align() as nat == align_of::<T>(),
            r.is_valid(),
    {
        layout_for_type_is_valid::<T>();
        let size = core::mem::size_of::<T>();
        let align = core::mem::align_of::<T>();
        proof {
            lemma_is_pow2_bits(align);
            lemma_isize_max_mod(align);
        }
        Layout { size, align }
    }

    #[verifier::when_used_as_spec(spec_size)]
    pub fn size(&self) -> (r: usize)
        ensures
            r == self.spec_size(),
    {
        self.size
    }

    #[verifier::when_used_as_spec(spec_align)]
    pub fn align(&self) -> (r: usize)
        ensures
            r == self.spec_align(),
    {
        self.align
    }
}

} // verus!
