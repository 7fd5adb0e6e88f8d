//! Bump arenas: fixed regions of addresses from which blocks are carved by
//! moving a single cursor, and released all at once.
//!
//! [`BumpUp`] moves its cursor upward from the start of its region and
//! [`BumpDown`] downward from its end. Each offers a checked algorithm that
//! rounds every request to its alignment with overflow-checked arithmetic,
//! and a fast one that relies on the cursor staying a multiple of the
//! arena's `MIN_ALIGN`.
use vstd::prelude::*;

pub mod align;
pub mod bump_down;
pub mod bump_up;
pub mod laws;
pub mod layout;

pub use bump_down::BumpDown;
pub use bump_up::BumpUp;
pub use layout::Layout;

verus! {

/// The alignment of a slice of `usize`, as the layout of the value gives it.
pub fn foo(x: &[usize]) -> (r: usize)
    ensures
        r as nat == vstd::layout::spec_align_of_val::<[usize]>(x),
{
    core::mem::align_of_val(x)
}

} // verus!
