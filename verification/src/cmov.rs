//! The constant-time select capability.
//!
//! A type with this capability can be conditionally moved: given two values
//! and a boolean choice, the result is one of the two values, and the
//! sequence of operations performed does not branch on the choice.  The
//! executable bodies realise the selection through full-width bit masks
//! (`mask = choice * MAX`, `a ^ (mask & (a ^ b))`), the classic branch-free
//! idiom.
//!
//! Contracts are stated over views (`@`).  For scalars the view is the
//! value itself, so the contracts are bit-exact; for heap containers the
//! view is the sequence of element views.

use vstd::prelude::*;

verus! {

/// Capability for conditional move operations.
///
/// `same_shape` states when two values are compatible operands: scalar
/// types accept any pair, while sized containers require equal lengths.
/// For any two compatible values, `cnd_select(a, b, false)` is `a` and
/// `cnd_select(a, b, true)` is `b`, exactly.
pub trait CMov: View + Sized {
    /// Whether values with views `a` and `b` may be operands of one
    /// conditional move.
    spec fn same_shape(a: Self::V, b: Self::V) -> bool;

    /// Shape compatibility is an equivalence.
    proof fn same_shape_laws(a: Self::V, b: Self::V, c: Self::V)
        ensures
            Self::same_shape(a, a),
            Self::same_shape(a, b) ==> Self::same_shape(b, a),
            Self::same_shape(a, b) && Self::same_shape(b, c) ==> Self::same_shape(a, c),
    ;

    /// Return `a` if `choice` is false, or `b` if `choice` is true.
    fn cnd_select(a: &Self, b: &Self, choice: bool) -> (r: Self)
        requires
            Self::same_shape(a@, b@),
        ensures
            r@ == if choice {
                b@
            } else {
                a@
            },
    ;

    /// Overwrite `self` with `other` if `choice` is true.
    fn cnd_assign(&mut self, other: &Self, choice: bool)
        requires
            Self::same_shape(old(self)@, other@),
        ensures
            final(self)@ == if choice {
                other@
            } else {
                old(self)@
            },
    ;

    /// Exchange `a` and `b` if `choice` is true.
    fn cnd_swap(a: &mut Self, b: &mut Self, choice: bool)
        requires
            Self::same_shape(old(a)@, old(b)@),
        ensures
            final(a)@ == if choice {
                old(b)@
            } else {
                old(a)@
            },
            final(b)@ == if choice {
                old(a)@
            } else {
                old(b)@
            },
    ;

    /// An exact duplicate of `self`.
    ///
    /// Payloads of oblivious operations must be cheaply duplicable; this
    /// method is the contract-carrying form of that requirement (a generic
    /// `Clone` promises nothing about the copy).
    fn dup(&self) -> (r: Self)
        ensures
            r@ == self@,
    ;
}

} // verus!

mod cnd_option;
mod impl_bool;
mod impl_bytes;
mod impl_tuples;
mod impl_u32_u64_usize;
mod impl_u8_u16;

pub use cnd_option::CndOption;
pub use impl_bytes::cmov_bytes_a32;
pub use impl_bytes::cmov_bytes_a64;
pub use impl_bytes::cmov_bytes_a8;
pub use cnd_option::default_shape_of;
pub use cnd_option::is_default_value;
