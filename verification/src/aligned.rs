//! Alignment-tagged value containers.
//!
//! An alignment class is a power-of-two byte boundary that an address must
//! satisfy before wide, vectorised constant-time moves may be applied to
//! the bytes behind it.  [`Aligned`] tags a single owned value with such a
//! class; [`AlignedBox`](crate::aligned::AlignedBox) is the owning heap
//! buffer counterpart.
//!
//! The verified model tracks the class size and the contained values
//! exactly; the placement of values on the class boundary is a property of
//! the allocator and the generated layout, outside what the contracts
//! state.

use core::marker::PhantomData;

use vstd::prelude::*;
use vstd::std_specs::cmp::PartialEqSpec;

verus! {

/// An alignment class: a fixed number of bytes, at least one.
pub trait Alignment: Copy {
    /// The size of the alignment class in bytes.
    spec fn spec_size() -> usize;

    /// The class size is positive.
    proof fn size_positive()
        ensures
            0 < Self::spec_size(),
    ;

    /// The size of the alignment class, as a runtime value.
    fn size() -> (r: usize)
        ensures
            r == Self::spec_size(),
    ;
}

/// 2-byte alignment.
#[derive(Clone, Copy, Debug, Default)]
pub struct A2;

impl Alignment for A2 {
    open spec fn spec_size() -> usize {
        2
    }

    proof fn size_positive() {
    }

    fn size() -> (r: usize) {
        2
    }
}

/// 4-byte alignment.
#[derive(Clone, Copy, Debug, Default)]
pub struct A4;

impl Alignment for A4 {
    open spec fn spec_size() -> usize {
        4
    }

    proof fn size_positive() {
    }

    fn size() -> (r: usize) {
        4
    }
}

/// 8-byte alignment.
#[derive(Clone, Copy, Debug, Default)]
pub struct A8;

impl Alignment for A8 {
    open spec fn spec_size() -> usize {
        8
    }

    proof fn size_positive() {
    }

    fn size() -> (r: usize) {
        8
    }
}

/// 16-byte alignment.
#[derive(Clone, Copy, Debug, Default)]
pub struct A16;

impl Alignment for A16 {
    open spec fn spec_size() -> usize {
        16
    }

    proof fn size_positive() {
    }

    fn size() -> (r: usize) {
        16
    }
}

/// 32-byte alignment.
#[derive(Clone, Copy, Debug, Default)]
pub struct A32;

impl Alignment for A32 {
    open spec fn spec_size() -> usize {
        32
    }

    proof fn size_positive() {
    }

    fn size() -> (r: usize) {
        32
    }
}

/// 64-byte alignment.
#[derive(Clone, Copy, Debug, Default)]
pub struct A64;

impl Alignment for A64 {
    open spec fn spec_size() -> usize {
        64
    }

    proof fn size_positive() {
    }

    fn size() -> (r: usize) {
        64
    }
}

/// A newtype tagging its value with the alignment class `A`.
///
/// Wrapping costs nothing and always succeeds; the tag carries no runtime
/// state.
#[derive(Debug)]
pub struct Aligned<A: Alignment, T> {
    alignment: PhantomData<A>,
    value: T,
}

impl<A: Alignment, T: View> View for Aligned<A, T> {
    type V = <T as View>::V;

    open spec fn view(&self) -> <T as View>::V {
        self.inner()@
    }
}

impl<A: Alignment, T> Aligned<A, T> {
    /// The wrapped value.
    pub closed spec fn inner(&self) -> T {
        self.value
    }

    #[inline]
    pub fn new(value: T) -> (r: Self)
        ensures
            r.inner() == value,
    {
        Self { alignment: PhantomData, value }
    }

    #[inline]
    pub fn into_inner(self) -> (r: T)
        ensures
            r == self.inner(),
    {
        self.value
    }

    /// Borrow the wrapped value.
    #[inline]
    pub fn get(&self) -> (r: &T)
        ensures
            *r == self.inner(),
    {
        &self.value
    }

    /// Borrow the wrapped value mutably.
    #[inline]
    pub fn get_mut(&mut self) -> (r: &mut T)
        ensures
            *r == old(self).inner(),
            final(self).inner() == *final(r),
    {
        &mut self.value
    }
}

impl<A: Alignment, T: Clone> Clone for Aligned<A, T> {
    /// A wrapper around a clone of the value.
    fn clone(&self) -> (r: Self)
        ensures
            vstd::pervasive::cloned::<T>(self.inner(), r.inner()),
    {
        Self { alignment: PhantomData, value: self.value.clone() }
    }
}

impl<A: Alignment, T: Copy> Copy for Aligned<A, T> {

}

impl<A: Alignment, T: Default> Default for Aligned<A, T> {
    /// A wrapper around the default value.
    fn default() -> (r: Self)
        ensures
            crate::cmov::is_default_value(r.inner()),
    {
        let d = T::default();
        proof {
            assert(crate::cmov::is_default_value(d));
        }
        Aligned::new(d)
    }
}

impl<A: Alignment, T: PartialEq> PartialEq for Aligned<A, T> {
    /// Wrappers are compared by their values; the tag carries no state.
    fn eq(&self, other: &Self) -> (r: bool) {
        self.value == other.value
    }
}

impl<A: Alignment, T: PartialEq> vstd::std_specs::cmp::PartialEqSpecImpl for Aligned<A, T> {
    open spec fn obeys_eq_spec() -> bool {
        T::obeys_eq_spec()
    }

    open spec fn eq_spec(&self, other: &Self) -> bool {
        self.inner().eq_spec(&other.inner())
    }
}

} // verus!

mod boxed;

pub use boxed::AlignedBox;
pub use boxed::round_up_to;
