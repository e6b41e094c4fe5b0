//! The alignment-tagged heap buffer.
//!
//! An [`AlignedBox`] owns a heap allocation of elements tagged with an
//! alignment class.  It supports construction from a single value, from a
//! plain vector, and slot-by-slot through the not-yet-initialised form
//! `AlignedBox<A, Option<T>>`, where `None` marks a slot that has not been
//! written and [`AlignedBox::assume_init`] is the explicit step asserting
//! that every slot was.
//!
//! The buffer is a single-owner value: conversions move it, duplication is
//! a deep copy, and releasing it releases exactly the allocation that was
//! made for it.

use core::marker::PhantomData;

use vstd::prelude::*;
use vstd::std_specs::cmp::PartialEqSpec;

use crate::aligned::Alignment;
use crate::cmov::is_default_value;

verus! {

/// `n` rounded up to the next multiple of `align`.
pub open spec fn round_up_to(n: int, align: int) -> int
    recommends
        0 < align,
{
    ((n + align - 1) / align) * align
}

/// An owning heap buffer of `T` at the alignment class `A`.
#[derive(Debug)]
pub struct AlignedBox<A: Alignment, T> {
    alignment: PhantomData<A>,
    items: Vec<T>,
}

impl<A: Alignment, T: View> View for AlignedBox<A, T> {
    type V = Seq<<T as View>::V>;

    open spec fn view(&self) -> Seq<<T as View>::V> {
        self.contents().map(|i: int, x: T| x@)
    }
}

impl<A: Alignment, T> AlignedBox<A, T> {
    /// The contained elements, in order.
    pub closed spec fn contents(&self) -> Seq<T> {
        self.items@
    }

    /// The contained elements as the vector that holds them.
    pub closed spec fn spec_items(&self) -> Vec<T> {
        self.items
    }

    /// A buffer holding exactly one value.
    #[inline]
    pub fn new(value: T) -> (r: Self)
        ensures
            r.contents().len() == 1,
            r.contents()[0] == value,
    {
        let mut items: Vec<T> = Vec::new();
        items.push(value);
        Self { alignment: PhantomData, items }
    }

    /// The single contained value of a one-element buffer.
    #[inline]
    pub fn into_inner(self) -> (r: T)
        requires
            self.contents().len() == 1,
        ensures
            r == self.contents()[0],
    {
        let mut items = self.items;
        let r = items.remove(0);
        r
    }

    /// The number of elements.
    #[inline]
    pub fn len(&self) -> (r: usize)
        ensures
            r == self.contents().len(),
    {
        self.items.len()
    }

    /// Borrow the element at `i`.
    #[inline]
    pub fn get(&self, i: usize) -> (r: &T)
        requires
            i < self.contents().len(),
        ensures
            *r == self.contents()[i as int],
    {
        &self.items[i]
    }

    /// Borrow the element at `i` mutably.
    #[inline]
    pub fn get_mut(&mut self, i: usize) -> (r: &mut T)
        requires
            i < old(self).contents().len(),
        ensures
            *r == old(self).contents()[i as int],
            final(self).contents() == old(self).contents().update(i as int, *final(r)),
    {
        &mut self.items[i]
    }

    /// A buffer over the elements of `items`, in order.
    ///
    /// Converting into the aligned form reallocates so that the buffer
    /// satisfies the class boundary.
    #[inline]
    pub fn from_vec(items: Vec<T>) -> (r: Self)
        ensures
            r.contents() == items@,
            r == AlignedBox::<A, T>::spec_from_vec(items),
    {
        Self { alignment: PhantomData, items }
    }

    /// The elements moved into a plain vector, same order and count.
    #[inline]
    pub fn into_vec(self) -> (r: Vec<T>)
        ensures
            r@ == self.contents(),
            r == self.spec_items(),
    {
        self.items
    }

    /// A buffer of `len` not-yet-written slots.
    ///
    /// The total byte size must not overflow the address space.
    pub fn new_uninit_slice(len: usize) -> (r: AlignedBox<A, Option<T>>)
        requires
            len * vstd::layout::size_of::<T>() + A::spec_size() <= usize::MAX,
        ensures
            r.contents().len() == len,
            forall|j: int| 0 <= j < len ==> r.contents()[j] is None,
    {
        let mut items: Vec<Option<T>> = Vec::new();
        let mut i: usize = 0;
        while i < len
            invariant
                i <= len,
                items@.len() == i,
                forall|j: int| 0 <= j < i ==> items@[j] is None,
            decreases len - i,
        {
            items.push(None);
            i = i + 1;
        }
        AlignedBox { alignment: PhantomData, items }
    }

    /// A buffer of `len` slots, each holding the default value.
    ///
    /// The total byte size must not overflow the address space.
    pub fn new_zeroed_slice(len: usize) -> (r: AlignedBox<A, Option<T>>) where T: Default + Copy
        requires
            len * vstd::layout::size_of::<T>() + A::spec_size() <= usize::MAX,
        ensures
            r.contents().len() == len,
            exists|d: T| #[trigger] is_default_value(d) && forall|j: int|
                0 <= j < len ==> r.contents()[j] == Some(d),
            forall|j: int| 0 <= j < len ==> r.contents()[j] is Some,
    {
        let d = T::default();
        proof {
            assert(is_default_value(d));
        }
        let mut items: Vec<Option<T>> = Vec::new();
        let mut i: usize = 0;
        while i < len
            invariant
                i <= len,
                items@.len() == i,
                forall|j: int| 0 <= j < i ==> items@[j] == Some(d),
            decreases len - i,
        {
            items.push(Some(d));
            i = i + 1;
        }
        AlignedBox { alignment: PhantomData, items }
    }

    /// The padded byte length covered by the block-level conditional
    /// copies: the element bytes rounded up to the class size.
    #[inline]
    pub fn cmov_byte_size(&self) -> (r: usize)
        requires
            self.contents().len() * vstd::layout::size_of::<T>() + A::spec_size() <= usize::MAX,
        ensures
            r == round_up_to(self.contents().len() * vstd::layout::size_of::<T>() as int,
                A::spec_size() as int),
    {
        proof {
            A::size_positive();
        }
        let align: usize = A::size();
        let elem: usize = core::mem::size_of::<T>();
        let len: usize = self.items.len();
        proof {
            assert((elem as int) * (len as int) == (len as int) * (elem as int))
                by (nonlinear_arith);
        }
        let total: usize = elem * len;
        let padded: usize = total + (align - 1);
        proof {
            assert((padded as int / align as int) * align as int <= padded as int)
                by (nonlinear_arith)
                requires
                    0 < align as int,
                    0 <= padded as int,
            ;
        }
        (padded / align) * align
    }
}

impl<A: Alignment, T> AlignedBox<A, Option<T>> {
    /// Write one slot of a not-yet-initialised buffer.
    #[inline]
    pub fn write(&mut self, i: usize, value: T)
        requires
            i < old(self).contents().len(),
        ensures
            final(self).contents() == old(self).contents().update(i as int, Some(value)),
    {
        let slot = &mut self.items[i];
        *slot = Some(value);
    }

    /// Unwrap a buffer every slot of which has been written.
    ///
    /// The caller asserts initialisation by proving the precondition.
    pub fn assume_init(self) -> (r: AlignedBox<A, T>)
        requires
            forall|j: int| 0 <= j < self.contents().len() ==> self.contents()[j] is Some,
        ensures
            r.contents().len() == self.contents().len(),
            forall|j: int|
                0 <= j < self.contents().len() ==> Some(r.contents()[j]) == self.contents()[j],
    {
        let ghost orig = self.contents();
        let mut items = self.items;
        let mut out: Vec<T> = Vec::new();
        let len = items.len();
        let mut i: usize = 0;
        while i < len
            invariant
                i <= len,
                items@ == orig.skip(i as int),
                orig.len() == len,
                out@.len() == i,
                forall|j: int| 0 <= j < len ==> orig[j] is Some,
                forall|j: int| 0 <= j < i ==> Some(out@[j]) == orig[j],
            decreases len - i,
        {
            proof {
                assert(orig.skip(i as int)[0] == orig[i as int]);
            }
            let x = items.remove(0);
            out.push(x.unwrap());
            proof {
                assert(orig.skip(i as int).remove(0) =~= orig.skip(i as int + 1));
            }
            i = i + 1;
        }
        AlignedBox { alignment: PhantomData, items: out }
    }
}

impl<A: Alignment, T: Clone> Clone for AlignedBox<A, T> {
    /// A deep copy: every element is cloned into a fresh buffer at the
    /// same alignment class.
    fn clone(&self) -> (r: Self)
        ensures
            r.contents().len() == self.contents().len(),
            forall|i: int|
                0 <= i < self.contents().len() ==> vstd::pervasive::cloned::<T>(
                    self.contents()[i],
                    #[trigger] r.contents()[i],
                ),
    {
        Self { alignment: PhantomData, items: self.items.clone() }
    }
}

impl<A: Alignment, T: Default> Default for AlignedBox<A, T> {
    /// A one-element buffer holding the default value.
    fn default() -> (r: Self)
        ensures
            r.contents().len() == 1,
            is_default_value(r.contents()[0]),
    {
        let d = T::default();
        proof {
            assert(is_default_value(d));
        }
        AlignedBox::new(d)
    }
}

impl<A: Alignment, T: PartialEq> PartialEq for AlignedBox<A, T> {
    /// Buffers are equal when they hold equal elements in the same order.
    fn eq(&self, other: &Self) -> (r: bool) {
        self.items == other.items
    }
}

impl<A: Alignment, T: PartialEq> vstd::std_specs::cmp::PartialEqSpecImpl for AlignedBox<A, T> {
    open spec fn obeys_eq_spec() -> bool {
        <Vec<T> as PartialEqSpec>::obeys_eq_spec()
    }

    open spec fn eq_spec(&self, other: &Self) -> bool {
        <Vec<T> as PartialEqSpec>::eq_spec(&self.spec_items(), &other.spec_items())
    }
}

impl<A: Alignment, T> From<Vec<T>> for AlignedBox<A, T> {
    /// The buffer over the elements of `input`, in order.
    fn from(input: Vec<T>) -> (r: AlignedBox<A, T>)
        ensures
            r.contents() == input@,
    {
        AlignedBox::from_vec(input)
    }
}

impl<A: Alignment, T> vstd::std_specs::convert::FromSpecImpl<Vec<T>> for AlignedBox<A, T> {
    open spec fn obeys_from_spec() -> bool {
        true
    }

    open spec fn from_spec(v: Vec<T>) -> AlignedBox<A, T> {
        AlignedBox::spec_from_vec(v)
    }
}

impl<A: Alignment, T> AlignedBox<A, T> {
    /// The buffer value that `from_vec` builds over `v`.
    pub closed spec fn spec_from_vec(v: Vec<T>) -> AlignedBox<A, T> {
        AlignedBox { alignment: PhantomData, items: v }
    }
}

/// Converting a plain vector into an aligned heap buffer and back yields
/// the same vector: the elements, their order and their count all
/// survive the round trip.
pub proof fn lemma_vec_round_trip<A: Alignment, T>(v: Vec<T>, buf: AlignedBox<A, T>, out: Vec<T>)
    requires
        buf == AlignedBox::<A, T>::spec_from_vec(v),
        out == buf.spec_items(),
    ensures
        out == v,
        out@ == v@,
{
}

impl<A: Alignment, T> From<AlignedBox<A, T>> for Vec<T> {
    /// The elements moved into a plain vector, same order and count.
    fn from(input: AlignedBox<A, T>) -> (r: Vec<T>)
        ensures
            r@ == input.contents(),
    {
        input.into_vec()
    }
}

impl<A: Alignment, T> vstd::std_specs::convert::FromSpecImpl<AlignedBox<A, T>> for Vec<T> {
    open spec fn obeys_from_spec() -> bool {
        true
    }

    open spec fn from_spec(v: AlignedBox<A, T>) -> Vec<T> {
        v.spec_items()
    }
}

} // verus!
