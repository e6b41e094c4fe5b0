//! Conditional moves for tuples: the structural composition rule.
//!
//! A composite value is conditionally moved by applying the capability to
//! every component independently and reassembling.  The same recipe,
//! written per field, extends the capability to any record type whose
//! leaves have it.

use vstd::prelude::*;

use crate::cmov::CMov;

verus! {

impl CMov for () {
    open spec fn same_shape(a: (), b: ()) -> bool {
        true
    }

    proof fn same_shape_laws(a: (), b: (), c: ()) {
    }

    fn cnd_select(a: &(), b: &(), choice: bool) -> (r: ()) {
    }

    fn cnd_assign(&mut self, other: &(), choice: bool) {
    }

    fn cnd_swap(a: &mut (), b: &mut (), choice: bool) {
    }

    fn dup(&self) -> (r: ()) {
    }
}

impl<T0: CMov> CMov for (T0,) {
    open spec fn same_shape(a: (<T0 as View>::V,), b: (<T0 as View>::V,)) -> bool {
        T0::same_shape(a.0, b.0)
    }

    proof fn same_shape_laws(
        a: (<T0 as View>::V,),
        b: (<T0 as View>::V,),
        c: (<T0 as View>::V,),
    ) {
        T0::same_shape_laws(a.0, b.0, c.0);
    }

    fn cnd_select(a: &(T0,), b: &(T0,), choice: bool) -> (r: (T0,)) {
        (T0::cnd_select(&a.0, &b.0, choice),)
    }

    fn cnd_assign(&mut self, other: &(T0,), choice: bool) {
        let n0: T0 = T0::cnd_select(&self.0, &other.0, choice);
        *self = (n0,);
    }

    fn cnd_swap(a: &mut (T0,), b: &mut (T0,), choice: bool) {
        T0::cnd_swap(&mut a.0, &mut b.0, choice);
    }

    fn dup(&self) -> (r: (T0,)) {
        (self.0.dup(),)
    }
}

impl<T0: CMov, T1: CMov> CMov for (T0, T1) {
    open spec fn same_shape(a: (<T0 as View>::V, <T1 as View>::V), b: (<T0 as View>::V, <T1 as View>::V)) -> bool {
        T0::same_shape(a.0, b.0) && T1::same_shape(a.1, b.1)
    }

    proof fn same_shape_laws(a: (<T0 as View>::V, <T1 as View>::V), b: (<T0 as View>::V, <T1 as View>::V), c: (<T0 as View>::V, <T1 as View>::V)) {
        T0::same_shape_laws(a.0, b.0, c.0);
        T1::same_shape_laws(a.1, b.1, c.1);
    }

    fn cnd_select(a: &(T0, T1), b: &(T0, T1), choice: bool) -> (r: (T0, T1)) {
        (T0::cnd_select(&a.0, &b.0, choice), T1::cnd_select(&a.1, &b.1, choice))
    }

    fn cnd_assign(&mut self, other: &(T0, T1), choice: bool) {
        let n0: T0 = T0::cnd_select(&self.0, &other.0, choice);
        let n1: T1 = T1::cnd_select(&self.1, &other.1, choice);
        *self = (n0, n1);
    }

    fn cnd_swap(a: &mut (T0, T1), b: &mut (T0, T1), choice: bool) {
        T0::cnd_swap(&mut a.0, &mut b.0, choice);
        T1::cnd_swap(&mut a.1, &mut b.1, choice);
    }

    fn dup(&self) -> (r: (T0, T1)) {
        (self.0.dup(), self.1.dup())
    }
}

impl<T0: CMov, T1: CMov, T2: CMov> CMov for (T0, T1, T2) {
    open spec fn same_shape(a: (<T0 as View>::V, <T1 as View>::V, <T2 as View>::V), b: (<T0 as View>::V, <T1 as View>::V, <T2 as View>::V)) -> bool {
        T0::same_shape(a.0, b.0) && T1::same_shape(a.1, b.1) && T2::same_shape(a.2, b.2)
    }

    proof fn same_shape_laws(a: (<T0 as View>::V, <T1 as View>::V, <T2 as View>::V), b: (<T0 as View>::V, <T1 as View>::V, <T2 as View>::V), c: (<T0 as View>::V, <T1 as View>::V, <T2 as View>::V)) {
        T0::same_shape_laws(a.0, b.0, c.0);
        T1::same_shape_laws(a.1, b.1, c.1);
        T2::same_shape_laws(a.2, b.2, c.2);
    }

    fn cnd_select(a: &(T0, T1, T2), b: &(T0, T1, T2), choice: bool) -> (r: (T0, T1, T2)) {
        (
            T0::cnd_select(&a.0, &b.0, choice),
            T1::cnd_select(&a.1, &b.1, choice),
            T2::cnd_select(&a.2, &b.2, choice),
        )
    }

    fn cnd_assign(&mut self, other: &(T0, T1, T2), choice: bool) {
        let n0: T0 = T0::cnd_select(&self.0, &other.0, choice);
        let n1: T1 = T1::cnd_select(&self.1, &other.1, choice);
        let n2: T2 = T2::cnd_select(&self.2, &other.2, choice);
        *self = (n0, n1, n2);
    }

    fn cnd_swap(a: &mut (T0, T1, T2), b: &mut (T0, T1, T2), choice: bool) {
        T0::cnd_swap(&mut a.0, &mut b.0, choice);
        T1::cnd_swap(&mut a.1, &mut b.1, choice);
        T2::cnd_swap(&mut a.2, &mut b.2, choice);
    }

    fn dup(&self) -> (r: (T0, T1, T2)) {
        (self.0.dup(), self.1.dup(), self.2.dup())
    }
}

impl<T0: CMov, T1: CMov, T2: CMov, T3: CMov> CMov for (T0, T1, T2, T3) {
    open spec fn same_shape(a: (<T0 as View>::V, <T1 as View>::V, <T2 as View>::V, <T3 as View>::V), b: (<T0 as View>::V, <T1 as View>::V, <T2 as View>::V, <T3 as View>::V)) -> bool {
        T0::same_shape(a.0, b.0) && T1::same_shape(a.1, b.1) && T2::same_shape(a.2, b.2)
            && T3::same_shape(a.3, b.3)
    }

    proof fn same_shape_laws(a: (<T0 as View>::V, <T1 as View>::V, <T2 as View>::V, <T3 as View>::V), b: (<T0 as View>::V, <T1 as View>::V, <T2 as View>::V, <T3 as View>::V), c: (<T0 as View>::V, <T1 as View>::V, <T2 as View>::V, <T3 as View>::V)) {
        T0::same_shape_laws(a.0, b.0, c.0);
        T1::same_shape_laws(a.1, b.1, c.1);
        T2::same_shape_laws(a.2, b.2, c.2);
        T3::same_shape_laws(a.3, b.3, c.3);
    }

    fn cnd_select(a: &(T0, T1, T2, T3), b: &(T0, T1, T2, T3), choice: bool) -> (r: (
        T0,
        T1,
        T2,
        T3,
    )) {
        (
            T0::cnd_select(&a.0, &b.0, choice),
            T1::cnd_select(&a.1, &b.1, choice),
            T2::cnd_select(&a.2, &b.2, choice),
            T3::cnd_select(&a.3, &b.3, choice),
        )
    }

    fn cnd_assign(&mut self, other: &(T0, T1, T2, T3), choice: bool) {
        let n0: T0 = T0::cnd_select(&self.0, &other.0, choice);
        let n1: T1 = T1::cnd_select(&self.1, &other.1, choice);
        let n2: T2 = T2::cnd_select(&self.2, &other.2, choice);
        let n3: T3 = T3::cnd_select(&self.3, &other.3, choice);
        *self = (n0, n1, n2, n3);
    }

    fn cnd_swap(a: &mut (T0, T1, T2, T3), b: &mut (T0, T1, T2, T3), choice: bool) {
        T0::cnd_swap(&mut a.0, &mut b.0, choice);
        T1::cnd_swap(&mut a.1, &mut b.1, choice);
        T2::cnd_swap(&mut a.2, &mut b.2, choice);
        T3::cnd_swap(&mut a.3, &mut b.3, choice);
    }

    fn dup(&self) -> (r: (T0, T1, T2, T3)) {
        (self.0.dup(), self.1.dup(), self.2.dup(), self.3.dup())
    }
}

} // verus!
