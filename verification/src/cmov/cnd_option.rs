//! An oblivious optional value.
//!
//! Unlike a plain `Option`, a [`CndOption`] always stores a fully
//! constructed value of `T`, together with a presence flag.  The
//! combinators mutate the presence flag and the stored value through the
//! conditional-move capability, so their instruction paths do not depend
//! on the flag.  The operations that intentionally reveal presence
//! (`is_some`, `is_none`, `unwrap` and friends) are the documented
//! exception.
//!
//! The view of a `CndOption<T>` is the pair of the stored value's view
//! and the presence flag.  [`CndOption::option_view`] collapses that pair
//! to a plain `Option`, and the contracts state that every combinator
//! behaves on it exactly as the plain nullable value would.

use vstd::prelude::*;
use vstd::std_specs::cmp::PartialEqSpec;

use crate::cmov::CMov;

verus! {

/// Holds whenever `d` is a value that `T::default()` can return.
pub open spec fn is_default_value<T: Default>(d: T) -> bool {
    call_ensures(<T as Default>::default, (), d)
}

/// Every value `T::default()` can return is shape-compatible with `v`.
///
/// The combinators that select between a stored value and a freshly made
/// default need this to apply the conditional move.
pub open spec fn default_shape_of<T: CMov + Default>(v: <T as View>::V) -> bool {
    forall|d: T| #[trigger] is_default_value(d) ==> T::same_shape(d@, v)
}

/// `Option<T>` backed by conditional moves: storage for the value is kept
/// even while the presence flag is false.
#[derive(Clone, Debug)]
pub struct CndOption<T: CMov> {
    value: T,
    is_some: bool,
}

impl<T: CMov> View for CndOption<T> {
    type V = (<T as View>::V, bool);

    open spec fn view(&self) -> (<T as View>::V, bool) {
        (self.spec_value()@, self.spec_is_some())
    }
}

impl<T: CMov> CndOption<T> {
    /// The stored value, present or not.
    pub closed spec fn spec_value(&self) -> T {
        self.value
    }

    /// The presence flag.
    pub closed spec fn spec_is_some(&self) -> bool {
        self.is_some
    }

    /// The optional seen as a plain nullable value.
    pub open spec fn option_view(&self) -> Option<<T as View>::V> {
        if self.spec_is_some() {
            Some(self.spec_value()@)
        } else {
            None
        }
    }

    #[inline]
    pub fn new(value: T, is_some: bool) -> (r: Self)
        ensures
            r.spec_value() == value,
            r.spec_is_some() == is_some,
    {
        Self { value, is_some }
    }

    #[inline]
    pub fn new_some(value: T) -> (r: Self)
        ensures
            r.spec_value() == value,
            r.spec_is_some(),
            r.option_view() == Some(value@),
    {
        Self::new(value, true)
    }

    #[inline]
    pub fn new_none() -> (r: Self) where T: Default
        ensures
            !r.spec_is_some(),
            is_default_value(r.spec_value()),
            r.option_view() is None,
    {
        Self::new(T::default(), false)
    }

    /// Reveal the value; the caller must know it is present.
    #[inline]
    pub fn unwrap(self) -> (r: T)
        requires
            self.spec_is_some(),
        ensures
            r == self.spec_value(),
            self.option_view() == Some(r@),
    {
        self.value
    }

    /// The value if present, else `default`; selected without a branch.
    #[inline]
    pub fn unwrap_or(self, default: T) -> (r: T)
        requires
            T::same_shape(default@, self.spec_value()@),
        ensures
            r@ == match self.option_view() {
                Some(v) => v,
                None => default@,
            },
    {
        T::cnd_select(&default, &self.value, self.is_some)
    }

    /// The value if present, else the result of `f`.
    ///
    /// `f` is always run, so the call pattern does not reveal presence.
    #[inline]
    pub fn unwrap_or_else<F: FnOnce() -> T>(self, f: F) -> (r: T)
        requires
            call_requires(f, ()),
            forall|v: T| #[trigger] call_ensures(f, (), v) ==> T::same_shape(
                v@,
                self.spec_value()@,
            ),
        ensures
            self.spec_is_some() ==> r@ == self.spec_value()@,
            !self.spec_is_some() ==> exists|v: T| #[trigger] call_ensures(f, (), v) && r@ == v@,
    {
        let d = f();
        self.unwrap_or(d)
    }

    /// The value if present, else `T::default()`.
    #[inline]
    pub fn unwrap_or_default(self) -> (r: T) where T: Default
        requires
            default_shape_of::<T>(self.spec_value()@),
        ensures
            self.spec_is_some() ==> r@ == self.spec_value()@,
            !self.spec_is_some() ==> exists|d: T| #[trigger] is_default_value(d) && r@ == d@,
    {
        let d = T::default();
        proof {
            assert(is_default_value(d));
        }
        self.unwrap_or(d)
    }

    /// The stored value, whether or not it is present.
    #[inline]
    pub fn unwrap_unchecked(self) -> (r: T)
        ensures
            r == self.spec_value(),
    {
        self.value
    }

    /// Return the current state and clear presence.  The stored value
    /// stays in place until it is overwritten.
    #[inline]
    pub fn take(&mut self) -> (r: Self)
        ensures
            r.spec_value()@ == old(self).spec_value()@,
            r.spec_is_some() == old(self).spec_is_some(),
            r.option_view() == old(self).option_view(),
            final(self).spec_value() == old(self).spec_value(),
            !final(self).spec_is_some(),
    {
        let r = Self { value: self.value.dup(), is_some: self.is_some };
        self.is_some = false;
        r
    }

    /// Install `value` as present; return the previous state.
    #[inline]
    pub fn replace(&mut self, value: T) -> (r: Self)
        ensures
            r.spec_value() == old(self).spec_value(),
            r.spec_is_some() == old(self).spec_is_some(),
            r.option_view() == old(self).option_view(),
            final(self).spec_value() == value,
            final(self).spec_is_some(),
    {
        let mut n = Self::new_some(value);
        core::mem::swap(self, &mut n);
        n
    }

    /// Force-install `value`, presence becomes true.
    #[inline]
    pub fn insert(&mut self, value: T) -> (r: &mut T)
        ensures
            *r == value,
            final(self).spec_value() == *final(r),
            final(self).spec_is_some(),
    {
        self.value = value;
        self.is_some = true;
        &mut self.value
    }

    /// Install `value` only if currently absent, by selection rather than
    /// by a conditional.
    #[inline]
    pub fn get_or_insert(&mut self, value: T) -> (r: &mut T)
        requires
            T::same_shape(old(self).spec_value()@, value@),
        ensures
            (*r)@ == if old(self).spec_is_some() {
                old(self).spec_value()@
            } else {
                value@
            },
            final(self).spec_value() == *final(r),
            final(self).spec_is_some(),
    {
        let absent: bool = !self.is_some;
        self.value.cnd_assign(&value, absent);
        self.is_some = true;
        &mut self.value
    }

    /// Keep the current value if present, else adopt `other`'s value;
    /// presence flags are or-ed.
    #[inline]
    pub fn get_or_set(&mut self, other: Self) -> (r: &mut T)
        requires
            T::same_shape(other.spec_value()@, old(self).spec_value()@),
        ensures
            (*r)@ == if old(self).spec_is_some() {
                old(self).spec_value()@
            } else {
                other.spec_value()@
            },
            final(self).spec_value() == *final(r),
            final(self).spec_is_some() == (old(self).spec_is_some() || other.spec_is_some()),
    {
        let nv = T::cnd_select(&other.value, &self.value, self.is_some);
        self.value = nv;
        self.is_some = self.is_some || other.is_some;
        &mut self.value
    }

    /// Declare the stored value present.
    #[inline]
    pub fn force_some(&mut self) -> (r: &mut T)
        ensures
            *r == old(self).spec_value(),
            final(self).spec_value() == *final(r),
            final(self).spec_is_some(),
    {
        self.is_some = true;
        &mut self.value
    }

    /// Reveal whether a value is present.
    #[inline]
    pub fn is_some(&self) -> (r: bool)
        ensures
            r == self.spec_is_some(),
            r == (self.option_view() is Some),
    {
        self.is_some
    }

    /// Reveal whether no value is present.
    #[inline]
    pub fn is_none(&self) -> (r: bool)
        ensures
            r == !self.spec_is_some(),
            r == (self.option_view() is None),
    {
        !self.is_some
    }

    /// Apply `f` to the value.  `f` is always run: on a default-valued
    /// stand-in when absent, so the call pattern does not reveal presence.
    #[inline]
    pub fn map<U, F>(self, f: F) -> (r: CndOption<U>) where
        T: Default,
        U: CMov,
        F: FnOnce(T) -> U,

        requires
            forall|x: T| #[trigger] call_requires(f, (x,)),
            default_shape_of::<T>(self.spec_value()@),
        ensures
            r.spec_is_some() == self.spec_is_some(),
            self.spec_is_some() ==> exists|x: T| #[trigger] call_ensures(f, (x,), r.spec_value())
                && x@ == self.spec_value()@,
            !self.spec_is_some() ==> exists|x: T, d: T|
                #[trigger] call_ensures(f, (x,), r.spec_value()) && #[trigger] is_default_value(d)
                    && x@ == d@,
            exists|x: T| #[trigger] call_ensures(f, (x,), r.spec_value()),
    {
        let d = T::default();
        proof {
            assert(is_default_value(d));
        }
        let arg = T::cnd_select(&d, &self.value, self.is_some);
        CndOption::new(f(arg), self.is_some)
    }

    /// `map`, then resolve to a value: `f(value)` if present, else
    /// `default`.
    #[inline]
    pub fn map_or<U, F>(self, default: U, f: F) -> (r: U) where
        T: Default,
        U: CMov,
        F: FnOnce(T) -> U,

        requires
            forall|x: T| #[trigger] call_requires(f, (x,)),
            default_shape_of::<T>(self.spec_value()@),
            forall|x: T, y: U| #[trigger] call_ensures(f, (x,), y) ==> U::same_shape(
                default@,
                y@,
            ),
        ensures
            self.spec_is_some() ==> exists|x: T, y: U|
                #[trigger] call_ensures(f, (x,), y) && x@ == self.spec_value()@ && r@ == y@,
            !self.spec_is_some() ==> r@ == default@,
    {
        self.map(f).unwrap_or(default)
    }

    /// `map`, then resolve to a value: `f(value)` if present, else
    /// `default()`.  Both closures are always run.
    #[inline]
    pub fn map_or_else<U, D, F>(self, default: D, f: F) -> (r: U) where
        T: Default,
        U: CMov,
        D: FnOnce() -> U,
        F: FnOnce(T) -> U,

        requires
            call_requires(default, ()),
            forall|x: T| #[trigger] call_requires(f, (x,)),
            default_shape_of::<T>(self.spec_value()@),
            forall|x: T, y: U, z: U|
                call_ensures(f, (x,), y) && call_ensures(default, (), z) ==> U::same_shape(
                    z@,
                    y@,
                ),
        ensures
            self.spec_is_some() ==> exists|x: T, y: U|
                #[trigger] call_ensures(f, (x,), y) && x@ == self.spec_value()@ && r@ == y@,
            !self.spec_is_some() ==> exists|z: U| #[trigger] call_ensures(default, (), z) && r@
                == z@,
    {
        self.map(f).unwrap_or_else(default)
    }

    /// `other` if present, else absent; the value slot is filled by
    /// selection between `other`'s value and a default.
    #[inline]
    pub fn and<U>(self, other: CndOption<U>) -> (r: CndOption<U>) where U: CMov + Default
        requires
            default_shape_of::<U>(other.spec_value()@),
        ensures
            r.spec_is_some() == (self.spec_is_some() && other.spec_is_some()),
            self.spec_is_some() ==> r.spec_value()@ == other.spec_value()@,
            !self.spec_is_some() ==> exists|d: U| #[trigger] is_default_value(d)
                && r.spec_value()@ == d@,
            self.spec_is_some() ==> r.option_view() == other.option_view(),
            !self.spec_is_some() ==> r.option_view() is None,
    {
        let d = U::default();
        proof {
            assert(is_default_value(d));
        }
        let v = U::cnd_select(&d, &other.value, self.is_some);
        CndOption::new(v, self.is_some && other.is_some)
    }

    /// Apply `f` to the stored value; the result is present only if both
    /// presences hold.  `f` is always run, present or not.
    #[inline]
    pub fn and_then<U, F>(self, f: F) -> (r: CndOption<U>) where
        T: Default,
        U: CMov,
        F: FnOnce(T) -> CndOption<U>,

        requires
            call_requires(f, (self.spec_value(),)),
        ensures
            exists|t: CndOption<U>|
                {
                    &&& #[trigger] call_ensures(f, (self.spec_value(),), t)
                    &&& r.spec_value() == t.spec_value()
                    &&& r.spec_is_some() == (self.spec_is_some() && t.spec_is_some())
                },
    {
        let ghost v = self.spec_value();
        let mut tmp = f(self.value);
        proof {
            assert(call_ensures(f, (v,), tmp));
        }
        tmp.is_some = tmp.is_some && self.is_some;
        tmp
    }

    /// Keep the current value if present, else adopt `other`'s; presence
    /// flags are or-ed.
    #[inline]
    pub fn or(self, other: CndOption<T>) -> (r: CndOption<T>)
        requires
            T::same_shape(other.spec_value()@, self.spec_value()@),
        ensures
            r.spec_value()@ == if self.spec_is_some() {
                self.spec_value()@
            } else {
                other.spec_value()@
            },
            r.spec_is_some() == (self.spec_is_some() || other.spec_is_some()),
            self.spec_is_some() ==> r.option_view() == self.option_view(),
            !self.spec_is_some() ==> r.option_view() == other.option_view(),
    {
        let v = T::cnd_select(&other.value, &self.value, self.is_some);
        CndOption::new(v, self.is_some || other.is_some)
    }

    /// `or` against the result of `f`, which is always run.
    #[inline]
    pub fn or_else<F>(self, f: F) -> (r: CndOption<T>) where F: FnOnce() -> CndOption<T>
        requires
            call_requires(f, ()),
            forall|o: CndOption<T>| #[trigger] call_ensures(f, (), o) ==> T::same_shape(
                o.spec_value()@,
                self.spec_value()@,
            ),
        ensures
            self.spec_is_some() ==> r.spec_value()@ == self.spec_value()@,
            exists|o: CndOption<T>|
                {
                    &&& #[trigger] call_ensures(f, (), o)
                    &&& r.spec_value()@ == if self.spec_is_some() {
                        self.spec_value()@
                    } else {
                        o.spec_value()@
                    }
                    &&& r.spec_is_some() == (self.spec_is_some() || o.spec_is_some())
                },
    {
        let o = f();
        self.or(o)
    }
}

impl<T: CMov + Default> Default for CndOption<T> {
    /// An absent value over default-valued storage.
    fn default() -> (r: Self)
        ensures
            !r.spec_is_some(),
            is_default_value(r.spec_value()),
    {
        Self::new_none()
    }
}

impl<T: CMov> From<CndOption<T>> for Option<T> {
    /// Reveal the presence flag and convert.
    fn from(input: CndOption<T>) -> (r: Option<T>) {
        if input.is_some() {
            Some(input.unwrap())
        } else {
            None
        }
    }
}

impl<T: CMov> vstd::std_specs::convert::FromSpecImpl<CndOption<T>> for Option<T> {
    open spec fn obeys_from_spec() -> bool {
        true
    }

    open spec fn from_spec(v: CndOption<T>) -> Option<T> {
        if v.spec_is_some() {
            Some(v.spec_value())
        } else {
            None
        }
    }
}

impl<T: CMov + Default> From<Option<T>> for CndOption<T> {
    /// `Some` keeps the value; `None` becomes an absent value over
    /// default-valued storage.
    fn from(input: Option<T>) -> (r: CndOption<T>)
        ensures
            input matches Some(v) ==> r.spec_is_some() && r.spec_value() == v,
            input is None ==> !r.spec_is_some() && is_default_value(r.spec_value()),
    {
        match input {
            Some(value) => Self::new_some(value),
            None => Self::new_none(),
        }
    }
}

impl<T: CMov + Default> vstd::std_specs::convert::FromSpecImpl<Option<T>> for CndOption<T> {
    open spec fn obeys_from_spec() -> bool {
        false
    }

    open spec fn from_spec(v: Option<T>) -> CndOption<T> {
        choose|c: CndOption<T>| c.spec_is_some() == (v is Some)
    }
}

impl<T: CMov + PartialEq> PartialEq for CndOption<T> {
    /// Two optionals are equal when the presence flags match and, if both
    /// are present, the values are equal; absent payloads are never
    /// compared.
    fn eq(&self, other: &Self) -> (r: bool) {
        if self.is_some != other.is_some {
            return false;
        }
        if self.is_some {
            self.value == other.value
        } else {
            true
        }
    }
}

impl<T: CMov + PartialEq> vstd::std_specs::cmp::PartialEqSpecImpl for CndOption<T> {
    open spec fn obeys_eq_spec() -> bool {
        T::obeys_eq_spec()
    }

    open spec fn eq_spec(&self, other: &Self) -> bool {
        self.spec_is_some() == other.spec_is_some() && (self.spec_is_some()
            ==> self.spec_value().eq_spec(&other.spec_value()))
    }
}

impl<T: CMov> CMov for CndOption<T> {
    open spec fn same_shape(a: (<T as View>::V, bool), b: (<T as View>::V, bool)) -> bool {
        T::same_shape(a.0, b.0)
    }

    proof fn same_shape_laws(
        a: (<T as View>::V, bool),
        b: (<T as View>::V, bool),
        c: (<T as View>::V, bool),
    ) {
        T::same_shape_laws(a.0, b.0, c.0);
    }

    fn cnd_select(a: &Self, b: &Self, choice: bool) -> (r: Self) {
        Self {
            value: T::cnd_select(&a.value, &b.value, choice),
            is_some: bool::cnd_select(&a.is_some, &b.is_some, choice),
        }
    }

    fn cnd_assign(&mut self, other: &Self, choice: bool) {
        self.value.cnd_assign(&other.value, choice);
        self.is_some.cnd_assign(&other.is_some, choice);
    }

    fn cnd_swap(a: &mut Self, b: &mut Self, choice: bool) {
        T::cnd_swap(&mut a.value, &mut b.value, choice);
        bool::cnd_swap(&mut a.is_some, &mut b.is_some, choice);
    }

    fn dup(&self) -> (r: Self) {
        Self { value: self.value.dup(), is_some: self.is_some }
    }
}

} // verus!
