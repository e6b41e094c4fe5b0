//! Block-level conditional copies, and conditional moves for the
//! alignment-tagged containers.
//!
//! A block copy conditionally overwrites a destination byte range with a
//! source range of the same length.  The loop's trip count depends only
//! on the range length, never on the bytes or on the choice; each store
//! goes through the masked select.  The wide-lane classes share the
//! word-granularity path, which is behaviourally identical.

use vstd::prelude::*;

use crate::aligned::Aligned;
use crate::aligned::AlignedBox;
use crate::aligned::Alignment;
use crate::cmov::CMov;

verus! {

/// Conditionally overwrite `dst` with `src` over ranges of the 8-byte
/// class: equal lengths, non-zero, a multiple of 8.
pub fn cmov_bytes_a8(cnd: bool, src: &[u8], dst: &mut Vec<u8>)
    requires
        old(dst)@.len() == src@.len(),
        old(dst)@.len() > 0,
        old(dst)@.len() % 8 == 0,
    ensures
        final(dst)@ == if cnd {
            src@
        } else {
            old(dst)@
        },
{
    let n = dst.len();
    let mut i: usize = 0;
    while i < n
        invariant
            n == dst@.len(),
            n == src@.len(),
            i <= n,
            forall|j: int|
                0 <= j < i ==> dst@[j] == if cnd {
                    src@[j]
                } else {
                    old(dst)@[j]
                },
            forall|j: int| i <= j < n ==> dst@[j] == old(dst)@[j],
        decreases n - i,
    {
        let d: u8 = dst[i];
        let s: u8 = src[i];
        let v: u8 = u8::cnd_select(&d, &s, cnd);
        let slot = &mut dst[i];
        *slot = v;
        i = i + 1;
    }
    proof {
        if cnd {
            assert(dst@ =~= src@);
        } else {
            assert(dst@ =~= old(dst)@);
        }
    }
}

/// Conditionally overwrite `dst` with `src` over ranges of the 32-byte
/// class.  This platform-independent path shares the narrow copy, which
/// is behaviourally identical to a wide-lane one.
pub fn cmov_bytes_a32(cnd: bool, src: &[u8], dst: &mut Vec<u8>)
    requires
        old(dst)@.len() == src@.len(),
        old(dst)@.len() > 0,
        old(dst)@.len() % 32 == 0,
    ensures
        final(dst)@ == if cnd {
            src@
        } else {
            old(dst)@
        },
{
    proof {
        let n = old(dst)@.len() as int;
        assert(n % 32 == 0 ==> n % 8 == 0) by (nonlinear_arith);
    }
    cmov_bytes_a8(cnd, src, dst)
}

/// Conditionally overwrite `dst` with `src` over ranges of the 64-byte
/// class.  This platform-independent path shares the narrow copy, which
/// is behaviourally identical to a wide-lane one.
pub fn cmov_bytes_a64(cnd: bool, src: &[u8], dst: &mut Vec<u8>)
    requires
        old(dst)@.len() == src@.len(),
        old(dst)@.len() > 0,
        old(dst)@.len() % 64 == 0,
    ensures
        final(dst)@ == if cnd {
            src@
        } else {
            old(dst)@
        },
{
    proof {
        let n = old(dst)@.len() as int;
        assert(n % 64 == 0 ==> n % 8 == 0) by (nonlinear_arith);
    }
    cmov_bytes_a8(cnd, src, dst)
}

impl<A: Alignment, T: CMov> CMov for Aligned<A, T> {
    open spec fn same_shape(a: <T as View>::V, b: <T as View>::V) -> bool {
        T::same_shape(a, b)
    }

    proof fn same_shape_laws(a: <T as View>::V, b: <T as View>::V, c: <T as View>::V) {
        T::same_shape_laws(a, b, c);
    }

    fn cnd_select(a: &Self, b: &Self, choice: bool) -> (r: Self) {
        Aligned::new(T::cnd_select(a.get(), b.get(), choice))
    }

    fn cnd_assign(&mut self, other: &Self, choice: bool) {
        let v = self.get_mut();
        v.cnd_assign(other.get(), choice);
    }

    fn cnd_swap(a: &mut Self, b: &mut Self, choice: bool) {
        T::cnd_swap(a.get_mut(), b.get_mut(), choice);
    }

    fn dup(&self) -> (r: Self) {
        Aligned::new(self.get().dup())
    }
}

impl<A: Alignment, T: CMov> CMov for AlignedBox<A, T> {
    open spec fn same_shape(a: Seq<<T as View>::V>, b: Seq<<T as View>::V>) -> bool {
        a.len() == b.len() && (forall|i: int|
            0 <= i < a.len() ==> T::same_shape(#[trigger] a[i], #[trigger] b[i]))
    }

    proof fn same_shape_laws(
        a: Seq<<T as View>::V>,
        b: Seq<<T as View>::V>,
        c: Seq<<T as View>::V>,
    ) {
        assert forall|i: int| 0 <= i < a.len() implies T::same_shape(#[trigger] a[i], a[i]) by {
            T::same_shape_laws(a[i], a[i], a[i]);
        }
        if a.len() == b.len() {
            assert forall|i: int|
                0 <= i < b.len() && T::same_shape(a[i], b[i]) implies T::same_shape(
                #[trigger] b[i],
                #[trigger] a[i],
            ) by {
                T::same_shape_laws(a[i], b[i], c[i]);
            }
        }
        if a.len() == b.len() && b.len() == c.len() {
            assert forall|i: int|
                0 <= i < a.len() && T::same_shape(a[i], b[i]) && T::same_shape(b[i], c[i])
                implies T::same_shape(#[trigger] a[i], #[trigger] c[i]) by {
                T::same_shape_laws(a[i], b[i], c[i]);
            }
        }
    }

    fn cnd_select(a: &Self, b: &Self, choice: bool) -> (r: Self) {
        let n = a.len();
        let mut items: Vec<T> = Vec::new();
        let mut i: usize = 0;
        while i < n
            invariant
                n == a.contents().len(),
                n == b.contents().len(),
                forall|j: int|
                    0 <= j < n ==> T::same_shape(#[trigger] a@[j], #[trigger] b@[j]),
                i <= n,
                items@.len() == i,
                forall|j: int|
                    0 <= j < i ==> items@[j]@ == if choice {
                        b.contents()[j]@
                    } else {
                        a.contents()[j]@
                    },
            decreases n - i,
        {
            proof {
                assert(a@[i as int] == a.contents()[i as int]@);
                assert(b@[i as int] == b.contents()[i as int]@);
            }
            items.push(T::cnd_select(a.get(i), b.get(i), choice));
            i = i + 1;
        }
        let r = AlignedBox::from_vec(items);
        proof {
            if choice {
                assert(r@ =~= b@);
            } else {
                assert(r@ =~= a@);
            }
        }
        r
    }

    fn cnd_assign(&mut self, other: &Self, choice: bool) {
        let n = self.len();
        let mut i: usize = 0;
        while i < n
            invariant
                n == self.contents().len(),
                n == other.contents().len(),
                n == old(self).contents().len(),
                forall|j: int|
                    0 <= j < n ==> T::same_shape(#[trigger] old(self)@[j], #[trigger] other@[j]),
                i <= n,
                forall|j: int|
                    0 <= j < i ==> self.contents()[j]@ == if choice {
                        other.contents()[j]@
                    } else {
                        old(self).contents()[j]@
                    },
                forall|j: int| i <= j < n ==> self.contents()[j] == old(self).contents()[j],
            decreases n - i,
        {
            proof {
                assert(old(self)@[i as int] == old(self).contents()[i as int]@);
                assert(other@[i as int] == other.contents()[i as int]@);
            }
            let e = self.get_mut(i);
            e.cnd_assign(other.get(i), choice);
            i = i + 1;
        }
        proof {
            if choice {
                assert(self@ =~= other@);
            } else {
                assert(self@ =~= old(self)@);
            }
        }
    }

    fn cnd_swap(a: &mut Self, b: &mut Self, choice: bool) {
        let n = a.len();
        let mut i: usize = 0;
        while i < n
            invariant
                n == a.contents().len(),
                n == b.contents().len(),
                n == old(a).contents().len(),
                n == old(b).contents().len(),
                forall|j: int|
                    0 <= j < n ==> T::same_shape(#[trigger] old(a)@[j], #[trigger] old(b)@[j]),
                i <= n,
                forall|j: int|
                    0 <= j < i ==> a.contents()[j]@ == if choice {
                        old(b).contents()[j]@
                    } else {
                        old(a).contents()[j]@
                    },
                forall|j: int|
                    0 <= j < i ==> b.contents()[j]@ == if choice {
                        old(a).contents()[j]@
                    } else {
                        old(b).contents()[j]@
                    },
                forall|j: int| i <= j < n ==> a.contents()[j] == old(a).contents()[j],
                forall|j: int| i <= j < n ==> b.contents()[j] == old(b).contents()[j],
            decreases n - i,
        {
            proof {
                assert(old(a)@[i as int] == old(a).contents()[i as int]@);
                assert(old(b)@[i as int] == old(b).contents()[i as int]@);
            }
            T::cnd_swap(a.get_mut(i), b.get_mut(i), choice);
            i = i + 1;
        }
        proof {
            if choice {
                assert(a@ =~= old(b)@);
                assert(b@ =~= old(a)@);
            } else {
                assert(a@ =~= old(a)@);
                assert(b@ =~= old(b)@);
            }
        }
    }

    fn dup(&self) -> (r: Self) {
        let n = self.len();
        let mut items: Vec<T> = Vec::new();
        let mut i: usize = 0;
        while i < n
            invariant
                n == self.contents().len(),
                i <= n,
                items@.len() == i,
                forall|j: int| 0 <= j < i ==> items@[j]@ == self.contents()[j]@,
            decreases n - i,
        {
            items.push(self.get(i).dup());
            i = i + 1;
        }
        let r = AlignedBox::from_vec(items);
        proof {
            assert(r@ =~= self@);
        }
        r
    }
}

} // verus!
