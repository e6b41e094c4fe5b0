//! A worked record type for the sorting engine.
//!
//! The conditional-move capability extends to any record by the
//! structural composition recipe: apply the capability to every field and
//! reassemble.  This record carries two sort keys and an opaque aligned
//! payload that travels with them through the network.

use vstd::prelude::*;

use crate::aligned::A8;
use crate::aligned::AlignedBox;
use crate::cmov::CMov;

verus! {

/// A distance, an identifier, and an aligned payload that follows them.
pub struct TestSortStruct {
    pub dist: u64,
    pub id: u64,
    pub payload: AlignedBox<A8, u8>,
}

impl View for TestSortStruct {
    type V = (u64, u64, Seq<u8>);

    open spec fn view(&self) -> (u64, u64, Seq<u8>) {
        (self.dist, self.id, self.payload@)
    }
}

impl CMov for TestSortStruct {
    open spec fn same_shape(a: (u64, u64, Seq<u8>), b: (u64, u64, Seq<u8>)) -> bool {
        <AlignedBox<A8, u8> as CMov>::same_shape(a.2, b.2)
    }

    proof fn same_shape_laws(a: (u64, u64, Seq<u8>), b: (u64, u64, Seq<u8>), c: (
        u64,
        u64,
        Seq<u8>,
    )) {
        <AlignedBox<A8, u8> as CMov>::same_shape_laws(a.2, b.2, c.2);
    }

    fn cnd_select(a: &Self, b: &Self, choice: bool) -> (r: Self) {
        TestSortStruct {
            dist: u64::cnd_select(&a.dist, &b.dist, choice),
            id: u64::cnd_select(&a.id, &b.id, choice),
            payload: <AlignedBox<A8, u8> as CMov>::cnd_select(&a.payload, &b.payload, choice),
        }
    }

    fn cnd_assign(&mut self, other: &Self, choice: bool) {
        self.dist.cnd_assign(&other.dist, choice);
        self.id.cnd_assign(&other.id, choice);
        self.payload.cnd_assign(&other.payload, choice);
    }

    fn cnd_swap(a: &mut Self, b: &mut Self, choice: bool) {
        u64::cnd_swap(&mut a.dist, &mut b.dist, choice);
        u64::cnd_swap(&mut a.id, &mut b.id, choice);
        <AlignedBox<A8, u8> as CMov>::cnd_swap(&mut a.payload, &mut b.payload, choice);
    }

    fn dup(&self) -> (r: Self) {
        TestSortStruct { dist: self.dist, id: self.id, payload: self.payload.dup() }
    }
}

} // verus!
