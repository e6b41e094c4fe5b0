//! Conditional moves for 8- and 16-bit integers.
//!
//! The mask is the full-width expansion of the choice bit:
//! all zeros when the choice is false, all ones when it is true.
//! `a ^ (mask & (a ^ b))` is then `a` or `b` without a branch.

use vstd::prelude::*;

use crate::cmov::CMov;

verus! {

proof fn lemma_mask_u8(a: u8, b: u8)
    ensures
        a ^ (255u8 & (a ^ b)) == b,
        b ^ (255u8 & (a ^ b)) == a,
        a ^ (0u8 & (a ^ b)) == a,
        b ^ (0u8 & (a ^ b)) == b,
{
    assert(a ^ (255u8 & (a ^ b)) == b && b ^ (255u8 & (a ^ b)) == a && a ^ (0u8 & (a ^ b)) == a
        && b ^ (0u8 & (a ^ b)) == b) by (bit_vector);
}

proof fn lemma_mask_u16(a: u16, b: u16)
    ensures
        a ^ (65535u16 & (a ^ b)) == b,
        b ^ (65535u16 & (a ^ b)) == a,
        a ^ (0u16 & (a ^ b)) == a,
        b ^ (0u16 & (a ^ b)) == b,
{
    assert(a ^ (65535u16 & (a ^ b)) == b && b ^ (65535u16 & (a ^ b)) == a && a ^ (0u16 & (a ^ b))
        == a && b ^ (0u16 & (a ^ b)) == b) by (bit_vector);
}

proof fn lemma_cast_i8(x: i8)
    ensures
        ((x as u8) as i8) == x,
{
    assert(((x as u8) as i8) == x) by (bit_vector);
}

proof fn lemma_cast_i16(x: i16)
    ensures
        ((x as u16) as i16) == x,
{
    assert(((x as u16) as i16) == x) by (bit_vector);
}

impl CMov for u8 {
    open spec fn same_shape(a: u8, b: u8) -> bool {
        true
    }

    proof fn same_shape_laws(a: u8, b: u8, c: u8) {
    }

    fn cnd_select(a: &u8, b: &u8, choice: bool) -> (r: u8) {
        let mask: u8 = (choice as u8) * 255;
        proof {
            lemma_mask_u8(*a, *b);
        }
        *a ^ (mask & (*a ^ *b))
    }

    fn cnd_assign(&mut self, other: &u8, choice: bool) {
        let mask: u8 = (choice as u8) * 255;
        proof {
            lemma_mask_u8(*self, *other);
        }
        *self = *self ^ (mask & (*self ^ *other));
    }

    fn cnd_swap(a: &mut u8, b: &mut u8, choice: bool) {
        let mask: u8 = (choice as u8) * 255;
        proof {
            lemma_mask_u8(*a, *b);
        }
        let t: u8 = mask & (*a ^ *b);
        *a = *a ^ t;
        *b = *b ^ t;
    }

    fn dup(&self) -> (r: u8) {
        *self
    }
}

impl CMov for u16 {
    open spec fn same_shape(a: u16, b: u16) -> bool {
        true
    }

    proof fn same_shape_laws(a: u16, b: u16, c: u16) {
    }

    fn cnd_select(a: &u16, b: &u16, choice: bool) -> (r: u16) {
        let mask: u16 = (choice as u16) * 65535;
        proof {
            lemma_mask_u16(*a, *b);
        }
        *a ^ (mask & (*a ^ *b))
    }

    fn cnd_assign(&mut self, other: &u16, choice: bool) {
        let mask: u16 = (choice as u16) * 65535;
        proof {
            lemma_mask_u16(*self, *other);
        }
        *self = *self ^ (mask & (*self ^ *other));
    }

    fn cnd_swap(a: &mut u16, b: &mut u16, choice: bool) {
        let mask: u16 = (choice as u16) * 65535;
        proof {
            lemma_mask_u16(*a, *b);
        }
        let t: u16 = mask & (*a ^ *b);
        *a = *a ^ t;
        *b = *b ^ t;
    }

    fn dup(&self) -> (r: u16) {
        *self
    }
}

impl CMov for i8 {
    open spec fn same_shape(a: i8, b: i8) -> bool {
        true
    }

    proof fn same_shape_laws(a: i8, b: i8, c: i8) {
    }

    fn cnd_select(a: &i8, b: &i8, choice: bool) -> (r: i8) {
        let au: u8 = #[verifier::truncate] (*a as u8);
        let bu: u8 = #[verifier::truncate] (*b as u8);
        let ru: u8 = u8::cnd_select(&au, &bu, choice);
        proof {
            lemma_cast_i8(*a);
            lemma_cast_i8(*b);
        }
        #[verifier::truncate] (ru as i8)
    }

    fn cnd_assign(&mut self, other: &i8, choice: bool) {
        let r: i8 = i8::cnd_select(self, other, choice);
        *self = r;
    }

    fn cnd_swap(a: &mut i8, b: &mut i8, choice: bool) {
        let ta: i8 = *a;
        let tb: i8 = *b;
        *a = i8::cnd_select(&ta, &tb, choice);
        *b = i8::cnd_select(&tb, &ta, choice);
    }

    fn dup(&self) -> (r: i8) {
        *self
    }
}

impl CMov for i16 {
    open spec fn same_shape(a: i16, b: i16) -> bool {
        true
    }

    proof fn same_shape_laws(a: i16, b: i16, c: i16) {
    }

    fn cnd_select(a: &i16, b: &i16, choice: bool) -> (r: i16) {
        let au: u16 = #[verifier::truncate] (*a as u16);
        let bu: u16 = #[verifier::truncate] (*b as u16);
        let ru: u16 = u16::cnd_select(&au, &bu, choice);
        proof {
            lemma_cast_i16(*a);
            lemma_cast_i16(*b);
        }
        #[verifier::truncate] (ru as i16)
    }

    fn cnd_assign(&mut self, other: &i16, choice: bool) {
        let r: i16 = i16::cnd_select(self, other, choice);
        *self = r;
    }

    fn cnd_swap(a: &mut i16, b: &mut i16, choice: bool) {
        let ta: i16 = *a;
        let tb: i16 = *b;
        *a = i16::cnd_select(&ta, &tb, choice);
        *b = i16::cnd_select(&tb, &ta, choice);
    }

    fn dup(&self) -> (r: i16) {
        *self
    }
}

} // verus!
