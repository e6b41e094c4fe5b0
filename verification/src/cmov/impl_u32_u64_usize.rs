//! Conditional moves for 32-bit, 64-bit and pointer-sized integers.
//!
//! The word widths use the same full-width mask idiom as the narrow
//! integers; the pointer-sized types go through the 64-bit path, which is
//! lossless because a pointer-sized integer is at most 64 bits wide.

use vstd::prelude::*;

use crate::cmov::CMov;

verus! {

proof fn lemma_mask_u32(a: u32, b: u32)
    ensures
        a ^ (0xffff_ffffu32 & (a ^ b)) == b,
        b ^ (0xffff_ffffu32 & (a ^ b)) == a,
        a ^ (0u32 & (a ^ b)) == a,
        b ^ (0u32 & (a ^ b)) == b,
{
    assert(a ^ (0xffff_ffffu32 & (a ^ b)) == b && b ^ (0xffff_ffffu32 & (a ^ b)) == a && a ^ (
    0u32 & (a ^ b)) == a && b ^ (0u32 & (a ^ b)) == b) by (bit_vector);
}

proof fn lemma_mask_u64(a: u64, b: u64)
    ensures
        a ^ (0xffff_ffff_ffff_ffffu64 & (a ^ b)) == b,
        b ^ (0xffff_ffff_ffff_ffffu64 & (a ^ b)) == a,
        a ^ (0u64 & (a ^ b)) == a,
        b ^ (0u64 & (a ^ b)) == b,
{
    assert(a ^ (0xffff_ffff_ffff_ffffu64 & (a ^ b)) == b && b ^ (0xffff_ffff_ffff_ffffu64 & (a
        ^ b)) == a && a ^ (0u64 & (a ^ b)) == a && b ^ (0u64 & (a ^ b)) == b) by (bit_vector);
}

proof fn lemma_cast_i32(x: i32)
    ensures
        ((x as u32) as i32) == x,
{
    assert(((x as u32) as i32) == x) by (bit_vector);
}

proof fn lemma_cast_i64(x: i64)
    ensures
        ((x as u64) as i64) == x,
{
    assert(((x as u64) as i64) == x) by (bit_vector);
}

impl CMov for u32 {
    open spec fn same_shape(a: u32, b: u32) -> bool {
        true
    }

    proof fn same_shape_laws(a: u32, b: u32, c: u32) {
    }

    fn cnd_select(a: &u32, b: &u32, choice: bool) -> (r: u32) {
        let mask: u32 = (choice as u32) * 0xffff_ffff;
        proof {
            lemma_mask_u32(*a, *b);
        }
        *a ^ (mask & (*a ^ *b))
    }

    fn cnd_assign(&mut self, other: &u32, choice: bool) {
        let r: u32 = u32::cnd_select(self, other, choice);
        *self = r;
    }

    fn cnd_swap(a: &mut u32, b: &mut u32, choice: bool) {
        let mask: u32 = (choice as u32) * 0xffff_ffff;
        proof {
            lemma_mask_u32(*a, *b);
        }
        let t: u32 = mask & (*a ^ *b);
        *a = *a ^ t;
        *b = *b ^ t;
    }

    fn dup(&self) -> (r: u32) {
        *self
    }
}

impl CMov for u64 {
    open spec fn same_shape(a: u64, b: u64) -> bool {
        true
    }

    proof fn same_shape_laws(a: u64, b: u64, c: u64) {
    }

    fn cnd_select(a: &u64, b: &u64, choice: bool) -> (r: u64) {
        let mask: u64 = (choice as u64) * 0xffff_ffff_ffff_ffff;
        proof {
            lemma_mask_u64(*a, *b);
        }
        *a ^ (mask & (*a ^ *b))
    }

    fn cnd_assign(&mut self, other: &u64, choice: bool) {
        let r: u64 = u64::cnd_select(self, other, choice);
        *self = r;
    }

    fn cnd_swap(a: &mut u64, b: &mut u64, choice: bool) {
        let mask: u64 = (choice as u64) * 0xffff_ffff_ffff_ffff;
        proof {
            lemma_mask_u64(*a, *b);
        }
        let t: u64 = mask & (*a ^ *b);
        *a = *a ^ t;
        *b = *b ^ t;
    }

    fn dup(&self) -> (r: u64) {
        *self
    }
}

impl CMov for i32 {
    open spec fn same_shape(a: i32, b: i32) -> bool {
        true
    }

    proof fn same_shape_laws(a: i32, b: i32, c: i32) {
    }

    fn cnd_select(a: &i32, b: &i32, choice: bool) -> (r: i32) {
        let au: u32 = #[verifier::truncate] (*a as u32);
        let bu: u32 = #[verifier::truncate] (*b as u32);
        let ru: u32 = u32::cnd_select(&au, &bu, choice);
        proof {
            lemma_cast_i32(*a);
            lemma_cast_i32(*b);
        }
        #[verifier::truncate] (ru as i32)
    }

    fn cnd_assign(&mut self, other: &i32, choice: bool) {
        let r: i32 = i32::cnd_select(self, other, choice);
        *self = r;
    }

    fn cnd_swap(a: &mut i32, b: &mut i32, choice: bool) {
        let ta: i32 = *a;
        let tb: i32 = *b;
        *a = i32::cnd_select(&ta, &tb, choice);
        *b = i32::cnd_select(&tb, &ta, choice);
    }

    fn dup(&self) -> (r: i32) {
        *self
    }
}

impl CMov for i64 {
    open spec fn same_shape(a: i64, b: i64) -> bool {
        true
    }

    proof fn same_shape_laws(a: i64, b: i64, c: i64) {
    }

    fn cnd_select(a: &i64, b: &i64, choice: bool) -> (r: i64) {
        let au: u64 = #[verifier::truncate] (*a as u64);
        let bu: u64 = #[verifier::truncate] (*b as u64);
        let ru: u64 = u64::cnd_select(&au, &bu, choice);
        proof {
            lemma_cast_i64(*a);
            lemma_cast_i64(*b);
        }
        #[verifier::truncate] (ru as i64)
    }

    fn cnd_assign(&mut self, other: &i64, choice: bool) {
        let r: i64 = i64::cnd_select(self, other, choice);
        *self = r;
    }

    fn cnd_swap(a: &mut i64, b: &mut i64, choice: bool) {
        let ta: i64 = *a;
        let tb: i64 = *b;
        *a = i64::cnd_select(&ta, &tb, choice);
        *b = i64::cnd_select(&tb, &ta, choice);
    }

    fn dup(&self) -> (r: i64) {
        *self
    }
}

impl CMov for usize {
    open spec fn same_shape(a: usize, b: usize) -> bool {
        true
    }

    proof fn same_shape_laws(a: usize, b: usize, c: usize) {
    }

    fn cnd_select(a: &usize, b: &usize, choice: bool) -> (r: usize) {
        let au: u64 = *a as u64;
        let bu: u64 = *b as u64;
        let ru: u64 = u64::cnd_select(&au, &bu, choice);
        ru as usize
    }

    fn cnd_assign(&mut self, other: &usize, choice: bool) {
        let r: usize = usize::cnd_select(self, other, choice);
        *self = r;
    }

    fn cnd_swap(a: &mut usize, b: &mut usize, choice: bool) {
        let ta: usize = *a;
        let tb: usize = *b;
        *a = usize::cnd_select(&ta, &tb, choice);
        *b = usize::cnd_select(&tb, &ta, choice);
    }

    fn dup(&self) -> (r: usize) {
        *self
    }
}

impl CMov for isize {
    open spec fn same_shape(a: isize, b: isize) -> bool {
        true
    }

    proof fn same_shape_laws(a: isize, b: isize, c: isize) {
    }

    fn cnd_select(a: &isize, b: &isize, choice: bool) -> (r: isize) {
        let au: i64 = *a as i64;
        let bu: i64 = *b as i64;
        let ru: i64 = i64::cnd_select(&au, &bu, choice);
        ru as isize
    }

    fn cnd_assign(&mut self, other: &isize, choice: bool) {
        let r: isize = isize::cnd_select(self, other, choice);
        *self = r;
    }

    fn cnd_swap(a: &mut isize, b: &mut isize, choice: bool) {
        let ta: isize = *a;
        let tb: isize = *b;
        *a = isize::cnd_select(&ta, &tb, choice);
        *b = isize::cnd_select(&tb, &ta, choice);
    }

    fn dup(&self) -> (r: isize) {
        *self
    }
}

} // verus!
