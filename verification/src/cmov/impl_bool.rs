//! Conditional moves for booleans, reduced to the 8-bit integer select.

use vstd::prelude::*;

use crate::cmov::CMov;

verus! {

impl CMov for bool {
    open spec fn same_shape(a: bool, b: bool) -> bool {
        true
    }

    proof fn same_shape_laws(a: bool, b: bool, c: bool) {
    }

    fn cnd_select(a: &bool, b: &bool, choice: bool) -> (r: bool) {
        let au: u8 = *a as u8;
        let bu: u8 = *b as u8;
        u8::cnd_select(&au, &bu, choice) != 0
    }

    fn cnd_assign(&mut self, other: &bool, choice: bool) {
        let mut su: u8 = *self as u8;
        let ou: u8 = *other as u8;
        su.cnd_assign(&ou, choice);
        *self = su != 0;
    }

    fn cnd_swap(a: &mut bool, b: &mut bool, choice: bool) {
        let mut au: u8 = *a as u8;
        let mut bu: u8 = *b as u8;
        u8::cnd_swap(&mut au, &mut bu, choice);
        *a = au != 0;
        *b = bu != 0;
    }

    fn dup(&self) -> (r: bool) {
        *self
    }
}

} // verus!
