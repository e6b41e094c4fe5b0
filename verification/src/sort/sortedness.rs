//! The merge network sorts.
//!
//! The theorem: applying the merge schedule to a range that is a valley
//! (one non-increasing run followed by one non-decreasing run) under a
//! total preorder yields a non-decreasing range.  The proof goes through
//! the zero-one principle: a monotone boolean abstraction commutes with
//! every compare-and-swap step, the boolean merge is settled by linear
//! reasoning over blocks of equal bits, and a sequence all of whose
//! monotone boolean abstractions are sorted is itself sorted.

use vstd::prelude::*;

use crate::sort::apply_schedule;
use crate::sort::bitonic_half;
use crate::sort::cas_step;
use crate::sort::cas_swaps;
use crate::sort::lemma_bitonic_half_bounds;
use crate::sort::lemma_merge_phase_apply;
use crate::sort::phase_pointwise;
use crate::sort::lo_of;
use crate::sort::hi_of;
use crate::sort::merge_phase;
use crate::sort::merge_schedule;
use crate::sort::steps_in_range;
use crate::sort::lemma_merge_schedule_in_range;
use crate::sort::lemma_apply_schedule_permutes;
use crate::sort::lemma_apply_schedule_app;
use crate::sort::sort_schedule;
use crate::sort::lemma_sort_schedule_in_range;

verus! {

/// `leq` relates every pair, one way or the other, and is transitive.
pub open spec fn total_preorder<V>(leq: spec_fn(V, V) -> bool) -> bool {
    (forall|a: V, b: V| #[trigger] leq(a, b) || #[trigger] leq(b, a)) && (forall|a: V, b: V, c: V|
        #[trigger] leq(a, b) && #[trigger] leq(b, c) ==> leq(a, c))
}

/// The range `[lo, hi)` is non-decreasing under `leq`.
pub open spec fn range_sorted_asc<V>(s: Seq<V>, lo: int, hi: int, leq: spec_fn(V, V) -> bool) -> bool {
    forall|i: int, j: int| lo <= i < j < hi ==> leq(#[trigger] s[i], #[trigger] s[j])
}

/// The range `[lo, hi)` falls until `t` and rises from `t` on.
pub open spec fn range_valley_at<V>(
    s: Seq<V>,
    lo: int,
    hi: int,
    t: int,
    leq: spec_fn(V, V) -> bool,
) -> bool {
    lo <= t <= hi && (forall|i: int, j: int|
        lo <= i < j < t ==> leq(#[trigger] s[j], #[trigger] s[i])) && (forall|i: int, j: int|
        t <= i < j < hi ==> leq(#[trigger] s[i], #[trigger] s[j]))
}

/// The range `[lo, hi)` is a valley under `leq`: a non-increasing run up
/// to some turning point, then a non-decreasing run.
pub open spec fn range_valley<V>(s: Seq<V>, lo: int, hi: int, leq: spec_fn(V, V) -> bool) -> bool {
    exists|t: int| #[trigger] range_valley_at(s, lo, hi, t, leq)
}

/// The boolean order: false before true.
pub open spec fn bool_leq() -> spec_fn(bool, bool) -> bool {
    |x: bool, y: bool| !x || y
}

/// `f` maps `leq`-ordered values to `bool_leq`-ordered bits.
pub open spec fn monotone_on<V>(f: spec_fn(V) -> bool, leq: spec_fn(V, V) -> bool) -> bool {
    forall|a: V, b: V| leq(a, b) && #[trigger] f(a) ==> #[trigger] f(b)
}

/// One compare-and-swap commutes with a monotone boolean abstraction.
proof fn lemma_cas_map<V>(
    s: Seq<V>,
    i: int,
    j: int,
    ascending: bool,
    leq: spec_fn(V, V) -> bool,
    f: spec_fn(V) -> bool,
)
    requires
        total_preorder(leq),
        monotone_on(f, leq),
        0 <= i < j < s.len(),
    ensures
        cas_step(s.map_values(f), i, j, ascending, bool_leq()) == cas_step(
            s,
            i,
            j,
            ascending,
            leq,
        ).map_values(f),
{
    let bs = s.map_values(f);
    let a = s[i];
    let b = s[j];
    if f(a) == f(b) {
        assert(cas_step(bs, i, j, ascending, bool_leq()) =~= cas_step(
            s,
            i,
            j,
            ascending,
            leq,
        ).map_values(f));
    } else {
        if !f(a) && f(b) {
            assert(!leq(b, a));
            assert(leq(a, b));
            assert(cas_swaps(a, b, leq, ascending) == cas_swaps(
                bs[i],
                bs[j],
                bool_leq(),
                ascending,
            ));
        } else {
            assert(!leq(a, b));
            assert(leq(b, a));
            assert(cas_swaps(a, b, leq, ascending) == cas_swaps(
                bs[i],
                bs[j],
                bool_leq(),
                ascending,
            ));
        }
        assert(cas_step(bs, i, j, ascending, bool_leq()) =~= cas_step(
            s,
            i,
            j,
            ascending,
            leq,
        ).map_values(f));
    }
}

/// A whole schedule commutes with a monotone boolean abstraction.
proof fn lemma_apply_map<V>(
    s: Seq<V>,
    steps: Seq<(int, int, bool)>,
    leq: spec_fn(V, V) -> bool,
    f: spec_fn(V) -> bool,
    start: int,
    len: int,
)
    requires
        total_preorder(leq),
        monotone_on(f, leq),
        0 <= start,
        start + len <= s.len(),
        steps_in_range(steps, start, len),
    ensures
        apply_schedule(s.map_values(f), steps, bool_leq()) == apply_schedule(
            s,
            steps,
            leq,
        ).map_values(f),
    decreases steps.len(),
{
    if steps.len() > 0 {
        let step = steps[0];
        assert(start <= step.0 < step.1 < start + len);
        lemma_cas_map(s, step.0, step.1, step.2, leq, f);
        let s1 = cas_step(s, step.0, step.1, step.2, leq);
        assert(s1.len() == s.len());
        assert(steps_in_range(steps.skip(1), start, len)) by {
            assert forall|k: int| 0 <= k < steps.skip(1).len() implies start <= (#[trigger] steps
                .skip(1)[k]).0 < steps.skip(1)[k].1 < start + len by {
                assert(steps.skip(1)[k] == steps[k + 1]);
            }
        }
        lemma_apply_map(s1, steps.skip(1), leq, f, start, len);
    }
}

/// A sequence all of whose monotone boolean abstractions are sorted over
/// a range is itself sorted over it.
proof fn lemma_sorted_from_bits<V>(r: Seq<V>, lo: int, hi: int, leq: spec_fn(V, V) -> bool)
    requires
        total_preorder(leq),
        0 <= lo <= hi <= r.len(),
        forall|f: spec_fn(V) -> bool| #[trigger] monotone_on(f, leq) ==> range_sorted_asc(
            r.map_values(f),
            lo,
            hi,
            bool_leq(),
        ),
    ensures
        range_sorted_asc(r, lo, hi, leq),
{
    assert forall|i: int, j: int| lo <= i < j < hi implies leq(#[trigger] r[i], #[trigger] r[j]) by {
        if !leq(r[i], r[j]) {
            let pivot = r[j];
            let f: spec_fn(V) -> bool = |x: V| !leq(x, pivot);
            assert(monotone_on(f, leq)) by {
                assert forall|a: V, b: V| leq(a, b) && #[trigger] f(a) implies #[trigger] f(b) by {
                    if leq(b, pivot) {
                        assert(leq(a, pivot));
                    }
                }
            }
            assert(f(r[i]));
            assert(!f(r[j]));
            let bits = r.map_values(f);
            assert(bits[i] && !bits[j]);
            assert((bool_leq())(bits[i], bits[j]));
        }
    }
}

/// Bits over `[lo, hi)`: ones until `x`, zeros until `y`, ones after.
pub open spec fn blocks101(b: Seq<bool>, lo: int, hi: int, x: int, y: int) -> bool {
    lo <= x <= y <= hi && (forall|i: int| lo <= i < x ==> b[i]) && (forall|i: int|
        x <= i < y ==> !b[i]) && (forall|i: int| y <= i < hi ==> b[i])
}

/// Bits over `[lo, hi)`: zeros until `x`, ones until `y`, zeros after.
pub open spec fn blocks010(b: Seq<bool>, lo: int, hi: int, x: int, y: int) -> bool {
    lo <= x <= y <= hi && (forall|i: int| lo <= i < x ==> !b[i]) && (forall|i: int|
        x <= i < y ==> b[i]) && (forall|i: int| y <= i < hi ==> !b[i])
}

/// The bit range is a valley: ones, zeros, ones.
pub open spec fn bits_valley(b: Seq<bool>, lo: int, hi: int) -> bool {
    exists|x: int, y: int| #[trigger] blocks101(b, lo, hi, x, y)
}

/// The bit range is a mountain: zeros, ones, zeros.
pub open spec fn bits_mountain(b: Seq<bool>, lo: int, hi: int) -> bool {
    exists|x: int, y: int| #[trigger] blocks010(b, lo, hi, x, y)
}

/// The bit range has at most one block of each value: some rotation of a
/// sorted arrangement.
pub open spec fn bits_bitonic(b: Seq<bool>, lo: int, hi: int) -> bool {
    bits_valley(b, lo, hi) || bits_mountain(b, lo, hi)
}

/// A positive power of two.
pub open spec fn is_pow2(n: int) -> bool
    decreases n,
{
    if n <= 0 {
        false
    } else if n == 1 {
        true
    } else {
        n % 2 == 0 && is_pow2(n / 2)
    }
}

proof fn lemma_pow2_compare(a: int, b: int)
    requires
        is_pow2(a),
        is_pow2(b),
        a < b,
    ensures
        2 * a <= b,
    decreases a,
{
    if a > 1 {
        lemma_pow2_compare(a / 2, b / 2);
    }
}

proof fn lemma_bitonic_half_is_pow2(len: int)
    requires
        2 <= len,
    ensures
        is_pow2(bitonic_half(len)),
    decreases len,
{
    if len > 2 {
        lemma_bitonic_half_is_pow2((len + 1) / 2);
    }
}

proof fn lemma_bitonic_half_of_pow2(len: int)
    requires
        2 <= len,
        is_pow2(len),
    ensures
        bitonic_half(len) == len / 2,
{
    lemma_bitonic_half_bounds(len);
    lemma_bitonic_half_is_pow2(len);
    let h = bitonic_half(len);
    if 2 * h != len {
        lemma_pow2_compare(h, len);
    }
}

/// One merge phase of an ascending merge on a valley of bits: the lower
/// part stays bitonic, the upper part stays a valley, and no one in the
/// lower part faces a zero in the upper part.
proof fn lemma_bits_phase_valley(b: Seq<bool>, lo: int, len: int, h: int)
    requires
        0 <= lo,
        lo + len <= b.len(),
        2 <= len,
        1 <= h < len,
        len <= 2 * h,
        bits_valley(b, lo, lo + len),
    ensures
        ({
            let m = len - h;
            let r = apply_schedule(b, merge_phase(lo, h, m, true), bool_leq());
            &&& r.len() == b.len()
            &&& forall|p: int| 0 <= p < b.len() && !(lo <= p < lo + len) ==> r[p] == b[p]
            &&& bits_bitonic(r, lo, lo + h)
            &&& bits_valley(r, lo + h, lo + len)
            &&& forall|p: int, q: int|
                lo <= p < lo + h <= q < lo + len ==> ((#[trigger] r[p]) ==> (#[trigger] r[q]))
        }),
{
    let m = len - h;
    let e = lo + len;
    let r = apply_schedule(b, merge_phase(lo, h, m, true), bool_leq());
    lemma_merge_phase_apply(b, lo, h, m, true, bool_leq());
    let (x, y): (int, int) = choose|x: int, y: int| blocks101(b, lo, e, x, y);
    assert(blocks101(b, lo, e, x, y));
    assert forall|i: int| lo <= i < e implies (#[trigger] b[i]) == (i < x || y <= i) by {}
    assert forall|k: int| 0 <= k < m implies (#[trigger] r[lo + k]) == (b[lo + k] && b[lo + k
        + h]) && r[lo + k + h] == (b[lo + k] || b[lo + k + h]) by {
        assert(phase_pointwise(b, r, lo, h, k, true, bool_leq()));
        assert(r[lo + k] == lo_of(b[lo + k], b[lo + k + h], bool_leq(), true));
        assert(r[lo + k + h] == hi_of(b[lo + k], b[lo + k + h], bool_leq(), true));
    }
    // the lower part, position by position: selected pair minimum, then
    // untouched middle
    assert forall|p: int| lo <= p < lo + h implies (#[trigger] r[p]) == if p < lo + m {
        (p < x || y <= p) && (p + h < x || y <= p + h)
    } else {
        (p < x || y <= p)
    } by {
        if p < lo + m {
            let k = p - lo;
            assert(phase_pointwise(b, r, lo, h, k, true, bool_leq()));
            assert(r[lo + k] == (b[lo + k] && b[lo + k + h]));
            assert(b[p] == (p < x || y <= p));
            assert(b[p + h] == (p + h < x || y <= p + h));
        } else {
            assert(b[p] == (p < x || y <= p));
        }
    }
    // the upper part: ones below x + h, ones from y on
    assert forall|q: int| lo + h <= q < e implies (#[trigger] r[q]) == (q < x + h || y <= q) by {
        let k = q - (lo + h);
        assert(phase_pointwise(b, r, lo, h, k, true, bool_leq()));
        assert(r[lo + k] == (b[lo + k] && b[lo + k + h]));
        assert(r[lo + k + h] == (b[lo + k] || b[lo + k + h]));
        assert(b[q - h] == (q - h < x || y <= q - h));
        assert(b[q] == (q < x || y <= q));
    }
    if y <= x + h {
        assert(blocks101(r, lo + h, e, e, e));
    } else {
        assert(blocks101(r, lo + h, e, x + h, y));
    }
    // the lower part
    if x > lo + h {
        // long leading ones: the pattern shifts down by h
        assert(blocks101(r, lo, lo + h, x - h, y - h)) by {
            assert forall|p: int| lo <= p < x - h implies r[p] by {}
            assert forall|p: int| x - h <= p < y - h implies !r[p] by {}
            assert forall|p: int| y - h <= p < lo + h implies r[p] by {}
        }
    } else if y < lo + h {
        // the trailing ones reach into the lower part: pattern kept
        assert(blocks101(r, lo, lo + h, x, y)) by {
            assert forall|p: int| lo <= p < x implies r[p] by {}
            assert forall|p: int| x <= p < y implies !r[p] by {}
            assert forall|p: int| y <= p < lo + h implies r[p] by {}
        }
    } else {
        // one interior block of ones survives
        let xm = if y - h > lo { y - h } else { lo };
        let top = if x < lo + h { x } else { lo + h };
        let ym = if top > xm { top } else { xm };
        assert(blocks010(r, lo, lo + h, xm, ym)) by {
            assert forall|p: int| lo <= p < xm implies !r[p] by {}
            assert forall|p: int| xm <= p < ym implies r[p] by {}
            assert forall|p: int| ym <= p < lo + h implies !r[p] by {}
        }
    }
    // separation
    assert forall|p: int, q: int| lo <= p < lo + h <= q < e && #[trigger] r[p] implies #[trigger] r[q] by {}
}

/// One merge phase of an ascending merge on a mountain of bits over a
/// range split exactly in half: both parts stay bitonic, and no one in
/// the lower part faces a zero in the upper part.
proof fn lemma_bits_phase_mountain(b: Seq<bool>, lo: int, h: int)
    requires
        0 <= lo,
        lo + 2 * h <= b.len(),
        1 <= h,
        bits_mountain(b, lo, lo + 2 * h),
    ensures
        ({
            let r = apply_schedule(b, merge_phase(lo, h, h, true), bool_leq());
            &&& r.len() == b.len()
            &&& forall|p: int| 0 <= p < b.len() && !(lo <= p < lo + 2 * h) ==> r[p] == b[p]
            &&& bits_bitonic(r, lo, lo + h)
            &&& bits_bitonic(r, lo + h, lo + 2 * h)
            &&& forall|p: int, q: int|
                lo <= p < lo + h <= q < lo + 2 * h ==> ((#[trigger] r[p]) ==> (#[trigger] r[q]))
        }),
{
    let e = lo + 2 * h;
    let r = apply_schedule(b, merge_phase(lo, h, h, true), bool_leq());
    lemma_merge_phase_apply(b, lo, h, h, true, bool_leq());
    let (x, y): (int, int) = choose|x: int, y: int| blocks010(b, lo, e, x, y);
    assert(blocks010(b, lo, e, x, y));
    assert forall|i: int| lo <= i < e implies (#[trigger] b[i]) == (x <= i < y) by {}
    assert forall|p: int| lo <= p < lo + h implies (#[trigger] r[p]) == (x <= p && p + h < y) by {
        let k = p - lo;
        assert(phase_pointwise(b, r, lo, h, k, true, bool_leq()));
        assert(r[lo + k] == lo_of(b[lo + k], b[lo + k + h], bool_leq(), true));
        assert(r[p] == (b[p] && b[p + h]));
        assert(b[p] == (x <= p < y));
        assert(b[p + h] == (x <= p + h < y));
    }
    assert forall|q: int| lo + h <= q < e implies (#[trigger] r[q]) == ((x + h <= q < y + h) || (x
        <= q < y)) by {
        let k = q - (lo + h);
        assert(phase_pointwise(b, r, lo, h, k, true, bool_leq()));
        assert(r[lo + k] == lo_of(b[lo + k], b[lo + k + h], bool_leq(), true));
        assert(r[lo + k + h] == hi_of(b[lo + k], b[lo + k + h], bool_leq(), true));
        assert(r[q] == (b[q - h] || b[q]));
        assert(b[q - h] == (x <= q - h < y));
        assert(b[q] == (x <= q < y));
    }
    // the lower part: one block of ones
    let xm = if x < lo + h {
        x
    } else {
        lo + h
    };
    let ym0 = if y - h < lo {
        lo
    } else if y - h > lo + h {
        lo + h
    } else {
        y - h
    };
    let ym = if ym0 > xm {
        ym0
    } else {
        xm
    };
    assert(blocks010(r, lo, lo + h, xm, ym)) by {
        assert forall|p: int| lo <= p < xm implies !r[p] by {}
        assert forall|p: int| xm <= p < ym implies r[p] by {}
        assert forall|p: int| ym <= p < lo + h implies !r[p] by {}
    }
    // the upper part
    if y >= x + h {
        let xu = if x > lo + h {
            x
        } else {
            lo + h
        };
        let yu0 = if y + h < e {
            y + h
        } else {
            e
        };
        let yu = if yu0 > xu {
            yu0
        } else {
            xu
        };
        assert(blocks010(r, lo + h, e, xu, yu)) by {
            assert forall|q: int| lo + h <= q < xu implies !r[q] by {}
            assert forall|q: int| xu <= q < yu implies r[q] by {}
            assert forall|q: int| yu <= q < e implies !r[q] by {}
        }
    } else if x > lo + h {
        let xu = if x < e {
            x
        } else {
            e
        };
        let yu = if y > xu {
            y
        } else {
            xu
        };
        assert(blocks010(r, lo + h, e, xu, yu)) by {
            assert forall|q: int| lo + h <= q < xu implies !r[q] by {}
            assert forall|q: int| xu <= q < yu implies r[q] by {}
            assert forall|q: int| yu <= q < e implies !r[q] by {}
        }
    } else if y < lo + h {
        let xu = x + h;
        let yu0 = if y + h < e {
            y + h
        } else {
            e
        };
        let yu = if yu0 > xu {
            yu0
        } else {
            xu
        };
        assert(blocks010(r, lo + h, e, xu, yu)) by {
            assert forall|q: int| lo + h <= q < xu implies !r[q] by {}
            assert forall|q: int| xu <= q < yu implies r[q] by {}
            assert forall|q: int| yu <= q < e implies !r[q] by {}
        }
    } else {
        // the block straddles the midpoint but is shorter than h
        assert(blocks101(r, lo + h, e, y, x + h)) by {
            assert forall|q: int| lo + h <= q < y implies r[q] by {}
            assert forall|q: int| y <= q < x + h implies !r[q] by {}
            assert forall|q: int| x + h <= q < e implies r[q] by {}
        }
    }
    // separation
    assert forall|p: int, q: int| lo <= p < lo + h <= q < e && #[trigger] r[p] implies #[trigger] r[q] by {}
}

/// The merge schedule sorts any range of bits that is a valley, or a
/// mountain of power-of-two length.
proof fn lemma_bits_merge(b: Seq<bool>, lo: int, len: int)
    requires
        0 <= lo,
        0 <= len,
        lo + len <= b.len(),
        bits_valley(b, lo, lo + len) || (is_pow2(len) && bits_mountain(b, lo, lo + len)),
    ensures
        ({
            let r = apply_schedule(b, merge_schedule(lo, len, true), bool_leq());
            &&& r.len() == b.len()
            &&& forall|p: int| 0 <= p < b.len() && !(lo <= p < lo + len) ==> r[p] == b[p]
            &&& range_sorted_asc(r, lo, lo + len, bool_leq())
        }),
    decreases len,
{
    broadcast use vstd::seq_lib::group_to_multiset_ensures;

    let e = lo + len;
    lemma_merge_schedule_in_range(lo, len, true);
    lemma_apply_schedule_permutes(b, merge_schedule(lo, len, true), bool_leq(), lo, len);
    let r = apply_schedule(b, merge_schedule(lo, len, true), bool_leq());
    if len <= 1 {
        assert(range_sorted_asc(r, lo, e, bool_leq()));
    } else {
        lemma_bitonic_half_bounds(len);
        lemma_bitonic_half_is_pow2(len);
        let h = bitonic_half(len);
        let m = len - h;
        let phase = merge_phase(lo, h, m, true);
        let m1 = merge_schedule(lo, h, true);
        let m2 = merge_schedule(lo + h, m, true);
        assert(merge_schedule(lo, len, true) == phase + m1 + m2);
        let b1 = apply_schedule(b, phase, bool_leq());
        let b2 = apply_schedule(b1, m1, bool_leq());
        lemma_apply_schedule_app(b, phase, m1, bool_leq());
        lemma_apply_schedule_app(b, phase + m1, m2, bool_leq());
        assert(b2 == apply_schedule(b, phase + m1, bool_leq()));
        assert(r == apply_schedule(b2, m2, bool_leq()));
        if bits_valley(b, lo, e) {
            lemma_bits_phase_valley(b, lo, len, h);
        } else {
            lemma_bitonic_half_of_pow2(len);
            assert(m == h);
            lemma_bits_phase_mountain(b, lo, h);
        }
        assert(bits_bitonic(b1, lo, lo + h));
        assert(bits_bitonic(b1, lo + h, e));
        assert(forall|p: int, q: int|
            lo <= p < lo + h <= q < e ==> ((#[trigger] b1[p]) ==> (#[trigger] b1[q])));
        // the lower half, recursively
        lemma_bits_merge(b1, lo, h);
        assert(range_sorted_asc(b2, lo, lo + h, bool_leq()));
        assert(forall|p: int| 0 <= p < b.len() && !(lo <= p < lo + h) ==> b2[p] == b1[p]);
        // the upper half keeps its shape through the lower merge
        assert(bits_valley(b2, lo + h, e) || (is_pow2(m) && bits_mountain(b2, lo + h, e))) by {
            if bits_valley(b1, lo + h, e) {
                let (x, y): (int, int) = choose|x: int, y: int|
                    #[trigger] blocks101(b1, lo + h, e, x, y);
                assert(blocks101(b1, lo + h, e, x, y));
                assert(blocks101(b2, lo + h, e, x, y));
            } else {
                let (x, y): (int, int) = choose|x: int, y: int|
                    #[trigger] blocks010(b1, lo + h, e, x, y);
                assert(blocks010(b1, lo + h, e, x, y));
                assert(blocks010(b2, lo + h, e, x, y));
                assert(m == h);
            }
        }
        // the upper half, recursively
        lemma_bits_merge(b2, lo + h, m);
        assert(range_sorted_asc(r, lo + h, e, bool_leq()));
        assert(forall|p: int| 0 <= p < b.len() && !(lo + h <= p < e) ==> r[p] == b2[p]);
        assert(range_sorted_asc(r, lo, lo + h, bool_leq())) by {
            assert forall|i: int, j: int| lo <= i < j < lo + h implies (bool_leq())(
                #[trigger] r[i],
                #[trigger] r[j],
            ) by {
                assert(r[i] == b2[i] && r[j] == b2[j]);
            }
        }
        // separation survives both permutations
        lemma_merge_schedule_in_range(lo, h, true);
        lemma_merge_schedule_in_range(lo + h, m, true);
        lemma_apply_schedule_permutes(b1, m1, bool_leq(), lo, h);
        lemma_apply_schedule_permutes(b2, m2, bool_leq(), lo + h, m);
        assert forall|p: int, q: int|
            lo <= p < lo + h <= q < e && #[trigger] r[p] implies #[trigger] r[q] by {
            if !r[q] {
                assert(r[p] == b2[p]);
                let sub2 = b2.subrange(lo, lo + h);
                let sub1 = b1.subrange(lo, lo + h);
                assert(sub2[p - lo] == b2[p]);
                assert(sub2.contains(true));
                assert(sub2.to_multiset() == sub1.to_multiset());
                assert(sub1.to_multiset().count(true) > 0);
                assert(sub1.contains(true));
                let p1 = choose|p1: int| 0 <= p1 < sub1.len() && sub1[p1] == true;
                assert(b1[lo + p1]);
                let subr = r.subrange(lo + h, e);
                let subu2 = b2.subrange(lo + h, e);
                let subu1 = b1.subrange(lo + h, e);
                assert(subr[q - lo - h] == r[q]);
                assert(subr.contains(false));
                assert(subr.to_multiset() == subu2.to_multiset());
                assert(subu2 =~= subu1);
                assert(subu1.to_multiset().count(false) > 0);
                assert(subu1.contains(false));
                let q1 = choose|q1: int| 0 <= q1 < subu1.len() && subu1[q1] == false;
                assert(!b1[lo + h + q1]);
                assert(b1[lo + p1] ==> b1[lo + h + q1]);
                assert(false);
            }
        }
        assert(range_sorted_asc(r, lo, e, bool_leq())) by {
            assert forall|i: int, j: int| lo <= i < j < e implies (bool_leq())(
                #[trigger] r[i],
                #[trigger] r[j],
            ) by {
                if i < lo + h && lo + h <= j {
                    assert(r[i] ==> r[j]);
                }
            }
        }
    }
}

/// A non-increasing run of values maps to ones followed by zeros.
proof fn lemma_desc_bits_cut<V>(
    s: Seq<V>,
    lo: int,
    t: int,
    leq: spec_fn(V, V) -> bool,
    f: spec_fn(V) -> bool,
)
    requires
        total_preorder(leq),
        monotone_on(f, leq),
        0 <= lo <= t <= s.len(),
        forall|i: int, j: int| lo <= i < j < t ==> leq(#[trigger] s[j], #[trigger] s[i]),
    ensures
        exists|x: int| #[trigger] blocks101(s.map_values(f), lo, t, x, t),
    decreases t - lo,
{
    let bits = s.map_values(f);
    if t == lo {
        assert(blocks101(bits, lo, t, lo, t));
    } else if f(s[t - 1]) {
        assert forall|i: int| lo <= i < t implies bits[i] by {
            if i < t - 1 {
                assert(leq(s[t - 1], s[i]));
            }
        }
        assert(blocks101(bits, lo, t, t, t));
    } else {
        lemma_desc_bits_cut(s, lo, t - 1, leq, f);
        let x = choose|x: int| #[trigger] blocks101(bits, lo, t - 1, x, t - 1);
        assert(blocks101(bits, lo, t, x, t));
    }
}

/// A non-decreasing run of values maps to zeros followed by ones.
proof fn lemma_asc_bits_cut<V>(
    s: Seq<V>,
    t: int,
    hi: int,
    leq: spec_fn(V, V) -> bool,
    f: spec_fn(V) -> bool,
)
    requires
        total_preorder(leq),
        monotone_on(f, leq),
        0 <= t <= hi <= s.len(),
        forall|i: int, j: int| t <= i < j < hi ==> leq(#[trigger] s[i], #[trigger] s[j]),
    ensures
        exists|y: int| #[trigger] blocks101(s.map_values(f), t, hi, t, y),
    decreases hi - t,
{
    let bits = s.map_values(f);
    if t == hi {
        assert(blocks101(bits, t, hi, t, hi));
    } else if f(s[t]) {
        assert forall|i: int| t <= i < hi implies bits[i] by {
            if i > t {
                assert(leq(s[t], s[i]));
            }
        }
        assert(blocks101(bits, t, hi, t, t));
    } else {
        lemma_asc_bits_cut(s, t + 1, hi, leq, f);
        let y = choose|y: int| #[trigger] blocks101(bits, t + 1, hi, t + 1, y);
        assert(blocks101(bits, t, hi, t, y));
    }
}

/// A monotone boolean abstraction of a valley is a valley of bits.
proof fn lemma_valley_bits<V>(
    s: Seq<V>,
    lo: int,
    hi: int,
    leq: spec_fn(V, V) -> bool,
    f: spec_fn(V) -> bool,
)
    requires
        total_preorder(leq),
        monotone_on(f, leq),
        0 <= lo <= hi <= s.len(),
        range_valley(s, lo, hi, leq),
    ensures
        bits_valley(s.map_values(f), lo, hi),
{
    let bits = s.map_values(f);
    let t = choose|t: int| #[trigger] range_valley_at(s, lo, hi, t, leq);
    assert(range_valley_at(s, lo, hi, t, leq));
    lemma_desc_bits_cut(s, lo, t, leq, f);
    lemma_asc_bits_cut(s, t, hi, leq, f);
    let x = choose|x: int| #[trigger] blocks101(bits, lo, t, x, t);
    let y = choose|y: int| #[trigger] blocks101(bits, t, hi, t, y);
    assert(blocks101(bits, lo, hi, x, y));
}

/// The merge network sorts: applying the merge schedule of a range to a
/// sequence whose range is a valley under a total preorder yields a
/// non-decreasing range.
pub proof fn lemma_merge_schedule_sorts<V>(
    s: Seq<V>,
    start: int,
    len: int,
    leq: spec_fn(V, V) -> bool,
)
    requires
        total_preorder(leq),
        0 <= start,
        0 <= len,
        start + len <= s.len(),
        range_valley(s, start, start + len, leq),
    ensures
        range_sorted_asc(
            apply_schedule(s, merge_schedule(start, len, true), leq),
            start,
            start + len,
            leq,
        ),
{
    let sched = merge_schedule(start, len, true);
    let r = apply_schedule(s, sched, leq);
    lemma_merge_schedule_in_range(start, len, true);
    lemma_apply_schedule_permutes(s, sched, leq, start, len);
    assert forall|f: spec_fn(V) -> bool| #[trigger] monotone_on(f, leq) implies range_sorted_asc(
        r.map_values(f),
        start,
        start + len,
        bool_leq(),
    ) by {
        lemma_apply_map(s, sched, leq, f, start, len);
        lemma_valley_bits(s, start, start + len, leq, f);
        lemma_bits_merge(s.map_values(f), start, len);
        assert(r.map_values(f) == apply_schedule(s.map_values(f), sched, bool_leq()));
    }
    lemma_sorted_from_bits(r, start, start + len, leq);
}

/// The range `[lo, hi)` is non-increasing under `leq`.
pub open spec fn range_sorted_desc<V>(
    s: Seq<V>,
    lo: int,
    hi: int,
    leq: spec_fn(V, V) -> bool,
) -> bool {
    forall|i: int, j: int| lo <= i < j < hi ==> leq(#[trigger] s[j], #[trigger] s[i])
}

/// Every step of the schedule with its direction flag flipped.
pub open spec fn flip_steps(steps: Seq<(int, int, bool)>) -> Seq<(int, int, bool)> {
    steps.map_values(|st: (int, int, bool)| (st.0, st.1, !st.2))
}

proof fn lemma_flip_merge_schedule(start: int, len: int, ascending: bool)
    ensures
        flip_steps(merge_schedule(start, len, ascending)) == merge_schedule(
            start,
            len,
            !ascending,
        ),
    decreases len,
{
    if len > 1 {
        lemma_bitonic_half_bounds(len);
        let h = bitonic_half(len);
        let m = len - h;
        lemma_flip_merge_schedule(start, h, ascending);
        lemma_flip_merge_schedule(start + h, m, ascending);
        assert(flip_steps(merge_schedule(start, len, ascending)) =~= merge_phase(
            start,
            h,
            m,
            !ascending,
        ) + merge_schedule(start, h, !ascending) + merge_schedule(start + h, m, !ascending));
    } else {
        assert(flip_steps(merge_schedule(start, len, ascending)) =~= Seq::<(
            int,
            int,
            bool,
        )>::empty());
    }
}

/// Negating every bit and flipping every direction gives the negated
/// result: the network is self-dual.
proof fn lemma_apply_neg(b: Seq<bool>, steps: Seq<(int, int, bool)>, start: int, len: int)
    requires
        0 <= start,
        start + len <= b.len(),
        steps_in_range(steps, start, len),
    ensures
        apply_schedule(b.map_values(|v: bool| !v), flip_steps(steps), bool_leq())
            == apply_schedule(b, steps, bool_leq()).map_values(|v: bool| !v),
    decreases steps.len(),
{
    let neg = |v: bool| !v;
    let nb = b.map_values(neg);
    if steps.len() > 0 {
        let step = steps[0];
        assert(start <= step.0 < step.1 < start + len);
        assert(flip_steps(steps)[0] == (step.0, step.1, !step.2));
        let b1 = cas_step(b, step.0, step.1, step.2, bool_leq());
        assert(cas_step(nb, step.0, step.1, !step.2, bool_leq()) =~= b1.map_values(neg));
        assert(steps_in_range(steps.skip(1), start, len)) by {
            assert forall|k: int| 0 <= k < steps.skip(1).len() implies start <= (#[trigger] steps
                .skip(1)[k]).0 < steps.skip(1)[k].1 < start + len by {
                assert(steps.skip(1)[k] == steps[k + 1]);
            }
        }
        lemma_apply_neg(b1, steps.skip(1), start, len);
        assert(flip_steps(steps).skip(1) =~= flip_steps(steps.skip(1)));
        assert(apply_schedule(nb, flip_steps(steps), bool_leq()) == apply_schedule(
            b1.map_values(neg),
            flip_steps(steps.skip(1)),
            bool_leq(),
        ));
    } else {
        assert(flip_steps(steps).len() == 0);
    }
}

/// The merge schedule of the descending direction sorts any range of
/// bits that is a mountain, or a valley of power-of-two length, into
/// non-increasing order.
proof fn lemma_bits_merge_desc(b: Seq<bool>, lo: int, len: int)
    requires
        0 <= lo,
        0 <= len,
        lo + len <= b.len(),
        bits_mountain(b, lo, lo + len) || (is_pow2(len) && bits_valley(b, lo, lo + len)),
    ensures
        ({
            let r = apply_schedule(b, merge_schedule(lo, len, false), bool_leq());
            &&& r.len() == b.len()
            &&& forall|p: int| 0 <= p < b.len() && !(lo <= p < lo + len) ==> r[p] == b[p]
            &&& range_sorted_desc(r, lo, lo + len, bool_leq())
        }),
{
    let e = lo + len;
    let neg = |v: bool| !v;
    let nb = b.map_values(neg);
    assert(bits_valley(nb, lo, e) || (is_pow2(len) && bits_mountain(nb, lo, e))) by {
        if bits_mountain(b, lo, e) {
            let (x, y): (int, int) = choose|x: int, y: int| #[trigger] blocks010(b, lo, e, x, y);
            assert(blocks101(nb, lo, e, x, y));
        } else {
            let (x, y): (int, int) = choose|x: int, y: int| #[trigger] blocks101(b, lo, e, x, y);
            assert(blocks010(nb, lo, e, x, y));
        }
    }
    lemma_bits_merge(nb, lo, len);
    lemma_merge_schedule_in_range(lo, len, false);
    lemma_flip_merge_schedule(lo, len, false);
    lemma_apply_neg(b, merge_schedule(lo, len, false), lo, len);
    let r = apply_schedule(b, merge_schedule(lo, len, false), bool_leq());
    let nr = apply_schedule(nb, merge_schedule(lo, len, true), bool_leq());
    assert(nr == r.map_values(neg));
    lemma_apply_schedule_permutes(b, merge_schedule(lo, len, false), bool_leq(), lo, len);
    assert forall|p: int| 0 <= p < b.len() && !(lo <= p < e) implies r[p] == b[p] by {}
    assert forall|i: int, j: int| lo <= i < j < e implies (bool_leq())(
        #[trigger] r[j],
        #[trigger] r[i],
    ) by {
        assert((bool_leq())(nr[i], nr[j]));
        assert(nr[i] == !r[i] && nr[j] == !r[j]);
    }
}

/// The sort schedule sorts any range of bits in its direction.
proof fn lemma_bits_sort(b: Seq<bool>, lo: int, len: int, ascending: bool)
    requires
        0 <= lo,
        0 <= len,
        lo + len <= b.len(),
    ensures
        ({
            let r = apply_schedule(b, sort_schedule(lo, len, ascending), bool_leq());
            &&& r.len() == b.len()
            &&& forall|p: int| 0 <= p < b.len() && !(lo <= p < lo + len) ==> r[p] == b[p]
            &&& ascending ==> range_sorted_asc(r, lo, lo + len, bool_leq())
            &&& !ascending ==> range_sorted_desc(r, lo, lo + len, bool_leq())
        }),
    decreases len,
{
    let e = lo + len;
    lemma_sort_schedule_in_range(lo, len, ascending);
    lemma_apply_schedule_permutes(b, sort_schedule(lo, len, ascending), bool_leq(), lo, len);
    let r = apply_schedule(b, sort_schedule(lo, len, ascending), bool_leq());
    if len <= 1 {
        assert(range_sorted_asc(r, lo, e, bool_leq()));
        assert(range_sorted_desc(r, lo, e, bool_leq()));
    } else {
        let h = len / 2;
        let m = len - h;
        let t1 = sort_schedule(lo, h, !ascending);
        let t2 = sort_schedule(lo + h, m, ascending);
        let t3 = merge_schedule(lo, len, ascending);
        assert(sort_schedule(lo, len, ascending) == t1 + t2 + t3);
        let b1 = apply_schedule(b, t1, bool_leq());
        let b2 = apply_schedule(b1, t2, bool_leq());
        lemma_apply_schedule_app(b, t1, t2, bool_leq());
        lemma_apply_schedule_app(b, t1 + t2, t3, bool_leq());
        assert(b2 == apply_schedule(b, t1 + t2, bool_leq()));
        assert(r == apply_schedule(b2, t3, bool_leq()));
        lemma_bits_sort(b, lo, h, !ascending);
        lemma_bits_sort(b1, lo + h, m, ascending);
        lemma_sort_schedule_in_range(lo + h, m, ascending);
        assert(forall|p: int| 0 <= p < b.len() && !(lo + h <= p < e) ==> b2[p] == b1[p]);
        // the two halves of b2 are sorted against and with the direction
        assert forall|i: int, j: int| lo <= i < j < lo + h implies (if ascending {
            (bool_leq())(b2[j], b2[i])
        } else {
            (bool_leq())(b2[i], b2[j])
        }) by {
            assert(b2[i] == b1[i] && b2[j] == b1[j]);
        }
        // identity is a monotone abstraction, so the pairwise runs have
        // block form
        let ident = |v: bool| v;
        assert(b2.map_values(ident) =~= b2);
        assert(total_preorder(bool_leq()));
        assert(monotone_on(ident, bool_leq()));
        if ascending {
            lemma_desc_bits_cut(b2, lo, lo + h, bool_leq(), ident);
            lemma_asc_bits_cut(b2, lo + h, e, bool_leq(), ident);
            let x = choose|x: int| #[trigger] blocks101(b2.map_values(ident), lo, lo + h, x, lo + h);
            let y = choose|y: int| #[trigger] blocks101(b2.map_values(ident), lo + h, e, lo + h, y);
            assert(blocks101(b2, lo, e, x, y)) by {
                assert(blocks101(b2.map_values(ident), lo, lo + h, x, lo + h));
                assert(blocks101(b2.map_values(ident), lo + h, e, lo + h, y));
                assert forall|i: int| lo <= i < x implies b2[i] by {
                    assert(b2.map_values(ident)[i]);
                }
                assert forall|i: int| x <= i < y implies !b2[i] by {
                    assert(!b2.map_values(ident)[i]);
                }
                assert forall|i: int| y <= i < e implies b2[i] by {
                    assert(b2.map_values(ident)[i]);
                }
            }
            assert(bits_valley(b2, lo, e));
            lemma_bits_merge(b2, lo, len);
        } else {
            lemma_asc_bits_cut(b2, lo, lo + h, bool_leq(), ident);
            lemma_desc_bits_cut(b2, lo + h, e, bool_leq(), ident);
            let x = choose|x: int| #[trigger] blocks101(b2.map_values(ident), lo, lo + h, lo, x);
            let y = choose|y: int| #[trigger] blocks101(b2.map_values(ident), lo + h, e, y, e);
            assert(blocks010(b2, lo, e, x, y)) by {
                assert(blocks101(b2.map_values(ident), lo, lo + h, lo, x));
                assert(blocks101(b2.map_values(ident), lo + h, e, y, e));
                assert forall|i: int| lo <= i < x implies !b2[i] by {
                    assert(!b2.map_values(ident)[i]);
                }
                assert forall|i: int| x <= i < y implies b2[i] by {
                    assert(b2.map_values(ident)[i]);
                }
                assert forall|i: int| y <= i < e implies !b2[i] by {
                    assert(!b2.map_values(ident)[i]);
                }
            }
            assert(bits_mountain(b2, lo, e));
            lemma_bits_merge_desc(b2, lo, len);
        }
    }
}

/// The sort network sorts: applying the sort schedule of a range under a
/// total preorder yields a non-decreasing range, whatever the input.
pub proof fn lemma_sort_schedule_sorts<V>(
    s: Seq<V>,
    start: int,
    len: int,
    leq: spec_fn(V, V) -> bool,
)
    requires
        total_preorder(leq),
        0 <= start,
        0 <= len,
        start + len <= s.len(),
    ensures
        range_sorted_asc(
            apply_schedule(s, sort_schedule(start, len, true), leq),
            start,
            start + len,
            leq,
        ),
{
    let sched = sort_schedule(start, len, true);
    let r = apply_schedule(s, sched, leq);
    lemma_sort_schedule_in_range(start, len, true);
    lemma_apply_schedule_permutes(s, sched, leq, start, len);
    assert forall|f: spec_fn(V) -> bool| #[trigger] monotone_on(f, leq) implies range_sorted_asc(
        r.map_values(f),
        start,
        start + len,
        bool_leq(),
    ) by {
        lemma_apply_map(s, sched, leq, f, start, len);
        lemma_bits_sort(s.map_values(f), start, len, true);
        assert(r.map_values(f) == apply_schedule(s.map_values(f), sched, bool_leq()));
    }
    lemma_sorted_from_bits(r, start, start + len, leq);
}

} // verus!
