//! The oblivious sorting/merging engine: a bitonic sorting network.
//!
//! A sorting network is a fixed sequence of compare-and-swap steps.  The
//! schedule of steps — which positions are compared, in which order, and
//! in which direction — is a pure function of the sequence length alone
//! ([`merge_schedule`], [`sort_schedule`]); only the swap decisions depend
//! on the data, and each decision is realised through the constant-time
//! swap, never a branch.  That is what keeps the memory access pattern
//! independent of the values even though comparison outcomes are not.
//!
//! The contracts pin the result exactly: for every relation `leq` that the
//! comparator decides ([`consistent_with`]), the final sequence of views
//! equals the schedule applied to the input ([`apply_schedule`]).  The
//! length and the multiset of views in the operated range are preserved
//! unconditionally.  And the network is proved correct: whenever `leq` is
//! a total preorder, the sort schedule yields a non-decreasing sequence
//! ([`lemma_sort_schedule_sorts`]), and the merge schedule does so for
//! every valley ([`lemma_merge_schedule_sorts`]) — so the sorting
//! functions ensure a sorted permutation outright.

use core::cmp::Ordering;

use vstd::prelude::*;
use vstd::std_specs::cmp::OrdSpec;

use crate::cmov::CMov;

verus! {

/// The sequence of element views.
pub open spec fn views<T: View>(s: Seq<T>) -> Seq<<T as View>::V> {
    s.map(|i: int, x: T| x@)
}

/// `o` is the answer that the relation `leq` gives for `a` against `b`.
pub open spec fn ordering_matches<V>(
    o: Ordering,
    a: V,
    b: V,
    leq: spec_fn(V, V) -> bool,
) -> bool {
    match o {
        Ordering::Less => leq(a, b) && !leq(b, a),
        Ordering::Equal => leq(a, b) && leq(b, a),
        Ordering::Greater => !leq(a, b) && leq(b, a),
    }
}

/// Every answer the comparator can give is the one `leq` gives on the
/// operands' views.
pub open spec fn consistent_with<T: View, F: Fn(&T, &T) -> Ordering>(
    cmp: F,
    leq: spec_fn(<T as View>::V, <T as View>::V) -> bool,
) -> bool {
    forall|x: &T, y: &T, o: Ordering| #[trigger] call_ensures(cmp, (x, y), o) ==> ordering_matches(
        o,
        x@,
        y@,
        leq,
    )
}

/// The `Ord` implementation of `T` decides as `leq` does on views.
pub open spec fn ord_consistent_with<T: View + Ord>(
    leq: spec_fn(<T as View>::V, <T as View>::V) -> bool,
) -> bool {
    forall|x: T, y: T| ordering_matches(#[trigger] x.cmp_spec(&y), x@, y@, leq)
}

/// The key function `f` together with `K`'s order decides as `leq` does
/// on views.
pub open spec fn key_consistent_with<T: View, K: Ord, F: Fn(&T) -> K>(
    f: F,
    leq: spec_fn(<T as View>::V, <T as View>::V) -> bool,
) -> bool {
    forall|x: &T, y: &T, kx: K, ky: K|
        #[trigger] call_ensures(f, (x,), kx) && #[trigger] call_ensures(f, (y,), ky)
            ==> ordering_matches(kx.cmp_spec(&ky), x@, y@, leq)
}

/// Whether the compare step over `(a, b)` swaps: the pair is strictly
/// ordered against the direction.
pub open spec fn cas_swaps<V>(a: V, b: V, leq: spec_fn(V, V) -> bool, ascending: bool) -> bool {
    (leq(a, b) && !leq(b, a)) != ascending
}

/// One compare-and-swap between positions `i < j`.
pub open spec fn cas_step<V>(
    s: Seq<V>,
    i: int,
    j: int,
    ascending: bool,
    leq: spec_fn(V, V) -> bool,
) -> Seq<V>
    recommends
        0 <= i < j < s.len(),
{
    if cas_swaps(s[i], s[j], leq, ascending) {
        s.update(i, s[j]).update(j, s[i])
    } else {
        s
    }
}

/// A schedule applied step by step, first step first.
pub open spec fn apply_schedule<V>(
    s: Seq<V>,
    steps: Seq<(int, int, bool)>,
    leq: spec_fn(V, V) -> bool,
) -> Seq<V>
    decreases steps.len(),
{
    if steps.len() == 0 {
        s
    } else {
        apply_schedule(cas_step(s, steps[0].0, steps[0].1, steps[0].2, leq), steps.skip(1), leq)
    }
}

/// Half of the least power of two that is at least `len`: the split point
/// of one merge level.
pub open spec fn bitonic_half(len: int) -> int
    recommends
        2 <= len,
    decreases len,
{
    if len <= 2 {
        1
    } else {
        2 * bitonic_half((len + 1) / 2)
    }
}

pub proof fn lemma_bitonic_half_bounds(len: int)
    requires
        2 <= len,
    ensures
        1 <= bitonic_half(len),
        bitonic_half(len) < len,
        len <= 2 * bitonic_half(len),
    decreases len,
{
    if len > 2 {
        lemma_bitonic_half_bounds((len + 1) / 2);
    }
}

/// The compare steps of one merge level: position `start + k` against
/// `start + k + half`, for each `k` below `second`.
pub open spec fn merge_phase(
    start: int,
    half: int,
    second: int,
    ascending: bool,
) -> Seq<(int, int, bool)> {
    Seq::new(second as nat, |k: int| (start + k, start + k + half, ascending))
}

/// The full schedule of the bitonic merge over `[start, start + len)`:
/// one phase, then the two halves recursively.  A pure function of the
/// range alone: no datum appears in it.
pub open spec fn merge_schedule(start: int, len: int, ascending: bool) -> Seq<(int, int, bool)>
    decreases len,
        via merge_schedule_dec
{
    if len <= 1 {
        Seq::empty()
    } else {
        let half = bitonic_half(len);
        let second = len - half;
        merge_phase(start, half, second, ascending) + merge_schedule(start, half, ascending)
            + merge_schedule(start + half, second, ascending)
    }
}

#[via_fn]
proof fn merge_schedule_dec(start: int, len: int, ascending: bool) {
    if len > 1 {
        lemma_bitonic_half_bounds(len);
    }
}

/// The full schedule of the bitonic sort over `[start, start + len)`:
/// first half sorted against the direction, second half with it, then one
/// merge.  A pure function of the range alone: no datum appears in it.
pub open spec fn sort_schedule(start: int, len: int, ascending: bool) -> Seq<(int, int, bool)>
    decreases len,
{
    if len <= 1 {
        Seq::empty()
    } else {
        let half = len / 2;
        sort_schedule(start, half, !ascending) + sort_schedule(start + half, len - half, ascending)
            + merge_schedule(start, len, ascending)
    }
}

/// All pairs of views in `[start, start + len)` are shape-compatible.
pub open spec fn uniform_shape<T: CMov>(
    vs: Seq<<T as View>::V>,
    start: int,
    len: int,
) -> bool {
    forall|k1: int, k2: int|
        start <= k1 < start + len && start <= k2 < start + len ==> T::same_shape(
            #[trigger] vs[k1],
            #[trigger] vs[k2],
        )
}

pub proof fn lemma_apply_schedule_app<V>(
    s: Seq<V>,
    t1: Seq<(int, int, bool)>,
    t2: Seq<(int, int, bool)>,
    leq: spec_fn(V, V) -> bool,
)
    ensures
        apply_schedule(s, t1 + t2, leq) == apply_schedule(apply_schedule(s, t1, leq), t2, leq),
    decreases t1.len(),
{
    if t1.len() == 0 {
        assert(t1 + t2 =~= t2);
    } else {
        assert((t1 + t2)[0] == t1[0]);
        assert((t1 + t2).skip(1) =~= t1.skip(1) + t2);
        lemma_apply_schedule_app(
            cas_step(s, t1[0].0, t1[0].1, t1[0].2, leq),
            t1.skip(1),
            t2,
            leq,
        );
    }
}

/// Exchanging two positions keeps the multiset of any enclosing range.
pub proof fn lemma_swap_subrange_multiset<V>(s: Seq<V>, lo: int, hi: int, i: int, j: int)
    requires
        0 <= lo <= i < j < hi <= s.len(),
    ensures
        s.update(i, s[j]).update(j, s[i]).subrange(lo, hi).to_multiset() == s.subrange(
            lo,
            hi,
        ).to_multiset(),
{
    broadcast use vstd::seq_lib::to_multiset_update;
    broadcast use vstd::seq_lib::group_to_multiset_ensures;

    let sub = s.subrange(lo, hi);
    let swapped = s.update(i, s[j]).update(j, s[i]);
    assert(swapped.subrange(lo, hi) =~= sub.update(i - lo, sub[j - lo]).update(j - lo, sub[i
        - lo]));
    let a = sub[i - lo];
    let b = sub[j - lo];
    let once = sub.update(i - lo, b);
    assert(sub.contains(a) && sub.contains(b));
    assert(once.to_multiset() == sub.to_multiset().insert(b).remove(a));
    assert(once[j - lo] == b);
    assert(once.update(j - lo, a).to_multiset() == once.to_multiset().insert(a).remove(b));
    assert(sub.to_multiset().count(a) > 0 && sub.to_multiset().count(b) > 0);
    assert(sub.to_multiset().insert(b).remove(a).insert(a).remove(b) =~= sub.to_multiset());
}

/// The views of the elements in `[start, start + len)`.
pub open spec fn range_views<T: View>(s: Seq<T>, start: int, len: int) -> Seq<<T as View>::V> {
    views(s).subrange(start, start + len)
}

/// `x` occurs in `s` within `[start, start + len)`.
pub open spec fn range_contains<V>(s: Seq<V>, start: int, len: int, x: V) -> bool {
    exists|k0: int| start <= k0 < start + len && #[trigger] s[k0] == x
}

/// Every view in `[start, start + len)` of `post` already occurs there in
/// `pre`.
pub open spec fn drawn_from<V>(post: Seq<V>, pre: Seq<V>, start: int, len: int) -> bool {
    forall|k: int| #![trigger post[k]]
        start <= k < start + len ==> range_contains(pre, start, len, post[k])
}

/// The multiset of a range splits at any interior point.
pub proof fn lemma_ms_split<V>(s: Seq<V>, a: int, b: int, c: int)
    requires
        0 <= a <= b <= c <= s.len(),
    ensures
        s.subrange(a, c).to_multiset() == s.subrange(a, b).to_multiset().add(
            s.subrange(b, c).to_multiset(),
        ),
{
    assert(s.subrange(a, c) =~= s.subrange(a, b) + s.subrange(b, c));
    vstd::seq_lib::lemma_multiset_commutative(s.subrange(a, b), s.subrange(b, c));
}

/// A preserved range multiset means every view is drawn from the range.
pub proof fn lemma_ms_drawn<V>(post: Seq<V>, pre: Seq<V>, start: int, len: int)
    requires
        0 <= start,
        0 <= len,
        start + len <= post.len(),
        start + len <= pre.len(),
        post.subrange(start, start + len).to_multiset() == pre.subrange(
            start,
            start + len,
        ).to_multiset(),
    ensures
        drawn_from(post, pre, start, len),
{
    broadcast use vstd::seq_lib::group_to_multiset_ensures;

    let sub_post = post.subrange(start, start + len);
    let sub_pre = pre.subrange(start, start + len);
    assert forall|k: int| #![trigger post[k]] start <= k < start + len implies range_contains(
        pre,
        start,
        len,
        post[k],
    ) by {
        assert(sub_post[k - start] == post[k]);
        assert(sub_post.contains(post[k]));
        assert(sub_post.to_multiset().count(post[k]) > 0);
        assert(sub_pre.to_multiset().count(post[k]) > 0);
        assert(sub_pre.contains(post[k]));
        let k1 = choose|k1: int| 0 <= k1 < sub_pre.len() && sub_pre[k1] == post[k];
        assert(sub_pre[k1] == pre[start + k1]);
        assert(start <= start + k1 < start + len && pre[start + k1] == post[k]);
    }
}

/// Views drawn from a shape-uniform range form a shape-uniform range.
pub proof fn lemma_uniform_transport<T: CMov>(
    pre: Seq<<T as View>::V>,
    post: Seq<<T as View>::V>,
    start: int,
    len: int,
)
    requires
        uniform_shape::<T>(pre, start, len),
        drawn_from(post, pre, start, len),
    ensures
        uniform_shape::<T>(post, start, len),
{
    assert forall|k1: int, k2: int|
        start <= k1 < start + len && start <= k2 < start + len implies T::same_shape(
        #[trigger] post[k1],
        #[trigger] post[k2],
    ) by {
        assert(range_contains(pre, start, len, post[k1]));
        assert(range_contains(pre, start, len, post[k2]));
        let ka = choose|ka: int| start <= ka < start + len && #[trigger] pre[ka] == post[k1];
        let kb = choose|kb: int| start <= kb < start + len && #[trigger] pre[kb] == post[k2];
        assert(T::same_shape(pre[ka], pre[kb]));
    }
}

/// Appending one step to a schedule applies it last.
pub proof fn lemma_apply_schedule_snoc<V>(
    s: Seq<V>,
    t: Seq<(int, int, bool)>,
    step: (int, int, bool),
    leq: spec_fn(V, V) -> bool,
)
    ensures
        apply_schedule(s, t.push(step), leq) == cas_step(
            apply_schedule(s, t, leq),
            step.0,
            step.1,
            step.2,
            leq,
        ),
{
    assert(t.push(step) =~= t + seq![step]);
    lemma_apply_schedule_app(s, t, seq![step], leq);
    let mid = apply_schedule(s, t, leq);
    assert(seq![step][0] == step);
    assert(seq![step].skip(1) =~= Seq::<(int, int, bool)>::empty());
    assert(apply_schedule(cas_step(mid, step.0, step.1, step.2, leq), seq![step].skip(1), leq)
        == cas_step(mid, step.0, step.1, step.2, leq));
}

/// The split point of one merge level, as a runtime value.
fn half_of(len: usize) -> (r: usize)
    requires
        2 <= len,
    ensures
        r == bitonic_half(len as int),
        1 <= r < len,
    decreases len,
{
    proof {
        lemma_bitonic_half_bounds(len as int);
    }
    if len <= 2 {
        1
    } else {
        let m: usize = len / 2 + len % 2;
        proof {
            assert(m as int == (len as int + 1) / 2);
        }
        2 * half_of(m)
    }
}

/// Compare the elements at `i` and `j` and conditionally swap them, the
/// decision routed through the constant-time swap.
fn compare_and_swap<T: CMov, F: Fn(&T, &T) -> Ordering>(
    array: &mut Vec<T>,
    i: usize,
    j: usize,
    cmp: &F,
    ascending: bool,
)
    requires
        i < j,
        j < old(array)@.len(),
        forall|x: &T, y: &T| #[trigger] call_requires(*cmp, (x, y)),
        T::same_shape(views(old(array)@)[i as int], views(old(array)@)[j as int]),
    ensures
        final(array)@.len() == old(array)@.len(),
        forall|k: int|
            0 <= k < old(array)@.len() && k != i && k != j ==> final(array)@[k] == old(array)@[k],
        views(final(array)@) == views(old(array)@) || views(final(array)@) == views(
            old(array)@,
        ).update(i as int, views(old(array)@)[j as int]).update(
            j as int,
            views(old(array)@)[i as int],
        ),
        forall|leq: spec_fn(<T as View>::V, <T as View>::V) -> bool|
            #[trigger] consistent_with::<T, F>(*cmp, leq) ==> views(final(array)@) == cas_step(
                views(old(array)@),
                i as int,
                j as int,
                ascending,
                leq,
            ),
{
    let ghost pre = array@;
    let ord = cmp(&array[i], &array[j]);
    let choice = matches!(ord, Ordering::Less) != ascending;
    let slice = array.as_mut_slice();
    let (lo, hi) = slice.split_at_mut(j);
    let (_, loi) = lo.split_at_mut(i);
    let a = loi.first_mut().unwrap();
    let b = hi.first_mut().unwrap();
    T::cnd_swap(a, b, choice);
    proof {
        assert(array@ =~= if choice {
            pre.update(i as int, array@[i as int]).update(j as int, array@[j as int])
        } else {
            pre.update(i as int, array@[i as int]).update(j as int, array@[j as int])
        });
        if choice {
            assert(views(array@) =~= views(pre).update(i as int, views(pre)[j as int]).update(
                j as int,
                views(pre)[i as int],
            ));
        } else {
            assert(views(array@) =~= views(pre));
        }
        assert forall|leq: spec_fn(<T as View>::V, <T as View>::V) -> bool|
            #[trigger] consistent_with::<T, F>(*cmp, leq) implies views(array@) == cas_step(
            views(pre),
            i as int,
            j as int,
            ascending,
            leq,
        ) by {
            assert(ordering_matches(ord, pre[i as int]@, pre[j as int]@, leq));
            assert(choice == cas_swaps(views(pre)[i as int], views(pre)[j as int], leq, ascending));
        }
    }
}

/// A change confined to a sub-range with a preserved multiset preserves
/// the multiset of the enclosing range.
pub proof fn lemma_child_ms<V>(pre: Seq<V>, post: Seq<V>, ps: int, pl: int, cs: int, cl: int)
    requires
        0 <= ps <= cs,
        0 <= cl,
        cs + cl <= ps + pl,
        ps + pl <= pre.len(),
        pre.len() == post.len(),
        post.subrange(cs, cs + cl).to_multiset() == pre.subrange(cs, cs + cl).to_multiset(),
        forall|k: int| 0 <= k < pre.len() && !(cs <= k < cs + cl) ==> post[k] == pre[k],
    ensures
        post.subrange(ps, ps + pl).to_multiset() == pre.subrange(ps, ps + pl).to_multiset(),
{
    lemma_ms_split(post, ps, cs, ps + pl);
    lemma_ms_split(post, cs, cs + cl, ps + pl);
    lemma_ms_split(pre, ps, cs, ps + pl);
    lemma_ms_split(pre, cs, cs + cl, ps + pl);
    assert(post.subrange(ps, cs) =~= pre.subrange(ps, cs));
    assert(post.subrange(cs + cl, ps + pl) =~= pre.subrange(cs + cl, ps + pl));
}

/// A preserved range multiset carries shape uniformity from the original
/// range down to any sub-range of the current one.
pub proof fn lemma_uniform_now<T: CMov>(
    base: Seq<<T as View>::V>,
    cur: Seq<<T as View>::V>,
    ps: int,
    pl: int,
    cs: int,
    cl: int,
)
    requires
        0 <= ps <= cs,
        0 <= cl,
        cs + cl <= ps + pl,
        ps + pl <= base.len(),
        base.len() == cur.len(),
        uniform_shape::<T>(base, ps, pl),
        cur.subrange(ps, ps + pl).to_multiset() == base.subrange(ps, ps + pl).to_multiset(),
    ensures
        uniform_shape::<T>(cur, ps, pl),
        uniform_shape::<T>(cur, cs, cl),
{
    lemma_ms_drawn(cur, base, ps, pl);
    lemma_uniform_transport::<T>(base, cur, ps, pl);
}

/// The merge phase of the bitonic network over `[start, start + len)`:
/// one compare-and-swap between `start + k` and `start + k + half` for
/// every `k` below `len - half`, then the two halves recursively.
fn bitonic_merge_inner<T: CMov, F: Fn(&T, &T) -> Ordering>(
    array: &mut Vec<T>,
    start: usize,
    len: usize,
    cmp: &F,
    ascending: bool,
)
    requires
        start + len <= old(array)@.len(),
        forall|x: &T, y: &T| #[trigger] call_requires(*cmp, (x, y)),
        uniform_shape::<T>(views(old(array)@), start as int, len as int),
    ensures
        final(array)@.len() == old(array)@.len(),
        forall|k: int|
            0 <= k < old(array)@.len() && !(start <= k < start + len) ==> final(array)@[k] == old(
                array,
            )@[k],
        range_views(final(array)@, start as int, len as int).to_multiset() == range_views(
            old(array)@,
            start as int,
            len as int,
        ).to_multiset(),
        forall|leq: spec_fn(<T as View>::V, <T as View>::V) -> bool|
            #[trigger] consistent_with::<T, F>(*cmp, leq) ==> views(final(array)@)
                == apply_schedule(
                views(old(array)@),
                merge_schedule(start as int, len as int, ascending),
                leq,
            ),
    decreases len,
{
    let n = array.len();
    if len <= 1 {
        return ;
    }
    proof {
        lemma_bitonic_half_bounds(len as int);
    }
    let half = half_of(len);
    let second = len - half;
    let ghost s0 = array@;
    let ghost phase = merge_phase(start as int, half as int, second as int, ascending);
    let ghost m1 = merge_schedule(start as int, half as int, ascending);
    let ghost m2 = merge_schedule(start as int + half as int, second as int, ascending);

    let mut k: usize = 0;
    while k < second
        invariant
            2 <= len,
            start + len <= s0.len(),
            s0.len() <= usize::MAX,
            half == bitonic_half(len as int),
            1 <= half < len,
            second == len - half,
            second <= half,
            k <= second,
            phase == merge_phase(start as int, half as int, second as int, ascending),
            forall|x: &T, y: &T| #[trigger] call_requires(*cmp, (x, y)),
            uniform_shape::<T>(views(s0), start as int, len as int),
            array@.len() == s0.len(),
            forall|kk: int|
                0 <= kk < s0.len() && !(start <= kk < start + len) ==> array@[kk] == s0[kk],
            range_views(array@, start as int, len as int).to_multiset() == range_views(
                s0,
                start as int,
                len as int,
            ).to_multiset(),
            forall|leq: spec_fn(<T as View>::V, <T as View>::V) -> bool|
                #[trigger] consistent_with::<T, F>(*cmp, leq) ==> views(array@) == apply_schedule(
                    views(s0),
                    phase.take(k as int),
                    leq,
                ),
        decreases second - k,
    {
        let i = start + k;
        let j = start + k + half;
        let ghost prev = array@;
        proof {
            lemma_uniform_now::<T>(
                views(s0),
                views(prev),
                start as int,
                len as int,
                start as int,
                len as int,
            );
            assert(T::same_shape(views(prev)[i as int], views(prev)[j as int]));
        }
        compare_and_swap(array, i, j, cmp, ascending);
        proof {
            let cur = array@;
            if views(cur) != views(prev) {
                lemma_swap_subrange_multiset(
                    views(prev),
                    start as int,
                    start as int + len as int,
                    i as int,
                    j as int,
                );
            }
            assert(range_views(cur, start as int, len as int).to_multiset() == range_views(
                prev,
                start as int,
                len as int,
            ).to_multiset());
            assert forall|leq: spec_fn(<T as View>::V, <T as View>::V) -> bool|
                #[trigger] consistent_with::<T, F>(*cmp, leq) implies views(cur) == apply_schedule(
                views(s0),
                phase.take(k as int + 1),
                leq,
            ) by {
                assert(views(prev) == apply_schedule(views(s0), phase.take(k as int), leq));
                assert(views(cur) == cas_step(views(prev), i as int, j as int, ascending, leq));
                assert(phase[k as int] == (i as int, j as int, ascending));
                assert(phase.take(k as int + 1) =~= phase.take(k as int).push(phase[k as int]));
                lemma_apply_schedule_snoc(
                    views(s0),
                    phase.take(k as int),
                    (i as int, j as int, ascending),
                    leq,
                );
            }
        }
        k = k + 1;
    }
    proof {
        assert(phase.take(second as int) =~= phase);
    }
    let ghost s1 = array@;
    proof {
        lemma_uniform_now::<T>(
            views(s0),
            views(s1),
            start as int,
            len as int,
            start as int,
            half as int,
        );
    }
    bitonic_merge_inner(array, start, half, cmp, ascending);
    let ghost s2 = array@;
    proof {
        lemma_child_ms(
            views(s1),
            views(s2),
            start as int,
            len as int,
            start as int,
            half as int,
        );
        lemma_uniform_now::<T>(
            views(s0),
            views(s2),
            start as int,
            len as int,
            start as int + half as int,
            second as int,
        );
    }
    bitonic_merge_inner(array, start + half, second, cmp, ascending);
    let ghost s3 = array@;
    proof {
        lemma_child_ms(
            views(s2),
            views(s3),
            start as int,
            len as int,
            start as int + half as int,
            second as int,
        );
        assert forall|leq: spec_fn(<T as View>::V, <T as View>::V) -> bool|
            #[trigger] consistent_with::<T, F>(*cmp, leq) implies views(s3) == apply_schedule(
            views(s0),
            merge_schedule(start as int, len as int, ascending),
            leq,
        ) by {
            assert(views(s1) == apply_schedule(views(s0), phase, leq));
            assert(views(s2) == apply_schedule(views(s1), m1, leq));
            assert(views(s3) == apply_schedule(views(s2), m2, leq));
            lemma_apply_schedule_app(views(s0), phase, m1, leq);
            lemma_apply_schedule_app(views(s0), phase + m1, m2, leq);
            assert(merge_schedule(start as int, len as int, ascending) == phase + m1 + m2);
        }
    }
}

/// The bitonic sort over `[start, start + len)`: first half sorted
/// against the direction, second half with it, then one merge.
fn bitonic_sort_inner<T: CMov, F: Fn(&T, &T) -> Ordering>(
    array: &mut Vec<T>,
    start: usize,
    len: usize,
    cmp: &F,
    ascending: bool,
)
    requires
        start + len <= old(array)@.len(),
        forall|x: &T, y: &T| #[trigger] call_requires(*cmp, (x, y)),
        uniform_shape::<T>(views(old(array)@), start as int, len as int),
    ensures
        final(array)@.len() == old(array)@.len(),
        forall|k: int|
            0 <= k < old(array)@.len() && !(start <= k < start + len) ==> final(array)@[k] == old(
                array,
            )@[k],
        range_views(final(array)@, start as int, len as int).to_multiset() == range_views(
            old(array)@,
            start as int,
            len as int,
        ).to_multiset(),
        forall|leq: spec_fn(<T as View>::V, <T as View>::V) -> bool|
            #[trigger] consistent_with::<T, F>(*cmp, leq) ==> views(final(array)@)
                == apply_schedule(
                views(old(array)@),
                sort_schedule(start as int, len as int, ascending),
                leq,
            ),
    decreases len,
{
    let n = array.len();
    if len <= 1 {
        return ;
    }
    let half = len / 2;
    let rest = len - half;
    let ghost s0 = array@;
    let ghost t1 = sort_schedule(start as int, half as int, !ascending);
    let ghost t2 = sort_schedule(start as int + half as int, rest as int, ascending);
    let ghost t3 = merge_schedule(start as int, len as int, ascending);
    bitonic_sort_inner(array, start, half, cmp, !ascending);
    let ghost s1 = array@;
    proof {
        lemma_child_ms(
            views(s0),
            views(s1),
            start as int,
            len as int,
            start as int,
            half as int,
        );
        lemma_uniform_now::<T>(
            views(s0),
            views(s1),
            start as int,
            len as int,
            start as int + half as int,
            rest as int,
        );
    }
    bitonic_sort_inner(array, start + half, rest, cmp, ascending);
    let ghost s2 = array@;
    proof {
        lemma_child_ms(
            views(s1),
            views(s2),
            start as int,
            len as int,
            start as int + half as int,
            rest as int,
        );
        lemma_uniform_now::<T>(
            views(s0),
            views(s2),
            start as int,
            len as int,
            start as int,
            len as int,
        );
    }
    bitonic_merge_inner(array, start, len, cmp, ascending);
    let ghost s3 = array@;
    proof {
        lemma_child_ms(
            views(s2),
            views(s3),
            start as int,
            len as int,
            start as int,
            len as int,
        );
        assert forall|leq: spec_fn(<T as View>::V, <T as View>::V) -> bool|
            #[trigger] consistent_with::<T, F>(*cmp, leq) implies views(s3) == apply_schedule(
            views(s0),
            sort_schedule(start as int, len as int, ascending),
            leq,
        ) by {
            assert(views(s1) == apply_schedule(views(s0), t1, leq));
            assert(views(s2) == apply_schedule(views(s1), t2, leq));
            assert(views(s3) == apply_schedule(views(s2), t3, leq));
            lemma_apply_schedule_app(views(s0), t1, t2, leq);
            lemma_apply_schedule_app(views(s0), t1 + t2, t3, leq);
            assert(sort_schedule(start as int, len as int, ascending) == t1 + t2 + t3);
        }
    }
}

/// Every step of the schedule compares a pair inside
/// `[start, start + len)`, lower position first.
pub open spec fn steps_in_range(steps: Seq<(int, int, bool)>, start: int, len: int) -> bool {
    forall|k: int|
        0 <= k < steps.len() ==> start <= (#[trigger] steps[k]).0 < steps[k].1 < start + len
}

/// The merge schedule touches only its own range: its compare-and-swap
/// pairs are a function of the range alone, and all of them lie inside
/// it.  This is the access-pattern guarantee of the network: which
/// positions are compared never depends on the data.
pub proof fn lemma_merge_schedule_in_range(start: int, len: int, ascending: bool)
    ensures
        steps_in_range(merge_schedule(start, len, ascending), start, len),
    decreases len,
{
    if len > 1 {
        lemma_bitonic_half_bounds(len);
        let half = bitonic_half(len);
        let second = len - half;
        let phase = merge_phase(start, half, second, ascending);
        lemma_merge_schedule_in_range(start, half, ascending);
        lemma_merge_schedule_in_range(start + half, second, ascending);
        let m1 = merge_schedule(start, half, ascending);
        let m2 = merge_schedule(start + half, second, ascending);
        let all = merge_schedule(start, len, ascending);
        assert forall|k: int| 0 <= k < all.len() implies start <= (#[trigger] all[k]).0
            < all[k].1 < start + len by {
            if k < phase.len() {
                assert(all[k] == phase[k]);
            } else if k < phase.len() + m1.len() {
                assert(all[k] == m1[k - phase.len()]);
            } else {
                assert(all[k] == m2[k - phase.len() - m1.len()]);
            }
        }
    }
}

/// The sort schedule touches only its own range; see
/// [`lemma_merge_schedule_in_range`].
pub proof fn lemma_sort_schedule_in_range(start: int, len: int, ascending: bool)
    ensures
        steps_in_range(sort_schedule(start, len, ascending), start, len),
    decreases len,
{
    if len > 1 {
        let half = len / 2;
        lemma_sort_schedule_in_range(start, half, !ascending);
        lemma_sort_schedule_in_range(start + half, len - half, ascending);
        lemma_merge_schedule_in_range(start, len, ascending);
        let t1 = sort_schedule(start, half, !ascending);
        let t2 = sort_schedule(start + half, len - half, ascending);
        let t3 = merge_schedule(start, len, ascending);
        let all = sort_schedule(start, len, ascending);
        assert forall|k: int| 0 <= k < all.len() implies start <= (#[trigger] all[k]).0
            < all[k].1 < start + len by {
            if k < t1.len() {
                assert(all[k] == t1[k]);
            } else if k < t1.len() + t2.len() {
                assert(all[k] == t2[k - t1.len()]);
            } else {
                assert(all[k] == t3[k - t1.len() - t2.len()]);
            }
        }
    }
}

/// Applying a schedule whose steps stay inside `[start, start + len)`
/// leaves the length, everything outside the range, and the multiset of
/// the range unchanged: the network permutes its range and does nothing
/// else, whatever the data and whatever the relation.
pub proof fn lemma_apply_schedule_permutes<V>(
    s: Seq<V>,
    steps: Seq<(int, int, bool)>,
    leq: spec_fn(V, V) -> bool,
    start: int,
    len: int,
)
    requires
        0 <= start,
        start + len <= s.len(),
        steps_in_range(steps, start, len),
    ensures
        apply_schedule(s, steps, leq).len() == s.len(),
        forall|k: int|
            0 <= k < s.len() && !(start <= k < start + len) ==> apply_schedule(s, steps, leq)[k]
                == s[k],
        apply_schedule(s, steps, leq).subrange(start, start + len).to_multiset() == s.subrange(
            start,
            start + len,
        ).to_multiset(),
    decreases steps.len(),
{
    if steps.len() > 0 {
        let step = steps[0];
        let s1 = cas_step(s, step.0, step.1, step.2, leq);
        if cas_swaps(s[step.0], s[step.1], leq, step.2) {
            lemma_swap_subrange_multiset(s, start, start + len, step.0, step.1);
        }
        assert(steps_in_range(steps.skip(1), start, len)) by {
            assert forall|k: int| 0 <= k < steps.skip(1).len() implies start <= (#[trigger] steps
                .skip(1)[k]).0 < steps.skip(1)[k].1 < start + len by {
                assert(steps.skip(1)[k] == steps[k + 1]);
            }
        }
        lemma_apply_schedule_permutes(s1, steps.skip(1), leq, start, len);
        assert(apply_schedule(s, steps, leq) == apply_schedule(s1, steps.skip(1), leq));
        assert forall|k: int|
            0 <= k < s.len() && !(start <= k < start + len) implies apply_schedule(
            s,
            steps,
            leq,
        )[k] == s[k] by {
            assert(s1[k] == s[k]);
        }
    }
}

/// The smaller operand of one compare step (for the direction).
pub open spec fn lo_of<V>(a: V, b: V, leq: spec_fn(V, V) -> bool, ascending: bool) -> V {
    if cas_swaps(a, b, leq, ascending) {
        b
    } else {
        a
    }
}

/// The larger operand of one compare step (for the direction).
pub open spec fn hi_of<V>(a: V, b: V, leq: spec_fn(V, V) -> bool, ascending: bool) -> V {
    if cas_swaps(a, b, leq, ascending) {
        a
    } else {
        b
    }
}

/// The claim of [`lemma_merge_phase_apply`] for the pair at offset `k`:
/// the two positions hold the selected low and high elements.
pub open spec fn phase_pointwise<V>(
    s: Seq<V>,
    r: Seq<V>,
    start: int,
    half: int,
    k: int,
    ascending: bool,
    leq: spec_fn(V, V) -> bool,
) -> bool {
    r[start + k] == lo_of(s[start + k], s[start + k + half], leq, ascending) && r[start + k
        + half] == hi_of(s[start + k], s[start + k + half], leq, ascending)
}

/// What one merge phase computes, position by position: the pairs are
/// disjoint, so each paired position receives the selected element of its
/// own pair and every other position keeps its element.
#[verifier::rlimit(50)]
pub proof fn lemma_merge_phase_apply<V>(
    s: Seq<V>,
    start: int,
    half: int,
    second: int,
    ascending: bool,
    leq: spec_fn(V, V) -> bool,
)
    requires
        0 <= start,
        0 < half,
        0 <= second <= half,
        start + half + second <= s.len(),
    ensures
        apply_schedule(s, merge_phase(start, half, second, ascending), leq).len() == s.len(),
        forall|p: int|
            0 <= p < s.len() && !(start <= p < start + second) && !(start + half <= p < start
                + half + second) ==> apply_schedule(s, merge_phase(start, half, second, ascending), leq)[p]
                == s[p],
        forall|k: int|
            0 <= k < second ==> #[trigger] phase_pointwise(
                s,
                apply_schedule(s, merge_phase(start, half, second, ascending), leq),
                start,
                half,
                k,
                ascending,
                leq,
            ),
    decreases second,
{
    let phase = merge_phase(start, half, second, ascending);
    let fin = apply_schedule(s, phase, leq);
    if second == 0 {
        assert(phase.len() == 0);
        assert(fin == s);
    } else {
        let s1 = cas_step(s, start, start + half, ascending, leq);
        assert(s1.len() == s.len());
        assert(s1[start] == lo_of(s[start], s[start + half], leq, ascending));
        assert(s1[start + half] == hi_of(s[start], s[start + half], leq, ascending));
        assert(forall|p: int|
            0 <= p < s.len() && p != start && p != start + half ==> s1[p] == s[p]);
        assert(phase[0] == (start, start + half, ascending));
        assert(phase.skip(1) =~= merge_phase(start + 1, half, second - 1, ascending));
        assert(apply_schedule(s, phase, leq) == apply_schedule(s1, phase.skip(1), leq));
        lemma_merge_phase_apply(s1, start + 1, half, second - 1, ascending, leq);
        let r = apply_schedule(s1, merge_phase(start + 1, half, second - 1, ascending), leq);
        assert(fin == r);
        assert forall|k: int| 0 <= k < second implies (#[trigger] fin[start + k]) == lo_of(
            s[start + k],
            s[start + k + half],
            leq,
            ascending,
        ) && fin[start + k + half] == hi_of(s[start + k], s[start + k + half], leq, ascending) by {
            if k == 0 {
                assert(r[start] == s1[start]);
                assert(r[start + half] == s1[start + half]);
            } else {
                assert(s1[start + k] == s[start + k]);
                assert(s1[start + k + half] == s[start + k + half]);
                assert(phase_pointwise(s1, r, start + 1, half, k - 1, ascending, leq));
                assert(r[start + 1 + (k - 1)] == lo_of(
                    s1[start + 1 + (k - 1)],
                    s1[start + 1 + (k - 1) + half],
                    leq,
                    ascending,
                ));
            }
        }
        assert forall|p: int|
            0 <= p < s.len() && !(start <= p < start + second) && !(start + half <= p < start
                + half + second) implies fin[p] == s[p] by {
            assert(s1[p] == s[p]);
            assert(r[p] == s1[p]);
        }
    }
    assert(fin.len() == s.len());
    assert(forall|p: int|
        0 <= p < s.len() && !(start <= p < start + second) && !(start + half <= p < start + half
            + second) ==> fin[p] == s[p]);
    assert forall|k: int| 0 <= k < second implies #[trigger] phase_pointwise(
        s,
        fin,
        start,
        half,
        k,
        ascending,
        leq,
    ) by {
        assert(fin[start + k] == lo_of(s[start + k], s[start + k + half], leq, ascending));
    }
}

/// Adjacent pairs are in order under `leq`.
pub open spec fn sorted_adjacent<V>(s: Seq<V>, leq: spec_fn(V, V) -> bool) -> bool {
    forall|i: int| 0 <= i && i + 1 < s.len() ==> leq(#[trigger] s[i], s[i + 1])
}

/// Bitonic sort with a caller-supplied comparator.
///
/// The result is exactly the fixed compare-and-swap schedule of the
/// length applied to the input, for every relation the comparator
/// decides; the multiset of element views is preserved unconditionally.
pub fn bitonic_sort_by<T: CMov, F: Fn(&T, &T) -> Ordering>(array: &mut Vec<T>, cmp: F)
    requires
        forall|x: &T, y: &T| #[trigger] call_requires(cmp, (x, y)),
        uniform_shape::<T>(views(old(array)@), 0, old(array)@.len() as int),
    ensures
        final(array)@.len() == old(array)@.len(),
        views(final(array)@).to_multiset() == views(old(array)@).to_multiset(),
        forall|leq: spec_fn(<T as View>::V, <T as View>::V) -> bool|
            #[trigger] consistent_with::<T, F>(cmp, leq) ==> views(final(array)@)
                == apply_schedule(
                views(old(array)@),
                sort_schedule(0, old(array)@.len() as int, true),
                leq,
            ),
        forall|leq: spec_fn(<T as View>::V, <T as View>::V) -> bool|
            #[trigger] consistent_with::<T, F>(cmp, leq) && total_preorder(leq)
                ==> range_sorted_asc(views(final(array)@), 0, old(array)@.len() as int, leq),
{
    let n = array.len();
    bitonic_sort_inner(array, 0, n, &cmp, true);
    proof {
        assert(views(array@).subrange(0, n as int) =~= views(array@));
        assert(views(old(array)@).subrange(0, n as int) =~= views(old(array)@));
        assert forall|leq: spec_fn(<T as View>::V, <T as View>::V) -> bool|
            #[trigger] consistent_with::<T, F>(cmp, leq) && total_preorder(leq)
            implies range_sorted_asc(views(array@), 0, n as int, leq) by {
            lemma_sort_schedule_sorts(views(old(array)@), 0, n as int, leq);
        }
    }
}

/// Bitonic sort by the order of `T`.
pub fn bitonic_sort<T: CMov + Ord>(array: &mut Vec<T>)
    requires
        T::obeys_cmp_spec(),
        uniform_shape::<T>(views(old(array)@), 0, old(array)@.len() as int),
    ensures
        final(array)@.len() == old(array)@.len(),
        views(final(array)@).to_multiset() == views(old(array)@).to_multiset(),
        forall|leq: spec_fn(<T as View>::V, <T as View>::V) -> bool|
            #[trigger] ord_consistent_with::<T>(leq) ==> views(final(array)@) == apply_schedule(
                views(old(array)@),
                sort_schedule(0, old(array)@.len() as int, true),
                leq,
            ),
        forall|leq: spec_fn(<T as View>::V, <T as View>::V) -> bool|
            #[trigger] ord_consistent_with::<T>(leq) && total_preorder(leq) ==> range_sorted_asc(
                views(final(array)@),
                0,
                old(array)@.len() as int,
                leq,
            ),
{
    let n = array.len();
    let cl = |a: &T, b: &T| -> (o: Ordering)
        ensures
            T::obeys_cmp_spec() ==> o == a.cmp_spec(b),
        { a.cmp(b) };
    bitonic_sort_inner(array, 0, n, &cl, true);
    proof {
        assert(views(array@).subrange(0, n as int) =~= views(array@));
        assert(views(old(array)@).subrange(0, n as int) =~= views(old(array)@));
        assert forall|leq: spec_fn(<T as View>::V, <T as View>::V) -> bool|
            #[trigger] ord_consistent_with::<T>(leq) implies views(array@) == apply_schedule(
            views(old(array)@),
            sort_schedule(0, old(array)@.len() as int, true),
            leq,
        ) by {
            assert forall|x: &T, y: &T, o: Ordering| #[trigger] call_ensures(cl, (x, y), o)
                implies ordering_matches(o, x@, y@, leq) by {
                assert(o == x.cmp_spec(y));
                assert(ordering_matches((*x).cmp_spec(&*y), (*x)@, (*y)@, leq));
            }
            assert(consistent_with::<T, _>(cl, leq));
        }
        assert forall|leq: spec_fn(<T as View>::V, <T as View>::V) -> bool|
            #[trigger] ord_consistent_with::<T>(leq) && total_preorder(leq)
            implies range_sorted_asc(views(array@), 0, n as int, leq) by {
            lemma_sort_schedule_sorts(views(old(array)@), 0, n as int, leq);
        }
    }
}

/// Bitonic sort by a key extracted from each element.
pub fn bitonic_sort_by_key<T: CMov, K: Ord, F: Fn(&T) -> K>(array: &mut Vec<T>, f: F)
    requires
        K::obeys_cmp_spec(),
        forall|x: &T| #[trigger] call_requires(f, (x,)),
        uniform_shape::<T>(views(old(array)@), 0, old(array)@.len() as int),
    ensures
        final(array)@.len() == old(array)@.len(),
        views(final(array)@).to_multiset() == views(old(array)@).to_multiset(),
        forall|leq: spec_fn(<T as View>::V, <T as View>::V) -> bool|
            #[trigger] key_consistent_with::<T, K, F>(f, leq) ==> views(final(array)@)
                == apply_schedule(
                views(old(array)@),
                sort_schedule(0, old(array)@.len() as int, true),
                leq,
            ),
        forall|leq: spec_fn(<T as View>::V, <T as View>::V) -> bool|
            #[trigger] key_consistent_with::<T, K, F>(f, leq) && total_preorder(leq)
                ==> range_sorted_asc(views(final(array)@), 0, old(array)@.len() as int, leq),
{
    let n = array.len();
    let fr = &f;
    let cl = |a: &T, b: &T| -> (o: Ordering)
        ensures
            exists|ka: K, kb: K|
                {
                    &&& #[trigger] call_ensures(*fr, (a,), ka)
                    &&& #[trigger] call_ensures(*fr, (b,), kb)
                    &&& K::obeys_cmp_spec() ==> o == ka.cmp_spec(&kb)
                },
        {
            let ka = fr(a);
            let kb = fr(b);
            ka.cmp(&kb)
        };
    bitonic_sort_inner(array, 0, n, &cl, true);
    proof {
        assert(views(array@).subrange(0, n as int) =~= views(array@));
        assert(views(old(array)@).subrange(0, n as int) =~= views(old(array)@));
        assert forall|leq: spec_fn(<T as View>::V, <T as View>::V) -> bool|
            #[trigger] key_consistent_with::<T, K, F>(f, leq) implies views(array@)
            == apply_schedule(
            views(old(array)@),
            sort_schedule(0, old(array)@.len() as int, true),
            leq,
        ) by {
            assert forall|x: &T, y: &T, o: Ordering| #[trigger] call_ensures(cl, (x, y), o)
                implies ordering_matches(o, x@, y@, leq) by {
                let (ka, kb): (K, K) = choose|ka: K, kb: K|
                    {
                        &&& #[trigger] call_ensures(*fr, (x,), ka)
                        &&& #[trigger] call_ensures(*fr, (y,), kb)
                        &&& K::obeys_cmp_spec() ==> o == ka.cmp_spec(&kb)
                    };
                assert(ordering_matches(ka.cmp_spec(&kb), x@, y@, leq));
            }
            assert(consistent_with::<T, _>(cl, leq));
        }
        assert forall|leq: spec_fn(<T as View>::V, <T as View>::V) -> bool|
            #[trigger] key_consistent_with::<T, K, F>(f, leq) && total_preorder(leq)
            implies range_sorted_asc(views(array@), 0, n as int, leq) by {
            lemma_sort_schedule_sorts(views(old(array)@), 0, n as int, leq);
        }
    }
}

/// Whether `array` is in non-descending order as the comparator sees it.
///
/// This is a revealing check, not an oblivious one: it stops at the
/// first out-of-order pair.
pub fn array_is_sorted_by<T: View, F: Fn(&T, &T) -> Ordering>(array: &[T], cmp: F) -> (r: bool)
    requires
        forall|x: &T, y: &T| #[trigger] call_requires(cmp, (x, y)),
    ensures
        forall|leq: spec_fn(<T as View>::V, <T as View>::V) -> bool|
            #[trigger] consistent_with::<T, F>(cmp, leq) ==> r == sorted_adjacent(
                views(array@),
                leq,
            ),
{
    let len = array.len();
    if len == 0 {
        return true;
    }
    let mut i: usize = 0;
    while i < len - 1
        invariant
            len == array@.len(),
            1 <= len,
            i <= len - 1,
            forall|x: &T, y: &T| #[trigger] call_requires(cmp, (x, y)),
            forall|leq: spec_fn(<T as View>::V, <T as View>::V) -> bool|
                #[trigger] consistent_with::<T, F>(cmp, leq) ==> forall|j: int|
                    0 <= j < i ==> leq(#[trigger] views(array@)[j], views(array@)[j + 1]),
        decreases len - i,
    {
        let ord = cmp(&array[i], &array[i + 1]);
        if matches!(ord, Ordering::Greater) {
            proof {
                assert forall|leq: spec_fn(<T as View>::V, <T as View>::V) -> bool|
                    #[trigger] consistent_with::<T, F>(cmp, leq) implies !sorted_adjacent(
                    views(array@),
                    leq,
                ) by {
                    assert(ordering_matches(ord, array@[i as int]@, array@[i as int + 1]@, leq));
                    assert(!leq(views(array@)[i as int], views(array@)[i as int + 1]));
                }
            }
            return false;
        }
        proof {
            assert forall|leq: spec_fn(<T as View>::V, <T as View>::V) -> bool|
                #[trigger] consistent_with::<T, F>(cmp, leq) implies forall|j: int|
                0 <= j < i + 1 ==> leq(#[trigger] views(array@)[j], views(array@)[j + 1]) by {
                assert(ordering_matches(ord, array@[i as int]@, array@[i as int + 1]@, leq));
                assert(leq(views(array@)[i as int], views(array@)[i as int + 1]));
            }
        }
        i = i + 1;
    }
    true
}

/// Merge two individually ascending runs of equal length into one
/// ascending sequence, by the merge phase of the network alone: the left
/// run is reversed, concatenated with the right run, and merged.
pub fn bitonic_merge_sorted_slices<T: CMov + Ord>(left: &[T], right: &[T]) -> (r: Vec<T>)
    requires
        left@.len() == right@.len(),
        T::obeys_cmp_spec(),
        uniform_shape::<T>(
            views(left@) + views(right@),
            0,
            left@.len() as int + right@.len() as int,
        ),
    ensures
        r@.len() == left@.len() + right@.len(),
        views(r@).to_multiset() == views(left@).to_multiset().add(views(right@).to_multiset()),
        forall|leq: spec_fn(<T as View>::V, <T as View>::V) -> bool|
            #[trigger] ord_consistent_with::<T>(leq) ==> views(r@) == apply_schedule(
                views(left@).reverse() + views(right@),
                merge_schedule(0, (left@.len() + right@.len()) as int, true),
                leq,
            ),
        forall|leq: spec_fn(<T as View>::V, <T as View>::V) -> bool|
            #[trigger] ord_consistent_with::<T>(leq) && total_preorder(leq) && range_sorted_asc(
                views(left@),
                0,
                left@.len() as int,
                leq,
            ) && range_sorted_asc(views(right@), 0, right@.len() as int, leq)
                ==> range_sorted_asc(views(r@), 0, r@.len() as int, leq),
{
    broadcast use vstd::seq_lib::group_to_multiset_ensures;

    let llen = left.len();
    if llen == 0 {
        let r: Vec<T> = Vec::new();
        proof {
            assert(views(r@).to_multiset() =~= views(left@).to_multiset().add(
                views(right@).to_multiset(),
            ));
            assert(views(left@).reverse() + views(right@) =~= views(r@));
        }
        return r;
    }
    let mut array: Vec<T> = Vec::new();
    let mut i: usize = 0;
    while i < llen
        invariant
            llen == left@.len(),
            i <= llen,
            array@.len() == i,
            forall|j: int| 0 <= j < i ==> array@[j]@ == left@[llen - 1 - j]@,
        decreases llen - i,
    {
        array.push(left[llen - 1 - i].dup());
        i = i + 1;
    }
    let mut i: usize = 0;
    while i < llen
        invariant
            llen == left@.len(),
            llen == right@.len(),
            i <= llen,
            array@.len() == llen + i,
            forall|j: int| 0 <= j < llen ==> array@[j]@ == left@[llen - 1 - j]@,
            forall|j: int| 0 <= j < i ==> array@[llen + j]@ == right@[j]@,
        decreases llen - i,
    {
        array.push(right[i].dup());
        i = i + 1;
    }
    let ghost comb = views(left@).reverse() + views(right@);
    proof {
        assert(views(array@) =~= comb);
        assert forall|k1: int, k2: int|
            0 <= k1 < 2 * llen && 0 <= k2 < 2 * llen implies T::same_shape(
            #[trigger] comb[k1],
            #[trigger] comb[k2],
        ) by {
            let flat = views(left@) + views(right@);
            let m1: int = if k1 < llen {
                llen - 1 - k1
            } else {
                k1
            };
            let m2: int = if k2 < llen {
                llen - 1 - k2
            } else {
                k2
            };
            assert(comb[k1] == flat[m1]);
            assert(comb[k2] == flat[m2]);
        }
        assert(uniform_shape::<T>(views(array@), 0, 2 * llen as int));
    }
    let n = array.len();
    let cl = |a: &T, b: &T| -> (o: Ordering)
        ensures
            T::obeys_cmp_spec() ==> o == a.cmp_spec(b),
        { a.cmp(b) };
    bitonic_merge_inner(&mut array, 0, n, &cl, true);
    proof {
        assert(views(array@).subrange(0, n as int) =~= views(array@));
        assert(comb.subrange(0, n as int) =~= comb);
        vstd::seq_lib::lemma_multiset_commutative(views(left@).reverse(), views(right@));
        views(left@).lemma_reverse_to_multiset();
        assert(views(array@).to_multiset() == views(left@).to_multiset().add(
            views(right@).to_multiset(),
        ));
        assert forall|leq: spec_fn(<T as View>::V, <T as View>::V) -> bool|
            #[trigger] ord_consistent_with::<T>(leq) implies views(array@) == apply_schedule(
            comb,
            merge_schedule(0, (left@.len() + right@.len()) as int, true),
            leq,
        ) by {
            assert forall|x: &T, y: &T, o: Ordering| #[trigger] call_ensures(cl, (x, y), o)
                implies ordering_matches(o, x@, y@, leq) by {
                assert(o == x.cmp_spec(y));
                assert(ordering_matches((*x).cmp_spec(&*y), (*x)@, (*y)@, leq));
            }
            assert(consistent_with::<T, _>(cl, leq));
        }
        assert forall|leq: spec_fn(<T as View>::V, <T as View>::V) -> bool|
            #[trigger] ord_consistent_with::<T>(leq) && total_preorder(leq) && range_sorted_asc(
            views(left@),
            0,
            left@.len() as int,
            leq,
        ) && range_sorted_asc(views(right@), 0, right@.len() as int, leq) implies range_sorted_asc(
            views(array@),
            0,
            array@.len() as int,
            leq,
        ) by {
            let ll = left@.len() as int;
            assert(range_valley_at(comb, 0, 2 * ll, ll, leq)) by {
                assert forall|i: int, j: int| 0 <= i < j < ll implies leq(
                    #[trigger] comb[j],
                    #[trigger] comb[i],
                ) by {
                    assert(comb[i] == views(left@)[ll - 1 - i]);
                    assert(comb[j] == views(left@)[ll - 1 - j]);
                }
                assert forall|i: int, j: int| ll <= i < j < 2 * ll implies leq(
                    #[trigger] comb[i],
                    #[trigger] comb[j],
                ) by {
                    assert(comb[i] == views(right@)[i - ll]);
                    assert(comb[j] == views(right@)[j - ll]);
                }
            }
            assert(range_valley(comb, 0, 2 * ll, leq));
            lemma_merge_schedule_sorts(comb, 0, 2 * ll, leq);
        }
    }
    array
}

/// Merge an already descending run and an already ascending run of equal
/// length into one ascending sequence, consuming both.
pub fn bitonic_merge_sorted_iters<T: CMov + Ord>(
    left: Vec<T>,
    right: Vec<T>,
    len_hint: Option<usize>,
) -> (r: Vec<T>)
    requires
        left@.len() == right@.len(),
        T::obeys_cmp_spec(),
        uniform_shape::<T>(
            views(left@) + views(right@),
            0,
            left@.len() as int + right@.len() as int,
        ),
        len_hint matches Some(h) ==> h <= usize::MAX / 2,
    ensures
        r@.len() == left@.len() + right@.len(),
        views(r@).to_multiset() == views(left@).to_multiset().add(views(right@).to_multiset()),
        forall|leq: spec_fn(<T as View>::V, <T as View>::V) -> bool|
            #[trigger] ord_consistent_with::<T>(leq) ==> views(r@) == apply_schedule(
                views(left@) + views(right@),
                merge_schedule(0, (left@.len() + right@.len()) as int, true),
                leq,
            ),
        forall|leq: spec_fn(<T as View>::V, <T as View>::V) -> bool|
            #[trigger] ord_consistent_with::<T>(leq) && total_preorder(leq) && range_valley_at(
                views(left@) + views(right@),
                0,
                (left@.len() + right@.len()) as int,
                left@.len() as int,
                leq,
            ) ==> range_sorted_asc(views(r@), 0, r@.len() as int, leq),
{
    broadcast use vstd::seq_lib::group_to_multiset_ensures;

    let capacity: usize = match len_hint {
        Some(h) => 2 * h,
        None => 0,
    };
    let mut array: Vec<T> = Vec::with_capacity(capacity);
    let ghost lv = left@;
    let ghost rv = right@;
    let mut left = left;
    let mut right = right;
    array.append(&mut left);
    array.append(&mut right);
    let ghost comb = views(lv) + views(rv);
    proof {
        assert(array@ =~= lv + rv);
        assert(views(array@) =~= comb);
        vstd::seq_lib::lemma_multiset_commutative(views(lv), views(rv));
    }
    let n = array.len();
    let cl = |a: &T, b: &T| -> (o: Ordering)
        ensures
            T::obeys_cmp_spec() ==> o == a.cmp_spec(b),
        { a.cmp(b) };
    bitonic_merge_inner(&mut array, 0, n, &cl, true);
    proof {
        assert(views(array@).subrange(0, n as int) =~= views(array@));
        assert(comb.subrange(0, n as int) =~= comb);
        assert forall|leq: spec_fn(<T as View>::V, <T as View>::V) -> bool|
            #[trigger] ord_consistent_with::<T>(leq) implies views(array@) == apply_schedule(
            comb,
            merge_schedule(0, (lv.len() + rv.len()) as int, true),
            leq,
        ) by {
            assert forall|x: &T, y: &T, o: Ordering| #[trigger] call_ensures(cl, (x, y), o)
                implies ordering_matches(o, x@, y@, leq) by {
                assert(o == x.cmp_spec(y));
                assert(ordering_matches((*x).cmp_spec(&*y), (*x)@, (*y)@, leq));
            }
            assert(consistent_with::<T, _>(cl, leq));
        }
        assert forall|leq: spec_fn(<T as View>::V, <T as View>::V) -> bool|
            #[trigger] ord_consistent_with::<T>(leq) && total_preorder(leq) && range_valley_at(
            comb,
            0,
            (lv.len() + rv.len()) as int,
            lv.len() as int,
            leq,
        ) implies range_sorted_asc(views(array@), 0, array@.len() as int, leq) by {
            assert(range_valley(comb, 0, (lv.len() + rv.len()) as int, leq));
            lemma_merge_schedule_sorts(comb, 0, (lv.len() + rv.len()) as int, leq);
        }
    }
    array
}

} // verus!

mod sortedness;

pub use sortedness::lemma_merge_schedule_sorts;
pub use sortedness::lemma_sort_schedule_sorts;
pub use sortedness::range_sorted_desc;
pub use sortedness::total_preorder;
pub use sortedness::range_sorted_asc;
pub use sortedness::range_valley;
pub use sortedness::range_valley_at;
