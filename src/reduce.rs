//! The descent that reduces a vector to one element, recording each level,
//! and the ascent that rebuilds a scaled copy of it from those records.
use crate::align::{
    align, fits_i32, lemma_shl_is_mul, lemma_signed_residual, lemma_twos_bound, magnitude_residual,
    sign_of, twos, within,
};
use crate::diffs::{accumulate, diffs, ints, running, take_diffs};
use crate::grouping::{
    ascending_values, group_indices_by_elem, group_start, lemma_ungroup_at, lemma_ungroup_contains,
    lemma_ungroup_member, sorted_by_value, ungroup, PointersAndShifts,
};
use vstd::seq_lib::group_to_multiset_ensures;
use vstd::arithmetic::power2::pow2;
use vstd::prelude::*;

verus! {

/// What one level of the descent did: the length of the vector it started
/// from, the distinct residuals of its elements' magnitudes with the
/// positions and shifts that carried each of them, and the sign (-1, 0 or 1)
/// of the element at each position.
pub struct StepState {
    pub len: usize,
    pub pointers: PointersAndShifts,
    pub signs: Vec<i32>,
}

/// The distinct values of a level, in order.
pub open spec fn vals(st: StepState) -> Seq<int> {
    st.pointers@.map_values(|g: (i32, Vec<(usize, u32)>)| g.0 as int)
}

pub open spec fn is_occ(st: StepState, k: int, i: int) -> bool {
    0 <= k < st.pointers@.len() && 0 <= i < st.pointers@[k].1@.len()
}

/// Occurrence `i` of group `k`: a position and a shift.
pub open spec fn occ(st: StepState, k: int, i: int) -> (usize, u32) {
    st.pointers@[k].1@[i]
}

/// The groups of a level cover each position of its vector, no position
/// occurs twice, and each position has a sign.
pub open spec fn level_ok(st: StepState) -> bool {
    &&& st.pointers@.len() > 0
    &&& st.signs@.len() == st.len
    &&& forall|p: int| 0 <= p < st.len ==> -1 <= #[trigger] st.signs@[p] <= 1
    &&& forall|k: int, i: int|
        #![trigger occ(st, k, i)]
        is_occ(st, k, i) ==> occ(st, k, i).0 < st.len && occ(st, k, i).1 < 32
    &&& forall|k1: int, i1: int, k2: int, i2: int|
        #![trigger occ(st, k1, i1), occ(st, k2, i2)]
        is_occ(st, k1, i1) && is_occ(st, k2, i2) && occ(st, k1, i1).0 == occ(st, k2, i2).0 ==> k1
            == k2 && i1 == i2
    &&& forall|p: int|
        0 <= p < st.len ==> is_occ(st, #[trigger] holder(st, p).0, holder(st, p).1) && occ(
            st,
            holder(st, p).0,
            holder(st, p).1,
        ).0 == p
}

/// The group and occurrence that hold position `p`.
pub open spec fn holder(st: StepState, p: int) -> (int, int) {
    choose|k: int, i: int| #![trigger occ(st, k, i)] is_occ(st, k, i) && occ(st, k, i).0 == p
}

/// The sign of position `p` times the sum of its group.
pub open spec fn signed_sum(st: StepState, sums: Seq<int>, p: int) -> int {
    st.signs@[p] * sums[holder(st, p).0]
}

/// Writes `sums[k]`, with the sign of each position and shifted by its
/// shift, to every position of group `k`.
pub open spec fn scatter(st: StepState, sums: Seq<int>) -> Seq<int> {
    Seq::new(
        st.len as nat,
        |p: int| signed_sum(st, sums, p) * pow2(occ(st, holder(st, p).0, holder(st, p).1).1 as nat),
    )
}

/// The ascent over `steps`, innermost level first, from `x`: at each level
/// running sums, then scatter.
pub open spec fn rebuild(steps: Seq<StepState>, x: Seq<int>) -> Seq<int>
    decreases steps.len(),
{
    if steps.len() == 0 {
        x
    } else {
        rebuild(steps.drop_first(), scatter(steps[0], running(x)))
    }
}

/// Every level of the ascent from `x` is well formed and every value it
/// computes fits in an `i32`.
pub open spec fn ascent_ok(steps: Seq<StepState>, x: Seq<int>) -> bool
    decreases steps.len(),
{
    if steps.len() == 0 {
        true
    } else {
        &&& level_ok(steps[0])
        &&& x.len() == steps[0].pointers@.len()
        &&& forall|k: int| 0 <= k < x.len() ==> fits_i32(#[trigger] running(x)[k])
        &&& forall|p: int|
            0 <= p < steps[0].len ==> fits_i32(#[trigger] signed_sum(steps[0], running(x), p))
        &&& forall|p: int|
            0 <= p < steps[0].len ==> fits_i32(#[trigger] scatter(steps[0], running(x))[p])
        &&& ascent_ok(steps.drop_first(), scatter(steps[0], running(x)))
    }
}

proof fn lemma_holder(st: StepState, p: int)
    requires
        level_ok(st),
        0 <= p < st.len,
    ensures
        is_occ(st, holder(st, p).0, holder(st, p).1),
        occ(st, holder(st, p).0, holder(st, p).1).0 == p,
{
}

/// Writes each running sum, shifted back, to every position that its group
/// recorded.
fn follow_pointers(st: &StepState, sums: &Vec<i32>) -> (r: Vec<i32>)
    requires
        level_ok(*st),
        sums@.len() == st.pointers@.len(),
        forall|p: int| 0 <= p < st.len ==> fits_i32(#[trigger] signed_sum(*st, ints(sums@), p)),
        forall|p: int| 0 <= p < st.len ==> fits_i32(#[trigger] scatter(*st, ints(sums@))[p]),
    ensures
        ints(r@) == scatter(*st, ints(sums@)),
{
    let ghost s = ints(sums@);
    let mut scaled: Vec<i32> = Vec::new();
    while scaled.len() < st.len
        invariant
            scaled@.len() <= st.len,
        decreases st.len - scaled@.len(),
    {
        scaled.push(0);
    }
    let mut k: usize = 0;
    while k < st.pointers.len()
        invariant
            level_ok(*st),
            s == ints(sums@),
            sums@.len() == st.pointers@.len(),
            forall|p: int| 0 <= p < st.len ==> fits_i32(#[trigger] scatter(*st, s)[p]),
            forall|p: int| 0 <= p < st.len ==> fits_i32(#[trigger] signed_sum(*st, s, p)),
            k <= st.pointers@.len(),
            scaled@.len() == st.len,
            forall|k2: int, i2: int|
                #![trigger occ(*st, k2, i2)]
                is_occ(*st, k2, i2) && k2 < k ==> scaled@[occ(*st, k2, i2).0 as int] == st.signs@[occ(
                    *st,
                    k2,
                    i2,
                ).0 as int] * s[k2] * pow2(occ(*st, k2, i2).1 as nat),
        decreases st.pointers@.len() - k,
    {
        let ps = &st.pointers[k].1;
        let mut i: usize = 0;
        while i < ps.len()
            invariant
                level_ok(*st),
                s == ints(sums@),
                sums@.len() == st.pointers@.len(),
                forall|p: int| 0 <= p < st.len ==> fits_i32(#[trigger] scatter(*st, s)[p]),
                forall|p: int| 0 <= p < st.len ==> fits_i32(#[trigger] signed_sum(*st, s, p)),
                k < st.pointers@.len(),
                *ps == st.pointers@[k as int].1,
                i <= ps@.len(),
                scaled@.len() == st.len,
                forall|k2: int, i2: int|
                    #![trigger occ(*st, k2, i2)]
                    is_occ(*st, k2, i2) && (k2 < k || (k2 == k && i2 < i)) ==> scaled@[occ(
                        *st,
                        k2,
                        i2,
                    ).0 as int] == st.signs@[occ(*st, k2, i2).0 as int] * s[k2] * pow2(
                        occ(*st, k2, i2).1 as nat,
                    ),
            decreases ps@.len() - i,
        {
            let (p, shift) = ps[i];
            assert(occ(*st, k as int, i as int) == (p, shift));
            let sign = st.signs[p];
            let ghost signed = sign * s[k as int];
            proof {
                lemma_holder(*st, p as int);
                let (hk, hi) = holder(*st, p as int);
                assert(occ(*st, hk, hi).0 == occ(*st, k as int, i as int).0);
                assert(signed_sum(*st, s, p as int) == signed);
                assert(fits_i32(signed));
                assert(scatter(*st, s)[p as int] == signed * pow2(shift as nat));
            }
            assert(-1 <= sign <= 1);
            let x: i32 = if sign > 0 {
                assert(signed == s[k as int]) by (nonlinear_arith)
                    requires sign == 1, signed == sign * s[k as int];
                sums[k]
            } else if sign < 0 {
                assert(signed == -s[k as int]) by (nonlinear_arith)
                    requires sign == -1, signed == sign * s[k as int];
                -sums[k]
            } else {
                assert(signed == 0) by (nonlinear_arith)
                    requires sign == 0, signed == sign * s[k as int];
                0
            };
            assert(x as int == signed);
            proof {
                lemma_shl_is_mul(x, shift);
            }
            let value = x << shift;
            scaled.set(p, value);
            proof {
                assert forall|k2: int, i2: int|
                    #![trigger occ(*st, k2, i2)]
                    is_occ(*st, k2, i2) && (k2 < k || (k2 == k && i2 < i + 1)) implies scaled@[occ(
                        *st,
                        k2,
                        i2,
                    ).0 as int] == st.signs@[occ(*st, k2, i2).0 as int] * s[k2] * pow2(
                        occ(*st, k2, i2).1 as nat,
                    ) by {
                    if occ(*st, k2, i2).0 == p {
                        assert(occ(*st, k2, i2).0 == occ(*st, k as int, i as int).0);
                    }
                }
            }
            i = i + 1;
        }
        k = k + 1;
    }
    proof {
        assert forall|p: int| 0 <= p < st.len implies #[trigger] ints(scaled@)[p] == scatter(
            *st,
            s,
        )[p] by {
            lemma_holder(*st, p);
        }
        assert(ints(scaled@) =~= scatter(*st, s));
    }
    scaled
}

/// The ascent: starting from `vec`, and for each level of `steps` in turn
/// (innermost first), replaces the vector by its running sums and then
/// scatters them, shifted back, to the positions that the level recorded.
pub fn up(steps: &[StepState], vec: Vec<i32>) -> (r: Vec<i32>)
    requires
        ascent_ok(steps@, ints(vec@)),
    ensures
        ints(r@) == rebuild(steps@, ints(vec@)),
{
    let mut cur = vec;
    let mut i: usize = 0;
    assert(steps@.skip(0) =~= steps@);
    while i < steps.len()
        invariant
            i <= steps@.len(),
            ascent_ok(steps@.skip(i as int), ints(cur@)),
            rebuild(steps@.skip(i as int), ints(cur@)) == rebuild(steps@, ints(vec@)),
        decreases steps@.len() - i,
    {
        let ghost rest = steps@.skip(i as int);
        assert(rest[0] == steps@[i as int]);
        assert(rest.drop_first() =~= steps@.skip(i + 1));
        let ghost before = ints(cur@);
        accumulate(&mut cur);
        assert(cur@.len() == ints(cur@).len() && before.len() == running(before).len());
        let scaled = follow_pointers(&steps[i], &cur);
        cur = scaled;
        i = i + 1;
    }
    assert(steps@.skip(i as int) =~= Seq::<StepState>::empty());
    cur
}

pub open spec fn all_within(s: Seq<int>, m: int) -> bool {
    forall|j: int| 0 <= j < s.len() ==> within(#[trigger] s[j], m)
}

/// The largest magnitude residual of the elements of `s`.
pub open spec fn max_residual(s: Seq<i32>) -> int
    decreases s.len(),
{
    if s.len() == 0 {
        0
    } else if s.len() == 1 {
        magnitude_residual(s[0] as int)
    } else if magnitude_residual(s.last() as int) > max_residual(s.drop_last()) {
        magnitude_residual(s.last() as int)
    } else {
        max_residual(s.drop_last())
    }
}

/// Strictly smaller at each level of the descent.
pub open spec fn measure(s: Seq<i32>) -> nat {
    if s.len() <= 1 {
        0
    } else if max_residual(s) > 0 {
        (max_residual(s) + 2) as nat
    } else {
        2
    }
}

/// Each occurrence of a level records the magnitude residual and the shift
/// of the element of `w` at its position, and each position the element's
/// sign.
pub open spec fn level_factors(st: StepState, w: Seq<int>) -> bool {
    &&& forall|k: int, i: int|
        #![trigger occ(st, k, i)]
        is_occ(st, k, i) ==> vals(st)[k] == magnitude_residual(w[occ(st, k, i).0 as int])
            && occ(st, k, i).1 == twos(w[occ(st, k, i).0 as int])
    &&& forall|p: int| 0 <= p < w.len() ==> #[trigger] st.signs@[p] == sign_of(w[p])
}

/// `steps`, outermost first, lead from the vector `w` down to `[last]`: a
/// level is recorded only for a vector of two or more elements; its groups
/// ascend strictly in value, record each element's magnitude residual,
/// shift and sign, and rebuild the vector; the next vector is the
/// difference sequence of its distinct values.
pub open spec fn chain(w: Seq<int>, steps: Seq<StepState>, last: int) -> bool
    decreases steps.len(),
{
    if steps.len() == 0 {
        w == seq![last]
    } else {
        &&& w.len() >= 2
        &&& steps[0].len == w.len()
        &&& level_ok(steps[0])
        &&& ascending_values(steps[0].pointers@)
        &&& level_factors(steps[0], w)
        &&& scatter(steps[0], vals(steps[0])) == w
        &&& chain(diffs(vals(steps[0])), steps.drop_first(), last)
    }
}

/// Every value that the levels record or pass down lies between zero and `m`.
pub open spec fn chain_within(steps: Seq<StepState>, m: int) -> bool
    decreases steps.len(),
{
    if steps.len() == 0 {
        true
    } else {
        &&& all_within(vals(steps[0]), m)
        &&& all_within(diffs(vals(steps[0])), m)
        &&& chain_within(steps.drop_first(), m)
    }
}

/// Each position paired with its element's magnitude residual and shift.
pub open spec fn aligned_entries(w: Seq<i32>) -> Seq<(usize, (i32, u32))> {
    Seq::new(
        w.len(),
        |j: int| (j as usize, (magnitude_residual(w[j] as int) as i32, twos(w[j] as int) as u32)),
    )
}

pub proof fn lemma_max_residual(s: Seq<i32>)
    requires
        s.len() > 0,
    ensures
        forall|j: int| 0 <= j < s.len() ==> magnitude_residual(#[trigger] s[j] as int) <= max_residual(s),
        exists|j: int| 0 <= j < s.len() && magnitude_residual(#[trigger] s[j] as int) == max_residual(s),
    decreases s.len(),
{
    if s.len() > 1 {
        lemma_max_residual(s.drop_last());
        let j0 = choose|j: int| 0 <= j < s.len() - 1 && magnitude_residual(#[trigger] s.drop_last()[j] as int) == max_residual(s.drop_last());
        assert(s[j0] == s.drop_last()[j0]);
        assert(s[s.len() - 1] == s.last());
        assert forall|j: int| 0 <= j < s.len() implies magnitude_residual(#[trigger] s[j] as int) <= max_residual(s) by {
            if j < s.len() - 1 {
                assert(s[j] == s.drop_last()[j]);
            }
        }
    } else {
        assert(magnitude_residual(s[0] as int) == max_residual(s));
    }
}

/// Sorts the entries by value.
/// Relies on `slice::sort_by_key`: afterwards the slice holds the same
/// elements, in ascending order of the key.
#[verifier::external_body]
fn sort_by_value(v: &mut Vec<(usize, (i32, u32))>)
    ensures
        final(v)@.to_multiset() == old(v)@.to_multiset(),
        sorted_by_value(final(v)@),
{
    v.sort_by_key(|e| e.1.0);
}

/// An occurrence recorded by a level stands for an element of its vector.
proof fn lemma_occ_entry(w: Seq<i32>, sorted: Seq<(usize, (i32, u32))>, st: StepState, k: int, i: int)
    requires
        sorted.to_multiset() == aligned_entries(w).to_multiset(),
        ungroup(st.pointers@) == sorted,
        is_occ(st, k, i),
        w.len() <= usize::MAX,
    ensures
        occ(st, k, i).0 < w.len(),
        vals(st)[k] == magnitude_residual(w[occ(st, k, i).0 as int] as int),
        occ(st, k, i).1 as nat == twos(w[occ(st, k, i).0 as int] as int),
        occ(st, k, i).1 < 32,
{
    broadcast use group_to_multiset_ensures;

    let gs = st.pointers@;
    let x = (gs[k].1@[i].0, (gs[k].0, gs[k].1@[i].1));
    lemma_ungroup_contains(gs, k, i);
    assert(sorted.to_multiset().count(x) > 0);
    assert(aligned_entries(w).contains(x));
    let j = choose|j: int| 0 <= j < w.len() && aligned_entries(w)[j] == x;
    lemma_twos_bound(w[j]);
    lemma_signed_residual(w[j] as int);
    assert(occ(st, k, i) == gs[k].1@[i]);
    assert(x.0 as int == j);
    assert(magnitude_residual(w[j] as int) <= 0x7fff_ffff);
    assert(x.1.0 as int == magnitude_residual(w[j] as int));
    assert(x.1.1 as int == twos(w[j] as int));
    assert(vals(st)[k] == gs[k].0 as int);
}

/// A reordering of the entries of `w` repeats no entry.
proof fn lemma_sorted_no_duplicates(w: Seq<i32>, sorted: Seq<(usize, (i32, u32))>)
    requires
        sorted.to_multiset() == aligned_entries(w).to_multiset(),
        w.len() <= usize::MAX,
    ensures
        sorted.no_duplicates(),
{
    let e = aligned_entries(w);
    assert forall|a: int, b: int| 0 <= a < e.len() && 0 <= b < e.len() && a != b implies e[a]
        != e[b] by {
        assert(e[a].0 as int == a);
        assert(e[b].0 as int == b);
    }
    assert(e.no_duplicates());
    e.lemma_multiset_has_no_duplicates();
    sorted.lemma_multiset_has_no_duplicates_conv();
}

/// The level that the descent records for `w` is well formed and rebuilds `w`.
proof fn lemma_level(w: Seq<i32>, sorted: Seq<(usize, (i32, u32))>, st: StepState)
    requires
        w.len() >= 1,
        w.len() == st.len,
        w.len() <= usize::MAX,
        sorted.to_multiset() == aligned_entries(w).to_multiset(),
        ungroup(st.pointers@) == sorted,
        forall|k: int| 0 <= k < st.pointers@.len() ==> (#[trigger] st.pointers@[k]).1@.len() > 0,
        ascending_values(st.pointers@),
        st.signs@.len() == w.len(),
        forall|p: int| 0 <= p < w.len() ==> #[trigger] st.signs@[p] == sign_of(w[p] as int),
    ensures
        level_ok(st),
        level_factors(st, ints(w)),
        scatter(st, vals(st)) == ints(w),
{
    broadcast use group_to_multiset_ensures;

    let gs = st.pointers@;
    assert forall|k: int, i: int| #![trigger occ(st, k, i)] is_occ(st, k, i) implies occ(st, k, i).0
        < st.len && occ(st, k, i).1 < 32 && vals(st)[k] == magnitude_residual(
        ints(w)[occ(st, k, i).0 as int],
    ) && occ(st, k, i).1 == twos(ints(w)[occ(st, k, i).0 as int]) by {
        lemma_occ_entry(w, sorted, st, k, i);
    }
    assert forall|k1: int, i1: int, k2: int, i2: int|
        #![trigger occ(st, k1, i1), occ(st, k2, i2)]
        is_occ(st, k1, i1) && is_occ(st, k2, i2) && occ(st, k1, i1).0 == occ(
            st,
            k2,
            i2,
        ).0 implies k1 == k2 && i1 == i2 by {
        lemma_occ_entry(w, sorted, st, k1, i1);
        lemma_occ_entry(w, sorted, st, k2, i2);
        if k1 < k2 {
            assert(gs[k1].0 < gs[k2].0);
        } else if k2 < k1 {
            assert(gs[k2].0 < gs[k1].0);
        } else if i1 != i2 {
            lemma_ungroup_at(gs, k1, i1);
            lemma_ungroup_at(gs, k2, i2);
            let j1 = group_start(gs, k1) + i1;
            let j2 = group_start(gs, k2) + i2;
            assert(sorted[j1] == sorted[j2]);
            lemma_sorted_no_duplicates(w, sorted);
        }
    }
    assert forall|p: int| 0 <= p < st.len implies is_occ(
        st,
        #[trigger] holder(st, p).0,
        holder(st, p).1,
    ) && occ(st, holder(st, p).0, holder(st, p).1).0 == p by {
        let e = aligned_entries(w)[p];
        assert(aligned_entries(w).contains(e));
        assert(sorted.to_multiset().count(e) > 0);
        let j = choose|j: int| 0 <= j < sorted.len() && sorted[j] == e;
        lemma_ungroup_member(gs, j);
        let (k, i) = choose|k: int, i: int|
            0 <= k < gs.len() && 0 <= i < gs[k].1@.len() && ungroup(gs)[j] == (
                #[trigger] gs[k].1@[i].0,
                (gs[k].0, gs[k].1@[i].1),
            );
        assert(occ(st, k, i).0 == p);
        assert(is_occ(st, k, i));
    }
    assert(is_occ(st, holder(st, 0).0, holder(st, 0).1));
    assert forall|p: int| 0 <= p < st.len implies -1 <= #[trigger] st.signs@[p] <= 1 by {}
    assert forall|p: int| 0 <= p < w.len() implies #[trigger] st.signs@[p] == sign_of(ints(w)[p]) by {}
    assert forall|p: int| 0 <= p < w.len() implies #[trigger] scatter(st, vals(st))[p] == ints(
        w,
    )[p] by {
        let (k, i) = holder(st, p);
        lemma_occ_entry(w, sorted, st, k, i);
        lemma_signed_residual(w[p] as int);
    }
    assert(scatter(st, vals(st)) =~= ints(w));
}

/// What the distinct values of a level, and their differences, are bounded by.
proof fn lemma_descent_values(w: Seq<i32>, st: StepState)
    requires
        w.len() >= 2,
        w.len() == st.len,
        level_ok(st),
        level_factors(st, ints(w)),
        forall|k: int| 0 <= k < st.pointers@.len() ==> (#[trigger] st.pointers@[k]).1@.len() > 0,
        ascending_values(st.pointers@),
    ensures
        forall|k: int| 0 < k < vals(st).len() ==> fits_i32(#[trigger] vals(st)[k] - vals(st)[k - 1]),
        forall|k: int| 0 <= k < vals(st).len() ==> 0 < #[trigger] diffs(vals(st))[k],
        st.pointers@.len() >= 2 ==> {
            &&& max_residual(w) > 0
            &&& forall|k: int|
                0 <= k < st.pointers@.len() ==> 0 < #[trigger] diffs(vals(st))[k] < max_residual(w)
        },
        forall|m: int|
            #[trigger] bounds_residuals(w, m) ==> all_within(vals(st), m) && all_within(
                diffs(vals(st)),
                m,
            ),
{
    let gs = st.pointers@;
    let n = gs.len();
    let v = vals(st);
    lemma_max_residual(w);
    assert forall|k: int| 0 <= k < n implies {
        let e = w[occ(st, k, 0).0 as int] as int;
        &&& 0 <= occ(st, k, 0).0 < w.len()
        &&& #[trigger] v[k] == magnitude_residual(e)
        &&& 1 <= v[k] <= max_residual(w)
    } by {
        assert(is_occ(st, k, 0));
        let p = occ(st, k, 0).0 as int;
        lemma_signed_residual(w[p] as int);
        lemma_twos_bound(w[p]);
    }
    assert forall|k: int| 0 <= k < n implies 0 < #[trigger] diffs(v)[k] <= v[k] by {
        if k > 0 {
            assert(gs[k - 1].0 < gs[k].0);
            assert(v[k - 1] >= 1);
        }
    }
    if n >= 2 {
        assert forall|k: int| 0 <= k < n implies #[trigger] diffs(v)[k] < max_residual(w) by {
            if k == 0 {
                assert(gs[0].0 < gs[1].0);
                assert(v[1] <= max_residual(w));
            } else {
                assert(v[k - 1] >= 1);
            }
        }
    }
    assert forall|k: int| 0 < k < v.len() implies fits_i32(#[trigger] v[k] - v[k - 1]) by {
        assert(0 < diffs(v)[k] <= v[k]);
        let p = occ(st, k, 0).0 as int;
        lemma_twos_bound(w[p]);
    }
    assert forall|m: int| #[trigger] bounds_residuals(w, m) implies all_within(v, m) && all_within(
        diffs(v),
        m,
    ) by {
        assert forall|k: int| 0 <= k < n implies within(#[trigger] v[k], m) by {
            let p = occ(st, k, 0).0 as int;
            assert(magnitude_residual(w[p] as int) <= m);
        }
        assert forall|k: int| 0 <= k < n implies within(#[trigger] diffs(v)[k], m) by {
            assert(within(v[k], m));
        }
    }
}

/// Every element of `w` has a magnitude residual of at most `m`.
pub open spec fn bounds_residuals(w: Seq<i32>, m: int) -> bool {
    forall|j: int| 0 <= j < w.len() ==> magnitude_residual(#[trigger] w[j] as int) <= m
}

/// The descent: reduces `vector` level by level until one element remains.
/// Each level factors every element into its sign, the residual of its
/// magnitude and a shift, sorts the positions by residual, groups equal
/// residuals and passes on the differences of the distinct residuals; its
/// record is appended to `steps`. A vector of one element is returned as it
/// is. Returns the remaining element and the records.
pub fn down(vector: Vec<i32>, steps: Vec<StepState>) -> (r: (i32, Vec<StepState>))
    requires
        vector@.len() > 0,
    ensures
        vector@.len() == 1 ==> r.0 == vector@[0] && r.1@ == steps@,
        steps@.len() <= r.1@.len(),
        r.1@.take(steps@.len() as int) == steps@,
        chain(ints(vector@), r.1@.skip(steps@.len() as int), r.0 as int),
        forall|m: int|
            #[trigger] bounds_residuals(vector@, m) ==> chain_within(r.1@.skip(steps@.len() as int), m),
    decreases measure(vector@),
{
    let mut steps = steps;
    if vector.len() == 1 {
        proof {
            assert(ints(vector@) =~= seq![vector@[0] as int]);
            assert(steps@.skip(steps@.len() as int) =~= Seq::<StepState>::empty());
            assert(steps@.take(steps@.len() as int) =~= steps@);
        }
        return (vector[0], steps);
    }
    let mut v: Vec<(usize, (i32, u32))> = Vec::new();
    let mut signs: Vec<i32> = Vec::new();
    let mut i: usize = 0;
    while i < vector.len()
        invariant
            i <= vector@.len(),
            v@.len() == i,
            signs@.len() == i,
            forall|j: int| 0 <= j < i ==> #[trigger] v@[j] == aligned_entries(vector@)[j],
            forall|j: int| 0 <= j < i ==> #[trigger] signs@[j] == sign_of(vector@[j] as int),
        decreases vector@.len() - i,
    {
        let e = vector[i];
        let (res, shift) = align(e);
        proof {
            lemma_signed_residual(e as int);
            lemma_twos_bound(e);
        }
        let (magnitude, sign): (i32, i32) = if e == 0 {
            (1, 0)
        } else if res < 0 {
            (-res, -1)
        } else {
            (res, 1)
        };
        v.push((i, (magnitude, shift)));
        signs.push(sign);
        i = i + 1;
    }
    assert(v@ =~= aligned_entries(vector@));
    sort_by_value(&mut v);
    let ghost sorted = v@;
    let pointers = group_indices_by_elem(v);
    let mut elems: Vec<i32> = Vec::new();
    let mut k: usize = 0;
    while k < pointers.len()
        invariant
            k <= pointers@.len(),
            elems@.len() == k,
            forall|j: int| 0 <= j < k ==> #[trigger] elems@[j] == pointers@[j].0,
        decreases pointers@.len() - k,
    {
        elems.push(pointers[k].0);
        k = k + 1;
    }
    let st = StepState { len: vector.len(), pointers, signs };
    proof {
        assert(ints(elems@) =~= vals(st));
        lemma_level(vector@, sorted, st);
        lemma_descent_values(vector@, st);
    }
    assert forall|j: int| 0 < j < elems@.len() implies fits_i32(#[trigger] elems@[j] - elems@[j - 1]) by {
        assert(ints(elems@)[j] == vals(st)[j]);
        assert(ints(elems@)[j - 1] == vals(st)[j - 1]);
    }
    let next = take_diffs(elems);
    proof {
        let d = diffs(vals(st));
        assert forall|j: int| 0 <= j < next@.len() implies #[trigger] next@[j] as int == d[j] by {
            assert(ints(next@)[j] == d[j]);
        }
        if next@.len() >= 2 {
            lemma_max_residual(next@);
            let j = choose|j: int| 0 <= j < next@.len() && magnitude_residual(#[trigger] next@[j] as int) == max_residual(next@);
            lemma_signed_residual(next@[j] as int);
            assert(next@[j] < max_residual(vector@));
        }
        assert forall|m: int| #[trigger] bounds_residuals(vector@, m) implies bounds_residuals(next@, m) by {
            assert forall|j: int| 0 <= j < next@.len() implies magnitude_residual(#[trigger] next@[j] as int) <= m by {
                assert(within(d[j], m));
                assert(d[j] > 0);
                lemma_signed_residual(next@[j] as int);
            }
        }
    }
    let ghost n0: int = steps@.len() as int;
    let ghost level = st;
    steps.push(st);
    let ghost pushed = steps@;
    let (last, all) = down(next, steps);
    proof {
        let rest = all@.skip(n0 + 1int);
        assert(all@.take(n0) =~= pushed.take(n0));
        assert(pushed.take(n0) =~= steps@.take(n0));
        assert(all@[n0] == pushed[n0]);
        assert(all@.skip(n0)[0] == level);
        assert(all@.skip(n0).drop_first() =~= rest);
        assert forall|m: int| #[trigger] bounds_residuals(vector@, m) implies chain_within(all@.skip(n0), m) by {
            assert(bounds_residuals(next@, m));
        }
    }
    (last, all)
}

} // verus!
