//! Scalar multiplication, outer products and matrix products, each from one
//! descent and one ascent per scaling factor.
use crate::align::{
    fits_i32, lemma_magnitude_fits, lemma_odd_part_times_pow2, lemma_signed_residual,
    magnitude_residual, within,
};
use crate::diffs::{diffs, ints, lemma_diffs_scale, lemma_running_of_diffs, running, scale};
use crate::matrix::{zeros, Matrix};
use crate::reduce::{
    ascent_ok, bounds_residuals, chain, chain_within, down, holder, is_occ, lemma_max_residual,
    level_ok, max_residual, occ, rebuild, scatter, signed_sum, up, vals, StepState,
};
use vstd::arithmetic::power2::pow2;
use vstd::prelude::*;

verus! {

proof fn lemma_within_fits(c: int, x: int, m: int)
    requires
        within(x, m),
        fits_i32(c * m),
    ensures
        fits_i32(c * x),
{
    if 0 <= x <= m {
        if c >= 0 {
            assert(0 <= c * x <= c * m) by (nonlinear_arith)
                requires 0 <= x <= m, c >= 0;
        } else {
            assert(c * m <= c * x <= 0) by (nonlinear_arith)
                requires 0 <= x <= m, c < 0;
        }
    } else {
        if c >= 0 {
            assert(c * m <= c * x <= 0) by (nonlinear_arith)
                requires m <= x <= 0, c >= 0;
        } else {
            assert(0 <= c * x <= c * m) by (nonlinear_arith)
                requires m <= x <= 0, c < 0;
        }
    }
}

proof fn lemma_scatter_scale(st: StepState, c: int, v: Seq<int>)
    requires
        level_ok(st),
        v.len() == st.pointers@.len(),
    ensures
        scatter(st, scale(c, v)) == scale(c, scatter(st, v)),
{
    assert forall|p: int| 0 <= p < st.len implies #[trigger] scatter(st, scale(c, v))[p] == scale(
        c,
        scatter(st, v),
    )[p] by {
        let (k, i) = holder(st, p);
        let q = pow2(occ(st, k, i).1 as nat) as int;
        let g = st.signs@[p] as int;
        assert(is_occ(st, k, i));
        assert(g * (c * v[k]) * q == c * (g * v[k] * q)) by (nonlinear_arith);
    }
    assert(scatter(st, scale(c, v)) =~= scale(c, scatter(st, v)));
}

proof fn lemma_rebuild_push(a: Seq<StepState>, st: StepState, x: Seq<int>)
    ensures
        rebuild(a.push(st), x) == scatter(st, running(rebuild(a, x))),
    decreases a.len(),
{
    if a.len() == 0 {
        let z = scatter(st, running(x));
        assert(a.push(st).drop_first() =~= Seq::<StepState>::empty());
        assert(a.push(st)[0] == st);
        assert(rebuild(Seq::<StepState>::empty(), z) == z);
        assert(rebuild(a, x) == x);
    } else {
        assert(a.push(st).drop_first() =~= a.drop_first().push(st));
        assert(a.push(st)[0] == a[0]);
        lemma_rebuild_push(a.drop_first(), st, scatter(a[0], running(x)));
    }
}

proof fn lemma_ascent_push(a: Seq<StepState>, st: StepState, x: Seq<int>)
    requires
        ascent_ok(a, x),
        ascent_ok(seq![st], rebuild(a, x)),
    ensures
        ascent_ok(a.push(st), x),
    decreases a.len(),
{
    if a.len() == 0 {
        assert(a.push(st) =~= seq![st]);
    } else {
        assert(a.push(st).drop_first() =~= a.drop_first().push(st));
        lemma_ascent_push(a.drop_first(), st, scatter(a[0], running(x)));
    }
}

/// The ascent over the levels of a descent, innermost first, from the last
/// element times `c` rebuilds the descent's vector times `c`, and stays in
/// range when `c` times each element of the vector fits, every value the
/// levels record or pass down lies between zero and `m`, and `c * m` fits.
pub proof fn lemma_reconstruct(w: Seq<int>, s: Seq<StepState>, last: int, m: int, c: int)
    requires
        chain(w, s, last),
        chain_within(s, m),
        fits_i32(c * m),
        forall|p: int| 0 <= p < w.len() ==> fits_i32(#[trigger] (c * w[p])),
    ensures
        ascent_ok(s.reverse(), seq![c * last]),
        rebuild(s.reverse(), seq![c * last]) == scale(c, w),
        fits_i32(c * last),
    decreases s.len(),
{
    if s.len() == 0 {
        assert(s.reverse() =~= Seq::<StepState>::empty());
        assert(scale(c, w) =~= seq![c * last]);
        assert(fits_i32(c * w[0]));
    } else {
        let st = s[0];
        let rest = s.drop_first();
        let v = vals(st);
        let d = diffs(v);
        assert forall|p: int| 0 <= p < d.len() implies fits_i32(#[trigger] (c * d[p])) by {
            lemma_within_fits(c, d[p], m);
        }
        lemma_reconstruct(d, rest, last, m, c);
        assert(s.reverse() =~= rest.reverse().push(st));
        let x = seq![c * last];
        let y = rebuild(rest.reverse(), x);
        lemma_rebuild_push(rest.reverse(), st, x);
        lemma_diffs_scale(c, v);
        lemma_running_of_diffs(scale(c, v));
        assert(running(y) == scale(c, v));
        lemma_scatter_scale(st, c, v);
        assert forall|k: int| 0 <= k < y.len() implies fits_i32(#[trigger] running(y)[k]) by {
            assert(within(v[k], m));
            lemma_within_fits(c, v[k], m);
        }
        assert forall|p: int| 0 <= p < st.len implies fits_i32(
            #[trigger] scatter(st, running(y))[p],
        ) by {
            assert(scatter(st, running(y))[p] == scale(c, w)[p]);
        }
        assert forall|p: int| 0 <= p < st.len implies fits_i32(
            #[trigger] signed_sum(st, running(y), p),
        ) by {
            let (k, i) = holder(st, p);
            assert(is_occ(st, k, i));
            let g = st.signs@[p] as int;
            lemma_signed_residual(w[p]);
            lemma_odd_part_times_pow2(w[p]);
            assert(g * v[k] == crate::align::odd_part(w[p]));
            assert(g * (c * v[k]) == c * (g * v[k])) by (nonlinear_arith);
            lemma_within_fits(c, g * v[k], w[p]);
        }
        assert(seq![st].drop_first() =~= Seq::<StepState>::empty());
        assert(ascent_ok(Seq::<StepState>::empty(), scatter(st, running(y))));
        assert(level_ok(st));
        assert(y.len() == st.pointers@.len());
        assert(ascent_ok(seq![st], y));
        lemma_ascent_push(rest.reverse(), st, x);
    }
}

/// The levels in the order opposite to that of `steps`.
fn reverse_steps(steps: Vec<StepState>) -> (r: Vec<StepState>)
    ensures
        r@ == steps@.reverse(),
{
    let mut steps = steps;
    let ghost given = steps@;
    let mut r: Vec<StepState> = Vec::new();
    while steps.len() > 0
        invariant
            steps@ == given.take(steps@.len() as int),
            steps@.len() <= given.len(),
            r@ == given.skip(steps@.len() as int).reverse(),
        decreases steps@.len(),
    {
        let ghost n = steps@.len();
        let st = steps.pop().unwrap();
        r.push(st);
        assert(steps@ =~= given.take(n - 1));
        assert(given.skip(n - 1) =~= seq![st] + given.skip(n as int));
        assert(r@ =~= given.skip(n - 1).reverse());
    }
    assert(given.skip(0) =~= given);
    r
}

/// Copies the elements of `values`.
fn copy_values(values: &Vec<i32>) -> (r: Vec<i32>)
    ensures
        r@ == values@,
{
    let mut r: Vec<i32> = Vec::new();
    let mut i: usize = 0;
    while i < values.len()
        invariant
            i <= values@.len(),
            r@ == values@.take(i as int),
        decreases values@.len() - i,
    {
        r.push(values[i]);
        i = i + 1;
        assert(r@ =~= values@.take(i as int));
    }
    assert(values@.take(i as int) =~= values@);
    r
}

/// Every product `c * row[j]` over the given factors fits in an `i32`.
pub open spec fn products_fit(cs: Seq<i32>, row: Seq<i32>) -> bool {
    forall|i: int, j: int|
        0 <= i < cs.len() && 0 <= j < row.len() ==> fits_i32(#[trigger] cs[i] * #[trigger] row[j])
}

/// `c` is an `i32`, and `c * row[j]` fits in an `i32` for every `j`.
pub open spec fn scales_fit(c: int, row: Seq<i32>) -> bool {
    &&& fits_i32(c)
    &&& forall|j: int| 0 <= j < row.len() ==> fits_i32(#[trigger] row[j] * c)
}

/// The ascent over `steps` from `[c * last]` gives `c` times `row`, in range,
/// for every `c` by which `row` can be scaled.
pub open spec fn rebuilds(steps: Seq<StepState>, last: int, row: Seq<i32>) -> bool {
    forall|c: int|
        #[trigger] scales_fit(c, row) ==> {
            &&& ascent_ok(steps, seq![c * last])
            &&& rebuild(steps, seq![c * last]) == scale(c, ints(row))
            &&& fits_i32(c * last)
        }
}

/// The descent over `row`, with its levels in the order of the ascent, and
/// the element that remains.
fn descend(row: &Vec<i32>) -> (r: (i32, Vec<StepState>))
    requires
        row@.len() > 0,
    ensures
        rebuilds(r.1@, r.0 as int, row@),
{
    let steps: Vec<StepState> = Vec::new();
    let (last_element, steps) = down(copy_values(row), steps);
    let rev = reverse_steps(steps);
    proof {
        assert(steps@.skip(0) =~= steps@);
        lemma_max_residual(row@);
        let j = choose|j: int|
            0 <= j < row@.len() && magnitude_residual(#[trigger] row@[j] as int) == max_residual(
                row@,
            );
        let m = max_residual(row@);
        assert(bounds_residuals(row@, m));
        assert forall|c: int| #[trigger] scales_fit(c, row@) implies {
            &&& ascent_ok(rev@, seq![c * last_element])
            &&& rebuild(rev@, seq![c * last_element]) == scale(c, ints(row@))
            &&& fits_i32(c * last_element)
        } by {
            assert(fits_i32(row@[j] * c));
            assert(row@[j] * c == c * row@[j]);
            lemma_magnitude_fits(c as i32, row@[j]);
            assert forall|p: int| 0 <= p < row@.len() implies fits_i32(
                #[trigger] (c * ints(row@)[p]),
            ) by {
                assert(fits_i32(row@[p] * c));
                assert(row@[p] * c == c * row@[p]);
            }
            lemma_reconstruct(ints(row@), steps@, last_element as int, m, c);
        }
    }
    (last_element, rev)
}

/// `c` times the vector whose descent `steps` and `last` record.
fn ascend(steps: &Vec<StepState>, last: i32, c: i32, row: Ghost<Seq<i32>>) -> (r: Vec<i32>)
    requires
        rebuilds(steps@, last as int, row@),
        scales_fit(c as int, row@),
    ensures
        r@.len() == row@.len(),
        forall|j: int| 0 <= j < row@.len() ==> #[trigger] r@[j] == c * row@[j],
{
    assert(scales_fit(c as int, row@));
    let mut seed: Vec<i32> = Vec::new();
    seed.push(c * last);
    assert(ints(seed@) =~= seq![c * last]);
    let r = up(steps.as_slice(), seed);
    assert(ints(r@).len() == r@.len());
    assert forall|j: int| 0 <= j < row@.len() implies #[trigger] r@[j] == c * row@[j] by {
        assert(ints(r@)[j] == scale(c as int, ints(row@))[j]);
    }
    r
}

/// `scalar` times each element of `values`, with one multiplication.
pub fn scalar_mult(scalar: i32, values: &Vec<i32>) -> (r: Vec<i32>)
    requires
        values@.len() > 0,
        forall|j: int| 0 <= j < values@.len() ==> fits_i32(#[trigger] (scalar * values@[j])),
    ensures
        r@.len() == values@.len(),
        forall|j: int| 0 <= j < values@.len() ==> #[trigger] r@[j] == scalar * values@[j],
{
    let (last, steps) = descend(values);
    assert(scales_fit(scalar as int, values@)) by {
        assert forall|j: int| 0 <= j < values@.len() implies fits_i32(
            #[trigger] values@[j] * scalar,
        ) by {
            assert(fits_i32(scalar * values@[j]));
        }
    }
    ascend(&steps, last, scalar, Ghost(values@))
}

/// The `col.len()` by `row.len()` matrix whose element `(i, j)` is
/// `col[i] * row[j]`. The row is reduced once; each column element then
/// costs one multiplication and one ascent.
pub fn outer_product(col: &Vec<i32>, row: &Vec<i32>) -> (r: Matrix<i32>)
    requires
        col@.len() > 0,
        row@.len() > 0,
        products_fit(col@, row@),
    ensures
        r.wf(),
        r.rows == col@.len(),
        r.cols == row@.len(),
        forall|i: int, j: int|
            0 <= i < col@.len() && 0 <= j < row@.len() ==> #[trigger] r.cell(i, j) == col@[i]
                * row@[j],
{
    let (last_element, steps) = descend(row);
    let mut rows: Vec<Vec<i32>> = Vec::new();
    let mut i: usize = 0;
    while i < col.len()
        invariant
            i <= col@.len(),
            rows@.len() == i,
            products_fit(col@, row@),
            rebuilds(steps@, last_element as int, row@),
            forall|ii: int| 0 <= ii < i ==> (#[trigger] rows@[ii])@.len() == row@.len(),
            forall|ii: int, j: int|
                0 <= ii < i && 0 <= j < row@.len() ==> #[trigger] rows@[ii]@[j] == col@[ii]
                    * row@[j],
        decreases col@.len() - i,
    {
        let c = col[i];
        assert(scales_fit(c as int, row@)) by {
            assert forall|j: int| 0 <= j < row@.len() implies fits_i32(#[trigger] row@[j] * c) by {
                assert(fits_i32(col@[i as int] * row@[j]));
            }
        }
        let line = ascend(&steps, last_element, c, Ghost(row@));
        rows.push(line);
        i = i + 1;
    }
    Matrix { elems: rows, rows: col.len(), cols: row.len() }
}

/// `a.cell(i, 0) * b.cell(0, j) + ... ` over the first `k` terms.
pub open spec fn dot(a: Matrix<i32>, b: Matrix<i32>, i: int, j: int, k: int) -> int
    decreases k,
{
    if k <= 0 {
        0
    } else {
        dot(a, b, i, j, k - 1) + a.cell(i, k - 1) * b.cell(k - 1, j)
    }
}

/// The product of an `m` by `k` matrix and a `k` by `n` matrix, as the sum
/// of the outer products of the columns of `a` with the rows of `b`.
pub fn matrix_mult(a: Matrix<i32>, b: Matrix<i32>) -> (r: Matrix<i32>)
    requires
        a.wf(),
        b.wf(),
        a.cols == b.rows,
        forall|i: int, j: int, t: int|
            0 <= i < a.rows && 0 <= j < b.cols && 0 <= t < a.cols ==> fits_i32(
                #[trigger] (a.cell(i, t) * b.cell(t, j)),
            ),
        forall|i: int, j: int, t: int|
            0 <= i < a.rows && 0 <= j < b.cols && 0 <= t <= a.cols ==> fits_i32(
                #[trigger] dot(a, b, i, j, t),
            ),
    ensures
        r.wf(),
        r.rows == a.rows,
        r.cols == b.cols,
        forall|i: int, j: int|
            0 <= i < a.rows && 0 <= j < b.cols ==> #[trigger] r.cell(i, j) == dot(
                a,
                b,
                i,
                j,
                a.cols as int,
            ),
{
    let a_t = a.transpose();
    let mut result = zeros(a.rows, b.cols);
    if a.rows == 0 || b.cols == 0 {
        // the product has no elements
        return result;
    }
    let mut k: usize = 0;
    while k < a.cols
        invariant
            a.wf(),
            b.wf(),
            a.cols == b.rows,
            a.rows > 0,
            a_t.wf(),
            a_t.rows == a.cols,
            a_t.cols == a.rows,
            forall|i: int, j: int|
                0 <= i < a.rows && 0 <= j < a.cols ==> #[trigger] a_t.cell(j, i) == a.cell(i, j),
            b.cols > 0,
            forall|i: int, j: int, t: int|
                0 <= i < a.rows && 0 <= j < b.cols && 0 <= t < a.cols ==> fits_i32(
                    #[trigger] (a.cell(i, t) * b.cell(t, j)),
                ),
            forall|i: int, j: int, t: int|
                0 <= i < a.rows && 0 <= j < b.cols && 0 <= t <= a.cols ==> fits_i32(
                    #[trigger] dot(a, b, i, j, t),
                ),
            k <= a.cols,
            result.wf(),
            result.rows == a.rows,
            result.cols == b.cols,
            forall|i: int, j: int|
                0 <= i < a.rows && 0 <= j < b.cols ==> #[trigger] result.cell(i, j) == dot(
                    a,
                    b,
                    i,
                    j,
                    k as int,
                ),
        decreases a.cols - k,
    {
        let col: &Vec<i32> = &a_t.elems[k];
        let row: &Vec<i32> = &b.elems[k];
        assert(products_fit(col@, row@)) by {
            assert forall|i: int, j: int| 0 <= i < col@.len() && 0 <= j < row@.len() implies fits_i32(
                #[trigger] col@[i] * #[trigger] row@[j],
            ) by {
                assert(col@[i] == a_t.cell(k as int, i));
                assert(a_t.cell(k as int, i) == a.cell(i, k as int));
                assert(row@[j] == b.cell(k as int, j));
                assert(fits_i32(a.cell(i, k as int) * b.cell(k as int, j)));
            }
        }
        let product = outer_product(col, row);
        let ghost before = result;
        assert forall|i: int, j: int|
            0 <= i < product.rows && 0 <= j < product.cols implies fits_i32(
            #[trigger] result.cell(i, j) + product.cell(i, j),
        ) by {
            assert(col@[i] == a_t.cell(k as int, i));
            assert(a_t.cell(k as int, i) == a.cell(i, k as int));
            assert(fits_i32(dot(a, b, i, j, k + 1)));
        }
        result.add_assign(product);
        assert forall|i: int, j: int| 0 <= i < a.rows && 0 <= j < b.cols implies #[trigger] result.cell(
            i,
            j,
        ) == dot(a, b, i, j, k + 1) by {
            assert(col@[i] == a_t.cell(k as int, i));
            assert(a_t.cell(k as int, i) == a.cell(i, k as int));
            assert(before.cell(i, j) == dot(a, b, i, j, k as int));
        }
        k = k + 1;
    }
    result
}

} // verus!
