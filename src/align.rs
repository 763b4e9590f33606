//! Factoring an integer into an odd (or zero) residual and a power of two.
use vstd::arithmetic::power2::{lemma_pow2_pos, lemma_pow2_unfold, lemma2_to64, pow2};
use vstd::prelude::*;

verus! {

pub open spec fn abs(x: int) -> int {
    if x < 0 { -x } else { x }
}

/// `e` with every factor two divided out; zero stays zero.
pub open spec fn odd_part(e: int) -> int
    decreases abs(e),
{
    if e == 0 || e % 2 != 0 {
        e
    } else {
        odd_part(e / 2)
    }
}

/// How many factors two divide `e`; zero by convention for zero.
pub open spec fn twos(e: int) -> nat
    decreases abs(e),
{
    if e == 0 || e % 2 != 0 {
        0
    } else {
        1 + twos(e / 2)
    }
}

/// The residual of the magnitude of `e`: odd and positive; one for zero.
pub open spec fn magnitude_residual(e: int) -> int {
    if e == 0 {
        1
    } else {
        abs(odd_part(e))
    }
}

pub open spec fn sign_of(e: int) -> int {
    if e > 0 {
        1
    } else if e < 0 {
        -1
    } else {
        0
    }
}

/// The sign times the magnitude residual is the residual; times two to the
/// shift it is the number.
pub proof fn lemma_signed_residual(e: int)
    ensures
        sign_of(e) * magnitude_residual(e) == odd_part(e),
        sign_of(e) * magnitude_residual(e) * pow2(twos(e)) == e,
        1 <= magnitude_residual(e),
        e > 0 ==> magnitude_residual(e) <= e,
{
    lemma_odd_part_times_pow2(e);
}

proof fn lemma_odd_factor_of_pow2(c: int, r: int, k: nat)
    requires
        r > 0,
        r % 2 != 0,
        c * r == pow2(k),
    ensures
        r == 1,
    decreases k,
{
    if k == 0 {
        lemma2_to64();
        assert(r <= c * r) by (nonlinear_arith)
            requires r > 0, c * r == 1;
    } else {
        lemma_pow2_unfold(k);
        let h = pow2((k - 1) as nat) as int;
        if c % 2 != 0 {
            let a = c / 2;
            let b = r / 2;
            assert(c * r == 2 * (2 * a * b + a + b) + 1) by (nonlinear_arith)
                requires c == 2 * a + 1, r == 2 * b + 1;
        }
        let d = c / 2;
        assert(c == 2 * d);
        assert(c * r == 2 * (d * r)) by (nonlinear_arith)
            requires c == 2 * d;
        lemma_odd_factor_of_pow2(d, r, (k - 1) as nat);
    }
}

/// Scaling the magnitude residual of `e` stays in range when scaling `e`
/// does.
pub proof fn lemma_magnitude_fits(c: i32, e: i32)
    requires
        fits_i32(c * e),
    ensures
        fits_i32(c * magnitude_residual(e as int)),
{
    let ei = e as int;
    let ci = c as int;
    if e != 0 {
        lemma_odd_part_times_pow2(ei);
        let o = odd_part(ei);
        let q = pow2(twos(ei)) as int;
        lemma_pow2_pos(twos(ei));
        assert(ci * ei == (ci * o) * q) by (nonlinear_arith)
            requires o * q == ei;
        if o > 0 {
            assert(magnitude_residual(ei) == o);
            if ci >= 0 {
                assert(0 <= ci * o <= ci * ei) by (nonlinear_arith)
                    requires 0 < o, o <= ei, ci >= 0;
            } else {
                assert(ci * ei <= ci * o <= 0) by (nonlinear_arith)
                    requires 0 < o, o <= ei, ci < 0;
            }
        } else {
            assert(magnitude_residual(ei) == -o);
            assert(ci * (-o) == -(ci * o)) by (nonlinear_arith);
            if ci >= 0 {
                assert(ci * ei <= ci * o <= 0) by (nonlinear_arith)
                    requires ei <= o, o < 0, ci >= 0;
            } else {
                assert(0 <= ci * o <= ci * ei) by (nonlinear_arith)
                    requires ei <= o, o < 0, ci < 0;
            }
            if ci * o < -0x7fff_ffff {
                if q >= 2 {
                    assert((ci * o) * q <= (ci * o) * 2) by (nonlinear_arith)
                        requires ci * o < 0, q >= 2;
                }
                assert(q == 1);
                lemma2_to64();
                assert(ci * o == -0x8000_0000);
                assert(ci * (-o) == pow2(31)) by (nonlinear_arith)
                    requires ci * o == -0x8000_0000, pow2(31) == 0x8000_0000;
                lemma_odd_factor_of_pow2(ci, -o, 31);
                assert(ci * 1 == ci);
            }
            assert(-0x7fff_ffff <= ci * o);
            assert(fits_i32(ci * (-o)));
        }
    } else {
        assert(magnitude_residual(ei) == 1);
        assert(ci * 1 == ci);
    }
}

/// `x` lies between zero and `m`, both included, on the side of `m`.
pub open spec fn within(x: int, m: int) -> bool {
    (0 <= x <= m) || (m <= x <= 0)
}

pub open spec fn fits_i32(x: int) -> bool {
    i32::MIN <= x <= i32::MAX
}

/// The residual times two to the shift gives back the number.
pub proof fn lemma_odd_part_times_pow2(e: int)
    ensures
        odd_part(e) * pow2(twos(e)) == e,
        e == 0 ==> odd_part(e) == 0 && twos(e) == 0,
        e != 0 ==> odd_part(e) % 2 != 0,
        within(odd_part(e), e),
    decreases abs(e),
{
    if e == 0 || e % 2 != 0 {
        lemma2_to64();
        assert(odd_part(e) == e && twos(e) == 0);
        assert(pow2(0) == 1);
    } else {
        lemma_odd_part_times_pow2(e / 2);
        lemma_pow2_unfold(twos(e));
        let o = odd_part(e / 2);
        let p = pow2(twos(e / 2)) as int;
        assert(odd_part(e) == o);
        assert(twos(e) == 1 + twos(e / 2));
        assert(pow2(twos(e)) == 2 * p);
        assert(e == 2 * (e / 2));
        assert(o * (2 * p) == 2 * (o * p)) by (nonlinear_arith);
        assert(odd_part(e) * pow2(twos(e)) == e);
    }
}

/// A non-zero 32-bit integer has at most 31 factors two.
pub proof fn lemma_twos_bound(e: i32)
    ensures
        twos(e as int) < 32,
        fits_i32(odd_part(e as int)),
        1 <= magnitude_residual(e as int) <= 0x7fff_ffff,
{
    lemma_odd_part_times_pow2(e as int);
    if e != 0 && twos(e as int) >= 32 {
        let t = twos(e as int);
        lemma_pow2_ge_32(t);
        let o = odd_part(e as int);
        let p = pow2(t) as int;
        lemma2_to64();
        assert(o != 0);
        assert(abs(o * p) >= p) by (nonlinear_arith)
            requires o != 0, p > 0;
    }
}

proof fn lemma_pow2_ge_32(t: nat)
    requires
        t >= 32,
    ensures
        pow2(t) >= 0x1_0000_0000,
    decreases t,
{
    if t == 32 {
        lemma2_to64();
    } else {
        lemma_pow2_ge_32((t - 1) as nat);
        lemma_pow2_unfold(t);
    }
}

proof fn lemma_shl_one(y: i32)
    requires
        fits_i32(2 * y),
    ensures
        (y << 1u32) as int == 2 * y,
{
    assert(-0x4000_0000 <= y < 0x4000_0000 ==> (y << 1u32) == 2 * y) by (bit_vector);
}

/// Shifting left by `s` multiplies by two to the `s` when the product fits.
pub proof fn lemma_shl_is_mul(x: i32, s: u32)
    requires
        s < 32,
        fits_i32(x * pow2(s as nat)),
    ensures
        (x << s) as int == x * pow2(s as nat),
    decreases s,
{
    if s == 0 {
        lemma2_to64();
        assert(s == 0 ==> x << s == x) by (bit_vector);
    } else {
        let t = (s - 1) as u32;
        lemma_pow2_unfold(s as nat);
        let p = pow2(t as nat) as int;
        assert(x * (2 * p) == 2 * (x * p)) by (nonlinear_arith);
        lemma_shl_is_mul(x, t);
        let y = x << t;
        lemma_shl_one(y);
        assert(t < 31 && s == t + 1 ==> x << s == (x << t) << 1u32) by (bit_vector);
    }
}

/// Factors `elem` into its odd residual and the number of factors two
/// that were divided out; zero gives `(0, 0)`.
pub fn align(elem: i32) -> (r: (i32, u32))
    ensures
        r.0 as int == odd_part(elem as int),
        r.1 as nat == twos(elem as int),
        r.0 as int * pow2(r.1 as nat) == elem,
        r.0 << r.1 == elem,
        elem == 0 ==> r == (0i32, 0u32),
        elem != 0 ==> r.0 % 2 != 0,
{
    proof {
        lemma_twos_bound(elem);
        lemma_odd_part_times_pow2(elem as int);
    }
    if elem == 0 {
        assert(0i32 << 0u32 == 0i32) by (bit_vector);
        return (elem, 0);
    }
    let mut res: i32 = elem;
    let mut shifts: u32 = 0;
    while res % 2 == 0
        invariant
            res != 0,
            odd_part(res as int) == odd_part(elem as int),
            twos(res as int) + shifts == twos(elem as int),
            twos(elem as int) < 32,
        decreases abs(res as int),
    {
        res = res / 2;
        shifts = shifts + 1;
    }
    proof {
        lemma_shl_is_mul(res, shifts);
    }
    (res, shifts)
}

} // verus!
