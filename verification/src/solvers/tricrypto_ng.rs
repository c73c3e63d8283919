//! The three-coin CryptoSwap solver.
pub use crate::coins::sort3_desc;
pub use crate::fees::{crypto_fee, try_crypto_fee};
pub use crate::newton::{A_MULTIPLIER, FEE_DENOMINATOR, WAD};
pub use crate::roots::{cbrt, isqrt, snekmate_log_2};
use crate::bounds::{
    ample_3, d_within_3, lemma_k0_3, lemma_quotient, lemma_run_within_3, lemma_within_3, terms_of,
};
use crate::coins::{get3, set3, sorted2, sorted3, triple};
use crate::cubic::{
    cubic_outcome, signed_cbrt, signed_cbrt_model, signed_option, signed_outcome, solution, ten,
    ten_to, Cubic,
};
use crate::fault::Fault;
use crate::fees::lemma_means_3;
use crate::growth::{converged_at, lemma_growth, lemma_k0_ratio, lemma_part_larger};
use crate::newton::{
    k0_3_at, lemma_newton_d_3_run, newton_d_3_loop, newton_d_3_run, newton_d_step, newton_y_loop, newton_y_run, outcome,
    settled_d_3, Step, MAX_ITERATIONS,
};
use crate::roots::{cbrt_model, cbrt_scaled, cube, e36, isqrt_floor, law_cbrt_accuracy, lemma_cube_increases};
use crate::signed::{fits, half, lemma_signed_range, magnitude, SignedWord, I256};
use crate::swap::{lemma_falls, lemma_settles, well_scaled};
use crate::uint::{
    larger, law_word_of, lemma_minus, lemma_over, lemma_plus, lemma_times, lemma_word_range, modulus, Word, U256,
};
use vstd::prelude::*;

verus! {

/// The two largest balances among the coins other than `j`, the larger one first. Where `j` is no
/// coin of the pool, no coin is left out.
pub open spec fn top_others(x: (int, int, int), j: int) -> (int, int) {
    if j == 0 {
        sorted2((x.1, x.2))
    } else if j == 1 {
        sorted2((x.0, x.2))
    } else if j == 2 {
        sorted2((x.0, x.1))
    } else {
        (sorted3(x).0, sorted3(x).1)
    }
}

/// What the iteration toward the balance of coin `j` starts from: `D/3` times `D/(3*x)` for each
/// other coin, from the smallest balance up.
pub open spec fn newton_y_3_guess(x: (int, int, int), d: int, j: int) -> Result<int, Fault> {
    let (x_0, x_1) = top_others(x, j);
    let x_2 = sorted3(x).2;
    let share = d.over(3);
    let low = if j < 3 {
        share
    } else {
        share.times(d).over(x_2.times(3))
    };
    if (j >= 3 && x_2.times(3) == 0) || x_1.times(3) == 0 || x_0.times(3) == 0 {
        Err(Fault)
    } else {
        Ok(low.times(d).over(x_1.times(3)).times(d).over(x_0.times(3)))
    }
}

/// The balance of coin `j` that Newton's method finds from the balances of the other coins, given
/// the invariant `d`.
pub open spec fn newton_y_3_model(ann: int, gamma: int, x: (int, int, int), d: int, j: int) -> Result<
    Option<int>,
    Fault,
> {
    let (x_0, x_1) = top_others(x, j);
    let k0_i = (WAD as int).times(3).times(x_0).over(d).times(3).times(x_1).over(d);
    let limit = larger(
        larger(x_0.over(100_000_000_000_000), d.over(100_000_000_000_000)),
        100,
    );
    match newton_y_3_guess(x, d, j) {
        Err(e) => Err(e),
        Ok(first) => if d == 0 {
            Err(Fault)
        } else {
            match newton_y_run(
                3,
                ann,
                gamma,
                x_0.plus(x_1),
                k0_i,
                d,
                limit,
                first,
                MAX_ITERATIONS as nat,
            ) {
                Err(e) => Err(e),
                Ok(None) => Ok(None),
                Ok(Some(y)) => {
                    let frac = y.times(WAD as int).over(d);
                    if frac < 10_000_000_000_000_000 || frac > 100_000_000_000_000_000_000 {
                        Ok(None)
                    } else {
                        Ok(Some(y))
                    }
                },
            }
        },
    }
}

/// The value of [`top_others`].
pub fn top_two(x: [U256; 3], j: usize) -> (r: (U256, U256))
    ensures
        (r.0@, r.1@) == top_others(triple(x), j as int),
{
    if j >= 3 {
        let s = sort3_desc(x);
        assert(triple(s).0 == s[0]@ && triple(s).1 == s[1]@);
        return (s[0], s[1]);
    }
    let (a, b) = if j == 0 {
        (x[1], x[2])
    } else if j == 1 {
        (x[0], x[2])
    } else {
        (x[0], x[1])
    };
    if a < b {
        (b, a)
    } else {
        (a, b)
    }
}

/// The balance of coin `j` by Newton's method, or a fault where [`newton_y_3`] is not defined.
pub fn try_newton_y_3(ann: U256, gamma: U256, x: [U256; 3], d: U256, j: usize) -> (r: Result<
    Option<U256>,
    Fault,
>)
    ensures
        outcome(r) == newton_y_3_model(ann@, gamma@, triple(x), d@, j as int),
{
    let n = U256::from(3u64);
    let (x_0, x_1) = top_two(x, j);
    let mut y: U256 = d / n;
    if j >= 3 {
        let s = sort3_desc(x);
        assert(triple(s).2 == s[2]@);
        y = (y * d).div_by(s[2] * n)?;
    }
    y = (y * d).div_by(x_1 * n)?;
    y = (y * d).div_by(x_0 * n)?;
    if d.is_zero() {
        return Err(Fault);
    }
    let k0_i = U256::from(WAD) * n * x_0 / d * n * x_1 / d;
    let limit = (x_0 / U256::from(100_000_000_000_000u64)).max(
        d / U256::from(100_000_000_000_000u64),
    ).max(U256::from(100u64));
    match newton_y_loop(n, ann, gamma, x_0 + x_1, k0_i, d, limit, y)? {
        None => Ok(None),
        Some(y) => {
            let frac = y * U256::from(WAD) / d;
            if frac < U256::from(10_000_000_000_000_000u64) || frac > U256::from(
                100_000_000_000_000_000_000u128,
            ) {
                Ok(None)
            } else {
                Ok(Some(y))
            }
        },
    }
}

/// The balance of coin `j` by Newton's method: `None` where the iteration does not converge or where
/// it ends too far from an even share.
pub fn newton_y_3(ann: U256, gamma: U256, x: [U256; 3], d: U256, j: usize) -> (r: Option<U256>)
    requires
        newton_y_3_model(ann@, gamma@, triple(x), d@, j as int) is Ok,
    ensures
        outcome(Ok(r)) == newton_y_3_model(ann@, gamma@, triple(x), d@, j as int),
{
    match try_newton_y_3(ann, gamma, x, d, j) {
        Ok(r) => r,
        Err(_) => None,
    }
}

/// The geometric mean of three numbers in units of 10^18.
pub open spec fn geometric_mean_3_model(x: (int, int, int)) -> int {
    cbrt_model(x.0.times(x.1).over(WAD as int).times(x.2).over(WAD as int))
}

/// The geometric mean of three numbers in units of 10^18.
pub fn geometric_mean_3(x: [U256; 3]) -> (r: U256)
    ensures
        r@ == geometric_mean_3_model(triple(x)),
{
    cbrt(x[0] * x[1] / U256::from(WAD) * x[2] / U256::from(WAD))
}

/// What the iteration toward `D` starts from, for sorted balances with the sum `s`.
pub open spec fn newton_d_3_guess(x: (int, int, int), s: int, k0_prev: int) -> int {
    if k0_prev == 0 {
        3int.times(geometric_mean_3_model(x))
    } else if s > 1_000_000_000_000_000_000_000_000_000_000_000_000 {
        cbrt_model(
            x.0.times(x.1).over(1_000_000_000_000_000_000_000_000_000_000_000_000).times(x.2).over(
                k0_prev,
            ).times(27).times(1_000_000_000_000),
        )
    } else if s > 1_000_000_000_000_000_000_000_000 {
        cbrt_model(
            x.0.times(x.1).over(1_000_000_000_000_000_000_000_000).times(x.2).over(k0_prev).times(
                27,
            ).times(1_000_000),
        )
    } else {
        cbrt_model(x.0.times(x.1).over(WAD as int).times(x.2).over(k0_prev).times(27))
    }
}

/// The value of [`newton_d_3_guess`].
pub fn first_d_3(x: [U256; 3], s: U256, k0_prev: U256) -> (r: U256)
    ensures
        r@ == newton_d_3_guess(triple(x), s@, k0_prev@),
{
    let e24 = U256::from(1_000_000_000_000_000_000_000_000u128);
    let e36 = U256::from(1_000_000_000_000_000_000_000_000_000_000_000_000u128);
    if k0_prev.is_zero() {
        U256::from(3u64) * geometric_mean_3(x)
    } else if s > e36 {
        cbrt(
            x[0] * x[1] / e36 * x[2] / k0_prev * U256::from(27u64) * U256::from(
                1_000_000_000_000u64,
            ),
        )
    } else if s > e24 {
        cbrt(x[0] * x[1] / e24 * x[2] / k0_prev * U256::from(27u64) * U256::from(1_000_000u64))
    } else {
        cbrt(x[0] * x[1] / U256::from(WAD) * x[2] / k0_prev * U256::from(27u64))
    }
}

/// Whether the share of a balance `v` in `d` is within the bounds of the invariant.
pub open spec fn share_3(v: int, d: int) -> bool {
    9_999_999_999_999_999 <= v.times(WAD as int).over(d) < 100_000_000_000_000_000_001
}

/// The invariant `D` of the balances `x`.
pub open spec fn newton_d_3_model(ann: int, gamma: int, x: (int, int, int), k0_prev: int) -> Result<
    Option<int>,
    Fault,
> {
    let y = sorted3(x);
    let s = y.0.plus(y.1).plus(y.2);
    if y.0 == 0 {
        Ok(None)
    } else {
        match newton_d_3_run(
            ann,
            gamma,
            y,
            s,
            newton_d_3_guess(y, s, k0_prev),
            MAX_ITERATIONS as nat,
        ) {
            Err(e) => Err(e),
            Ok(None) => Ok(None),
            Ok(Some(d)) => if d == 0 {
                Err(Fault)
            } else if share_3(y.0, d) && share_3(y.1, d) && share_3(y.2, d) {
                Ok(Some(d))
            } else {
                Ok(None)
            },
        }
    }
}

/// Whether the share of a balance is within the bounds: see [`share_3`].
pub fn share_within_3(v: U256, d: U256) -> (r: Result<bool, Fault>)
    ensures
        r is Err <==> d@ == 0,
        r matches Ok(b) ==> b == share_3(v@, d@),
{
    let frac = (v * U256::from(WAD)).div_by(d)?;
    Ok(
        !(frac < U256::from(9_999_999_999_999_999u64)) && frac < U256::from(
            100_000_000_000_000_000_001u128,
        ),
    )
}

/// The invariant `D`, or a fault where [`newton_d`] is not defined.
pub fn try_newton_d(ann: U256, gamma: U256, x_unsorted: [U256; 3], k0_prev: U256) -> (r: Result<
    Option<U256>,
    Fault,
>)
    ensures
        outcome(r) == newton_d_3_model(ann@, gamma@, triple(x_unsorted), k0_prev@),
{
    let x = sort3_desc(x_unsorted);
    if x[0].is_zero() {
        return Ok(None);
    }
    let s = x[0] + x[1] + x[2];
    let first = first_d_3(x, s, k0_prev);
    match newton_d_3_loop(ann, gamma, x, s, first)? {
        None => Ok(None),
        Some(d) => {
            if share_within_3(x[0], d)? && share_within_3(x[1], d)? && share_within_3(x[2], d)? {
                Ok(Some(d))
            } else {
                Ok(None)
            }
        },
    }
}

/// The invariant `D` of the balances by Newton's method, in units of 10^18: `ann` is the
/// amplification coefficient times `N^N`, scaled by [`A_MULTIPLIER`], and `k0_prev` is a hint for the
/// first guess, or zero. `None` where there are no balances, where the iteration does not converge or
/// where the balances are too uneven.
pub fn newton_d(ann: U256, gamma: U256, x_unsorted: [U256; 3], k0_prev: U256) -> (r: Option<U256>)
    requires
        newton_d_3_model(ann@, gamma@, triple(x_unsorted), k0_prev@) is Ok,
    ensures
        outcome(Ok(r)) == newton_d_3_model(ann@, gamma@, triple(x_unsorted), k0_prev@),
        r matches Some(d) ==> d@ != 0 && share_3(x_unsorted[0]@, d@) && share_3(
            x_unsorted[1]@,
            d@,
        ) && share_3(x_unsorted[2]@, d@),
{
    match try_newton_d(ann, gamma, x_unsorted, k0_prev) {
        Ok(r) => r,
        Err(_) => None,
    }
}

/// An invariant that is found is what a step of the iteration makes of a number that differs from it by
/// less than the tolerance.
pub proof fn law_newton_d_converged(ann: U256, gamma: U256, x: [U256; 3], k0_prev: U256)
    ensures
        newton_d_3_model(ann@, gamma@, triple(x), k0_prev@) matches Ok(Some(d)) ==> settled_d_3(
            ann@,
            gamma@,
            sorted3(triple(x)),
            d,
        ),
{
    let y = sorted3(triple(x));
    let first = newton_d_3_guess(y, y.0.plus(y.1).plus(y.2), k0_prev@);
    lemma_newton_d_3_run(ann@, gamma@, y, first, MAX_ITERATIONS as nat);
}

/// The invariant does not depend on the order of the coins.
pub proof fn law_newton_d_symmetric(ann: U256, gamma: U256, x: [U256; 3], k0_prev: U256)
    ensures
        ({
            let d = newton_d_3_model(ann@, gamma@, (x[0]@, x[1]@, x[2]@), k0_prev@);
            &&& d == newton_d_3_model(ann@, gamma@, (x[0]@, x[2]@, x[1]@), k0_prev@)
            &&& d == newton_d_3_model(ann@, gamma@, (x[1]@, x[0]@, x[2]@), k0_prev@)
            &&& d == newton_d_3_model(ann@, gamma@, (x[1]@, x[2]@, x[0]@), k0_prev@)
            &&& d == newton_d_3_model(ann@, gamma@, (x[2]@, x[0]@, x[1]@), k0_prev@)
            &&& d == newton_d_3_model(ann@, gamma@, (x[2]@, x[1]@, x[0]@), k0_prev@)
        }),
{
}

/// The coefficients of the cubic whose root gives the balance that is asked for, scaled by 10^36,
/// from the other two balances.
pub open spec fn cubic_3(ann: int, gamma: int, d: int, x_j: int, x_k: int) -> Result<
    Cubic<int>,
    Fault,
> {
    let w = WAD as int;
    let unit = 1_000_000_000_000_000_000_000_000_000_000_000_000int;
    let gamma2 = gamma.wtimes(gamma);
    let b1 = unit.trunc(9) + 2int.wtimes(w).wtimes(gamma).trunc(27);
    let b2 = d.wtimes(d).trunc(x_j) * gamma2;
    let b3 = b2 * ann;
    let b = b1 - b3.trunc(729).trunc(A_MULTIPLIER as int).trunc(x_k);
    let c1 = gamma + 4int.wtimes(w);
    let c2 = unit.trunc(9) + gamma.wtimes(c1).trunc(27);
    let c3 = x_j + x_k;
    let c4 = gamma2 * (c3 - d);
    let c5 = c4.trunc(d) * ann;
    let c = c2 + c5.trunc(27).trunc(A_MULTIPLIER as int);
    let edge = w + gamma;
    if x_j == 0 || x_k == 0 || d == 0 || !fits(b1) || !fits(b2) || !fits(b3) || !fits(b) || !fits(c1)
        || !fits(c2) || !fits(c3) || !fits(c3 - d) || !fits(c4) || !fits(c5) || !fits(c) || !fits(
        edge,
    ) {
        Err(Fault)
    } else {
        Ok(Cubic { a: unit.trunc(27), b, c, d: edge.wtimes(edge).trunc(27) })
    }
}

/// The value of [`cubic_3`].
pub fn coefficients_3(ann: I256, gamma: I256, d: I256, x_j: I256, x_k: I256) -> (r: Result<
    Cubic<I256>,
    Fault,
>)
    requires
        0 <= d@,
        0 <= x_j@,
        0 <= x_k@,
    ensures
        cubic_outcome(r) == cubic_3(ann@, gamma@, d@, x_j@, x_k@),
{
    let w = I256::from_u128(WAD as u128);
    let unit = I256::from_u128(1_000_000_000_000_000_000_000_000_000_000_000_000);
    let a_multiplier = I256::from_u128(A_MULTIPLIER as u128);
    let n9 = I256::from_u128(9);
    let n27 = I256::from_u128(27);
    let gamma2 = gamma.wrapping_mul(gamma);
    let a = unit.try_div(n27)?;
    let b = unit.try_div(n9)?.try_add(
        I256::from_u128(2).wrapping_mul(w).wrapping_mul(gamma).try_div(n27)?,
    )?.try_sub(
        d.wrapping_mul(d).try_div(x_j)?.try_mul(gamma2)?.try_mul(ann)?.try_div(
            I256::from_u128(729),
        )?.try_div(a_multiplier)?.try_div(x_k)?,
    )?;
    let c = unit.try_div(n9)?.try_add(
        gamma.wrapping_mul(gamma.try_add(I256::from_u128(4).wrapping_mul(w))?).try_div(n27)?,
    )?.try_add(
        gamma2.try_mul(x_j.try_add(x_k)?.try_sub(d)?)?.try_div(d)?.try_mul(ann)?.try_div(
            n27,
        )?.try_div(a_multiplier)?,
    )?;
    let edge = w.try_add(gamma)?;
    Ok(Cubic { a, b, c, d: edge.wrapping_mul(edge).try_div(n27)? })
}

/// What the coefficients are divided by, for a cubic of size `t`, so that the products stay small.
pub open spec fn ladder_3(t: int) -> int {
    if t > ten(48) {
        ten(30)
    } else if t > ten(44) {
        ten(26)
    } else if t > ten(40) {
        ten(22)
    } else if t > ten(36) {
        ten(18)
    } else if t > ten(32) {
        ten(14)
    } else if t > ten(28) {
        ten(10)
    } else if t > ten(24) {
        ten(6)
    } else if t > ten(20) {
        ten(2)
    } else {
        1
    }
}

/// The value of [`ladder_3`].
pub fn scale_3(t: I256) -> (r: I256)
    ensures
        r@ == ladder_3(t@),
        r@ > 0,
{
    if t > ten_to(48) {
        ten_to(30)
    } else if t > ten_to(44) {
        ten_to(26)
    } else if t > ten_to(40) {
        ten_to(22)
    } else if t > ten_to(36) {
        ten_to(18)
    } else if t > ten_to(32) {
        ten_to(14)
    } else if t > ten_to(28) {
        ten_to(10)
    } else if t > ten_to(24) {
        ten_to(6)
    } else if t > ten_to(20) {
        ten_to(2)
    } else {
        I256::from_u128(1)
    }
}

/// What the coefficients of a cubic are divided by: [`ladder_3`] of `|delta0|`.
pub open spec fn divider_3(q: Cubic<int>) -> Result<int, Fault> {
    let ac = 3int.wtimes(q.a).wtimes(q.c);
    let delta0 = ac.trunc(q.b) - q.b;
    if q.b == 0 || !fits(ac.trunc(q.b)) || !fits(delta0) || !fits(magnitude(delta0)) {
        Err(Fault)
    } else {
        Ok(ladder_3(magnitude(delta0)))
    }
}

/// The value of [`divider_3`].
pub fn divider_of_3(q: &Cubic<I256>) -> (r: Result<I256, Fault>)
    ensures
        signed_outcome(r) == divider_3(q@),
        r matches Ok(v) ==> v@ > 0,
{
    let ac = I256::from_u128(3).wrapping_mul(q.a).wrapping_mul(q.c);
    let delta0 = ac.try_div(q.b)?.try_sub(q.b)?;
    Ok(scale_3(delta0.try_abs()?))
}

/// The coefficients brought to a size: multiplied by the quotient of `a` and `b` where `a` is the
/// larger one, divided by the quotient of `b` and `a` otherwise, then divided by `divider`.
pub open spec fn reduced_3(q: Cubic<int>, divider: int) -> Result<Cubic<int>, Fault> {
    let up = magnitude(q.a.trunc(q.b));
    let down = magnitude(q.b.trunc(q.a));
    if !fits(magnitude(q.a)) || !fits(magnitude(q.b)) {
        Err(Fault)
    } else if magnitude(q.a) > magnitude(q.b) {
        if q.b == 0 || !fits(q.a.trunc(q.b)) || !fits(up) || !fits(q.b * up) || !fits(q.c * up)
            || !fits(q.d * up) {
            Err(Fault)
        } else {
            Ok(
                Cubic {
                    a: q.a.wtimes(up).trunc(divider),
                    b: (q.b * up).trunc(divider),
                    c: (q.c * up).trunc(divider),
                    d: (q.d * up).trunc(divider),
                },
            )
        }
    } else if q.a == 0 || !fits(q.b.trunc(q.a)) || !fits(down) || down == 0 {
        Err(Fault)
    } else {
        Ok(
            Cubic {
                a: q.a.trunc(down).trunc(divider),
                b: q.b.trunc(down).trunc(divider),
                c: q.c.trunc(down).trunc(divider),
                d: q.d.trunc(down).trunc(divider),
            },
        )
    }
}

/// The value of [`reduced_3`].
pub fn reduce_3(q: &Cubic<I256>, divider: I256) -> (r: Result<Cubic<I256>, Fault>)
    requires
        divider@ > 0,
    ensures
        cubic_outcome(r) == reduced_3(q@, divider@),
{
    if q.a.try_abs()? > q.b.try_abs()? {
        let up = q.a.try_div(q.b)?.try_abs()?;
        Ok(
            Cubic {
                a: q.a.wrapping_mul(up).try_div(divider)?,
                b: q.b.try_mul(up)?.try_div(divider)?,
                c: q.c.try_mul(up)?.try_div(divider)?,
                d: q.d.try_mul(up)?.try_div(divider)?,
            },
        )
    } else {
        let down = q.b.try_div(q.a)?.try_abs()?;
        Ok(
            Cubic {
                a: q.a.try_div(down)?.try_div(divider)?,
                b: q.b.try_div(down)?.try_div(divider)?,
                c: q.c.try_div(down)?.try_div(divider)?,
                d: q.d.try_div(down)?.try_div(divider)?,
            },
        )
    }
}

/// `delta0`, `delta1` and the number whose square root the solution takes.
pub open spec fn discriminant_3(q: Cubic<int>) -> Result<(int, int, int), Fault> {
    let ac = 3int.wtimes(q.a).wtimes(q.c);
    let delta0 = ac.trunc(q.b) - q.b;
    let ac3 = 3int.wtimes(ac);
    let first = ac3.trunc(q.b) - 2int.wtimes(q.b);
    let aa = 27int.wtimes(q.a.wtimes(q.a));
    let aad = aa.trunc(q.b) * q.d;
    let delta1 = first - aad.trunc(q.b);
    let dd = 4int.wtimes(delta0.wtimes(delta0));
    let ddd = dd.trunc(q.b) * delta0;
    let square = delta1.wtimes(delta1) + ddd;
    if q.b == 0 || !fits(ac.trunc(q.b)) || !fits(delta0) || !fits(ac3.trunc(q.b)) || !fits(first)
        || !fits(aa.trunc(q.b)) || !fits(aad) || !fits(aad.trunc(q.b)) || !fits(delta1) || !fits(
        dd.trunc(q.b),
    ) || !fits(ddd) || !fits(square) {
        Err(Fault)
    } else {
        Ok((delta0, delta1, square))
    }
}

/// The value of [`discriminant_3`].
pub fn discriminant_of_3(q: &Cubic<I256>) -> (r: Result<(I256, I256, I256), Fault>)
    ensures
        discriminant_3(q@) == match r {
            Ok((x, y, z)) => Ok::<(int, int, int), Fault>((x@, y@, z@)),
            Err(e) => Err(e),
        },
{
    let ac = I256::from_u128(3).wrapping_mul(q.a).wrapping_mul(q.c);
    let delta0 = ac.try_div(q.b)?.try_sub(q.b)?;
    let delta1 = I256::from_u128(3).wrapping_mul(ac).try_div(q.b)?.try_sub(
        I256::from_u128(2).wrapping_mul(q.b),
    )?.try_sub(
        I256::from_u128(27).wrapping_mul(q.a.wrapping_mul(q.a)).try_div(q.b)?.try_mul(
            q.d,
        )?.try_div(q.b)?,
    )?;
    let square = delta1.wrapping_mul(delta1).try_add(
        I256::from_u128(4).wrapping_mul(delta0.wrapping_mul(delta0)).try_div(q.b)?.try_mul(
            delta0,
        )?,
    )?;
    Ok((delta0, delta1, square))
}

/// The cube root of half of `|delta1| + root`, with the sign of `delta1`.
pub open spec fn second_cbrt_3(delta1: int, root: int) -> Result<Option<int>, Fault> {
    let twice = if delta1 > 0 {
        delta1 + root
    } else {
        -(delta1 - root)
    };
    let m = cbrt_model(twice.over(2));
    if !fits(twice) || (delta1 <= 0 && !fits(delta1 - root)) {
        Err(Fault)
    } else if twice < 0 || m >= half() {
        Ok(None)
    } else if delta1 > 0 {
        Ok(Some(m))
    } else {
        Ok(Some(-m))
    }
}

/// The value of [`second_cbrt_3`].
pub fn second_cbrt_of_3(delta1: I256, root: I256) -> (r: Result<Option<I256>, Fault>)
    ensures
        signed_option(r) == second_cbrt_3(delta1@, root@),
{
    broadcast use lemma_word_range;

    let positive = delta1 > I256::zero();
    let twice = if positive {
        delta1.try_add(root)?
    } else {
        delta1.try_sub(root)?.try_neg()?
    };
    match twice.to_unsigned() {
        Some(v) => match I256::from_unsigned(cbrt(v / U256::from(2u64))) {
            Some(m) => if positive {
                Ok(Some(m))
            } else {
                Ok(Some(m.try_neg()?))
            },
            None => Ok(None),
        },
        None => Ok(None),
    }
}

/// The product of the two cube roots of the solution.
pub open spec fn c1_3(b: int, delta1: int, root: int) -> Result<Option<int>, Fault> {
    let w = WAD as int;
    match signed_cbrt_model(b) {
        Err(e) => Err(e),
        Ok(None) => Ok(None),
        Ok(Some(first)) => match second_cbrt_3(delta1, root) {
            Err(e) => Err(e),
            Ok(None) => Ok(None),
            Ok(Some(second)) => Ok(Some(first.wtimes(first).wover(w).wtimes(second).wover(w))),
        },
    }
}

/// The value of [`c1_3`].
pub fn c1_of_3(b: I256, delta1: I256, root: I256) -> (r: Result<Option<I256>, Fault>)
    ensures
        signed_option(r) == c1_3(b@, delta1@, root@),
{
    let w = I256::from_u128(WAD as u128);
    match signed_cbrt(b)? {
        None => Ok(None),
        Some(first) => match second_cbrt_of_3(delta1, root)? {
            None => Ok(None),
            Some(second) => Ok(
                Some(
                    first.wrapping_mul(first).wrapping_div(w)?.wrapping_mul(second).wrapping_div(
                        w,
                    )?,
                ),
            ),
        },
    }
}

/// The root of the cubic, up to the factor that [`settled_3`] applies.
pub open spec fn root_3(q: Cubic<int>, delta0: int, c1: int) -> Result<int, Fault> {
    let product = q.b * delta0;
    let first = q.b + product.trunc(c1);
    let second = first - c1;
    if c1 == 0 || !fits(product) || !fits(product.trunc(c1)) || !fits(first) || !fits(second) {
        Err(Fault)
    } else {
        Ok(second.trunc(3))
    }
}

/// The value of [`root_3`].
pub fn root_of_3(q: &Cubic<I256>, delta0: I256, c1: I256) -> (r: Result<I256, Fault>)
    ensures
        signed_outcome(r) == root_3(q@, delta0@, c1@),
{
    q.b.try_add(q.b.try_mul(delta0)?.try_div(c1)?)?.try_sub(c1)?.try_div(I256::from_u128(3))
}

/// The balance that belongs to the root of the cubic, and the hint that comes with it; nothing where
/// either is negative or where the balance is too far from an even share.
pub open spec fn settled_3(d: int, x_j: int, x_k: int, root: int, a: int) -> Result<
    Option<(int, int)>,
    Fault,
> {
    let w = WAD as int;
    let first = d.wtimes(d).trunc(27).trunc(x_k) * d;
    let second = first.trunc(x_j) * root;
    let y = second.trunc(a);
    let k = w.wtimes(root).trunc(a);
    let frac = y.times(w).over(d);
    if x_j == 0 || x_k == 0 || a == 0 || !fits(first) || !fits(second) || !fits(y) {
        Err(Fault)
    } else if y < 0 {
        Ok(None)
    } else if !fits(k) {
        Err(Fault)
    } else if k < 0 {
        Ok(None)
    } else if d == 0 {
        Err(Fault)
    } else if frac < 9_999_999_999_999_999 || frac >= 100_000_000_000_000_000_001 {
        Ok(None)
    } else {
        Ok(Some((y, k)))
    }
}

/// The value of [`settled_3`].
pub fn settle_3(d: U256, d_s: I256, x_j: I256, x_k: I256, root: I256, a: I256) -> (r: Result<
    Option<(U256, U256)>,
    Fault,
>)
    requires
        d@ == d_s@,
        0 <= x_j@,
        0 <= x_k@,
    ensures
        solution(r) == settled_3(d@, x_j@, x_k@, root@, a@),
{
    let y_s = d_s.wrapping_mul(d_s).try_div(I256::from_u128(27))?.try_div(x_k)?.try_mul(
        d_s,
    )?.try_div(x_j)?.try_mul(root)?.try_div(a)?;
    match y_s.to_unsigned() {
        None => Ok(None),
        Some(y) => {
            let k_s = I256::from_u128(WAD as u128).wrapping_mul(root).try_div(a)?;
            match k_s.to_unsigned() {
                None => Ok(None),
                Some(k0_prev) => {
                    let frac = (y * U256::from(WAD)).div_by(d)?;
                    if frac < U256::from(9_999_999_999_999_999u64) || frac >= U256::from(
                        100_000_000_000_000_000_001u128,
                    ) {
                        Ok(None)
                    } else {
                        Ok(Some((y, k0_prev)))
                    }
                },
            }
        },
    }
}

/// The first of the coins other than `i`.
pub open spec fn low_other(i: int) -> int {
    if i == 0 {
        1
    } else {
        0
    }
}

/// The second of the coins other than `i`.
pub open spec fn high_other(i: int) -> int {
    if i == 2 {
        1
    } else {
        2
    }
}

/// The solution from the cubic with the coefficients `q`; where the cubic has no single real root,
/// the solution that Newton's method finds.
pub open spec fn solved_3(
    q: Cubic<int>,
    ann: int,
    gamma: int,
    x: (int, int, int),
    d: int,
    i: int,
) -> Result<Option<(int, int)>, Fault> {
    match discriminant_3(q) {
        Err(e) => Err(e),
        Ok((delta0, delta1, square)) => if square <= 0 {
            match newton_y_3_model(ann, gamma, x, d, i) {
                Err(e) => Err(e),
                Ok(None) => Ok(None),
                Ok(Some(y)) => Ok(Some((y, 0))),
            }
        } else {
            match c1_3(q.b, delta1, isqrt_floor(square)) {
                Err(e) => Err(e),
                Ok(None) => Ok(None),
                Ok(Some(c1)) => match root_3(q, delta0, c1) {
                    Err(e) => Err(e),
                    Ok(root) => settled_3(
                        d,
                        get3(x, low_other(i)),
                        get3(x, high_other(i)),
                        root,
                        q.a,
                    ),
                },
            }
        },
    }
}

/// The balance of coin `i` that keeps the invariant at `d`, from the balances of the other coins,
/// and the hint for the next calculation of `d`.
pub open spec fn get_y_3_model(ann: int, gamma: int, x: (int, int, int), d: int, i: int) -> Result<
    Option<(int, int)>,
    Fault,
> {
    let x_j = get3(x, low_other(i));
    let x_k = get3(x, high_other(i));
    if i > 2 || ann >= half() || gamma >= half() || d >= half() || x_j >= half() || x_k >= half() {
        Ok(None)
    } else {
        match cubic_3(ann, gamma, d, x_j, x_k) {
            Err(e) => Err(e),
            Ok(q) => match divider_3(q) {
                Err(e) => Err(e),
                Ok(divider) => match reduced_3(q, divider) {
                    Err(e) => Err(e),
                    Ok(small) => solved_3(small, ann, gamma, x, d, i),
                },
            },
        }
    }
}

/// The solution from a cubic: see [`solved_3`].
pub fn solve_3(
    q: &Cubic<I256>,
    ann: U256,
    gamma: U256,
    x: [U256; 3],
    d: U256,
    i: usize,
    d_s: I256,
    x_j: I256,
    x_k: I256,
) -> (r: Result<Option<(U256, U256)>, Fault>)
    requires
        d@ == d_s@,
        x_j@ == get3(triple(x), low_other(i as int)),
        x_k@ == get3(triple(x), high_other(i as int)),
        0 <= x_j@,
        0 <= x_k@,
    ensures
        solution(r) == solved_3(q@, ann@, gamma@, triple(x), d@, i as int),
{
    let (delta0, delta1, square) = discriminant_of_3(q)?;
    match square.to_unsigned() {
        Some(v) if square > I256::zero() => {
            proof {
                lemma_signed_range(square);
            }
            let sqrt = isqrt(v);
            proof {
                lemma_word_range(sqrt);
                assert(sqrt@ <= v@) by (nonlinear_arith)
                    requires
                        0 <= sqrt@,
                        sqrt@ * sqrt@ <= v@,
                {
                    assert(sqrt@ == 0 || sqrt@ * sqrt@ >= sqrt@);
                }
            }
            match I256::from_unsigned(sqrt) {
                None => Ok(None),
                Some(root) => match c1_of_3(q.b, delta1, root)? {
                    None => Ok(None),
                    Some(c1) => {
                        let root = root_of_3(q, delta0, c1)?;
                        settle_3(d, d_s, x_j, x_k, root, q.a)
                    },
                },
            }
        },
        _ => match try_newton_y_3(ann, gamma, x, d, i)? {
            None => Ok(None),
            Some(y) => Ok(Some((y, U256::zero()))),
        },
    }
}

/// The balance of coin `i`, or a fault where [`get_y_3_ng`] is not defined.
pub fn try_get_y_3_ng(ann: U256, gamma: U256, x: [U256; 3], d: U256, i: usize) -> (r: Result<
    Option<(U256, U256)>,
    Fault,
>)
    ensures
        solution(r) == get_y_3_model(ann@, gamma@, triple(x), d@, i as int),
{
    broadcast use lemma_word_range;

    let (j, k): (usize, usize) = match i {
        0 => (1, 2),
        1 => (0, 2),
        2 => (0, 1),
        _ => return Ok(None),
    };
    let ann_s = match I256::from_unsigned(ann) {
        Some(v) => v,
        None => return Ok(None),
    };
    let gamma_s = match I256::from_unsigned(gamma) {
        Some(v) => v,
        None => return Ok(None),
    };
    let d_s = match I256::from_unsigned(d) {
        Some(v) => v,
        None => return Ok(None),
    };
    let x_j = match I256::from_unsigned(x[j]) {
        Some(v) => v,
        None => return Ok(None),
    };
    let x_k = match I256::from_unsigned(x[k]) {
        Some(v) => v,
        None => return Ok(None),
    };
    let q = coefficients_3(ann_s, gamma_s, d_s, x_j, x_k)?;
    let divider = divider_of_3(&q)?;
    let small = reduce_3(&q, divider)?;
    solve_3(&small, ann, gamma, x, d, i, d_s, x_j, x_k)
}

/// The balance of coin `i` that keeps the invariant at `d`, and the hint for the next calculation
/// of `d`, which is zero where the balance comes from Newton's method. `None` where `i` is no coin,
/// where a number does not fit, where the balance is too far from an even share or where the
/// iteration does not converge.
pub fn get_y_3_ng(ann: U256, gamma: U256, x: [U256; 3], d: U256, i: usize) -> (r: Option<
    (U256, U256),
>)
    requires
        get_y_3_model(ann@, gamma@, triple(x), d@, i as int) is Ok,
    ensures
        solution(Ok(r)) == get_y_3_model(ann@, gamma@, triple(x), d@, i as int),
{
    match try_get_y_3_ng(ann, gamma, x, d, i) {
        Ok(r) => r,
        Err(_) => None,
    }
}

/// The balance of a coin does not depend on what the pool holds of it.
pub proof fn law_y_from_the_others(ann: U256, gamma: U256, x: [U256; 3], v: U256, d: U256, i: usize)
    requires
        i < 3,
    ensures
        newton_y_3_model(ann@, gamma@, triple(x), d@, i as int) == newton_y_3_model(
            ann@,
            gamma@,
            set3(triple(x), i as int, v@),
            d@,
            i as int,
        ),
        get_y_3_model(ann@, gamma@, triple(x), d@, i as int) == get_y_3_model(
            ann@,
            gamma@,
            set3(triple(x), i as int, v@),
            d@,
            i as int,
        ),
{
}

/// A balance that is found is within the bounds of the invariant: from a hundredth of `D` to a hundred
/// times as much.
pub proof fn law_y_within_bounds(ann: U256, gamma: U256, x: [U256; 3], d: U256, i: usize)
    ensures
        newton_y_3_model(ann@, gamma@, triple(x), d@, i as int) matches Ok(Some(y)) ==> share_3(
            y,
            d@,
        ),
        get_y_3_model(ann@, gamma@, triple(x), d@, i as int) matches Ok(Some((y, k))) ==> share_3(
            y,
            d@,
        ),
{
}

/// Near an even split a balance is found, and it is above zero and below `D`: where the other balances lie
/// from five eighteenths to half of `D`, in the range of [`law_get_y_falls`].
pub proof fn law_get_y_found(ann: U256, gamma: U256, x: [U256; 3], d: U256, i: usize)
    requires
        i < 3,
        well_scaled(
            ann@,
            gamma@,
            d@,
            get3(triple(x), low_other(i as int)),
            get3(triple(x), high_other(i as int)),
        ),
        5 * d@ <= 18 * get3(triple(x), low_other(i as int)) <= 9 * d@,
        5 * d@ <= 18 * get3(triple(x), high_other(i as int)) <= 9 * d@,
    ensures
        get_y_3_model(ann@, gamma@, triple(x), d@, i as int) matches Ok(Some((y, _))) && 0 < y < d@,
{
    let w = WAD as int;
    let x_j = get3(triple(x), low_other(i as int));
    let x_k = get3(triple(x), high_other(i as int));
    let y = lemma_settles(ann@, gamma@, triple(x), d@, i as int);
    let e = d@;
    let p = x_j * x_k;
    let py = p * y;
    let d2 = e * e;
    assert(25 * d2 <= 324 * p && 4 * p <= d2) by (nonlinear_arith)
        requires
            5 * e <= 18 * x_j <= 9 * e,
            5 * e <= 18 * x_k <= 9 * e,
            1 <= e,
            p == x_j * x_k,
            d2 == e * e,
    {
        assert((5 * e) * (5 * e) <= (18 * x_j) * (18 * x_k)) by (nonlinear_arith)
            requires
                0 <= 5 * e <= 18 * x_j,
                0 <= 5 * e <= 18 * x_k,
        ;
        assert((18 * x_j) * (18 * x_k) <= (9 * e) * (9 * e)) by (nonlinear_arith)
            requires
                0 <= 18 * x_j <= 9 * e,
                0 <= 18 * x_k <= 9 * e,
        ;
        assert((5 * e) * (5 * e) == 25 * (e * e) && (9 * e) * (9 * e) == 81 * (e * e) && (18 * x_j) * (18 * x_k) == 324 * (
        x_j * x_k)) by (nonlinear_arith);
    }
    let dy = d2 * y;
    assert(25 * dy <= 324 * py && 4 * py <= dy) by (nonlinear_arith)
        requires
            25 * d2 <= 324 * p,
            4 * p <= d2,
            1 <= y,
            py == p * y,
            dy == d2 * y,
    ;
    assert(d2 >= 1) by (nonlinear_arith)
        requires
            d2 == e * e,
            e >= 1,
    ;
    assert(4 * e <= 135 * y && 3_375 * y <= 3_240 * e) by (nonlinear_arith)
        requires
            4 * (d2 * e) <= 135 * (d2 * y),
            3_375 * (d2 * y) <= 3_240 * (d2 * e),
            1 <= d2,
    ;
    lemma_quotient(y * w, e);
    let frac = (y * w) / e;
    assert(frac >= 9_999_999_999_999_999) by (nonlinear_arith)
        requires
            y * w < (frac + 1) * e,
            4 * e <= 135 * y,
            w == 1_000_000_000_000_000_000,
            1 <= e,
    {
        if frac < 9_999_999_999_999_999 {
            assert((frac + 1) * e <= 9_999_999_999_999_999 * e) by (nonlinear_arith)
                requires
                    frac + 1 <= 9_999_999_999_999_999,
                    1 <= e,
            ;
        }
    }
    assert(frac < 100_000_000_000_000_000_001) by (nonlinear_arith)
        requires
            frac * e <= y * w,
            y < e,
            w == 1_000_000_000_000_000_000,
            1 <= e,
    {
        if frac >= 100_000_000_000_000_000_001 {
            assert(frac * e >= 100_000_000_000_000_000_001 * e) by (nonlinear_arith)
                requires
                    frac >= 100_000_000_000_000_000_001,
                    1 <= e,
            ;
        }
    }
}

/// More of the other coins leaves less of this one at the same `D`: of two balances that are found, the one
/// for other balances of which none is smaller and whose sum is larger, by at least one part in ten to the
/// seventh of `D`. The sum of the other balances is at most twice `D`, and four hundred times their product
/// at least the square of `D`. `D` lies from 10^18 to 10^33, `gamma` from 10^10 to 10^16, `ann` is at least
/// 10^5, `gamma * gamma * ann` lies from 10^30 to 10^37, and that times `D` is at least 10^53.
pub proof fn law_get_y_falls(ann: U256, gamma: U256, x: [U256; 3], larger_x: [U256; 3], d: U256, i: usize)
    requires
        i < 3,
        well_scaled(
            ann@,
            gamma@,
            d@,
            get3(triple(x), low_other(i as int)),
            get3(triple(x), high_other(i as int)),
        ),
        well_scaled(
            ann@,
            gamma@,
            d@,
            get3(triple(larger_x), low_other(i as int)),
            get3(triple(larger_x), high_other(i as int)),
        ),
        ({
            let more_j = get3(triple(larger_x), low_other(i as int)) - get3(triple(x), low_other(i as int));
            let more_k = get3(triple(larger_x), high_other(i as int)) - get3(triple(x), high_other(i as int));
            0 <= more_j && 0 <= more_k && d@ <= 10_000_000 * (more_j + more_k)
        }),
    ensures
        ({
            let found = get_y_3_model(ann@, gamma@, triple(x), d@, i as int);
            let larger_found = get_y_3_model(ann@, gamma@, triple(larger_x), d@, i as int);
            found matches Ok(Some((y, k))) ==> larger_found matches Ok(Some((y2, k2))) ==> y2 < y
        }),
{
    let found = get_y_3_model(ann@, gamma@, triple(x), d@, i as int);
    let larger_found = get_y_3_model(ann@, gamma@, triple(larger_x), d@, i as int);
    if let Ok(Some((y, k))) = found {
        if let Ok(Some((y2, k2))) = larger_found {
            let x_j = get3(triple(x), low_other(i as int));
            let x_k = get3(triple(x), high_other(i as int));
            let more_j = get3(triple(larger_x), low_other(i as int));
            let more_k = get3(triple(larger_x), high_other(i as int));
            lemma_settles(ann@, gamma@, triple(x), d@, i as int);
            lemma_settles(ann@, gamma@, triple(larger_x), d@, i as int);
            lemma_falls(ann@, gamma@, d@, x_j, x_k, y, more_j, more_k, y2);
        }
    }
}

/// The first guess at `D` without a hint lies within the bounds of the invariant.
proof fn lemma_first_within_3(x: (int, int, int), s: int)
    requires
        ample_3(x),
    ensures
        d_within_3(x, newton_d_3_guess(x, s, 0)),
{
    let w = WAD as int;
    let p = x.0 * x.1 * x.2;
    let n = x.0 * x.1;
    assert(100_000_000_000_000_000_000_000_000_000_000 <= n <= 100_000_000_000_000_000_000_000_000_000_000_000_000_000_000_000_000) by (nonlinear_arith)
        requires
            10_000_000_000_000_000 <= x.1 <= x.0 <= 10_000_000_000_000_000_000_000_000,
            n == x.0 * x.1,
    ;
    assert(1_000_000_000_000_000_000_000_000_000_000_000_000_000_000_000_000 <= p <= 1_000_000_000_000_000_000_000_000_000_000_000_000_000_000_000_000_000_000_000_000_000_000_000_000_000) by (nonlinear_arith)
        requires
            100_000_000_000_000_000_000_000_000_000_000 <= n <= 100_000_000_000_000_000_000_000_000_000_000_000_000_000_000_000_000,
            10_000_000_000_000_000 <= x.2 <= 10_000_000_000_000_000_000_000_000,
            p == n * x.2,
    ;
    lemma_times(x.0, x.1);
    lemma_over(n, w);
    lemma_quotient(n, w);
    let y = n / w;
    assert(0 <= y * x.2 <= p) by (nonlinear_arith)
        requires
            0 <= y <= n,
            0 <= x.2,
            p == n * x.2,
    ;
    lemma_times(y, x.2);
    lemma_over(y * x.2, w);
    lemma_quotient(y * x.2, w);
    let t = (y * x.2) / w;
    let e = e36();
    lemma_two_quotients(n, x.2, y, t);
    assert(t <= 1_000_000_000_000_000_000_000_000_000_000_000_000_000);
    law_word_of(t);
    law_cbrt_accuracy(U256::of(t));
    let v = cbrt_model(t);
    assert(cbrt_scaled(t).1 == 1);
    assert(cube(v - 1) <= t * e < cube(v + 1));
    // below the sum
    let sum = x.0 + x.1 + x.2;
    lemma_means_3(x.0, x.1, x.2);
    if 3 * v > sum + 3 {
        assert(cube(sum) < 27 * cube(v - 1)) by (nonlinear_arith)
            requires
                cube(sum) == sum * sum * sum,
                cube(v - 1) == (v - 1) * (v - 1) * (v - 1),
                sum < 3 * (v - 1),
                0 <= sum,
        {
            let z = 3 * (v - 1);
            assert(sum * sum < z * z) by (nonlinear_arith)
                requires
                    0 <= sum < z,
            ;
            assert((sum * sum) * sum < (z * z) * z) by (nonlinear_arith)
                requires
                    0 <= sum < z,
                    0 <= sum * sum < z * z,
            ;
            assert((z * z) * z == 27 * ((v - 1) * (v - 1) * (v - 1))) by (nonlinear_arith)
                requires
                    z == 3 * (v - 1),
            ;
        }
    }
    // above an even split
    assert(w * x.2 * 1_000_000_000_000 <= p) by (nonlinear_arith)
        requires
            p == n * x.2,
            n >= 100_000_000_000_000_000_000_000_000_000_000,
            w == 1_000_000_000_000_000_000,
            0 <= x.2,
    ;
    assert(p * 99_999_999_998 <= (t * e) * 100_000_000_000);
    if v < 900_000_000_000_000 {
        assert(cube(v + 1) <= 729_000_000_000_000_000_000_000_000_000_000_000_000_000_000) by (nonlinear_arith)
            requires
                cube(v + 1) == (v + 1) * (v + 1) * (v + 1),
                v + 1 <= 900_000_000_000_000,
        {
            let z = v + 1;
            if z >= 0 {
                assert(z * z <= 810_000_000_000_000_000_000_000_000_000) by (nonlinear_arith)
                    requires
                        0 <= z <= 900_000_000_000_000,
                ;
                assert((z * z) * z <= 729_000_000_000_000_000_000_000_000_000_000_000_000_000_000) by (nonlinear_arith)
                    requires
                        0 <= z <= 900_000_000_000_000,
                        0 <= z * z <= 810_000_000_000_000_000_000_000_000_000,
                ;
            } else {
                assert((z * z) * z <= 0) by (nonlinear_arith)
                    requires
                        z < 0,
                ;
            }
        }
    }
    let v2 = v * v;
    let v3 = v * v * v;
    assert(cube(v + 1) == v3 + 3 * v2 + 3 * v + 1) by (nonlinear_arith)
        requires
            cube(v + 1) == (v + 1) * (v + 1) * (v + 1),
            v2 == v * v,
            v3 == v * v * v,
    ;
    assert(v3 >= 900_000_000_000_000 * v2 && v2 >= v) by (nonlinear_arith)
        requires
            v3 == v * v * v,
            v2 == v * v,
            v >= 900_000_000_000_000,
    ;
    assert(p * 1_000_000_000 <= 1_000_000_001 * v3);
    lemma_times(3, v);
    let d = 3 * v;
    assert(d * d * d == 27 * v3) by (nonlinear_arith)
        requires
            d == 3 * v,
            v3 == v * v * v,
    ;
}

/// The invariant lies between three times the geometric mean of the balances, up to one part in ten to
/// the ninth of its cube, and three above their sum: of balances from 10^16 to 10^25 with the largest
/// at most 5000 times the smallest, with `ann` above 120 000 and `gamma` from 10^10 up. It is calculated
/// without a fault.
pub proof fn law_newton_d_bounds(ann: U256, gamma: U256, x: [U256; 3])
    requires
        120_001 <= ann@,
        10_000_000_000 <= gamma@,
        gamma@ + 2 * WAD < modulus(),
        ample_3(sorted3(triple(x))),
    ensures
        newton_d_3_model(ann@, gamma@, triple(x), 0) is Ok,
        newton_d_3_model(ann@, gamma@, triple(x), 0) matches Ok(Some(d)) ==> d_within_3(triple(x), d),
{
    let y = sorted3(triple(x));
    lemma_plus(y.0, y.1);
    lemma_plus(y.0 + y.1, y.2);
    let s = y.0 + y.1 + y.2;
    lemma_first_within_3(y, s);
    lemma_run_within_3(ann@, gamma@, y, newton_d_3_guess(y, s, 0), MAX_ITERATIONS as nat);
    let (a, b, c) = triple(x);
    lemma_orders_3(a, b, c);
}

/// The number that the last step of the iteration toward `D` starts from.
proof fn lemma_last_3(ann: int, gamma: int, x: (int, int, int), d: int, fuel: nat) -> (e: int)
    requires
        120_001 <= ann,
        10_000_000_000 <= gamma,
        gamma + 2 * WAD < modulus(),
        ample_3(x),
        d_within_3(x, d),
        newton_d_3_run(ann, gamma, x, x.0 + x.1 + x.2, d, fuel) matches Ok(Some(_)),
    ensures
        d_within_3(x, e),
        newton_d_3_run(ann, gamma, x, x.0 + x.1 + x.2, d, fuel) matches Ok(Some(v)) && d_within_3(x, v)
            && newton_d_step(3, ann, gamma, x.0 + x.1 + x.2, k0_3_at(x, e), e) == Ok::<_, Fault>(
            Step::Done(v),
        ) && terms_of(3, ann, gamma, x.0 + x.1 + x.2, k0_3_at(x, e), e, v),
    decreases fuel,
{
    let v = lemma_within_3(ann, gamma, x, d);
    if newton_d_step(3, ann, gamma, x.0 + x.1 + x.2, k0_3_at(x, d), d) == Ok::<_, Fault>(Step::Done(v)) {
        d
    } else {
        lemma_last_3(ann, gamma, x, v, (fuel - 1) as nat)
    }
}

/// A number whose cube is no lower than 27 times a product of 10^54 is above 10^18.
proof fn lemma_large_root(p: int, d: int)
    requires
        1_000_000_000_000_000_000_000_000_000_000_000_000_000_000_000_000_000_000 <= p,
        27 * p * 1_000_000_000 <= 1_000_000_001 * (d * d * d),
        0 <= d,
    ensures
        WAD <= d,
{
    if d < WAD {
            assert(d * d <= 1_000_000_000_000_000_000_000_000_000_000_000_000) by (nonlinear_arith)
            requires
                0 <= d <= 1_000_000_000_000_000_000,
        ;
        assert((d * d) * d <= 1_000_000_000_000_000_000_000_000_000_000_000_000_000_000_000_000_000_000) by (nonlinear_arith)
            requires
                0 <= d <= 1_000_000_000_000_000_000,
                0 <= d * d <= 1_000_000_000_000_000_000_000_000_000_000_000_000,
        ;
        assert(0 <= d * d) by (nonlinear_arith);
    }
}

/// A found invariant of three coins is where a step has converged.
proof fn lemma_converged_3(ann: int, gamma: int, x: (int, int, int)) -> (e: int)
    requires
        120_001 <= ann,
        10_000_000_000 <= gamma <= WAD,
        ample_3(x),
        WAD <= x.2,
        newton_d_3_model(ann, gamma, x, 0) matches Ok(Some(_)),
    ensures
        newton_d_3_model(ann, gamma, x, 0) matches Ok(Some(v)) && converged_at(
            3,
            ann,
            gamma,
            x.0 + x.1 + x.2,
            k0_3_at(x, e),
            e,
            v,
        ),
        k0_3_at(x, e) * (e * e * e) <= 27 * (x.0 * x.1 * x.2) * WAD <= (k0_3_at(x, e) + 6) * (e * e * e),
{
    let w = WAD as int;
    let s = x.0 + x.1 + x.2;
    let p = x.0 * x.1 * x.2;
    lemma_plus(x.0, x.1);
    lemma_plus(x.0 + x.1, x.2);
    lemma_first_within_3(x, s);
    let first = newton_d_3_guess(x, s, 0);
    lemma_run_within_3(ann, gamma, x, first, MAX_ITERATIONS as nat);
    let e = lemma_last_3(ann, gamma, x, first, MAX_ITERATIONS as nat);
    let v = newton_d_3_model(ann, gamma, x, 0)->Ok_0->Some_0;
    lemma_k0_3(x, e);
    let k = k0_3_at(x, e);
    assert(p >= 1_000_000_000_000_000_000_000_000_000_000_000_000_000_000_000_000_000_000) by (nonlinear_arith)
        requires
            1_000_000_000_000_000_000 <= x.2 <= x.1 <= x.0,
            p == x.0 * x.1 * x.2,
    {
        assert(x.0 * x.1 >= 1_000_000_000_000_000_000_000_000_000_000_000_000) by (nonlinear_arith)
            requires
                1_000_000_000_000_000_000 <= x.1 <= x.0,
        ;
        assert((x.0 * x.1) * x.2 >= 1_000_000_000_000_000_000_000_000_000_000_000_000_000_000_000_000_000_000) by (nonlinear_arith)
            requires
                x.0 * x.1 >= 1_000_000_000_000_000_000_000_000_000_000_000_000,
                1_000_000_000_000_000_000 <= x.2,
        ;
    }
    lemma_large_root(p, e);
    lemma_large_root(p, v);
    // the last step is small
    if v > e {
        lemma_minus(v, e);
        lemma_times(v - e, 100_000_000_000_000);
    } else {
        lemma_minus(e, v);
        lemma_times(e - v, 100_000_000_000_000);
    }
    assert(90_000_000_000_000 * (e - v) <= e && 90_000_000_000_000 * (v - e) <= e);
    // the shares keep k0 up
    lemma_times(x.2, w);
    lemma_times(x.1, w);
    lemma_over(x.2 * w, v);
    lemma_over(x.1 * w, v);
    lemma_quotient(x.2 * w, v);
    lemma_quotient(x.1 * w, v);
    let share2 = (x.2 * w) / v;
    assert(v <= 101 * x.2) by (nonlinear_arith)
        requires
            share2 * v <= x.2 * w,
            share2 >= 9_999_999_999_999_999,
            w == 1_000_000_000_000_000_000,
            0 < v,
    ;
    assert(v <= 101 * x.1);
    let e3 = e * e * e;
    assert(100 * e <= 101 * v && 100 * v <= 301 * x.0);
    assert(e3 <= 32_000 * p) by (nonlinear_arith)
        requires
            100 * e <= 101 * v,
            v <= 101 * x.2,
            v <= 101 * x.1,
            100 * v <= 301 * x.0,
            e3 == e * e * e,
            0 <= e,
            p == x.0 * x.1 * x.2,
            1 <= x.2,
            1 <= x.1,
            1 <= x.0,
    {
        let a = 100 * e;
        let b = 10_201 * x.2;
        let c = 10_201 * x.1;
        assert(a <= b && a <= c);
        assert(10_000 * e <= 30_401 * x.0);
        let f = 30_401 * x.0;
        let g = 10_000 * e;
        assert(a * a <= b * c) by (nonlinear_arith)
            requires
                0 <= a <= b,
                a <= c,
        ;
        assert((a * a) * g <= (b * c) * f) by (nonlinear_arith)
            requires
                0 <= a * a <= b * c,
                0 <= g <= f,
        ;
        assert(0 <= a * a) by (nonlinear_arith);
        assert((a * a) * g == 100_000_000 * (e * e * e)) by (nonlinear_arith)
            requires
                a == 100 * e,
                g == 10_000 * e,
        ;
        assert((b * c) * f == 3_163_540_250_801 * (x.0 * x.1 * x.2)) by (nonlinear_arith)
            requires
                b == 10_201 * x.2,
                c == 10_201 * x.1,
                f == 30_401 * x.0,
        ;
    }
    assert(1 <= e3) by (nonlinear_arith)
        requires
            e3 == e * e * e,
            e >= 1,
    ;
    if k < 500_000_000_000_000 {
        assert((k + 6) * e3 <= 500_000_000_000_006 * (32_000 * p)) by (nonlinear_arith)
            requires
                k < 500_000_000_000_000,
                1 <= e3 <= 32_000 * p,
        ;
        assert(27 * p * w == 27_000_000_000_000_000_000 * p) by (nonlinear_arith)
            requires
                w == 1_000_000_000_000_000_000,
        ;
    }
    e
}

/// The invariant of larger balances is larger: of two found invariants, the one for balances of which
/// none is smaller and one is larger, by at least one part in ten to the twelfth of their sum. The
/// balances lie from 10^18 to 10^25, the largest at most 5000 times the smallest, `ann` is above 120 000,
/// `gamma` from 10^10 to 10^18, and there is no hint.
pub proof fn law_newton_d_grows(
    ann: U256,
    gamma: U256,
    x: [U256; 3],
    larger_x: [U256; 3],
    i: usize,
)
    requires
        120_001 <= ann@,
        10_000_000_000 <= gamma@ <= WAD,
        i < 3,
        WAD <= x[0]@ <= larger_x[0]@,
        WAD <= x[1]@ <= larger_x[1]@,
        WAD <= x[2]@ <= larger_x[2]@,
        ample_3(sorted3(triple(x))),
        ample_3(sorted3(triple(larger_x))),
        larger_x[0]@ + larger_x[1]@ + larger_x[2]@ <= 1_000_000_000_000 * (larger_x[i as int]@ - x[i as int]@),
    ensures
        ({
            let found = newton_d_3_model(ann@, gamma@, triple(x), 0);
            let larger_found = newton_d_3_model(ann@, gamma@, triple(larger_x), 0);
            found matches Ok(Some(d)) ==> larger_found matches Ok(Some(e)) ==> d < e
        }),
{
    let found = newton_d_3_model(ann@, gamma@, triple(x), 0);
    let larger_found = newton_d_3_model(ann@, gamma@, triple(larger_x), 0);
    if let Ok(Some(v)) = found {
        if let Ok(Some(v2)) = larger_found {
            let w = WAD as int;
            let y = sorted3(triple(x));
            let y2 = sorted3(triple(larger_x));
            let d = lemma_converged_3(ann@, gamma@, y);
            let d2 = lemma_converged_3(ann@, gamma@, y2);
            let k = k0_3_at(y, d);
            let k2 = k0_3_at(y2, d2);
            // the product is larger by the same part
            let (a, b, c) = triple(x);
            let (a2, b2, c2) = triple(larger_x);
            let p = a * b * c;
            let p2 = a2 * b2 * c2;
            lemma_orders_3(a, b, c);
            lemma_orders_3(a2, b2, c2);
            assert(y.0 * y.1 * y.2 == p && y2.0 * y2.1 * y2.2 == p2);
            if i == 0 {
                lemma_part_larger_3(a, a2, b, b2, c, c2);
            } else if i == 1 {
                lemma_part_larger_3(b, b2, a, a2, c, c2);
            } else {
                lemma_part_larger_3(c, c2, a, a2, b, b2);
            }
            assert(p >= 0) by (nonlinear_arith)
                requires
                    p == a * b * c,
                    a >= 0,
                    b >= 0,
                    c >= 0,
            ;
            if 40_000_000_000_000 * (d2 - d) <= d {
                let e = d * d * d;
                let e2 = d2 * d2 * d2;
                lemma_cubes_close(d, d2);
                lemma_k0_ratio(27 * p * w, 27 * p2 * w, e, e2, k, k2);
            }
            lemma_growth(3, ann@, gamma@, y.0 + y.1 + y.2, k, d, v, y2.0 + y2.1 + y2.2, k2, d2, v2);
        }
    }
}

proof fn lemma_cubes_close(d: int, d2: int)
    requires
        1 <= d,
        1 <= d2,
        40_000_000_000_000 * (d2 - d) <= d,
    ensures
        10_000_000_000_000 * (d2 * d2 * d2) <= 10_000_000_000_001 * (d * d * d),
        1 <= d * d * d,
        1 <= d2 * d2 * d2,
{
    let c = 40_000_000_000_000 * d2;
    let f = 40_000_000_000_001 * d;
    assert(c * c <= f * f && 0 <= c * c) by (nonlinear_arith)
        requires
            0 <= c <= f,
    ;
    assert((c * c) * c <= (f * f) * f) by (nonlinear_arith)
        requires
            0 <= c * c <= f * f,
            0 <= c <= f,
    ;
    assert((c * c) * c == 64_000_000_000_000_000_000_000_000_000_000_000_000_000 * (d2 * d2 * d2)) by (nonlinear_arith)
        requires
            c == 40_000_000_000_000 * d2,
    ;
    assert((f * f) * f == 64_000_000_000_004_800_000_000_000_120_000_000_000_001 * (d * d * d)) by (nonlinear_arith)
        requires
            f == 40_000_000_000_001 * d,
    ;
    assert(1 <= d * d * d && 1 <= d2 * d2 * d2) by (nonlinear_arith)
        requires
            1 <= d,
            1 <= d2,
    ;
}

/// The product of three numbers in any order.
proof fn lemma_orders_3(a: int, b: int, c: int)
    ensures
        a * b * c == a * c * b,
        a * b * c == b * a * c,
        a * b * c == b * c * a,
        a * b * c == c * a * b,
        a * b * c == c * b * a,
{
    assert(a * b * c == a * c * b && a * b * c == b * a * c && a * b * c == b * c * a && a * b * c == c
        * a * b && a * b * c == c * b * a) by (nonlinear_arith);
}

proof fn lemma_part_larger_3(a: int, a2: int, b: int, b2: int, c: int, c2: int)
    requires
        1 <= a <= a2,
        1 <= b <= b2,
        1 <= c <= c2,
        a2 <= 1_000_000_000_000 * (a2 - a),
    ensures
        1_000_000_000_000 * (a * b * c) <= 999_999_999_999 * (a2 * b2 * c2),
{
    let m = b * c;
    let m2 = b2 * c2;
    assert(1 <= m <= m2) by (nonlinear_arith)
        requires
            m == b * c,
            m2 == b2 * c2,
            1 <= b <= b2,
            1 <= c <= c2,
    ;
    lemma_part_larger(a, a2, m, m2);
    assert(a * b * c == a * m && a2 * b2 * c2 == a2 * m2) by (nonlinear_arith)
        requires
            m == b * c,
            m2 == b2 * c2,
    ;
}

/// The first guess at `D` of an even split is the sum, up to three units of the cube root.
proof fn lemma_first_even_3(b: int, s: int)
    requires
        1_000_000_000_000_000_000 <= b <= 10_000_000_000_000_000_000_000_000,
    ensures
        3 * b - 6 <= newton_d_3_guess((b, b, b), s, 0) <= 3 * b + 3,
{
    let w = WAD as int;
    let n = b * b;
    let p = b * b * b;
    assert(n <= 100_000_000_000_000_000_000_000_000_000_000_000_000_000_000_000_000 && p <= 1_000_000_000_000_000_000_000_000_000_000_000_000_000_000_000_000_000_000_000_000_000_000_000_000_000 && 1_000_000_000_000_000_000 * b <= n) by (nonlinear_arith)
        requires
            1_000_000_000_000_000_000 <= b <= 10_000_000_000_000_000_000_000_000,
            n == b * b,
            p == b * b * b,
    ;
    lemma_times(b, b);
    lemma_over(n, w);
    lemma_quotient(n, w);
    let y = n / w;
    assert(0 <= y * b <= p) by (nonlinear_arith)
        requires
            0 <= y <= n,
            0 <= b,
            p == n * b,
    ;
    lemma_times(y, b);
    lemma_over(y * b, w);
    lemma_quotient(y * b, w);
    let t = (y * b) / w;
    let e = e36();
    lemma_two_quotients(n, b, y, t);
    assert(t <= 1_000_000_000_000_000_000_000_000_000_000_000_000_000);
    law_word_of(t);
    law_cbrt_accuracy(U256::of(t));
    let v = cbrt_model(t);
    assert(cbrt_scaled(t).1 == 1);
    assert(cube(v - 1) <= t * e < cube(v + 1));
    if v > b + 1 {
        lemma_cube_increases(b + 1, v - 1);
        assert(cube(b + 1) > p) by (nonlinear_arith)
            requires
                cube(b + 1) == (b + 1) * (b + 1) * (b + 1),
                p == b * b * b,
                1 <= b,
        ;
    }
    if v < b - 2 {
        if v + 1 >= 0 {
            lemma_cube_increases(v + 1, b - 2);
        } else {
            assert(cube(v + 1) <= 0) by (nonlinear_arith)
                requires
                    cube(v + 1) == (v + 1) * (v + 1) * (v + 1),
                    v + 1 < 0,
            ;
            lemma_cube_increases(0, b - 2);
            assert(cube(0) == 0);
        }
        assert(cube(b - 2) == p - 6 * n + 12 * b - 8) by (nonlinear_arith)
            requires
                cube(b - 2) == (b - 2) * (b - 2) * (b - 2),
                p == b * b * b,
                n == b * b,
        ;
    }
    lemma_times(3, v);
}

/// What two quotients by 10^18 in a row leave of a product.
proof fn lemma_two_quotients(n: int, c: int, y: int, t: int)
    requires
        0 <= c,
        y * WAD <= n < (y + 1) * WAD,
        t * WAD <= y * c < (t + 1) * WAD,
    ensures
        t * e36() <= n * c <= t * e36() + e36() + WAD * c,
{
    let w = WAD as int;
    let e = e36();
    assert((t * w) * w <= (y * c) * w <= ((t + 1) * w) * w) by (nonlinear_arith)
        requires
            t * w <= y * c < (t + 1) * w,
            0 <= w,
    ;
    assert((y * w) * c <= n * c <= ((y + 1) * w) * c) by (nonlinear_arith)
        requires
            y * w <= n < (y + 1) * w,
            0 <= c,
    ;
    assert((t * w) * w == t * (w * w) && ((t + 1) * w) * w == t * (w * w) + w * w) by (nonlinear_arith);
    assert((y * c) * w == (y * w) * c && ((y + 1) * w) * c == (y * w) * c + w * c) by (nonlinear_arith);
    assert(w * w == e) by (nonlinear_arith)
        requires
            w == 1_000_000_000_000_000_000,
            e == 1_000_000_000_000_000_000_000_000_000_000_000_000,
    ;
}

/// The invariant of an even split is found, and is the sum of the three balances up to twenty and one part
/// in ten to the seventeenth: of balances from 10^18 to 10^25, with `ann` above 120 000 and `gamma` from
/// 10^10 up.
pub proof fn law_newton_d_balanced(ann: U256, gamma: U256, x: U256)
    requires
        120_001 <= ann@,
        10_000_000_000 <= gamma@,
        gamma@ + 2 * WAD < modulus(),
        1_000_000_000_000_000_000 <= x@ <= 10_000_000_000_000_000_000_000_000,
    ensures
        newton_d_3_model(ann@, gamma@, (x@, x@, x@), 0) matches Ok(Some(d)) && 3 * x@ - x@ / 100_000_000_000_000_000
            - 20 <= d <= 3 * x@ + 3,
{
    let w = WAD as int;
    let b = x@;
    let y = (b, b, b);
    let s = 3 * b;
    lemma_plus(b, b);
    lemma_plus(2 * b, b);
    lemma_first_within_3(y, s);
    lemma_first_even_3(b, s);
    let d = newton_d_3_guess(y, s, 0);
    let v = lemma_within_3(ann@, gamma@, y, d);
    lemma_k0_3(y, d);
    let k = k0_3_at(y, d);
    if k < w {
        // k is short of one by less than ten
        let d3 = d * d * d;
        assert(d3 <= s * s * s + 10 * (s * s)) by (nonlinear_arith)
            requires
                d3 == d * d * d,
                1 <= d <= s + 3,
                s >= 3_000_000_000_000_000_000,
        {
            let f = s + 3;
            assert(d * d <= f * f) by (nonlinear_arith)
                requires
                    1 <= d <= f,
            ;
            assert((d * d) * d <= (f * f) * f) by (nonlinear_arith)
                requires
                    1 <= d <= f,
                    0 <= d * d <= f * f,
            ;
            assert(0 <= d * d) by (nonlinear_arith);
            assert((f * f) * f == s * s * s + 9 * (s * s) + 27 * s + 27) by (nonlinear_arith)
                requires
                    f == s + 3,
            ;
            assert(s * s >= 27 * s + 27) by (nonlinear_arith)
                requires
                    s >= 3_000_000_000_000_000_000,
            ;
        }
        let s2 = s * s;
        assert(27 * (b * b * b) == s2 * s) by (nonlinear_arith)
            requires
                s == 3 * b,
                s2 == s * s,
        ;
        assert(k + 10 >= w) by (nonlinear_arith)
            requires
                (s2 * s) * w <= (k + 6) * d3,
                0 <= d3 <= s2 * s + 10 * s2,
                s2 == s * s,
                0 <= k < w,
                w == 1_000_000_000_000_000_000,
                s >= 3_000_000_000_000_000_000,
        {
            let j = k + 6;
            assert(j * d3 <= j * (s2 * s + 10 * s2)) by (nonlinear_arith)
                requires
                    0 <= j,
                    d3 <= s2 * s + 10 * s2,
            ;
            assert(j * (s2 * s + 10 * s2) == (j * (s + 10)) * s2) by (nonlinear_arith);
            assert((s2 * s) * w == (s * w) * s2) by (nonlinear_arith);
            assert(s2 >= 1) by (nonlinear_arith)
                requires
                    s2 == s * s,
                    s >= 1,
            ;
            assert(s * w <= j * (s + 10)) by (nonlinear_arith)
                requires
                    (s * w) * s2 <= (j * (s + 10)) * s2,
                    s2 >= 1,
            ;
            if j <= w - 4 {
                assert(j * (s + 10) <= (w - 4) * (s + 10)) by (nonlinear_arith)
                    requires
                        j <= w - 4,
                        s >= 0,
                ;
                assert((w - 4) * (s + 10) == s * w - 4 * s + 10 * w - 40) by (nonlinear_arith);
            }
        }
        assert(3 * (w * (d - v - 5)) <= 10 * d) by (nonlinear_arith)
            requires
                (d - v - 5) * 3 * w <= d * (w - k),
                w - k <= 10,
                0 <= d,
        {
            assert(d * (w - k) <= 10 * d) by (nonlinear_arith)
                requires
                    w - k <= 10,
                    0 <= d,
            ;
            assert((d - v - 5) * 3 * w == 3 * (w * (d - v - 5))) by (nonlinear_arith);
        }
    }
    // the first step is small
    let diff = if v > d {
        lemma_minus(v, d);
        v - d
    } else {
        lemma_minus(d, v);
        d - v
    };
    lemma_times(diff, 100_000_000_000_000);
    assert(newton_d_step(3, ann@, gamma@, s, k, d) == Ok::<_, Fault>(Step::Done(v)));
    assert(newton_d_3_run(ann@, gamma@, y, s, d, MAX_ITERATIONS as nat) == Ok::<_, Fault>(Some(v)));
    // the shares are a third
    lemma_times(b, w);
    lemma_over(b * w, v);
    lemma_quotient(b * w, v);
    let share = (b * w) / v;
    assert(300_000_000_000_000_000 <= share <= 400_000_000_000_000_000) by (nonlinear_arith)
        requires
            share * v <= b * w < (share + 1) * v,
            w == 1_000_000_000_000_000_000,
            26 * b <= 10 * v <= 31 * b,
            1 <= b,
    ;
}

} // verus!
