//! The two-coin CryptoSwap solver.
pub use crate::cubic::fdiv;
pub use crate::newton::{A_MULTIPLIER, FEE_DENOMINATOR, WAD};
pub use crate::roots::{cbrt, isqrt, snekmate_log_2};
use crate::bounds::{
    leads_to, lemma_d_step, lemma_gap_even, lemma_mul1_even, lemma_quotient, lemma_step_even,
    terms_of,
};
use crate::coins::{get2, pair, set2, sorted2};
use crate::cubic::{
    cubic_outcome, signed_cbrt, signed_cbrt_model, signed_option, signed_outcome, solution, ten,
    ten_to, Cubic,
};
use crate::fault::Fault;
use crate::growth::{converged_at, lemma_growth, lemma_k0_ratio, lemma_part_larger};
use crate::newton::{
    g1k0, mul1_model, newton_d_next, newton_d_step, newton_y_loop, newton_y_run, newton_y_step, outcome, quantity, Step, MAX_ITERATIONS,
};
use crate::roots::{cbrt_model, isqrt_floor, lemma_isqrt_floor, try_isqrt};
use crate::signed::{fits, half, lemma_signed_range, magnitude, SignedWord, I256};
use crate::uint::{
    distance, larger, lemma_minus, lemma_over, lemma_plus, lemma_times, lemma_word_range, modulus, smaller, Word,
    U256,
};
use vstd::prelude::*;

verus! {

/// The balance of coin `i` that Newton's method finds from the balance of the other coin, given
/// the invariant `d`. `lim_mul` bounds how far the other balance may lie from an even share.
pub open spec fn newton_y_2_model(
    ann: int,
    gamma: int,
    x: (int, int),
    d: int,
    i: int,
    lim_mul: int,
) -> Result<Option<int>, Fault> {
    let x_j = get2(x, 1 - i);
    let k0_i = (WAD as int).times(2).times(x_j).over(d);
    if i > 1 || x_j.times(4) == 0 || d == 0 || lim_mul == 0 {
        Err(Fault)
    } else if k0_i < 1_000_000_000_000_000_000_000_000_000_000_000_000int.over(lim_mul) || k0_i
        > lim_mul {
        Ok(None)
    } else {
        newton_y_run(
            2,
            ann,
            gamma,
            x_j,
            k0_i,
            d,
            larger(
                larger(x_j.over(100_000_000_000_000), d.over(100_000_000_000_000)),
                100,
            ),
            d.times(d).over(x_j.times(4)),
            MAX_ITERATIONS as nat,
        )
    }
}

/// The balance of coin `i` by Newton's method, or a fault where [`newton_y_2_ng`] is not defined.
pub fn try_newton_y_2_ng(
    ann: U256,
    gamma: U256,
    x: [U256; 2],
    d: U256,
    i: usize,
    lim_mul: U256,
) -> (r: Result<Option<U256>, Fault>)
    ensures
        outcome(r) == newton_y_2_model(ann@, gamma@, pair(x), d@, i as int, lim_mul@),
{
    if i > 1 {
        return Err(Fault);
    }
    let n = U256::from(2u64);
    let x_j = x[1 - i];
    let y = (d * d).div_by(x_j * U256::from(4u64))?;
    let k0_i = (U256::from(WAD) * n * x_j).div_by(d)?;
    let least = U256::from(1_000_000_000_000_000_000_000_000_000_000_000_000u128).div_by(lim_mul)?;
    if k0_i < least || k0_i > lim_mul {
        return Ok(None);
    }
    let limit = (x_j / U256::from(100_000_000_000_000u64)).max(
        d / U256::from(100_000_000_000_000u64),
    ).max(U256::from(100u64));
    newton_y_loop(n, ann, gamma, x_j, k0_i, d, limit, y)
}

/// The balance of coin `i` by Newton's method: `None` where the other balance is too far from an
/// even share, or where the iteration does not converge.
pub fn newton_y_2_ng(
    ann: U256,
    gamma: U256,
    x: [U256; 2],
    d: U256,
    i: usize,
    lim_mul: U256,
) -> (r: Option<U256>)
    requires
        newton_y_2_model(ann@, gamma@, pair(x), d@, i as int, lim_mul@) is Ok,
    ensures
        outcome(Ok(r)) == newton_y_2_model(ann@, gamma@, pair(x), d@, i as int, lim_mul@),
{
    match try_newton_y_2_ng(ann, gamma, x, d, i, lim_mul) {
        Ok(r) => r,
        Err(_) => None,
    }
}

/// How far a balance may lie from an even share: a hundred times, or less where gamma is large.
pub open spec fn lim_mul_model(gamma: int) -> int {
    let widest = 100int.times(WAD as int);
    if gamma > 20_000_000_000_000_000 {
        widest.times(20_000_000_000_000_000).over(gamma)
    } else {
        widest
    }
}

/// The value of [`lim_mul_model`].
pub fn lim_mul_of(gamma: U256) -> (r: U256)
    ensures
        r@ == lim_mul_model(gamma@),
{
    let max_gamma_small = U256::from(20_000_000_000_000_000u64);
    let widest = U256::from(100u64) * U256::from(WAD);
    if gamma > max_gamma_small {
        widest * max_gamma_small / gamma
    } else {
        widest
    }
}

/// The coefficients of the cubic whose root gives the balance that is asked for, scaled by 10^32.
pub open spec fn cubic_2(ann: int, gamma: int, d: int, x_j: int) -> Result<Cubic<int>, Fault> {
    let w = WAD as int;
    let unit = 100_000_000_000_000_000_000_000_000_000_000int;
    let gamma2 = gamma.wtimes(gamma);
    let ann_gamma2 = ann.wtimes(gamma2);
    let b1 = d.wtimes(ann_gamma2).floor(400_000_000).floor(x_j) - 3int.wtimes(unit);
    let b = b1 - 2int.wtimes(gamma).wtimes(100_000_000_000_000);
    let share = 4int.wtimes(ann_gamma2).floor(400_000_000);
    let c1 = 3int.wtimes(unit) + 4int.wtimes(gamma).wtimes(100_000_000_000_000);
    let c2 = c1 + gamma2.floor(10_000);
    let c3 = c2 + share.wtimes(x_j).floor(d);
    let c = c3 - share;
    let edge = (w + gamma).wtimes(w + gamma).wover(10_000);
    if x_j == 0 || d == 0 || !fits(b1) || !fits(b) || !fits(c1) || !fits(c2) || !fits(c3) || !fits(
        c,
    ) || !fits(w + gamma) || !fits(-edge) {
        Err(Fault)
    } else {
        Ok(Cubic { a: unit, b, c, d: -edge })
    }
}

/// The value of [`cubic_2`].
pub fn coefficients_2(ann: I256, gamma: I256, d: I256, x_j: I256) -> (r: Result<
    Cubic<I256>,
    Fault,
>)
    requires
        0 <= d@,
        0 <= x_j@,
    ensures
        cubic_outcome(r) == cubic_2(ann@, gamma@, d@, x_j@),
{
    let w = I256::from_u128(WAD as u128);
    let unit = I256::from_u128(100_000_000_000_000_000_000_000_000_000_000);
    let gamma2 = gamma.wrapping_mul(gamma);
    let ann_gamma2 = ann.wrapping_mul(gamma2);
    let b = fdiv(fdiv(d.wrapping_mul(ann_gamma2), I256::from_u128(400_000_000))?, x_j)?.try_sub(
        I256::from_u128(3).wrapping_mul(unit),
    )?.try_sub(
        I256::from_u128(2).wrapping_mul(gamma).wrapping_mul(I256::from_u128(100_000_000_000_000)),
    )?;
    let share = fdiv(I256::from_u128(4).wrapping_mul(ann_gamma2), I256::from_u128(400_000_000))?;
    let c = I256::from_u128(3).wrapping_mul(unit).try_add(
        I256::from_u128(4).wrapping_mul(gamma).wrapping_mul(I256::from_u128(100_000_000_000_000)),
    )?.try_add(fdiv(gamma2, I256::from_u128(10_000))?)?.try_add(
        fdiv(share.wrapping_mul(x_j), d)?,
    )?.try_sub(share)?;
    let reach = w.try_add(gamma)?;
    let edge = reach.wrapping_mul(reach).wrapping_div(I256::from_u128(10_000))?;
    Ok(Cubic { a: unit, b, c, d: edge.try_neg()? })
}

/// What the coefficients are divided by, for a cubic of size `t`, so that the products stay small.
pub open spec fn ladder_2(t: int) -> int {
    if t > ten(48) {
        ten(30)
    } else if t > ten(46) {
        ten(28)
    } else if t > ten(44) {
        ten(26)
    } else if t > ten(42) {
        ten(24)
    } else if t > ten(40) {
        ten(22)
    } else if t > ten(38) {
        ten(20)
    } else if t > ten(36) {
        ten(18)
    } else if t > ten(34) {
        ten(16)
    } else if t > ten(32) {
        ten(14)
    } else if t > ten(30) {
        ten(12)
    } else if t > ten(28) {
        ten(10)
    } else if t > ten(26) {
        ten(8)
    } else if t > ten(24) {
        ten(6)
    } else if t > ten(20) {
        ten(2)
    } else {
        1
    }
}

/// The value of [`ladder_2`].
pub fn scale_2(t: I256) -> (r: I256)
    ensures
        r@ == ladder_2(t@),
        r@ > 0,
{
    if t > ten_to(48) {
        ten_to(30)
    } else if t > ten_to(46) {
        ten_to(28)
    } else if t > ten_to(44) {
        ten_to(26)
    } else if t > ten_to(42) {
        ten_to(24)
    } else if t > ten_to(40) {
        ten_to(22)
    } else if t > ten_to(38) {
        ten_to(20)
    } else if t > ten_to(36) {
        ten_to(18)
    } else if t > ten_to(34) {
        ten_to(16)
    } else if t > ten_to(32) {
        ten_to(14)
    } else if t > ten_to(30) {
        ten_to(12)
    } else if t > ten_to(28) {
        ten_to(10)
    } else if t > ten_to(26) {
        ten_to(8)
    } else if t > ten_to(24) {
        ten_to(6)
    } else if t > ten_to(20) {
        ten_to(2)
    } else {
        I256::from_u128(1)
    }
}

/// What the coefficients of a cubic are divided by: [`ladder_2`] of the smallest of `|delta0|`,
/// `|delta1|` and `a`.
pub open spec fn divider_2(q: Cubic<int>) -> Result<int, Fault> {
    let ac = 3int.wtimes(q.a).wtimes(q.c);
    let delta0 = ac.floor(q.b) - q.b;
    let aa = 27int.wtimes(q.a).wtimes(q.a);
    let aad = aa.floor(q.b).wtimes(q.d);
    let sum = 3int.wtimes(delta0) + q.b;
    let delta1 = sum - aad.floor(q.b);
    let t = smaller(smaller(magnitude(delta0), magnitude(delta1)), q.a);
    if q.b == 0 || !fits(ac.trunc(q.b)) || !fits(delta0) || !fits(aa.trunc(q.b)) || !fits(sum)
        || !fits(aad.trunc(q.b)) || !fits(delta1) || !fits(magnitude(delta0)) || !fits(
        magnitude(delta1),
    ) || !fits(magnitude(t)) {
        Err(Fault)
    } else {
        Ok(ladder_2(magnitude(t)))
    }
}

/// The value of [`divider_2`].
pub fn divider_of_2(q: &Cubic<I256>) -> (r: Result<I256, Fault>)
    ensures
        signed_outcome(r) == divider_2(q@),
        r matches Ok(v) ==> v@ > 0,
{
    let delta0 = fdiv(I256::from_u128(3).wrapping_mul(q.a).wrapping_mul(q.c), q.b)?.try_sub(q.b)?;
    let sum = I256::from_u128(3).wrapping_mul(delta0).try_add(q.b)?;
    let delta1 = sum.try_sub(
        fdiv(
            fdiv(I256::from_u128(27).wrapping_mul(q.a).wrapping_mul(q.a), q.b)?.wrapping_mul(q.d),
            q.b,
        )?,
    )?;
    let t = delta0.try_abs()?.min(delta1.try_abs()?).min(q.a);
    Ok(scale_2(t.try_abs()?))
}

/// The coefficients divided by `divider`.
pub open spec fn reduced_2(q: Cubic<int>, divider: int) -> Cubic<int> {
    Cubic {
        a: q.a.wover(divider),
        b: q.b.wover(divider),
        c: q.c.wover(divider),
        d: q.d.wover(divider),
    }
}

/// `delta0`, `delta1` and the number whose square root the solution takes.
pub open spec fn discriminant_2(q: Cubic<int>) -> Result<(int, int, int), Fault> {
    let delta0 = 3int.wtimes(q.a).wtimes(q.c).wover(q.b) - q.b;
    let sum = 3int.wtimes(delta0) + q.b;
    let delta1 = sum - 27int.wtimes(q.a.wtimes(q.a)).wover(q.b).wtimes(q.d).wover(q.b);
    let square = delta1.wtimes(delta1) + 4int.wtimes(delta0.wtimes(delta0)).wover(q.b).wtimes(
        delta0,
    );
    if q.b == 0 || !fits(delta0) || !fits(sum) || !fits(delta1) || !fits(square) {
        Err(Fault)
    } else {
        Ok((delta0, delta1, square))
    }
}

/// The value of [`discriminant_2`].
pub fn discriminant_of_2(q: &Cubic<I256>) -> (r: Result<(I256, I256, I256), Fault>)
    ensures
        discriminant_2(q@) == match r {
            Ok((x, y, z)) => Ok::<(int, int, int), Fault>((x@, y@, z@)),
            Err(e) => Err(e),
        },
{
    let three = I256::from_u128(3);
    let delta0 = three.wrapping_mul(q.a).wrapping_mul(q.c).wrapping_div(q.b)?.try_sub(q.b)?;
    let delta1 = three.wrapping_mul(delta0).try_add(q.b)?.try_sub(
        I256::from_u128(27).wrapping_mul(q.a.wrapping_mul(q.a)).wrapping_div(q.b)?.wrapping_mul(
            q.d,
        ).wrapping_div(q.b)?,
    )?;
    let square = delta1.wrapping_mul(delta1).try_add(
        I256::from_u128(4).wrapping_mul(delta0.wrapping_mul(delta0)).wrapping_div(
            q.b,
        )?.wrapping_mul(delta0),
    )?;
    Ok((delta0, delta1, square))
}

/// The cube root of half of `|delta1| + root`, with the sign of `delta1`.
pub open spec fn second_cbrt_2(delta1: int, root: int) -> Option<int> {
    let twice = if delta1 > 0 {
        delta1.wplus(root)
    } else {
        root.wminus(delta1)
    };
    let m = cbrt_model(twice.over(2));
    if twice < 0 || m >= half() {
        None
    } else if delta1 > 0 {
        Some(m)
    } else {
        Some(-m)
    }
}

/// The value of [`second_cbrt_2`].
pub fn second_cbrt_of_2(delta1: I256, root: I256) -> (r: Result<Option<I256>, Fault>)
    ensures
        signed_option(r) == Ok::<_, Fault>(second_cbrt_2(delta1@, root@)),
{
    broadcast use lemma_word_range;

    let positive = delta1 > I256::zero();
    let twice = if positive {
        delta1.wrapping_add(root)
    } else {
        root.wrapping_sub(delta1)
    };
    match twice.to_unsigned() {
        Some(v) => match I256::from_unsigned(cbrt(v / U256::from(2u64))) {
            Some(m) => if positive {
                Ok(Some(m))
            } else {
                Ok(Some(m.try_neg()?))
            },
            None => Ok(None),
        },
        None => Ok(None),
    }
}

/// The product of the two cube roots of the solution.
pub open spec fn c1_2(b: int, delta1: int, root: int) -> Result<Option<int>, Fault> {
    let w = WAD as int;
    match signed_cbrt_model(b) {
        Err(e) => Err(e),
        Ok(None) => Ok(None),
        Ok(Some(first)) => match second_cbrt_2(delta1, root) {
            None => Ok(None),
            Some(second) => Ok(Some(first.wtimes(first).wover(w).wtimes(second).wover(w))),
        },
    }
}

/// The value of [`c1_2`].
pub fn c1_of_2(b: I256, delta1: I256, root: I256) -> (r: Result<Option<I256>, Fault>)
    ensures
        signed_option(r) == c1_2(b@, delta1@, root@),
{
    let w = I256::from_u128(WAD as u128);
    match signed_cbrt(b)? {
        None => Ok(None),
        Some(first) => match second_cbrt_of_2(delta1, root)? {
            None => Ok(None),
            Some(second) => Ok(
                Some(
                    first.wrapping_mul(first).wrapping_div(w)?.wrapping_mul(second).wrapping_div(
                        w,
                    )?,
                ),
            ),
        },
    }
}

/// The root of the cubic, in units of 10^18.
pub open spec fn root_2(q: Cubic<int>, delta0: int, c1: int) -> Result<int, Fault> {
    let w = WAD as int;
    let first = w.wtimes(c1) - w.wtimes(q.b);
    let second = first - w.wtimes(q.b).wover(c1).wtimes(delta0);
    let below = 3int.wtimes(q.a);
    if c1 == 0 || below == 0 || !fits(first) || !fits(second) || !fits(second.trunc(below)) {
        Err(Fault)
    } else {
        Ok(second.floor(below))
    }
}

/// The value of [`root_2`].
pub fn root_of_2(q: &Cubic<I256>, delta0: I256, c1: I256) -> (r: Result<I256, Fault>)
    ensures
        signed_outcome(r) == root_2(q@, delta0@, c1@),
{
    let w = I256::from_u128(WAD as u128);
    let first = w.wrapping_mul(c1).try_sub(w.wrapping_mul(q.b))?;
    let second = first.try_sub(w.wrapping_mul(q.b).wrapping_div(c1)?.wrapping_mul(delta0))?;
    fdiv(second, I256::from_u128(3).wrapping_mul(q.a))
}

/// The balance that belongs to the root of the cubic, and the root itself; nothing where either is
/// negative or where the balance is too far from an even share.
pub open spec fn settled_2(d: int, x_j: int, root: int, lim_mul: int) -> Option<(int, int)> {
    let y = d.wtimes(d).wover(x_j).wtimes(root).wover(4).wover(WAD as int);
    let frac = y.times(WAD as int).over(d);
    if y < 0 || root < 0 || frac
        < 1_000_000_000_000_000_000_000_000_000_000_000_000int.over(2).over(lim_mul) || frac
        > lim_mul.over(2) {
        None
    } else {
        Some((y, root))
    }
}

/// The value of [`settled_2`].
pub fn settle_2(d: U256, d_s: I256, x_j: I256, root: I256, lim_mul: U256) -> (r: Result<
    Option<(U256, U256)>,
    Fault,
>)
    requires
        d@ == d_s@,
        d@ != 0,
        x_j@ != 0,
        lim_mul@ != 0,
    ensures
        solution(r) == Ok::<_, Fault>(settled_2(d@, x_j@, root@, lim_mul@)),
{
    let y_s = d_s.wrapping_mul(d_s).wrapping_div(x_j)?.wrapping_mul(root).wrapping_div(
        I256::from_u128(4),
    )?.wrapping_div(I256::from_u128(WAD as u128))?;
    match y_s.to_unsigned() {
        None => Ok(None),
        Some(y) => match root.to_unsigned() {
            None => Ok(None),
            Some(k0_prev) => {
                let frac = y * U256::from(WAD) / d;
                let two = U256::from(2u64);
                let e36 = U256::from(1_000_000_000_000_000_000_000_000_000_000_000_000u128);
                if frac < e36 / two / lim_mul || frac > lim_mul / two {
                    Ok(None)
                } else {
                    Ok(Some((y, k0_prev)))
                }
            },
        },
    }
}

/// The solution from the cubic with the coefficients `q`; where the cubic has no single real root,
/// the solution that Newton's method finds.
pub open spec fn solved_2(
    q: Cubic<int>,
    ann: int,
    gamma: int,
    x: (int, int),
    d: int,
    i: int,
    lim_mul: int,
) -> Result<Option<(int, int)>, Fault> {
    match discriminant_2(q) {
        Err(e) => Err(e),
        Ok((delta0, delta1, square)) => if square <= 0 {
            match newton_y_2_model(ann, gamma, x, d, i, lim_mul) {
                Err(e) => Err(e),
                Ok(None) => Ok(None),
                Ok(Some(y)) => Ok(Some((y, 0))),
            }
        } else {
            match c1_2(q.b, delta1, isqrt_floor(square)) {
                Err(e) => Err(e),
                Ok(None) => Ok(None),
                Ok(Some(c1)) => match root_2(q, delta0, c1) {
                    Err(e) => Err(e),
                    Ok(root) => Ok(settled_2(d, get2(x, 1 - i), root, lim_mul)),
                },
            }
        },
    }
}

/// The balance of coin `i` that keeps the invariant at `d`, from the balance of the other coin,
/// and the hint for the next calculation of `d`.
pub open spec fn get_y_2_model(ann: int, gamma: int, x: (int, int), d: int, i: int) -> Result<
    Option<(int, int)>,
    Fault,
> {
    let lim_mul = lim_mul_model(gamma);
    let x_j = get2(x, 1 - i);
    let k0_i = (WAD as int).wtimes(2).wtimes(x_j).floor(d);
    if ann >= half() || gamma >= half() || d >= half() {
        Ok(None)
    } else if i > 1 {
        Err(Fault)
    } else if x_j >= half() {
        Ok(None)
    } else if d == 0 {
        Err(Fault)
    } else if lim_mul >= half() {
        Ok(None)
    } else if lim_mul == 0 {
        Err(Fault)
    } else if k0_i < 1_000_000_000_000_000_000_000_000_000_000_000_000int.floor(lim_mul) || k0_i
        > lim_mul {
        Ok(None)
    } else {
        match cubic_2(ann, gamma, d, x_j) {
            Err(e) => Err(e),
            Ok(q) => match divider_2(q) {
                Err(e) => Err(e),
                Ok(divider) => solved_2(
                    reduced_2(q, divider),
                    ann,
                    gamma,
                    x,
                    d,
                    i,
                    lim_mul,
                ),
            },
        }
    }
}

/// The solution from a cubic: see [`solved_2`].
pub fn solve_2(
    q: &Cubic<I256>,
    ann: U256,
    gamma: U256,
    x: [U256; 2],
    d: U256,
    i: usize,
    lim_mul: U256,
) -> (r: Result<Option<(U256, U256)>, Fault>)
    requires
        i <= 1,
        0 < d@ < half(),
        0 < get2(pair(x), 1 - i) < half(),
        lim_mul@ != 0,
    ensures
        solution(r) == solved_2(q@, ann@, gamma@, pair(x), d@, i as int, lim_mul@),
{
    let (delta0, delta1, square) = discriminant_of_2(q)?;
    if square <= I256::zero() {
        return match try_newton_y_2_ng(ann, gamma, x, d, i, lim_mul)? {
            None => Ok(None),
            Some(y) => Ok(Some((y, U256::zero()))),
        };
    }
    match (square.to_unsigned(), I256::from_unsigned(d), I256::from_unsigned(x[1 - i])) {
        (Some(v), Some(d_s), Some(x_j)) => {
            proof {
                lemma_signed_range(square);
            }
            let sqrt = isqrt(v);
            proof {
                lemma_word_range(sqrt);
                assert(sqrt@ <= v@) by (nonlinear_arith)
                    requires
                        0 <= sqrt@,
                        sqrt@ * sqrt@ <= v@,
                {
                    assert(sqrt@ == 0 || sqrt@ * sqrt@ >= sqrt@);
                }
            }
            match I256::from_unsigned(sqrt) {
                None => Ok(None),
                Some(root) => match c1_of_2(q.b, delta1, root)? {
                    None => Ok(None),
                    Some(c1) => {
                        let root = root_of_2(q, delta0, c1)?;
                        settle_2(d, d_s, x_j, root, lim_mul)
                    },
                },
            }
        },
        _ => Err(Fault),
    }
}

/// The balance of coin `i`, or a fault where [`get_y_2_ng`] is not defined.
pub fn try_get_y_2_ng(ann: U256, gamma: U256, x: [U256; 2], d: U256, i: usize) -> (r: Result<
    Option<(U256, U256)>,
    Fault,
>)
    ensures
        solution(r) == get_y_2_model(ann@, gamma@, pair(x), d@, i as int),
{
    broadcast use lemma_word_range;

    let lim_mul = lim_mul_of(gamma);
    let ann_s = match I256::from_unsigned(ann) {
        Some(v) => v,
        None => return Ok(None),
    };
    let gamma_s = match I256::from_unsigned(gamma) {
        Some(v) => v,
        None => return Ok(None),
    };
    let d_s = match I256::from_unsigned(d) {
        Some(v) => v,
        None => return Ok(None),
    };
    if i > 1 {
        return Err(Fault);
    }
    let x_j = match I256::from_unsigned(x[1 - i]) {
        Some(v) => v,
        None => return Ok(None),
    };
    let w = I256::from_u128(WAD as u128);
    let k0_i = fdiv(w.wrapping_mul(I256::from_u128(2)).wrapping_mul(x_j), d_s)?;
    let lim_mul_s = match I256::from_unsigned(lim_mul) {
        Some(v) => v,
        None => return Ok(None),
    };
    let least = fdiv(
        I256::from_u128(1_000_000_000_000_000_000_000_000_000_000_000_000),
        lim_mul_s,
    )?;
    if k0_i < least || k0_i > lim_mul_s {
        return Ok(None);
    }
    let q = coefficients_2(ann_s, gamma_s, d_s, x_j)?;
    let divider = divider_of_2(&q)?;
    let reduced = Cubic {
        a: q.a.wrapping_div(divider)?,
        b: q.b.wrapping_div(divider)?,
        c: q.c.wrapping_div(divider)?,
        d: q.d.wrapping_div(divider)?,
    };
    solve_2(&reduced, ann, gamma, x, d, i, lim_mul)
}

/// The balance of coin `i` that keeps the invariant at `d`, and the hint for the next calculation
/// of `d`, which is zero where the balance comes from Newton's method. `None` where a balance is
/// too far from an even share, where a number does not fit or where the iteration does not
/// converge.
pub fn get_y_2_ng(ann: U256, gamma: U256, x: [U256; 2], d: U256, i: usize) -> (r: Option<
    (U256, U256),
>)
    requires
        get_y_2_model(ann@, gamma@, pair(x), d@, i as int) is Ok,
    ensures
        solution(Ok(r)) == get_y_2_model(ann@, gamma@, pair(x), d@, i as int),
{
    match try_get_y_2_ng(ann, gamma, x, d, i) {
        Ok(r) => r,
        Err(_) => None,
    }
}

/// What the iteration toward `D` starts from, for sorted balances with the sum `s`.
pub open spec fn newton_d_2_guess(x: (int, int), s: int, k0_prev: int) -> Result<int, Fault> {
    let radicand = if k0_prev == 0 {
        x.0.times(x.1)
    } else {
        4int.times(x.0).times(x.1).over(k0_prev).times(WAD as int)
    };
    if radicand == modulus() - 1 {
        Err(Fault)
    } else if k0_prev == 0 {
        Ok(2int.times(isqrt_floor(radicand)))
    } else {
        Ok(smaller(isqrt_floor(radicand), s))
    }
}

/// `K0` at `d`: how even the balances are with respect to `d`, in units of 10^18.
pub open spec fn k0_at(x: (int, int), d: int) -> int {
    (WAD as int).times(2).times(2).times(x.0).over(d).times(x.1).over(d)
}

/// Up to `fuel` steps toward `D`, until one converges.
pub open spec fn newton_d_2_run(
    ann: int,
    gamma: int,
    x: (int, int),
    s: int,
    d: int,
    fuel: nat,
) -> Result<Option<int>, Fault>
    decreases fuel,
{
    if fuel == 0 || d == 0 {
        Ok(None)
    } else {
        match newton_d_step(2, ann, gamma, s, k0_at(x, d), d) {
            Err(e) => Err(e),
            Ok(Step::Stuck) => Ok(None),
            Ok(Step::Done(v)) => Ok(Some(v)),
            Ok(Step::Next(v)) => newton_d_2_run(ann, gamma, x, s, v, (fuel - 1) as nat),
        }
    }
}

/// Whether the share of a balance `v` in `d` is within the bounds of the invariant.
pub open spec fn share_2(v: int, d: int) -> bool {
    5_000_000_000_000_000 <= v.times(WAD as int).over(d) <= 50_000_000_000_000_000_000
}

/// The invariant `D` of the balances `x`.
pub open spec fn newton_d_2_model(ann: int, gamma: int, x: (int, int), k0_prev: int) -> Result<
    Option<int>,
    Fault,
> {
    let y = sorted2(x);
    let s = y.0.plus(y.1);
    if y.0 < 1_000_000_000 || y.0 > 1_000_000_000_000_000_000_000_000_000_000_000 {
        Ok(None)
    } else if y.1.times(WAD as int).over(y.0) < 100_000_000_000_000 {
        Ok(None)
    } else {
        match newton_d_2_guess(y, s, k0_prev) {
            Err(e) => Err(e),
            Ok(first) => match newton_d_2_run(ann, gamma, y, s, first, MAX_ITERATIONS as nat) {
                Err(e) => Err(e),
                Ok(None) => Ok(None),
                Ok(Some(d)) => if d == 0 {
                    Err(Fault)
                } else if share_2(y.0, d) && share_2(y.1, d) {
                    Ok(Some(d))
                } else {
                    Ok(None)
                },
            },
        }
    }
}

/// The value of [`newton_d_2_guess`].
pub fn first_d_2(x: [U256; 2], s: U256, k0_prev: U256) -> (r: Result<U256, Fault>)
    ensures
        quantity(r) == newton_d_2_guess(pair(x), s@, k0_prev@),
{
    if k0_prev.is_zero() {
        let root = try_isqrt(x[0] * x[1])?;
        Ok(U256::from(2u64) * root)
    } else {
        let inner = U256::from(4u64) * x[0] * x[1] / k0_prev * U256::from(WAD);
        Ok(try_isqrt(inner)?.min(s))
    }
}

/// The iteration toward `D`: see [`newton_d_2_run`].
pub fn newton_d_2_loop(ann: U256, gamma: U256, x: [U256; 2], s: U256, first: U256) -> (r: Result<
    Option<U256>,
    Fault,
>)
    ensures
        outcome(r) == newton_d_2_run(
            ann@,
            gamma@,
            pair(x),
            s@,
            first@,
            MAX_ITERATIONS as nat,
        ),
{
    let mut d: U256 = first;
    let mut left: u32 = MAX_ITERATIONS;
    while left > 0
        invariant
            newton_d_2_run(ann@, gamma@, pair(x), s@, d@, left as nat) == newton_d_2_run(
                ann@,
                gamma@,
                pair(x),
                s@,
                first@,
                MAX_ITERATIONS as nat,
            ),
        decreases left,
    {
        if d.is_zero() {
            return Ok(None);
        }
        let n = U256::from(2u64);
        let k0 = U256::from(WAD) * n * n * x[0] / d * x[1] / d;
        match newton_d_next(n, ann, gamma, s, k0, d)? {
            Step::Stuck => {
                return Ok(None);
            },
            Step::Done(v) => {
                return Ok(Some(v));
            },
            Step::Next(v) => {
                d = v;
            },
        }
        left = left - 1;
    }
    Ok(None)
}

/// The invariant `D`, or a fault where [`newton_d`] is not defined.
pub fn try_newton_d(ann: U256, gamma: U256, x_unsorted: [U256; 2], k0_prev: U256) -> (r: Result<
    Option<U256>,
    Fault,
>)
    ensures
        outcome(r) == newton_d_2_model(ann@, gamma@, pair(x_unsorted), k0_prev@),
{
    let x = if x_unsorted[0] < x_unsorted[1] {
        [x_unsorted[1], x_unsorted[0]]
    } else {
        x_unsorted
    };
    assert(pair(x) == sorted2(pair(x_unsorted)));
    let w = U256::from(WAD);
    if x[0] < U256::from(1_000_000_000u64) || x[0] > U256::from(
        1_000_000_000_000_000_000_000_000_000_000_000u128,
    ) {
        return Ok(None);
    }
    if x[1] * w / x[0] < U256::from(100_000_000_000_000u64) {
        return Ok(None);
    }
    let s = x[0] + x[1];
    let first = first_d_2(x, s, k0_prev)?;
    match newton_d_2_loop(ann, gamma, x, s, first)? {
        None => Ok(None),
        Some(d) => {
            let min_frac = U256::from(5_000_000_000_000_000u64);
            let max_frac = U256::from(50_000_000_000_000_000_000u128);
            let frac0 = (x[0] * w).div_by(d)?;
            if frac0 < min_frac || frac0 > max_frac {
                return Ok(None);
            }
            let frac1 = (x[1] * w).div_by(d)?;
            if frac1 < min_frac || frac1 > max_frac {
                return Ok(None);
            }
            Ok(Some(d))
        },
    }
}

/// The invariant `D` of the balances by Newton's method, in units of 10^18: `ann` is the
/// amplification coefficient times `N^N`, scaled by [`A_MULTIPLIER`], and `k0_prev` is a hint for the
/// first guess, or zero. `None` where the balances are out of bounds or too uneven, or where the
/// iteration does not converge.
pub fn newton_d(ann: U256, gamma: U256, x_unsorted: [U256; 2], k0_prev: U256) -> (r: Option<U256>)
    requires
        newton_d_2_model(ann@, gamma@, pair(x_unsorted), k0_prev@) is Ok,
    ensures
        outcome(Ok(r)) == newton_d_2_model(ann@, gamma@, pair(x_unsorted), k0_prev@),
        r matches Some(d) ==> d@ != 0 && share_2(x_unsorted[0]@, d@) && share_2(
            x_unsorted[1]@,
            d@,
        ),
{
    match try_newton_d(ann, gamma, x_unsorted, k0_prev) {
        Ok(r) => r,
        Err(_) => None,
    }
}

/// Whether a step of the iteration toward `D` of the sorted balances `x` makes `d` out of `e`, and
/// the two differ by less than the tolerance.
pub open spec fn settles_2(ann: int, gamma: int, x: (int, int), e: int, d: int) -> bool {
    &&& e != 0
    &&& newton_d_step(2, ann, gamma, x.0.plus(x.1), k0_at(x, e), e) == Ok::<_, Fault>(
        Step::Done(d),
    )
    &&& distance(d, e).times(100_000_000_000_000) < larger(10_000_000_000_000_000, d)
}

/// Whether `d` is what a step of the iteration toward `D` of the sorted balances `x` makes of a number
/// that differs from it by less than the tolerance.
pub open spec fn settled_d_2(ann: int, gamma: int, x: (int, int), d: int) -> bool {
    exists|e: int| settles_2(ann, gamma, x, e, d)
}

proof fn lemma_newton_d_2_run(ann: int, gamma: int, x: (int, int), d: int, fuel: nat)
    ensures
        newton_d_2_run(ann, gamma, x, x.0.plus(x.1), d, fuel) matches Ok(Some(v)) ==> settled_d_2(
            ann,
            gamma,
            x,
            v,
        ),
    decreases fuel,
{
    if fuel > 0 && d != 0 {
        match newton_d_step(2, ann, gamma, x.0.plus(x.1), k0_at(x, d), d) {
            Ok(Step::Next(v)) => {
                lemma_newton_d_2_run(ann, gamma, x, v, (fuel - 1) as nat);
            },
            Ok(Step::Done(v)) => {
                assert(settles_2(ann, gamma, x, d, v));
            },
            _ => {},
        }
    }
}

/// An invariant that is found is what a step of the iteration makes of a number that differs from it by
/// less than the tolerance.
pub proof fn law_newton_d_converged(ann: U256, gamma: U256, x: [U256; 2], k0_prev: U256)
    ensures
        newton_d_2_model(ann@, gamma@, pair(x), k0_prev@) matches Ok(Some(d)) ==> settled_d_2(
            ann@,
            gamma@,
            sorted2(pair(x)),
            d,
        ),
{
    let y = sorted2(pair(x));
    if let Ok(first) = newton_d_2_guess(y, y.0.plus(y.1), k0_prev@) {
        lemma_newton_d_2_run(ann@, gamma@, y, first, MAX_ITERATIONS as nat);
    }
}

/// The balance of a coin does not depend on what the pool holds of it.
pub proof fn law_y_from_the_other(
    ann: U256,
    gamma: U256,
    x: [U256; 2],
    v: U256,
    d: U256,
    i: usize,
    lim_mul: U256,
)
    requires
        i < 2,
    ensures
        newton_y_2_model(ann@, gamma@, pair(x), d@, i as int, lim_mul@) == newton_y_2_model(
            ann@,
            gamma@,
            set2(pair(x), i as int, v@),
            d@,
            i as int,
            lim_mul@,
        ),
        get_y_2_model(ann@, gamma@, pair(x), d@, i as int) == get_y_2_model(
            ann@,
            gamma@,
            set2(pair(x), i as int, v@),
            d@,
            i as int,
        ),
{
}

/// The invariant does not depend on the order of the coins.
pub proof fn law_newton_d_symmetric(ann: U256, gamma: U256, x: [U256; 2], k0_prev: U256)
    ensures
        newton_d_2_model(ann@, gamma@, (x[0]@, x[1]@), k0_prev@) == newton_d_2_model(
            ann@,
            gamma@,
            (x[1]@, x[0]@),
            k0_prev@,
        ),
{
}

/// The invariant of an even split is the sum of the two balances.
pub proof fn law_newton_d_balanced(ann: U256, gamma: U256, x: U256)
    requires
        1 <= ann@,
        1 <= gamma@,
        1_000_000_000 <= x@ <= 1_000_000_000_000_000_000_000_000_000_000_000,
    ensures
        newton_d_2_model(ann@, gamma@, (x@, x@), 0) == Ok::<_, Fault>(Some(2 * x@)),
{
    lemma_word_range(gamma);
    let v = x@;
    let w = WAD as int;
    assert(0 <= v * v < modulus()) by (nonlinear_arith)
        requires
            0 <= v <= 1_000_000_000_000_000_000_000_000_000_000_000,
            modulus() == 0x1_0000000000000000_0000000000000000_0000000000000000_0000000000000000int,
    ;
    lemma_plus(v, v);
    lemma_times(v, w);
    lemma_over(v * w, v);
    assert((v * w) / v == w) by (nonlinear_arith)
        requires
            v > 0,
    ;
    lemma_times(v, v);
    assert(v * v < modulus() - 1) by (nonlinear_arith)
        requires
            0 <= v <= 1_000_000_000_000_000_000_000_000_000_000_000,
            modulus() == 0x1_0000000000000000_0000000000000000_0000000000000000_0000000000000000int,
    ;
    assert(v * v < (v + 1) * (v + 1)) by (nonlinear_arith)
        requires
            v >= 0,
    ;
    lemma_isqrt_floor(v * v, v);
    lemma_times(2, v);
    // K0 is one
    lemma_times(w, 2);
    lemma_times(w * 2, 2);
    lemma_times(w * 4, v);
    let d = 2 * v;
    lemma_over(w * 4 * v, d);
    assert((w * 4 * v) / d == 2 * w) by (nonlinear_arith)
        requires
            d == 2 * v,
            v > 0,
    ;
    lemma_times(2 * w, v);
    lemma_over(2 * w * v, d);
    assert((2 * w * v) / d == w) by (nonlinear_arith)
        requires
            d == 2 * v,
            v > 0,
    ;
    lemma_step_even(2, ann@, gamma@, 2 * v);
    reveal_with_fuel(newton_d_2_run, 1);
    lemma_over(v * w, d);
    assert((v * w) / d == 500_000_000_000_000_000) by (nonlinear_arith)
        requires
            d == 2 * v,
            v > 0,
            w == 1_000_000_000_000_000_000,
    ;
}

proof fn lemma_y_step_even(ann: int, gamma: int, x: int, limit: int)
    requires
        1 <= ann,
        1 <= gamma < modulus(),
        1 <= x <= 1_000_000_000_000_000_000_000_000_000_000_000,
        limit == larger(
            larger(x.over(100_000_000_000_000), (2 * x).over(100_000_000_000_000)),
            100,
        ),
    ensures
        newton_y_step(2, ann, gamma, x, WAD as int, 2 * x, limit, x) matches Ok(Step::Done(y)) && x <= y
            <= x + x / (WAD as int) + 1,
{
    let w = WAD as int;
    let d = 2 * x;
    // K0 is one
    lemma_times(w, x);
    lemma_times(w * x, 2);
    lemma_over(w * x * 2, d);
    assert((w * x * 2) / d == w) by (nonlinear_arith)
        requires
            d == 2 * x,
            x > 0,
    ;
    lemma_plus(x, x);
    let g = g1k0(gamma, w);
    lemma_gap_even(gamma, d);
    let mul1 = mul1_model(ann, gamma, d, g);
    lemma_mul1_even(ann, gamma, d, g);
    lemma_times(2, w);
    lemma_times(2 * w, w);
    lemma_over(2 * w * w, g);
    let part = (2 * w * w) / g;
    assert(0 <= part <= 2 * w * w) by (nonlinear_arith)
        requires
            part == (2 * w * w) / g,
            g >= 1,
            w >= 0,
    ;
    lemma_plus(w, part);
    let mul2 = w + part;
    let most = 8_000_000_000_000_000_000_000_000_000_000_000_000_000_000_000_000_000_000_000_000_000_000_000int;
    assert(0 <= d * mul2 <= most) by (nonlinear_arith)
        requires
            0 <= mul2 <= 3 * (w * w),
            w == 1_000_000_000_000_000_000,
            0 <= d <= 2_000_000_000_000_000_000_000_000_000_000_000,
            most
                == 8_000_000_000_000_000_000_000_000_000_000_000_000_000_000_000_000_000_000_000_000_000_000_000int,
    ;
    lemma_times(d, mul2);
    lemma_plus(w * x, d * mul2);
    lemma_plus(w * x + d * mul2, mul1);
    lemma_minus(w * x + d * mul2 + mul1, d * mul2);
    let yf = w * x + mul1;
    lemma_over(yf, x);
    let f = yf / x;
    let r = yf - f * x;
    assert(0 <= r < x && f >= w && yf == f * x + r) by (nonlinear_arith)
        requires
            f == yf / x,
            r == yf - f * x,
            yf == w * x + mul1,
            mul1 >= 0,
            x > 0,
    ;
    lemma_times(w, d);
    lemma_plus(yf, w * d);
    lemma_over(yf + w * d, f);
    lemma_over(mul1, f);
    let ym = mul1 / f;
    assert(0 <= ym <= mul1) by (nonlinear_arith)
        requires
            ym == mul1 / f,
            mul1 >= 0,
            f >= 1,
    ;
    assert(0 <= ym * w < modulus()) by (nonlinear_arith)
        requires
            0 <= ym <= 40_000 * (w * d),
            w == 1_000_000_000_000_000_000,
            0 <= d <= 2_000_000_000_000_000_000_000_000_000_000_000,
            modulus() == 0x1_0000000000000000_0000000000000000_0000000000000000_0000000000000000int,
    ;
    lemma_times(ym, w);
    lemma_over(ym * w, w);
    lemma_over(w * d, f);
    let b = (w * d) / f;
    let a = (yf + w * d) / f;
    // the two quotients differ by x and what the remainder adds
    assert(x + b <= a <= x + b + r / w + 1) by (nonlinear_arith)
        requires
            a == (yf + w * d) / f,
            b == (w * d) / f,
            yf == f * x + r,
            0 <= r,
            f >= w,
            w > 0,
            d >= 0,
    {
        let c = w * d;
        assert(f * b <= c < f * (b + 1));
        assert(f * a <= yf + c < f * (a + 1));
        let q = r / w;
        assert(r < w * (q + 1));
        assert(w * (q + 1) <= f * (q + 1));
    }
    assert(r / w <= x / w) by (nonlinear_arith)
        requires
            0 <= r < x,
            w > 0,
    ;
    assert(0 <= b <= w * d) by (nonlinear_arith)
        requires
            b == (w * d) / f,
            w * d >= 0,
            f >= 1,
    ;
    lemma_plus(a, ym);
    lemma_plus(ym, b);
    lemma_minus(a + ym, ym + b);
    let next = a - b;
    lemma_minus(next, x);
    lemma_minus(x, x);
    lemma_over(next, 100_000_000_000_000);
    lemma_over(x, 100_000_000_000_000);
    lemma_over(2 * x, 100_000_000_000_000);
}

/// With the invariant of an even split, Newton's method finds the other half again, up to one part in
/// ten to the eighteenth and one unit.
pub proof fn law_newton_y_balanced(ann: U256, gamma: U256, x: U256, i: usize, lim_mul: U256)
    requires
        1 <= ann@,
        1 <= gamma@,
        1 <= x@ <= 1_000_000_000_000_000_000_000_000_000_000_000,
        i < 2,
        WAD <= lim_mul@,
    ensures
        newton_y_2_model(ann@, gamma@, (x@, x@), 2 * x@, i as int, lim_mul@) matches Ok(Some(y)) && x@
            <= y <= x@ + x@ / (WAD as int) + 1,
{
    lemma_word_range(gamma);
    let v = x@;
    let w = WAD as int;
    let d = 2 * v;
    let e36 = 1_000_000_000_000_000_000_000_000_000_000_000_000int;
    lemma_times(v, 4);
    assert(0 <= d * d < modulus()) by (nonlinear_arith)
        requires
            0 <= d <= 2_000_000_000_000_000_000_000_000_000_000_000,
            modulus() == 0x1_0000000000000000_0000000000000000_0000000000000000_0000000000000000int,
    ;
    lemma_times(d, d);
    lemma_over(d * d, v * 4);
    assert((d * d) / (v * 4) == v) by (nonlinear_arith)
        requires
            d == 2 * v,
            v > 0,
    ;
    lemma_times(w, 2);
    lemma_times(w * 2, v);
    lemma_over(w * 2 * v, d);
    assert((w * 2 * v) / d == w) by (nonlinear_arith)
        requires
            d == 2 * v,
            v > 0,
    ;
    lemma_over(e36, lim_mul@);
    assert(e36 / lim_mul@ <= w) by (nonlinear_arith)
        requires
            lim_mul@ >= w,
            w == 1_000_000_000_000_000_000,
            e36 == 1_000_000_000_000_000_000_000_000_000_000_000_000,
    ;
    let limit = larger(
        larger(v.over(100_000_000_000_000), d.over(100_000_000_000_000)),
        100,
    );
    lemma_y_step_even(ann@, gamma@, v, limit);
}

/// Whether `d` is above 500 000, no higher than the sum of the balances and no lower than their `D` at
/// an even split with the same product, up to one part in ten to the ninth of its square.
pub open spec fn d_within_2(x: (int, int), d: int) -> bool {
    &&& 500_000 <= d <= x.0 + x.1
    &&& 4 * (x.0 * x.1) * 1_000_000_000 <= 1_000_000_001 * (d * d)
}

proof fn lemma_k0_2(x: (int, int), d: int)
    requires
        1 <= x.1 <= x.0 <= 10_000_000_000_000_000_000_000_000_000,
        x.0 <= 10_000 * x.1,
        d_within_2(x, d),
    ensures
        190_000_000_000_000 <= k0_at(x, d) <= WAD + 1_000_000_000,
        k0_at(x, d) * (d * d) <= 4 * (x.0 * x.1) * WAD <= (k0_at(x, d) + 2) * (d * d),
{
    let w = WAD as int;
    let p = x.0 * x.1;
    lemma_times(w, 2);
    lemma_times(2 * w, 2);
    lemma_times(4 * w, x.0);
    let u = 4 * w * x.0;
    lemma_over(u, d);
    lemma_quotient(u, d);
    let a = u / d;
    assert((a * x.1) * d <= 4 * p * w) by (nonlinear_arith)
        requires
            a * d <= 4 * w * x.0,
            0 <= x.1,
            p == x.0 * x.1,
    ;
    assert(a * x.1 <= (w + 1_000_000_000) * d) by (nonlinear_arith)
        requires
            (a * x.1) * d <= 4 * p * w,
            4 * p * 1_000_000_000 <= 1_000_000_001 * (d * d),
            w == 1_000_000_000_000_000_000,
            1 <= d,
    ;
    assert(0 <= a * x.1) by (nonlinear_arith)
        requires
            0 <= a,
            0 <= x.1,
    ;
    lemma_times(a, x.1);
    lemma_over(a * x.1, d);
    lemma_quotient(a * x.1, d);
    let k = (a * x.1) / d;
    assert(k == k0_at(x, d));
    assert(k <= w + 1_000_000_000) by (nonlinear_arith)
        requires
            k * d <= (w + 1_000_000_000) * d,
            1 <= d,
    ;
    assert(k * (d * d) <= 4 * p * w) by (nonlinear_arith)
        requires
            k * d <= a * x.1,
            (a * x.1) * d <= 4 * p * w,
            1 <= d,
    ;
    assert(x.1 <= d) by (nonlinear_arith)
        requires
            x.1 <= x.0,
            1 <= x.1,
            1 <= d,
            4 * (x.0 * x.1) * 1_000_000_000 <= 1_000_000_001 * (d * d),
    ;
    assert((k + 1) * (d * d) >= (a * x.1) * d) by (nonlinear_arith)
        requires
            a * x.1 < (k + 1) * d,
            1 <= d,
    ;
    assert((a * x.1) * d + d * d >= 4 * p * w) by (nonlinear_arith)
        requires
            4 * w * x.0 < (a + 1) * d,
            0 <= x.1 <= d,
            p == x.0 * x.1,
    ;
    assert((k + 2) * (d * d) == (k + 1) * (d * d) + d * d) by (nonlinear_arith);
    let s = x.0 + x.1;
    assert(d * d <= 20_002 * p) by (nonlinear_arith)
        requires
            1 <= d <= s,
            s <= 2 * x.0,
            s <= 10_001 * x.1,
            1 <= x.1,
            p == x.0 * x.1,
    ;
    assert(1 <= p) by (nonlinear_arith)
        requires
            1 <= x.1 <= x.0,
            p == x.0 * x.1,
    ;
    assert(k >= 190_000_000_000_000) by (nonlinear_arith)
        requires
            (k + 2) * (d * d) >= 4 * p * w,
            1 <= d * d <= 20_002 * p,
            w == 1_000_000_000_000_000_000,
            1 <= p,
    ;
}

/// A fall of at most half of what `k0` is short of one stays above an even split.
proof fn lemma_fall_2(p: int, k: int, d: int, v: int)
    requires
        1 <= p,
        1 <= d,
        0 < v,
        4 * p * WAD <= (k + 2) * (d * d),
        (d - v) * 2 * WAD <= d * (WAD - k),
    ensures
        4 * p * 1_000_000_000 <= 1_000_000_001 * (v * v),
{
    let w = WAD as int;
    let q = d * d;
    assert(1 <= q) by (nonlinear_arith)
        requires
            1 <= d,
            q == d * d,
    ;
    // 2 d v w >= w (d^2 + 4 p) - 2 d^2
    assert(2 * d * v * w >= w * (q + 4 * p) - 2 * q) by (nonlinear_arith)
        requires
            (d - v) * 2 * w <= d * (w - k),
            4 * p * w <= (k + 2) * q,
            q == d * d,
            1 <= d,
    {
        assert(d * ((d - v) * 2 * w) <= d * (d * (w - k))) by (nonlinear_arith)
            requires
                (d - v) * 2 * w <= d * (w - k),
                1 <= d,
        ;
        assert(d * ((d - v) * 2 * w) == 2 * q * w - 2 * d * v * w) by (nonlinear_arith)
            requires
                q == d * d,
        ;
        assert(d * (d * (w - k)) == q * w - k * q) by (nonlinear_arith)
            requires
                q == d * d,
        ;
        assert((k + 2) * q == k * q + 2 * q) by (nonlinear_arith);
    }
    let z = q + 4 * p;
    assert(2 * d * v * w >= (w - 2) * z) by (nonlinear_arith)
        requires
            2 * d * v * w >= w * (q + 4 * p) - 2 * q,
            z == q + 4 * p,
            1 <= p,
    ;
    let l = 2 * d * v * w;
    let m = (w - 2) * z;
    assert(0 <= m) by (nonlinear_arith)
        requires
            m == (w - 2) * z,
            w == 1_000_000_000_000_000_000,
            z >= 1,
    ;
    assert(l * l >= m * m) by (nonlinear_arith)
        requires
            l >= m >= 0,
    ;
    assert(z * z >= 16 * p * q) by (nonlinear_arith)
        requires
            z == q + 4 * p,
    ;
    let c = (w - 2) * (w - 2);
    assert(c == 999_999_999_999_999_996_000_000_000_000_000_004) by (nonlinear_arith)
        requires
            c == (w - 2) * (w - 2),
            w == 1_000_000_000_000_000_000,
    ;
    assert(m * m == c * (z * z)) by (nonlinear_arith)
        requires
            m == (w - 2) * z,
            c == (w - 2) * (w - 2),
    ;
    assert(c * (z * z) >= c * (16 * p * q)) by (nonlinear_arith)
        requires
            z * z >= 16 * p * q,
            c == 999_999_999_999_999_996_000_000_000_000_000_004,
    ;
    assert(l * l == (4 * (v * v) * (w * w)) * q) by (nonlinear_arith)
        requires
            l == 2 * d * v * w,
            q == d * d,
    ;
    assert(c * (16 * p * q) == (16 * p * c) * q) by (nonlinear_arith);
    assert(4 * (v * v) * (w * w) >= 16 * p * c) by (nonlinear_arith)
        requires
            (4 * (v * v) * (w * w)) * q >= (16 * p * c) * q,
            1 <= q,
    ;
    let vv = v * v;
    assert(4 * p * 1_000_000_000 <= 1_000_000_001 * vv) by (nonlinear_arith)
        requires
            4 * vv * (w * w) >= 16 * p * c,
            w == 1_000_000_000_000_000_000,
            c == 999_999_999_999_999_996_000_000_000_000_000_004,
            1 <= p,
    ;
}

proof fn lemma_within_2(ann: int, gamma: int, x: (int, int), d: int) -> (v: int)
    requires
        20_001 <= ann,
        10_000_000_000 <= gamma,
        gamma + 2 * WAD < modulus(),
        1 <= x.1 <= x.0 <= 10_000_000_000_000_000_000_000_000_000,
        1_000_000_000 <= x.0,
        x.0 <= 10_000 * x.1,
        d_within_2(x, d),
    ensures
        leads_to(newton_d_step(2, ann, gamma, x.0 + x.1, k0_at(x, d), d), v),
        terms_of(2, ann, gamma, x.0 + x.1, k0_at(x, d), d, v),
        d_within_2(x, v),
        k0_at(x, d) >= WAD ==> d <= v,
        k0_at(x, d) < WAD ==> (d - v) * 2 * WAD <= d * (WAD - k0_at(x, d)),
{
    let w = WAD as int;
    let k = k0_at(x, d);
    let s = x.0 + x.1;
    let p = x.0 * x.1;
    lemma_k0_2(x, d);
    if k > w {
        let m = s - d;
        assert(4 * p <= s * s) by (nonlinear_arith)
            requires
                p == x.0 * x.1,
                s == x.0 + x.1,
        ;
        assert(2 * (k - w) * (d * d) <= 2 * w * m * (2 * d + 1 * m)) by (nonlinear_arith)
            requires
                k * (d * d) <= 4 * p * w,
                4 * p <= s * s,
                m == s - d,
                w >= 1,
        ;
    }
    let v = lemma_d_step(2, 1, ann, gamma, s, k, d);
    assert(1 <= p) by (nonlinear_arith)
        requires
            1 <= x.1 <= x.0,
            p == x.0 * x.1,
    ;
    if k < w {
        lemma_fall_2(p, k, d, v);
    } else {
        assert(v * v >= d * d) by (nonlinear_arith)
            requires
                v >= d >= 1,
        ;
    }
    if v < 500_000 {
        assert(v * v < 250_000_000_000) by (nonlinear_arith)
            requires
                0 < v < 500_000,
        ;
        assert(p >= 100_000_000_000_000) by (nonlinear_arith)
            requires
                x.0 >= 1_000_000_000,
                x.1 >= 100_000,
                p == x.0 * x.1,
        ;
    }
    v
}

proof fn lemma_run_within_2(ann: int, gamma: int, x: (int, int), d: int, fuel: nat)
    requires
        20_001 <= ann,
        10_000_000_000 <= gamma,
        gamma + 2 * WAD < modulus(),
        1 <= x.1 <= x.0 <= 10_000_000_000_000_000_000_000_000_000,
        1_000_000_000 <= x.0,
        x.0 <= 10_000 * x.1,
        d_within_2(x, d),
    ensures
        newton_d_2_run(ann, gamma, x, x.0 + x.1, d, fuel) is Ok,
        newton_d_2_run(ann, gamma, x, x.0 + x.1, d, fuel) matches Ok(Some(v)) ==> d_within_2(x, v),
    decreases fuel,
{
    if fuel > 0 {
        let v = lemma_within_2(ann, gamma, x, d);
        lemma_run_within_2(ann, gamma, x, v, (fuel - 1) as nat);
    }
}

proof fn lemma_first_within_2(x: (int, int), k0_prev: int)
    requires
        10_000_000_000 <= x.1 <= x.0 <= 10_000_000_000_000_000_000_000_000_000,
        k0_prev == 0 || (1 <= k0_prev <= WAD && 100_000_000_000_000 <= x.1),
    ensures
        newton_d_2_guess(x, x.0 + x.1, k0_prev) matches Ok(d) && d_within_2(x, d),
{
    let w = WAD as int;
    let s = x.0 + x.1;
    let p = x.0 * x.1;
    assert(100_000_000_000_000_000_000 <= p <= 100_000_000_000_000_000_000_000_000_000_000_000_000_000_000_000_000_000_000)
        by (nonlinear_arith)
        requires
            10_000_000_000 <= x.1 <= x.0 <= 10_000_000_000_000_000_000_000_000_000,
            p == x.0 * x.1,
    ;
    assert(4 * p <= s * s) by (nonlinear_arith)
        requires
            p == x.0 * x.1,
            s == x.0 + x.1,
    ;
    lemma_times(x.0, x.1);
    if k0_prev == 0 {
        lemma_isqrt_floor(p, 0);
        let r = isqrt_floor(p);
        assert(r >= 9_000_000_000) by (nonlinear_arith)
            requires
                p < (r + 1) * (r + 1),
                100_000_000_000_000_000_000 <= p,
                0 <= r,
        ;
        assert(2 * r <= s) by (nonlinear_arith)
            requires
                r * r <= p,
                4 * p <= s * s,
                0 <= r,
                0 <= s,
        ;
        lemma_times(2, r);
        let d = 2 * r;
        assert(4 * p * 1_000_000_000 <= 1_000_000_001 * (d * d)) by (nonlinear_arith)
            requires
                p < (r + 1) * (r + 1),
                d == 2 * r,
                r >= 9_000_000_000,
        ;
    } else {
        lemma_times(4, x.0);
        assert(4 * x.0 * x.1 == 4 * p) by (nonlinear_arith)
            requires
                p == x.0 * x.1,
        ;
        lemma_times(4 * x.0, x.1);
        lemma_over(4 * p, k0_prev);
        lemma_quotient(4 * p, k0_prev);
        let t = (4 * p) / k0_prev;
        assert(0 <= t * w <= 4 * p * w) by (nonlinear_arith)
            requires
                0 <= t <= 4 * p,
                0 <= w,
        ;
        assert(4 * p * w < modulus() - 1) by (nonlinear_arith)
            requires
                0 <= p <= 100_000_000_000_000_000_000_000_000_000_000_000_000_000_000_000_000_000_000,
                w == 1_000_000_000_000_000_000,
                modulus() == 0x1_0000000000000000_0000000000000000_0000000000000000_0000000000000000int,
        ;
        lemma_times(t, w);
        let inner = t * w;
        assert(inner + w >= 4 * p) by (nonlinear_arith)
            requires
                inner == t * w,
                4 * p < (t + 1) * k0_prev,
                1 <= k0_prev <= w,
                0 <= t,
        ;
        assert(p >= 10_000_000_000_000_000_000_000_000_000) by (nonlinear_arith)
            requires
                100_000_000_000_000 <= x.1 <= x.0,
                p == x.0 * x.1,
        ;
        lemma_isqrt_floor(inner, 0);
        let r = isqrt_floor(inner);
        if r < s {
            assert(r >= 100_000_000_000_000) by (nonlinear_arith)
                requires
                    inner < (r + 1) * (r + 1),
                    inner >= 30_000_000_000_000_000_000_000_000_000,
                    0 <= r,
            ;
            assert(4 * p * 1_000_000_000 <= 1_000_000_001 * (r * r)) by (nonlinear_arith)
                requires
                    4 * p <= (r + 1) * (r + 1) + w,
                    w == 1_000_000_000_000_000_000,
                    r >= 100_000_000_000_000,
            ;
        } else {
            assert(4 * p * 1_000_000_000 <= 1_000_000_001 * (s * s)) by (nonlinear_arith)
                requires
                    0 <= 4 * p <= s * s,
            ;
        }
    }
}

/// The invariant lies between twice the geometric mean of the balances, up to one part in ten to the
/// ninth of its square, and their sum: of balances from 10^10 to 10^28, with `ann` above 20 000 and
/// `gamma` from 10^10 up. It is calculated without a fault. A hint of at most one may be given where
/// the balances are 10^14 or more.
pub proof fn law_newton_d_bounds(ann: U256, gamma: U256, x: [U256; 2], k0_prev: U256)
    requires
        20_001 <= ann@,
        10_000_000_000 <= gamma@,
        gamma@ + 2 * WAD < modulus(),
        10_000_000_000 <= x[0]@ <= 10_000_000_000_000_000_000_000_000_000,
        10_000_000_000 <= x[1]@ <= 10_000_000_000_000_000_000_000_000_000,
        k0_prev@ == 0 || (k0_prev@ <= WAD && 100_000_000_000_000 <= x[0]@ && 100_000_000_000_000
            <= x[1]@),
    ensures
        newton_d_2_model(ann@, gamma@, pair(x), k0_prev@) is Ok,
        newton_d_2_model(ann@, gamma@, pair(x), k0_prev@) matches Ok(Some(d)) ==> d_within_2(
            pair(x),
            d,
        ),
{
    lemma_word_range(k0_prev);
    let w = WAD as int;
    let y = sorted2(pair(x));
    lemma_plus(y.0, y.1);
    lemma_times(y.1, w);
    lemma_over(y.1 * w, y.0);
    lemma_quotient(y.1 * w, y.0);
    assert(x[0]@ * x[1]@ == x[1]@ * x[0]@) by (nonlinear_arith);
    let ratio = (y.1 * w) / y.0;
    if ratio >= 100_000_000_000_000 {
        assert(y.0 <= 10_000 * y.1) by (nonlinear_arith)
            requires
                ratio * y.0 <= y.1 * w,
                ratio >= 100_000_000_000_000,
                w == 1_000_000_000_000_000_000,
                0 < y.0,
        ;
        lemma_first_within_2(y, k0_prev@);
        if let Ok(first) = newton_d_2_guess(y, y.0 + y.1, k0_prev@) {
            lemma_run_within_2(ann@, gamma@, y, first, MAX_ITERATIONS as nat);
        }
    }
}

/// The number that the last step of the iteration toward `D` starts from.
proof fn lemma_last_2(ann: int, gamma: int, x: (int, int), d: int, fuel: nat) -> (e: int)
    requires
        20_001 <= ann,
        10_000_000_000 <= gamma,
        gamma + 2 * WAD < modulus(),
        1 <= x.1 <= x.0 <= 10_000_000_000_000_000_000_000_000_000,
        1_000_000_000 <= x.0,
        x.0 <= 10_000 * x.1,
        d_within_2(x, d),
        newton_d_2_run(ann, gamma, x, x.0 + x.1, d, fuel) matches Ok(Some(_)),
    ensures
        d_within_2(x, e),
        newton_d_2_run(ann, gamma, x, x.0 + x.1, d, fuel) matches Ok(Some(v)) && d_within_2(x, v)
            && newton_d_step(2, ann, gamma, x.0 + x.1, k0_at(x, e), e) == Ok::<_, Fault>(Step::Done(v))
            && terms_of(2, ann, gamma, x.0 + x.1, k0_at(x, e), e, v),
    decreases fuel,
{
    let v = lemma_within_2(ann, gamma, x, d);
    if newton_d_step(2, ann, gamma, x.0 + x.1, k0_at(x, d), d) == Ok::<_, Fault>(Step::Done(v)) {
        d
    } else {
        lemma_last_2(ann, gamma, x, v, (fuel - 1) as nat)
    }
}

/// A found invariant of two coins is where a step has converged.
proof fn lemma_converged_2(ann: int, gamma: int, x: (int, int), k0_prev: int) -> (e: int)
    requires
        20_001 <= ann,
        10_000_000_000 <= gamma <= WAD,
        1_000_000_000_000_000_000 <= x.1 <= x.0 <= 10_000_000_000_000_000_000_000_000_000,
        0 <= k0_prev <= WAD,
        newton_d_2_model(ann, gamma, x, k0_prev) matches Ok(Some(_)),
    ensures
        newton_d_2_model(ann, gamma, x, k0_prev) matches Ok(Some(v)) && converged_at(
            2,
            ann,
            gamma,
            x.0 + x.1,
            k0_at(x, e),
            e,
            v,
        ),
        k0_at(x, e) * (e * e) <= 4 * (x.0 * x.1) * WAD <= (k0_at(x, e) + 2) * (e * e),
{
    let w = WAD as int;
    let s = x.0 + x.1;
    let p = x.0 * x.1;
    lemma_plus(x.0, x.1);
    lemma_times(x.1, w);
    lemma_over(x.1 * w, x.0);
    lemma_quotient(x.1 * w, x.0);
    let ratio = (x.1 * w) / x.0;
    assert(x.0 <= 10_000 * x.1) by (nonlinear_arith)
        requires
            ratio * x.0 <= x.1 * w,
            ratio >= 100_000_000_000_000,
            w == 1_000_000_000_000_000_000,
            0 < x.0,
    ;
    lemma_first_within_2(x, k0_prev);
    let first = newton_d_2_guess(x, s, k0_prev)->Ok_0;
    lemma_run_within_2(ann, gamma, x, first, MAX_ITERATIONS as nat);
    let e = lemma_last_2(ann, gamma, x, first, MAX_ITERATIONS as nat);
    let v = newton_d_2_model(ann, gamma, x, k0_prev)->Ok_0->Some_0;
    lemma_k0_2(x, e);
    let k = k0_at(x, e);
    // the numbers are large
    assert(p >= 1_000_000_000_000_000_000_000_000_000_000_000_000) by (nonlinear_arith)
        requires
            1_000_000_000_000_000_000 <= x.1 <= x.0,
            p == x.0 * x.1,
    ;
    assert(e >= w) by (nonlinear_arith)
        requires
            4 * p * 1_000_000_000 <= 1_000_000_001 * (e * e),
            p >= 1_000_000_000_000_000_000_000_000_000_000_000_000,
            e >= 0,
            w == 1_000_000_000_000_000_000,
    ;
    assert(v >= w) by (nonlinear_arith)
        requires
            4 * p * 1_000_000_000 <= 1_000_000_001 * (v * v),
            p >= 1_000_000_000_000_000_000_000_000_000_000_000_000,
            v >= 0,
            w == 1_000_000_000_000_000_000,
    ;
    // the last step is small
    if v > e {
        lemma_minus(v, e);
        lemma_times(v - e, 100_000_000_000_000);
    } else {
        lemma_minus(e, v);
        lemma_times(e - v, 100_000_000_000_000);
    }
    assert(90_000_000_000_000 * (e - v) <= e && 90_000_000_000_000 * (v - e) <= e);
    // the shares keep k0 up
    lemma_over(x.1 * w, v);
    lemma_quotient(x.1 * w, v);
    let share = (x.1 * w) / v;
    assert(v <= 200 * x.1) by (nonlinear_arith)
        requires
            share * v <= x.1 * w,
            share >= 5_000_000_000_000_000,
            w == 1_000_000_000_000_000_000,
            0 < v,
    ;
    let e2 = e * e;
    assert(e2 <= 420 * p) by (nonlinear_arith)
        requires
            100 * e <= 101 * v,
            v <= 200 * x.1,
            e2 == e * e,
            v <= x.0 + x.1,
            x.1 <= x.0,
            0 <= e,
            p == x.0 * x.1,
            1 <= x.1,
    {
        assert(100 * e <= 20_200 * x.1 && 100 * e <= 202 * x.0);
        assert((100 * e) * (100 * e) <= (20_200 * x.1) * (202 * x.0)) by (nonlinear_arith)
            requires
                0 <= 100 * e <= 20_200 * x.1,
                100 * e <= 202 * x.0,
        ;
        assert((100 * e) * (100 * e) == 10_000 * (e * e)) by (nonlinear_arith);
        assert((20_200 * x.1) * (202 * x.0) == 4_080_400 * (x.0 * x.1)) by (nonlinear_arith);
    }
    assert(k >= 500_000_000_000_000) by (nonlinear_arith)
        requires
            4 * p * w <= (k + 2) * e2,
            1 <= e2 <= 420 * p,
            w == 1_000_000_000_000_000_000,
    {
        if k < 500_000_000_000_000 {
            assert((k + 2) * e2 <= 500_000_000_000_002 * (420 * p)) by (nonlinear_arith)
                requires
                    k < 500_000_000_000_000,
                    1 <= e2 <= 420 * p,
            ;
        }
    }
    assert(e2 >= 1) by (nonlinear_arith)
        requires
            e2 == e * e,
            e >= 1,
    ;
    e
}

/// The invariant of larger balances is larger: of two found invariants, the one for balances of which
/// none is smaller and one is larger, by at least one part in ten to the twelfth of their sum. The
/// balances lie from 10^18 to 10^28, `ann` is above 20 000, `gamma` from 10^10 to 10^18, and the hints are
/// at most one.
pub proof fn law_newton_d_grows(
    ann: U256,
    gamma: U256,
    x: [U256; 2],
    k0_prev: U256,
    larger_x: [U256; 2],
    larger_k0_prev: U256,
    i: usize,
)
    requires
        20_001 <= ann@,
        10_000_000_000 <= gamma@ <= WAD,
        i < 2,
        1_000_000_000_000_000_000 <= x[0]@ <= larger_x[0]@ <= 10_000_000_000_000_000_000_000_000_000,
        1_000_000_000_000_000_000 <= x[1]@ <= larger_x[1]@ <= 10_000_000_000_000_000_000_000_000_000,
        larger_x[0]@ + larger_x[1]@ <= 1_000_000_000_000 * (larger_x[i as int]@ - x[i as int]@),
        k0_prev@ <= WAD,
        larger_k0_prev@ <= WAD,
    ensures
        ({
            let found = newton_d_2_model(ann@, gamma@, pair(x), k0_prev@);
            let larger_found = newton_d_2_model(ann@, gamma@, pair(larger_x), larger_k0_prev@);
            found matches Ok(Some(d)) ==> larger_found matches Ok(Some(e)) ==> d < e
        }),
{
    let found = newton_d_2_model(ann@, gamma@, pair(x), k0_prev@);
    let larger_found = newton_d_2_model(ann@, gamma@, pair(larger_x), larger_k0_prev@);
    if let Ok(Some(v)) = found {
        if let Ok(Some(v2)) = larger_found {
            lemma_word_range(k0_prev);
            lemma_word_range(larger_k0_prev);
            let w = WAD as int;
            let y = sorted2(pair(x));
            let y2 = sorted2(pair(larger_x));
            let d = lemma_converged_2(ann@, gamma@, y, k0_prev@);
            let d2 = lemma_converged_2(ann@, gamma@, y2, larger_k0_prev@);
            let k = k0_at(y, d);
            let k2 = k0_at(y2, d2);
            // the product is larger by the same part
            let (a, b) = pair(x);
            let (a2, b2) = pair(larger_x);
            let p = a * b;
            let p2 = a2 * b2;
            assert(y.0 * y.1 == p && y2.0 * y2.1 == p2) by (nonlinear_arith)
                requires
                    y == (a, b) || y == (b, a),
                    y2 == (a2, b2) || y2 == (b2, a2),
                    p == a * b,
                    p2 == a2 * b2,
            ;
            if i == 0 {
                lemma_part_larger(a, a2, b, b2);
            } else {
                lemma_part_larger(b, b2, a, a2);
                assert(b * a == p && b2 * a2 == p2) by (nonlinear_arith)
                    requires
                        p == a * b,
                        p2 == a2 * b2,
                ;
            }
            assert(p >= 0) by (nonlinear_arith)
                requires
                    p == a * b,
                    a >= 0,
                    b >= 0,
            ;
            if 40_000_000_000_000 * (d2 - d) <= d {
                let e = d * d;
                let e2 = d2 * d2;
                assert(10_000_000_000_000 * e2 <= 10_000_000_000_001 * e) by (nonlinear_arith)
                    requires
                        40_000_000_000_000 * d2 <= 40_000_000_000_001 * d,
                        e == d * d,
                        e2 == d2 * d2,
                        0 <= d2,
                {
                    let c = 40_000_000_000_000 * d2;
                    let f = 40_000_000_000_001 * d;
                    assert(c * c <= f * f) by (nonlinear_arith)
                        requires
                            0 <= c <= f,
                    ;
                    assert(c * c == 1_600_000_000_000_000_000_000_000_000 * (d2 * d2)) by (nonlinear_arith)
                        requires
                            c == 40_000_000_000_000 * d2,
                    ;
                    assert(f * f == 1_600_000_000_000_080_000_000_000_001 * (d * d)) by (nonlinear_arith)
                        requires
                            f == 40_000_000_000_001 * d,
                    ;
                    assert(0 <= d * d) by (nonlinear_arith);
                }
                assert(1 <= e && 1 <= e2) by (nonlinear_arith)
                    requires
                        e == d * d,
                        e2 == d2 * d2,
                        1 <= d,
                        1 <= d2,
                ;
                assert((k2 + 2) * e2 <= (k2 + 6) * e2) by (nonlinear_arith)
                    requires
                        1 <= e2,
                ;
                lemma_k0_ratio(4 * p * w, 4 * p2 * w, e, e2, k, k2);
            }
            lemma_growth(2, ann@, gamma@, y.0 + y.1, k, d, v, y2.0 + y2.1, k2, d2, v2);
        }
    }
}

/// The share of a balance that is neither a small nor a large part.
proof fn lemma_share_of(v: int, d: int)
    requires
        1 <= d,
        d <= 4 * v <= 40 * d,
    ensures
        5_000_000_000_000_000 <= (v * WAD) / d <= 50_000_000_000_000_000_000,
{
    let w = WAD as int;
    let vw = v * w;
    assert(0 <= vw) by (nonlinear_arith)
        requires
            vw == v * w,
            0 <= v,
            w == 1_000_000_000_000_000_000,
    ;
    lemma_quotient(vw, d);
    let r = vw / d;
    if r < 5_000_000_000_000_000 {
        assert((r + 1) * d <= 5_000_000_000_000_000 * d) by (nonlinear_arith)
            requires
                r + 1 <= 5_000_000_000_000_000,
                1 <= d,
        ;
    }
    if r > 50_000_000_000_000_000_000 {
        assert(r * d > 50_000_000_000_000_000_000 * d) by (nonlinear_arith)
            requires
                r > 50_000_000_000_000_000_000,
                1 <= d,
        ;
    }
}

/// The first guess for balances that hardly differ.
proof fn lemma_first_nearly_even(y: (int, int)) -> (first: int)
    requires
        1_000_000_000_000_000_000 <= y.1 <= y.0 <= 10_000_000_000_000_000_000_000_000_000,
        y.0 <= 10_000 * y.1,
        1_000_000_000_000_000 * ((y.0 - y.1) * (y.0 - y.1)) <= (y.0 + y.1) * (y.0 + y.1),
    ensures
        newton_d_2_guess(y, y.0 + y.1, 0) == Ok::<int, Fault>(first),
        d_within_2(y, first),
        500_000_000_000_000 * (y.0 + y.1 - first) <= y.0 + y.1,
        WAD - 2 <= k0_at(y, first),
{
    let w = WAD as int;
    let s = y.0 + y.1;
    let p = y.0 * y.1;
    let e = y.0 - y.1;
    lemma_first_within_2(y, 0);
    let first = newton_d_2_guess(y, s, 0)->Ok_0;
    assert(0 <= p <= 100_000_000_000_000_000_000_000_000_000_000_000_000_000_000_000_000_000_000) by (nonlinear_arith)
        requires
            p == y.0 * y.1,
            0 <= y.0 <= 10_000_000_000_000_000_000_000_000_000,
            0 <= y.1 <= 10_000_000_000_000_000_000_000_000_000,
    ;
    lemma_times(y.0, y.1);
    lemma_isqrt_floor(p, 0);
    let root = isqrt_floor(p);
    assert(root <= 10_000_000_000_000_000_000_000_000_000) by (nonlinear_arith)
        requires
            root * root <= p,
            p <= 100_000_000_000_000_000_000_000_000_000_000_000_000_000_000_000_000_000_000,
            0 <= root,
    ;
    lemma_times(2, root);
    assert(first == 2 * root);
    // no lower than the sum, up to a small part
    let ss = s * s;
    let ee = e * e;
    assert(ss == 4 * p + ee) by (nonlinear_arith)
        requires
            ss == s * s,
            s == y.0 + y.1,
            p == y.0 * y.1,
            ee == e * e,
            e == y.0 - y.1,
    ;
    let t = first + 2;
    assert(4 * p <= t * t) by (nonlinear_arith)
        requires
            p < (root + 1) * (root + 1),
            t == 2 * root + 2,
    ;
    assert(999_999_999_999_999 * ss <= 1_000_000_000_000_000 * (t * t));
    let u = 999_999_999_999_999 * s;
    let v = 1_000_000_000_000_000 * t;
    assert(u <= v) by (nonlinear_arith)
        requires
            999_999_999_999_999 * ss <= 1_000_000_000_000_000 * (t * t),
            ss == s * s,
            u == 999_999_999_999_999 * s,
            v == 1_000_000_000_000_000 * t,
            0 <= s,
            0 <= t,
    {
        if u > v {
            assert(u * u > v * v) by (nonlinear_arith)
                requires
                    u > v >= 0,
            ;
            assert(u * u == 999_999_999_999_998_000_000_000_000_001 * (s * s)) by (nonlinear_arith)
                requires
                    u == 999_999_999_999_999 * s,
            ;
            assert(v * v == 1_000_000_000_000_000_000_000_000_000_000 * (t * t)) by (nonlinear_arith)
                requires
                    v == 1_000_000_000_000_000 * t,
            ;
            assert(0 <= s * s) by (nonlinear_arith);
        }
    }
    // not above an even split with the same product
    lemma_k0_2(y, first);
    let k = k0_at(y, first);
    let dd = first * first;
    assert(1 <= dd <= 4 * p) by (nonlinear_arith)
        requires
            dd == first * first,
            first == 2 * root,
            root * root <= p,
            1 <= first,
    ;
    assert(k + 2 >= w) by (nonlinear_arith)
        requires
            4 * p * w <= (k + 2) * dd,
            1 <= dd <= 4 * p,
            0 <= k,
            w == 1_000_000_000_000_000_000,
    {
        if k + 2 < w {
            assert((k + 2) * dd < w * dd) by (nonlinear_arith)
                requires
                    k + 2 < w,
                    1 <= dd,
            ;
            assert(w * dd <= w * (4 * p)) by (nonlinear_arith)
                requires
                    dd <= 4 * p,
                    w == 1_000_000_000_000_000_000,
            ;
        }
    }
    first
}

/// The invariant of balances that hardly differ is found: of balances from 10^18 to 10^28 whose difference,
/// squared, is at most one part in ten to the fifteenth of the square of their sum, with `ann` above 20 000,
/// `gamma` from 10^10 up, and no hint.
pub proof fn law_newton_d_nearly_even(ann: U256, gamma: U256, x: [U256; 2])
    requires
        20_001 <= ann@,
        10_000_000_000 <= gamma@,
        gamma@ + 2 * WAD < modulus(),
        1_000_000_000_000_000_000 <= x[0]@ <= 10_000_000_000_000_000_000_000_000_000,
        1_000_000_000_000_000_000 <= x[1]@ <= 10_000_000_000_000_000_000_000_000_000,
        1_000_000_000_000_000 * ((x[0]@ - x[1]@) * (x[0]@ - x[1]@)) <= (x[0]@ + x[1]@) * (x[0]@ + x[1]@),
    ensures
        newton_d_2_model(ann@, gamma@, pair(x), 0) matches Ok(Some(d)) && d_within_2(pair(x), d),
{
    let w = WAD as int;
    let y = sorted2(pair(x));
    let s = y.0 + y.1;
    let e = y.0 - y.1;
    assert(x[0]@ * x[1]@ == x[1]@ * x[0]@) by (nonlinear_arith);
    assert((x[0]@ - x[1]@) * (x[0]@ - x[1]@) == e * e) by (nonlinear_arith)
        requires
            e == x[0]@ - x[1]@ || e == x[1]@ - x[0]@,
    ;
    assert(x[0]@ + x[1]@ == s);
    assert(100 * e <= s) by (nonlinear_arith)
        requires
            1_000_000_000_000_000 * (e * e) <= s * s,
            0 <= e,
            0 <= s,
    {
        if 100 * e > s {
            let c = 100 * e;
            assert(c * c > s * s) by (nonlinear_arith)
                requires
                    c > s >= 0,
            ;
            assert(c * c == 10_000 * (e * e)) by (nonlinear_arith)
                requires
                    c == 100 * e,
            ;
            assert(0 <= e * e) by (nonlinear_arith);
        }
    }
    lemma_plus(y.0, y.1);
    lemma_times(y.0, w);
    lemma_times(y.1, w);
    lemma_over(y.1 * w, y.0);
    lemma_share_of(y.1, y.0);
    let first = lemma_first_nearly_even(y);
    let k = k0_at(y, first);
    let v = lemma_within_2(ann@, gamma@, y, first);
    // the first step is small
    if k < w {
        assert(w * (first - v) <= first) by (nonlinear_arith)
            requires
                (first - v) * 2 * w <= first * (w - k),
                w - k <= 2,
                0 <= first,
        {
            assert(first * (w - k) <= first * 2) by (nonlinear_arith)
                requires
                    w - k <= 2,
                    0 <= first,
            ;
        }
    }
    if v > first {
        lemma_minus(v, first);
        lemma_times(v - first, 100_000_000_000_000);
    } else {
        lemma_minus(first, v);
        lemma_times(first - v, 100_000_000_000_000);
    }
    assert(newton_d_step(2, ann@, gamma@, s, k, first) == Ok::<_, Fault>(Step::Done(v)));
    assert(newton_d_2_run(ann@, gamma@, y, s, first, MAX_ITERATIONS as nat) == Ok::<_, Fault>(Some(v)));
    lemma_over(y.0 * w, v);
    lemma_over(y.1 * w, v);
    lemma_share_of(y.0, v);
    lemma_share_of(y.1, v);
}

} // verus!
