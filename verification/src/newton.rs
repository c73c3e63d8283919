//! The two Newton iterations of the CryptoSwap invariant, for any number of coins: one toward the
//! invariant `D`, one toward the balance of one coin.
//!
//! The numbers are words and the formulas are exact in words: a sum, difference or product is
//! reduced modulo 2^256 wherever it leaves them.
use crate::coins::triple;
use crate::fault::Fault;
use crate::uint::{distance, larger, Word, U256};
use vstd::prelude::*;

verus! {

/// The fixed-point unit, 10^18.
pub const WAD: u64 = 1_000_000_000_000_000_000;

/// The unit of fee rates, 10^10.
pub const FEE_DENOMINATOR: u64 = 10_000_000_000;

/// The factor by which the amplification coefficient is scaled.
pub const A_MULTIPLIER: u64 = 10_000;

/// How many steps an iteration may take.
pub const MAX_ITERATIONS: u32 = 255;

/// What one step of an iteration comes to.
#[derive(Debug)]
pub enum Step<T> {
    /// There is no next value: the iteration ends without one.
    Stuck,
    /// The iteration goes on from this value.
    Next(T),
    /// The iteration has converged on this value.
    Done(T),
}

/// The number behind a word that may be missing.
pub open spec fn number(v: Option<U256>) -> Option<int> {
    match v {
        Some(x) => Some(x@),
        None => None,
    }
}

/// The number behind a calculated word that may be missing.
pub open spec fn outcome(r: Result<Option<U256>, Fault>) -> Result<Option<int>, Fault> {
    match r {
        Ok(v) => Ok(number(v)),
        Err(e) => Err(e),
    }
}

/// The number behind a calculated word.
pub open spec fn quantity(r: Result<U256, Fault>) -> Result<int, Fault> {
    match r {
        Ok(v) => Ok(v@),
        Err(e) => Err(e),
    }
}

/// The numbers behind a calculated step.
pub open spec fn step_outcome(r: Result<Step<U256>, Fault>) -> Result<Step<int>, Fault> {
    match r {
        Ok(Step::Stuck) => Ok(Step::Stuck),
        Ok(Step::Next(v)) => Ok(Step::Next(v@)),
        Ok(Step::Done(v)) => Ok(Step::Done(v@)),
        Err(e) => Err(e),
    }
}

/// `|gamma + 1 - K0|` with one added, in units of 10^18.
pub open spec fn g1k0(gamma: int, k0: int) -> int {
    let base = gamma.plus(WAD as int);
    if base > k0 {
        base.minus(k0).plus(1)
    } else {
        k0.minus(base).plus(1)
    }
}

/// `D * (g / gamma)^2 * A_MULTIPLIER / ANN`, in units of 10^18.
pub open spec fn mul1_model(ann: int, gamma: int, d: int, g: int) -> int {
    (WAD as int).times(d).over(gamma).times(g).over(gamma).times(g).times(A_MULTIPLIER as int).over(ann)
}

/// One step toward `D`, from `d`, where `k0` is `K0` at `d` and `s` is the sum of the `n` balances.
pub open spec fn newton_d_step(n: int, ann: int, gamma: int, s: int, k0: int, d: int) -> Result<
    Step<int>,
    Fault,
> {
    let w = WAD as int;
    let g = g1k0(gamma, k0);
    let mul1 = mul1_model(ann, gamma, d, g);
    let mul2 = 2int.times(w).times(n).times(k0).over(g);
    let neg_fprime = s.plus(s.times(mul2).over(w)).plus(mul1.times(n).over(k0)).minus(
        mul2.times(d).over(w),
    );
    let d_plus = d.times(neg_fprime.plus(s)).over(neg_fprime);
    let drift = d.times(mul1.over(neg_fprime)).over(w);
    let d_minus = if w > k0 {
        d.times(d).over(neg_fprime).plus(drift.times(w.minus(k0)).over(k0))
    } else {
        d.times(d).over(neg_fprime).minus(drift.times(k0.minus(w)).over(k0))
    };
    let next = if d_plus > d_minus {
        d_plus.minus(d_minus)
    } else {
        d_minus.minus(d_plus).over(2)
    };
    if gamma == 0 || ann == 0 || g == 0 {
        Err(Fault)
    } else if k0 == 0 || neg_fprime == 0 {
        Ok(Step::Stuck)
    } else if distance(next, d).times(100_000_000_000_000) < larger(10_000_000_000_000_000, next) {
        Ok(Step::Done(next))
    } else {
        Ok(Step::Next(next))
    }
}

/// One step toward `y`, the balance of the coin that is asked for, from `y`: `others` is the sum of
/// the other balances, `k0_i` is `K0` without the factor of `y`, and a step of less than `limit`
/// counts as converged.
pub open spec fn newton_y_step(
    n: int,
    ann: int,
    gamma: int,
    others: int,
    k0_i: int,
    d: int,
    limit: int,
    y: int,
) -> Result<Step<int>, Fault> {
    let w = WAD as int;
    let k0 = k0_i.times(y).times(n).over(d);
    let s = others.plus(y);
    let g = g1k0(gamma, k0);
    let mul1 = mul1_model(ann, gamma, d, g);
    let mul2 = w.plus(2int.times(w).times(k0).over(g));
    let rise = w.times(y).plus(s.times(mul2)).plus(mul1);
    let fall = d.times(mul2);
    let yfprime = rise.minus(fall);
    let fprime = yfprime.over(y);
    let y_plus = yfprime.plus(w.times(d)).over(fprime).plus(mul1.over(fprime).times(w).over(k0));
    let y_minus = mul1.over(fprime).plus(w.times(s).over(fprime));
    let next = if y_plus < y_minus {
        y.over(2)
    } else {
        y_plus.minus(y_minus)
    };
    if d == 0 || gamma == 0 || ann == 0 || g == 0 {
        Err(Fault)
    } else if rise < fall {
        Ok(Step::Next(y.over(2)))
    } else if y == 0 || fprime == 0 || k0 == 0 {
        Err(Fault)
    } else if distance(next, y) < larger(limit, next.over(100_000_000_000_000)) {
        Ok(Step::Done(next))
    } else {
        Ok(Step::Next(next))
    }
}

/// `n` steps toward `y`, until one converges.
pub open spec fn newton_y_run(
    n: int,
    ann: int,
    gamma: int,
    others: int,
    k0_i: int,
    d: int,
    limit: int,
    y: int,
    fuel: nat,
) -> Result<Option<int>, Fault>
    decreases fuel,
{
    if fuel == 0 {
        Ok(None)
    } else {
        match newton_y_step(n, ann, gamma, others, k0_i, d, limit, y) {
            Err(e) => Err(e),
            Ok(Step::Stuck) => Ok(None),
            Ok(Step::Done(v)) => Ok(Some(v)),
            Ok(Step::Next(v)) => newton_y_run(
                n,
                ann,
                gamma,
                others,
                k0_i,
                d,
                limit,
                v,
                (fuel - 1) as nat,
            ),
        }
    }
}

/// The value of [`g1k0`].
pub fn gap(gamma: U256, k0: U256) -> (r: U256)
    ensures
        r@ == g1k0(gamma@, k0@),
{
    let base = gamma + U256::from(WAD);
    if base > k0 {
        base - k0 + U256::from(1u64)
    } else {
        k0 - base + U256::from(1u64)
    }
}

/// The value of [`mul1_model`].
pub fn mul1(ann: U256, gamma: U256, d: U256, g: U256) -> (r: Result<U256, Fault>)
    ensures
        r is Err <==> gamma@ == 0 || ann@ == 0,
        r matches Ok(v) ==> v@ == mul1_model(ann@, gamma@, d@, g@),
{
    if gamma.is_zero() || ann.is_zero() {
        return Err(Fault);
    }
    Ok(U256::from(WAD) * d / gamma * g / gamma * g * U256::from(A_MULTIPLIER) / ann)
}

/// One step toward `D`: see [`newton_d_step`].
pub fn newton_d_next(n: U256, ann: U256, gamma: U256, s: U256, k0: U256, d: U256) -> (r: Result<
    Step<U256>,
    Fault,
>)
    ensures
        step_outcome(r) == newton_d_step(n@, ann@, gamma@, s@, k0@, d@),
{
    let w = U256::from(WAD);
    let g = gap(gamma, k0);
    let mul1 = mul1(ann, gamma, d, g)?;
    if g.is_zero() {
        return Err(Fault);
    }
    let mul2 = U256::from(2u64) * w * n * k0 / g;
    if k0.is_zero() {
        return Ok(Step::Stuck);
    }
    let neg_fprime = (s + s * mul2 / w) + mul1 * n / k0 - mul2 * d / w;
    if neg_fprime.is_zero() {
        return Ok(Step::Stuck);
    }
    let d_plus = d * (neg_fprime + s) / neg_fprime;
    let d_minus = if w > k0 {
        d * d / neg_fprime + d * (mul1 / neg_fprime) / w * (w - k0) / k0
    } else {
        d * d / neg_fprime - d * (mul1 / neg_fprime) / w * (k0 - w) / k0
    };
    let next = if d_plus > d_minus {
        d_plus - d_minus
    } else {
        (d_minus - d_plus) / U256::from(2u64)
    };
    let diff = next.abs_diff(d);
    let threshold = U256::from(10_000_000_000_000_000u64).max(next);
    if diff * U256::from(100_000_000_000_000u64) < threshold {
        Ok(Step::Done(next))
    } else {
        Ok(Step::Next(next))
    }
}

/// One step toward `y`: see [`newton_y_step`].
pub fn newton_y_next(
    n: U256,
    ann: U256,
    gamma: U256,
    others: U256,
    k0_i: U256,
    d: U256,
    limit: U256,
    y: U256,
) -> (r: Result<Step<U256>, Fault>)
    ensures
        step_outcome(r) == newton_y_step(
            n@,
            ann@,
            gamma@,
            others@,
            k0_i@,
            d@,
            limit@,
            y@,
        ),
{
    let w = U256::from(WAD);
    if d.is_zero() {
        return Err(Fault);
    }
    let k0 = k0_i * y * n / d;
    let s = others + y;
    let g = gap(gamma, k0);
    let mul1 = mul1(ann, gamma, d, g)?;
    if g.is_zero() {
        return Err(Fault);
    }
    let mul2 = w + U256::from(2u64) * w * k0 / g;
    let rise = w * y + s * mul2 + mul1;
    let fall = d * mul2;
    if rise < fall {
        return Ok(Step::Next(y / U256::from(2u64)));
    }
    let yfprime = rise - fall;
    let fprime = yfprime.div_by(y)?;
    if fprime.is_zero() || k0.is_zero() {
        return Err(Fault);
    }
    let y_minus = mul1 / fprime;
    let y_plus = (yfprime + w * d) / fprime + y_minus * w / k0;
    let y_minus = y_minus + w * s / fprime;
    let next = if y_plus < y_minus {
        y / U256::from(2u64)
    } else {
        y_plus - y_minus
    };
    if next.abs_diff(y) < limit.max(next / U256::from(100_000_000_000_000u64)) {
        Ok(Step::Done(next))
    } else {
        Ok(Step::Next(next))
    }
}

/// The iteration toward `y` from a first guess: see [`newton_y_run`].
pub fn newton_y_loop(
    n: U256,
    ann: U256,
    gamma: U256,
    others: U256,
    k0_i: U256,
    d: U256,
    limit: U256,
    first: U256,
) -> (r: Result<Option<U256>, Fault>)
    ensures
        outcome(r) == newton_y_run(
            n@,
            ann@,
            gamma@,
            others@,
            k0_i@,
            d@,
            limit@,
            first@,
            MAX_ITERATIONS as nat,
        ),
{
    let mut y: U256 = first;
    let mut left: u32 = MAX_ITERATIONS;
    while left > 0
        invariant
            newton_y_run(
                n@,
                ann@,
                gamma@,
                others@,
                k0_i@,
                d@,
                limit@,
                y@,
                left as nat,
            ) == newton_y_run(
                n@,
                ann@,
                gamma@,
                others@,
                k0_i@,
                d@,
                limit@,
                first@,
                MAX_ITERATIONS as nat,
            ),
        decreases left,
    {
        match newton_y_next(n, ann, gamma, others, k0_i, d, limit, y)? {
            Step::Stuck => {
                return Ok(None);
            },
            Step::Done(v) => {
                return Ok(Some(v));
            },
            Step::Next(v) => {
                y = v;
            },
        }
        left = left - 1;
    }
    Ok(None)
}

/// `K0` of three coins at `d`: how even the balances are with respect to `d`, in units of 10^18.
pub open spec fn k0_3_at(x: (int, int, int), d: int) -> int {
    (WAD as int).times(x.0).times(3).over(d).times(x.1).times(3).over(d).times(x.2).times(3).over(d)
}

/// Up to `fuel` steps toward `D` of three coins, until one converges.
pub open spec fn newton_d_3_run(
    ann: int,
    gamma: int,
    x: (int, int, int),
    s: int,
    d: int,
    fuel: nat,
) -> Result<Option<int>, Fault>
    decreases fuel,
{
    if fuel == 0 || d == 0 {
        Ok(None)
    } else {
        match newton_d_step(3, ann, gamma, s, k0_3_at(x, d), d) {
            Err(e) => Err(e),
            Ok(Step::Stuck) => Ok(None),
            Ok(Step::Done(v)) => Ok(Some(v)),
            Ok(Step::Next(v)) => newton_d_3_run(ann, gamma, x, s, v, (fuel - 1) as nat),
        }
    }
}

/// The iteration toward `D` of three coins: see [`newton_d_3_run`].
pub fn newton_d_3_loop(ann: U256, gamma: U256, x: [U256; 3], s: U256, first: U256) -> (r: Result<
    Option<U256>,
    Fault,
>)
    ensures
        outcome(r) == newton_d_3_run(
            ann@,
            gamma@,
            triple(x),
            s@,
            first@,
            MAX_ITERATIONS as nat,
        ),
{
    let mut d: U256 = first;
    let mut left: u32 = MAX_ITERATIONS;
    while left > 0
        invariant
            newton_d_3_run(ann@, gamma@, triple(x), s@, d@, left as nat) == newton_d_3_run(
                ann@,
                gamma@,
                triple(x),
                s@,
                first@,
                MAX_ITERATIONS as nat,
            ),
        decreases left,
    {
        if d.is_zero() {
            return Ok(None);
        }
        let n = U256::from(3u64);
        let k0 = U256::from(WAD) * x[0] * n / d * x[1] * n / d * x[2] * n / d;
        match newton_d_next(n, ann, gamma, s, k0, d)? {
            Step::Stuck => {
                return Ok(None);
            },
            Step::Done(v) => {
                return Ok(Some(v));
            },
            Step::Next(v) => {
                d = v;
            },
        }
        left = left - 1;
    }
    Ok(None)
}

/// Whether a step of the iteration toward `D` of the sorted balances `x` makes `d` out of `e`, and
/// the two differ by less than the tolerance.
pub open spec fn settles_3(ann: int, gamma: int, x: (int, int, int), e: int, d: int) -> bool {
    &&& e != 0
    &&& newton_d_step(3, ann, gamma, x.0.plus(x.1).plus(x.2), k0_3_at(x, e), e) == Ok::<_, Fault>(
        Step::Done(d),
    )
    &&& distance(d, e).times(100_000_000_000_000) < larger(10_000_000_000_000_000, d)
}

/// Whether `d` is what a step of the iteration toward `D` of the sorted balances `x` makes of a number
/// that differs from it by less than the tolerance.
pub open spec fn settled_d_3(ann: int, gamma: int, x: (int, int, int), d: int) -> bool {
    exists|e: int| settles_3(ann, gamma, x, e, d)
}

/// An invariant of three coins that is found is what a step of the iteration makes of a number that
/// differs from it by less than the tolerance.
pub proof fn lemma_newton_d_3_run(ann: int, gamma: int, x: (int, int, int), d: int, fuel: nat)
    ensures
        newton_d_3_run(ann, gamma, x, x.0.plus(x.1).plus(x.2), d, fuel) matches Ok(Some(v)) ==> settled_d_3(
            ann,
            gamma,
            x,
            v,
        ),
    decreases fuel,
{
    if fuel > 0 && d != 0 {
        match newton_d_step(3, ann, gamma, x.0.plus(x.1).plus(x.2), k0_3_at(x, d), d) {
            Ok(Step::Next(v)) => {
                lemma_newton_d_3_run(ann, gamma, x, v, (fuel - 1) as nat);
            },
            Ok(Step::Done(v)) => {
                assert(settles_3(ann, gamma, x, d, v));
            },
            _ => {},
        }
    }
}

/// A balance that is found is what a step of the iteration makes of a number that differs from it by
/// less than the tolerance.
pub proof fn law_newton_y_converged(
    n: int,
    ann: int,
    gamma: int,
    others: int,
    k0_i: int,
    d: int,
    limit: int,
    y: int,
    fuel: nat,
)
    ensures
        newton_y_run(n, ann, gamma, others, k0_i, d, limit, y, fuel) matches Ok(Some(v)) ==> exists|
            e: int,
        |
            #[trigger] newton_y_step(n, ann, gamma, others, k0_i, d, limit, e) == Ok::<_, Fault>(
                Step::Done(v),
            ) && distance(v, e) < larger(limit, v.over(100_000_000_000_000)),
    decreases fuel,
{
    if fuel > 0 {
        let e = y;
        let step = newton_y_step(n, ann, gamma, others, k0_i, d, limit, e);
        match step {
            Ok(Step::Next(v)) => {
                law_newton_y_converged(
                    n,
                    ann,
                    gamma,
                    others,
                    k0_i,
                    d,
                    limit,
                    v,
                    (fuel - 1) as nat,
                );
            },
            _ => {},
        }
    }
}

} // verus!
