//! Two-coin pools of the first generation: the simulated exchange with every update of the state.
pub use crate::pricing::ExchangeResult;
use crate::bounds::lemma_quotient;
use crate::callbacks::{ask_d, ask_y, d_of, pure_d, pure_y, y_of, SolveD, SolveY};
use crate::coins::{get2, pair, put2, set2, sorted2};
use crate::fault::Fault;
use crate::fees::{
    evenness_2, lemma_evenness_2, lemma_weighted, mix, mixed_fee, steep, steep_weight,
};
use crate::newton::{number, outcome, quantity, FEE_DENOMINATOR, MAX_ITERATIONS, WAD};
use crate::pricing::{
    claim, claimed, deviate, deviation, fee_at, fee_on, gross, gross_out, in_units, keeps_profit,
    lemma_average_between, move_average, move_scale, moved_average, moved_scale, payout, payout_outcome, price_of_trade,
    profit_allows, profit_kept, profit_permits, scale_of, step_for, step_size, to_units, trade_price,
};
use crate::roots::{isqrt_floor, lemma_isqrt_floor};
use crate::uint::{
    distance, larger, lemma_minus, lemma_over, lemma_plus, lemma_times, lemma_word_range, modulus, smaller,
    Word, U256,
};
use vstd::arithmetic::power2::{
    lemma2_to64, lemma_pow2_adds, lemma_pow2_pos, lemma_pow2_unfold, pow2,
};
use vstd::prelude::*;

verus! {

/// Up to `fuel` steps of Newton's method toward the square root of `x.0 * x.1`, from `d`.
pub open spec fn mean_run(x: (int, int), d: int, fuel: nat) -> Result<int, Fault>
    decreases fuel,
{
    let next = d.plus(x.0.times(x.1).over(d)).over(2);
    let diff = distance(next, d);
    if fuel == 0 {
        Ok(d)
    } else if d == 0 {
        Err(Fault)
    } else if diff <= 1 || diff.times(WAD as int) < next {
        Ok(next)
    } else {
        mean_run(x, next, (fuel - 1) as nat)
    }
}

/// The geometric mean of two numbers, by Newton's method from the first of them, or from the larger
/// one if they are to be sorted.
pub open spec fn geometric_mean_model(x: (int, int), sort: bool) -> Result<int, Fault> {
    let y = if sort {
        sorted2(x)
    } else {
        x
    };
    mean_run(y, y.0, MAX_ITERATIONS as nat)
}

/// The geometric mean of two numbers, or a fault where [`geometric_mean`] is not defined.
pub fn try_geometric_mean(unsorted_x: [U256; 2], sort: bool) -> (r: Result<U256, Fault>)
    ensures
        quantity(r) == geometric_mean_model(pair(unsorted_x), sort),
{
    let x = if sort && unsorted_x[0] < unsorted_x[1] {
        [unsorted_x[1], unsorted_x[0]]
    } else {
        unsorted_x
    };
    let ghost y = pair(x);
    let first = x[0];
    let second = x[1];
    let mut d: U256 = first;
    let mut left: u32 = MAX_ITERATIONS;
    while left > 0
        invariant
            y == (first@, second@),
            y == (if sort {
                sorted2(pair(unsorted_x))
            } else {
                pair(unsorted_x)
            }),
            mean_run(y, d@, left as nat) == mean_run(y, first@, MAX_ITERATIONS as nat),
        decreases left,
    {
        let next = (d + (first * second).div_by(d)?) / U256::from(2u64);
        let diff = next.abs_diff(d);
        d = next;
        if diff <= U256::from(1u64) || diff * U256::from(WAD) < d {
            return Ok(d);
        }
        left = left - 1;
    }
    Ok(d)
}

/// The geometric mean of two numbers by Newton's method.
pub fn geometric_mean(unsorted_x: [U256; 2], sort: bool) -> (r: U256)
    requires
        geometric_mean_model(pair(unsorted_x), sort) is Ok,
    ensures
        Ok::<int, Fault>(r@) == geometric_mean_model(pair(unsorted_x), sort),
{
    match try_geometric_mean(unsorted_x, sort) {
        Ok(r) => r,
        Err(_) => U256::zero(),
    }
}

proof fn lemma_mean_step(x: (int, int), d: int)
    requires
        x.0 >= x.1 > 0,
        x.0 * x.1 < modulus(),
        x.0 + x.1 < modulus(),
        isqrt_floor(x.0 * x.1) <= d <= x.0,
        d > 0,
    ensures
        ({
            let next = d.plus(x.0.times(x.1).over(d)).over(2);
            isqrt_floor(x.0 * x.1) <= next <= x.0 && next > 0
        }),
{
    let p = x.0 * x.1;
    let r = isqrt_floor(p);
    assert(p >= 0 && p >= x.1) by (nonlinear_arith)
        requires
            p == x.0 * x.1,
            x.0 >= x.1 > 0,
    ;
    lemma_isqrt_floor(p, r);
    lemma_times(x.0, x.1);
    let q = p / d;
    lemma_over(p, d);
    // d + q >= 2 * r
    assert(p < d * (q + 1)) by (nonlinear_arith)
        requires
            q == p / d,
            d > 0,
            p >= 0,
    ;
    assert(q >= 0) by (nonlinear_arith)
        requires
            q == p / d,
            d > 0,
            p >= 0,
    ;
    assert(d + q >= 2 * r) by (nonlinear_arith)
        requires
            r * r <= p,
            p < d * (q + 1),
            d > 0,
            q >= 0,
            r >= 0,
    {
        // otherwise d + q + 1 <= 2 * r, and d * (q + 1) <= r * r
        if d + q < 2 * r {
            let t = q + 1;
            assert(d + t <= 2 * r);
            assert(d * t <= r * r) by {
                assert((d - t) * (d - t) >= 0);
                assert((d + t) * (d + t) <= (2 * r) * (2 * r));
                assert(4 * (d * t) == (d + t) * (d + t) - (d - t) * (d - t));
            }
        }
    }
    // d + q <= 2 * x.0
    assert(d + q <= x.0 + x.1 && d + q <= 2 * x.0) by {
        // q <= 2 * x.0 - d follows from p <= d * (2 * x.0 - d)
        lemma_mean_upper(x, d, r);
    }
    lemma_plus(d, q);
    lemma_over(d + q, 2);
    assert(r >= 1) by (nonlinear_arith)
        requires
            p >= 1,
            p < (r + 1) * (r + 1),
            r >= 0,
    ;
}

proof fn lemma_mean_upper(x: (int, int), d: int, r: int)
    requires
        x.0 >= x.1 > 0,
        0 <= r <= d <= x.0,
        d > 0,
        x.0 * x.1 < (r + 1) * (r + 1),
    ensures
        d + (x.0 * x.1) / d <= 2 * x.0,
        d + (x.0 * x.1) / d <= x.0 + x.1,
{
    let p = x.0 * x.1;
    let a = x.0;
    let b = x.1;
    let q = p / d;
    assert(q * d <= p) by (nonlinear_arith)
        requires
            q == p / d,
            d > 0,
    ;
    assert(p < (d + 1) * (d + 1)) by (nonlinear_arith)
        requires
            p < (r + 1) * (r + 1),
            0 <= r <= d,
    ;
    if d >= b {
        // (a - d) * (d - b) >= 0, so d * (a + b - d) >= a * b
        assert(q <= a + b - d) by (nonlinear_arith)
            requires
                q * d <= p,
                p == a * b,
                b <= d <= a,
                d > 0,
        {
            assert((a - d) * (d - b) >= 0);
            assert(d * (a + b - d) >= a * b);
            assert(q * d <= d * (a + b - d));
        }
    } else {
        // then d < b <= a, so d + 1 <= b and p >= (d + 1) * (d + 1)
        assert(p >= (d + 1) * (d + 1)) by (nonlinear_arith)
            requires
                p == a * b,
                d + 1 <= b <= a,
                d > 0,
        ;
    }
}

proof fn lemma_mean_run(x: (int, int), d: int, fuel: nat)
    requires
        x.0 >= x.1 > 0,
        x.0 * x.1 < modulus(),
        x.0 + x.1 < modulus(),
        isqrt_floor(x.0 * x.1) <= d <= x.0,
        d > 0,
    ensures
        mean_run(x, d, fuel) matches Ok(v) && isqrt_floor(x.0 * x.1) <= v <= x.0,
    decreases fuel,
{
    if fuel > 0 {
        lemma_mean_step(x, d);
        let next = d.plus(x.0.times(x.1).over(d)).over(2);
        lemma_mean_run(x, next, (fuel - 1) as nat);
    }
}

/// The geometric mean of two sorted numbers is defined, not below the square root of their product
/// rounded down, and so between the smaller and the larger of them, as long as their product and
/// their sum are words.
pub proof fn law_geometric_mean_between(a: U256, b: U256)
    requires
        a@ > 0,
        b@ > 0,
        a@ * b@ < modulus(),
        a@ + b@ < modulus(),
    ensures
        geometric_mean_model((a@, b@), true) matches Ok(v) && isqrt_floor(a@ * b@) <= v
            && sorted2((a@, b@)).1 <= v <= sorted2((a@, b@)).0,
{
    lemma_word_range(a);
    lemma_word_range(b);
    let x = sorted2((a@, b@));
    assert(x.0 * x.1 == a@ * b@) by (nonlinear_arith)
        requires
            x == (a@, b@) || x == (b@, a@),
    ;
    let p = x.0 * x.1;
    let r = isqrt_floor(p);
    assert(p >= 0 && p <= x.0 * x.0 && p >= x.1 * x.1) by (nonlinear_arith)
        requires
            p == x.0 * x.1,
            x.0 >= x.1 > 0,
    ;
    lemma_isqrt_floor(p, r);
    assert(r <= x.0) by (nonlinear_arith)
        requires
            r * r <= x.0 * x.0,
            r >= 0,
            x.0 > 0,
    ;
    assert(x.1 <= r) by (nonlinear_arith)
        requires
            x.1 * x.1 < (r + 1) * (r + 1),
            r >= 0,
            x.1 > 0,
    ;
    lemma_mean_run(x, x.0, MAX_ITERATIONS as nat);
}

/// A step from above the square root `c` takes off half of the distance; one from the root itself stays
/// within one of it, and so does one that counts as converged.
proof fn lemma_mean_closer(p: int, c: int, d: int, q: int, next: int)
    requires
        1 <= c <= 200_000_000_000_000_000_000_000_000_000_000_000,
        p < (c + 1) * (c + 1),
        c <= d,
        0 <= q,
        q * d <= p,
        2 * next <= d + q,
    ensures
        d > c ==> 2 * (next - c) <= d - c,
        d == c ==> next <= c + 1,
        d > c && (d - next <= 1 || (d - next) * WAD < next) ==> next <= c + 1,
{
    let e = c + 1;
    if d > c {
        assert(q <= c) by (nonlinear_arith)
            requires
                q * d < e * e,
                d >= e,
                e == c + 1,
                1 <= c,
        ;
        let j = next - c;
        let b = d - c;
        if j >= 2 && (d - next) * WAD < next {
            assert(490_000_000_000_000_000 * b <= c);
            assert(b <= 410_000_000_000_000_000);
            assert(b * b <= c) by (nonlinear_arith)
                requires
                    0 <= b <= 410_000_000_000_000_000,
                    490_000_000_000_000_000 * b <= c,
            ;
            assert(q * d >= (c + 2 * j - b) * d) by (nonlinear_arith)
                requires
                    q >= c + 2 * j - b,
                    d >= 0,
            ;
            assert((c + 2 * j - b) * d == c * c + 2 * (j * c) + 2 * (j * b) - b * b) by (nonlinear_arith)
                requires
                    d == c + b,
            ;
            assert(j * c >= 2 * c && j * b >= 0) by (nonlinear_arith)
                requires
                    j >= 2,
                    b >= 0,
                    c >= 0,
            ;
            assert((c + 1) * (c + 1) == c * c + 2 * c + 1) by (nonlinear_arith);
        }
    } else {
        assert(q <= c + 2) by (nonlinear_arith)
            requires
                q * c < (c + 1) * (c + 1),
                1 <= c,
        ;
    }
}

proof fn lemma_mean_close(x: (int, int), d: int, fuel: nat)
    requires
        x.0 >= x.1 > 0,
        x.0 * x.1 <= 40_000_000_000_000_000_000_000_000_000_000_000_000_000_000_000_000_000_000_000,
        isqrt_floor(x.0 * x.1) <= d <= x.0,
        d > 0,
        d - isqrt_floor(x.0 * x.1) <= pow2(fuel),
    ensures
        mean_run(x, d, fuel) matches Ok(v) && v <= isqrt_floor(x.0 * x.1) + 1,
    decreases fuel,
{
    let p = x.0 * x.1;
    let c = isqrt_floor(p);
    lemma2_to64();
    assert(p >= x.0 && p >= x.1) by (nonlinear_arith)
        requires
            p == x.0 * x.1,
            x.0 >= x.1 > 0,
    ;
    lemma_isqrt_floor(p, c);
    assert(1 <= c <= 200_000_000_000_000_000_000_000_000_000_000_000) by (nonlinear_arith)
        requires
            1 <= p <= 40_000_000_000_000_000_000_000_000_000_000_000_000_000_000_000_000_000_000_000,
            c * c <= p < (c + 1) * (c + 1),
            0 <= c,
    ;
    if fuel > 0 {
        lemma_mean_step(x, d);
        lemma_times(x.0, x.1);
        lemma_over(p, d);
        lemma_quotient(p, d);
        let q = p / d;
        lemma_plus(d, q);
        lemma_over(d + q, 2);
        let next = (d + q) / 2;
        lemma_mean_closer(p, c, d, q, next);
        lemma_pow2_unfold(fuel);
        lemma_pow2_pos((fuel - 1) as nat);
        let gap = if next > d {
            lemma_minus(next, d);
            next - d
        } else {
            lemma_minus(d, next);
            d - next
        };
        lemma_times(gap, WAD as int);
        if !(gap <= 1 || gap * WAD < next) {
            lemma_mean_close(x, next, (fuel - 1) as nat);
        }
    }
}

/// The geometric mean of two sorted numbers is the square root of their product rounded down, or one
/// more, as long as the product is at most 4 * 10^70.
pub proof fn law_geometric_mean_accuracy(a: U256, b: U256)
    requires
        a@ > 0,
        b@ > 0,
        a@ * b@ <= 40_000_000_000_000_000_000_000_000_000_000_000_000_000_000_000_000_000_000_000,
    ensures
        geometric_mean_model((a@, b@), true) matches Ok(v) && isqrt_floor(a@ * b@) <= v <= isqrt_floor(
            a@ * b@,
        ) + 1,
{
    let x = sorted2((a@, b@));
    assert(x.0 * x.1 == a@ * b@) by (nonlinear_arith)
        requires
            x == (a@, b@) || x == (b@, a@),
    ;
    let p = x.0 * x.1;
    assert(p >= x.0 && p >= x.1 && p <= x.0 * x.0) by (nonlinear_arith)
        requires
            p == x.0 * x.1,
            x.0 >= x.1 > 0,
    ;
    law_geometric_mean_between(a, b);
    lemma_isqrt_floor(p, 0);
    let c = isqrt_floor(p);
    assert(c <= x.0) by (nonlinear_arith)
        requires
            c * c <= x.0 * x.0,
            c >= 0,
            x.0 > 0,
    ;
    lemma2_to64();
    lemma_pow2_adds(64, 64);
    lemma_pow2_adds(128, 128);
    lemma_pow2_unfold(256);
    let h = pow2(64) as int;
    assert(pow2(256) == modulus()) by (nonlinear_arith)
        requires
            pow2(256) == (h * h) * (h * h),
            h == 0x1_0000000000000000,
            modulus() == 0x1_0000000000000000_0000000000000000_0000000000000000_0000000000000000int,
    ;
    lemma_mean_close(x, x.0, MAX_ITERATIONS as nat);
}

/// The geometric mean of sorted numbers does not depend on the order they come in.
pub proof fn law_geometric_mean_symmetric(a: U256, b: U256)
    ensures
        geometric_mean_model((a@, b@), true) == geometric_mean_model((b@, a@), true),
{
}

/// Up to `fuel` further terms of the binomial series of `(1 - 1/2)^power` from term `i` on, where
/// `term` is the term before, `s` the sum so far and `neg` its direction, in units of 10^18.
pub open spec fn series(power: int, i: int, term: int, s: int, neg: bool, fuel: nat) -> int
    decreases fuel,
{
    let k = i.times(WAD as int);
    let before = k.minus(WAD as int);
    let (c, down) = if power > before {
        (power.minus(before), !neg)
    } else {
        (before.minus(power), neg)
    };
    let next = term.times(c.times(500_000_000_000_000_000).over(WAD as int)).over(k);
    let sum = if down {
        s.minus(next)
    } else {
        s.plus(next)
    };
    if fuel == 0 {
        s
    } else if next < FEE_DENOMINATOR {
        sum
    } else {
        series(power, i + 1, next, sum, down, (fuel - 1) as nat)
    }
}

/// One half to the power `power`, both in units of 10^18.
pub open spec fn halfpow_model(power: int) -> int {
    let whole = power.over(WAD as int);
    let rest = power.minus(whole.times(WAD as int));
    let result = (WAD as int) / (pow2(whole as nat) as int);
    if whole > 59 {
        0
    } else if rest == 0 {
        result
    } else {
        result.times(series(rest, 1, WAD as int, WAD as int, false, 255)).over(WAD as int)
    }
}

/// The sum of the binomial series: see [`series`].
fn sum_series(power: U256) -> (r: U256)
    ensures
        r@ == series(power@, 1, WAD as int, WAD as int, false, 255),
{
    let w = U256::from(WAD);
    let mut term: U256 = w;
    let mut s: U256 = w;
    let mut neg: bool = false;
    let mut i: u64 = 1;
    while i < 256
        invariant
            1 <= i <= 256,
            w@ == WAD,
            series(power@, i as int, term@, s@, neg, (256 - i) as nat) == series(
                power@,
                1,
                WAD as int,
                WAD as int,
                false,
                255,
            ),
        decreases 256 - i,
    {
        let k = U256::from(i) * w;
        proof {
            lemma_times(i as int, WAD as int);
        }
        let before = k - w;
        let c = if power > before {
            neg = !neg;
            power - before
        } else {
            before - power
        };
        term = term * (c * U256::from(500_000_000_000_000_000u64) / w) / k;
        s = if neg {
            s - term
        } else {
            s + term
        };
        if term < U256::from(FEE_DENOMINATOR) {
            return s;
        }
        i = i + 1;
    }
    s
}

/// One half to the power `power`, both in units of 10^18.
pub fn halfpow(power: U256) -> (r: U256)
    ensures
        r@ == halfpow_model(power@),
{
    let w = U256::from(WAD);
    let whole = power / w;
    let rest = power - whole * w;
    if whole > U256::from(59u64) {
        return U256::zero();
    }
    proof {
        lemma_word_range(whole);
    }
    let shift = whole.low() as usize;
    let power_of_two = U256::from(1u64).shl(shift);
    proof {
        vstd::arithmetic::power2::lemma_pow2_strictly_increases(whole@ as nat, 60);
        vstd::arithmetic::power2::lemma2_to64_rest();
        vstd::arithmetic::power2::lemma_pow2_pos(whole@ as nat);
        lemma_times(1, pow2(whole@ as nat) as int);
        lemma_over(WAD as int, pow2(whole@ as nat) as int);
    }
    let result = w / power_of_two;
    if rest.is_zero() {
        return result;
    }
    result * sum_series(rest) / w
}

proof fn lemma_series_step(power: int, i: int, term: int)
    requires
        0 < power < WAD,
        2 <= i <= 256,
        0 <= term <= WAD,
    ensures
        ({
            let k = i.times(WAD as int);
            let before = k.minus(WAD as int);
            let c = before.minus(power);
            let next = term.times(c.times(500_000_000_000_000_000).over(WAD as int)).over(k);
            &&& power <= before
            &&& 0 <= 2 * next <= term
        }),
{
    let w = WAD as int;
    let k = i * w;
    lemma_times(i, w);
    lemma_minus(k, w);
    let c = k - w - power;
    lemma_minus(k - w, power);
    let h5 = c * 500_000_000_000_000_000;
    lemma_times(c, 500_000_000_000_000_000);
    let h = h5 / w;
    lemma_over(h5, w);
    assert(0 <= 2 * h <= c);
    assert(0 <= term * h && 2 * (term * h) <= term * c && term * c <= term * k) by (nonlinear_arith)
        requires
            0 <= term,
            0 <= 2 * h <= c,
            c <= k,
    ;
    assert(term * k <= w * k) by (nonlinear_arith)
        requires
            term <= w,
            0 <= k,
    ;
    lemma_times(term, h);
    lemma_over(term * h, k);
    assert(0 <= (term * h) / k && 2 * ((term * h) / k) <= term) by (nonlinear_arith)
        requires
            0 <= term * h,
            2 * (term * h) <= term * k,
            k > 0,
    ;
}

proof fn lemma_series(power: int, i: int, term: int, s: int, fuel: nat, least: int)
    requires
        0 < power < WAD,
        2 <= i,
        i + fuel <= 256,
        0 <= term <= WAD,
        s <= WAD,
        s - term >= least >= 0,
    ensures
        least <= series(power, i, term, s, true, fuel) <= WAD,
    decreases fuel,
{
    if fuel > 0 {
        lemma_series_step(power, i, term);
        let k = i.times(WAD as int);
        let before = k.minus(WAD as int);
        let c = before.minus(power);
        let next = term.times(c.times(500_000_000_000_000_000).over(WAD as int)).over(k);
        lemma_minus(s, next);
        lemma_series(power, i + 1, next, s - next, (fuel - 1) as nat, least);
    }
}

/// The sum of the series is at least one half: so much is left after the second term, with room for
/// the terms that follow.
proof fn lemma_second_term(rest: int, h: int)
    requires
        0 < rest < WAD,
        0 <= 2 * h <= rest,
    ensures
        WAD <= 2 * series(rest, 2, h, WAD - h, true, 254) <= 2 * WAD,
{
    let w = WAD as int;
    lemma_series_step(rest, 2, h);
    let k = 2int.times(w);
    let c = k.minus(w).minus(rest);
    let next = h.times(c.times(500_000_000_000_000_000).over(w)).over(k);
    lemma_times(2, w);
    lemma_minus(2 * w, w);
    lemma_minus(w, rest);
    lemma_times(w - rest, 500_000_000_000_000_000);
    let half_c = ((w - rest) * 500_000_000_000_000_000) / w;
    lemma_over((w - rest) * 500_000_000_000_000_000, w);
    assert(0 <= 2 * half_c <= w - rest);
    assert(0 <= h * half_c && 4 * (h * half_c) <= rest * (w - rest)) by (nonlinear_arith)
        requires
            0 <= 2 * h <= rest,
            0 <= 2 * half_c <= w - rest,
    ;
    assert(rest * (w - rest) <= w * w) by (nonlinear_arith)
        requires
            0 < rest < w,
    ;
    lemma_times(h, half_c);
    lemma_over(h * half_c, 2 * w);
    assert(next == (h * half_c) / (2 * w));
    // 8 * w * next <= rest * (w - rest), and 3 * w * rest - rest * rest <= 2 * w * w
    assert(w - h - 2 * next >= w / 2) by (nonlinear_arith)
        requires
            next == (h * half_c) / (2 * w),
            4 * (h * half_c) <= rest * (w - rest),
            2 * h <= rest,
            0 < rest < w,
            w == 1_000_000_000_000_000_000,
    {
        assert(next * (2 * w) <= h * half_c);
        assert((w - rest) * (2 * w - rest) >= 0);
        assert(rest * (w - rest) == rest * w - rest * rest);
        assert((w - rest) * (2 * w - rest) == 2 * (w * w) - 3 * (w * rest) + rest * rest);
    }
    lemma_minus(w - h, next);
    lemma_series(rest, 3, next, w - h - next, 253, w / 2);
}

/// One half to a power lies between one half to the whole part of the power and half of that, up to
/// rounding, and so is at most one. At a whole power it is exact up to rounding; from the sixtieth power
/// on it is zero.
pub proof fn law_halfpow(power: U256)
    ensures
        ({
            let whole = power@ / (WAD as int);
            let exact = (WAD as int) / (pow2(whole as nat) as int);
            &&& 0 <= halfpow_model(power@) <= exact <= WAD
            &&& whole <= 59 ==> 2 * halfpow_model(power@) + 2 > exact
            &&& whole <= 59 && power@ % (WAD as int) == 0 ==> halfpow_model(power@) == exact
            &&& whole >= 60 ==> halfpow_model(power@) == 0
        }),
{
    lemma_word_range(power);
    lemma_halfpow(power@);
}

/// What [`law_halfpow`] says, of a number.
pub proof fn lemma_halfpow(power: int)
    requires
        0 <= power < modulus(),
    ensures
        ({
            let whole = power / (WAD as int);
            let exact = (WAD as int) / (pow2(whole as nat) as int);
            &&& 0 <= halfpow_model(power) <= exact <= WAD
            &&& whole <= 59 ==> 2 * halfpow_model(power) + 2 > exact
            &&& whole <= 59 && power % (WAD as int) == 0 ==> halfpow_model(power) == exact
            &&& whole >= 60 ==> halfpow_model(power) == 0
        }),
{
    let w = WAD as int;
    let whole = power / w;
    let exact = w / (pow2(whole as nat) as int);
    vstd::arithmetic::power2::lemma_pow2_pos(whole as nat);
    let p2 = pow2(whole as nat) as int;
    assert(0 <= w / p2 <= w) by (nonlinear_arith)
        requires
            p2 > 0,
            w > 0,
    ;
    lemma_over(power, w);
    vstd::arithmetic::div_mod::lemma_fundamental_div_mod(power, w);
    assert(whole * w == w * whole) by (nonlinear_arith);
    lemma_times(whole, w);
    let rest = power - whole * w;
    lemma_minus(power, whole * w);
    if whole <= 59 && rest != 0 {
        assert(0 < rest < w);
        // the first term of the series is half of the rest
        lemma_times(1, w);
        lemma_minus(w, w);
        lemma_minus(rest, 0);
        lemma_times(rest, 500_000_000_000_000_000);
        lemma_over(rest * 500_000_000_000_000_000, w);
        let h = (rest * 500_000_000_000_000_000) / w;
        assert(0 <= 2 * h <= rest);
        lemma_times(w, h);
        lemma_over(w * h, w);
        assert((w * h) / w == h);
        lemma_minus(w, h);
        lemma_second_term(rest, h);
        let s = series(rest, 1, w, w, false, 255);
        assert(w <= 2 * s <= 2 * w);
        assert(0 <= exact * s <= exact * w) by (nonlinear_arith)
            requires
                0 <= s <= w,
                0 <= exact,
        ;
        lemma_times(exact, s);
        lemma_over(exact * s, w);
        assert(0 <= (exact * s) / w <= exact) by (nonlinear_arith)
            requires
                0 <= exact * s <= exact * w,
                w > 0,
        ;
        assert(2 * ((exact * s) / w) + 2 > exact) by (nonlinear_arith)
            requires
                w <= 2 * s,
                0 <= exact,
                w > 0,
        {
            let q = (exact * s) / w;
            assert(exact * s < w * (q + 1));
            assert(exact * w <= 2 * (exact * s));
            assert(exact * w < w * (2 * q + 2));
        }
    }
}

/// The state of a two-coin pool of the first generation.
#[derive(Clone, Copy, Debug)]
pub struct TwoCryptoV1State {
    /// What the pool holds of each coin, in the coin's own units.
    pub balances: [U256; 2],
    /// The price of the second coin in the first around which the liquidity is concentrated.
    pub price_scale: U256,
    /// The moving average of the price.
    pub price_oracle: U256,
    /// The price after the last change.
    pub last_prices: U256,
    /// When the moving average was last brought up to date.
    pub last_prices_timestamp: u64,
    /// The invariant.
    pub d: U256,
    /// The worth of a pool token.
    pub virtual_price: U256,
    /// The profit so far, as a factor.
    pub xcp_profit: U256,
    /// The profit at the last claim of the admin's share.
    pub xcp_profit_a: U256,
    /// The admin's share of the profit, in units of 10^10.
    pub admin_fee: U256,
    /// The amplification coefficient times `N^N`, scaled.
    pub ann: U256,
    /// How far the liquidity is concentrated.
    pub gamma: U256,
    /// The fee rate at an even split, in units of 10^10.
    pub mid_fee: U256,
    /// The fee rate far from an even split, in units of 10^10.
    pub out_fee: U256,
    /// How fast the fee rate changes between the two.
    pub fee_gamma: U256,
    /// What brings each coin to 18 decimals.
    pub precisions: [U256; 2],
    /// The number of pool tokens.
    pub total_supply: U256,
    /// The extra profit that has to be there before the price scale moves.
    pub allowed_extra_profit: U256,
    /// The least step by which the price scale moves.
    pub adjustment_step: U256,
    /// The half-life of the moving average, in seconds.
    pub ma_half_time: U256,
    /// Whether a move of the price scale is still due.
    pub not_adjusted: bool,
    /// When a change of `ann` and `gamma` ends; zero where there is none, one where it has ended.
    pub future_a_gamma_time: U256,
    /// Which variant of the solver the pool uses.
    pub eth_variant: bool,
}

/// The numbers in the state of a two-coin pool of the first generation.
pub struct TwoV1 {
    pub balances: (int, int),
    pub price_scale: int,
    pub price_oracle: int,
    pub last_prices: int,
    pub last_prices_timestamp: int,
    pub d: int,
    pub virtual_price: int,
    pub xcp_profit: int,
    pub xcp_profit_a: int,
    pub admin_fee: int,
    pub ann: int,
    pub gamma: int,
    pub mid_fee: int,
    pub out_fee: int,
    pub fee_gamma: int,
    pub precisions: (int, int),
    pub total_supply: int,
    pub allowed_extra_profit: int,
    pub adjustment_step: int,
    pub ma_half_time: int,
    pub not_adjusted: bool,
    pub future_a_gamma_time: int,
    pub eth_variant: bool,
}

impl View for TwoCryptoV1State {
    type V = TwoV1;

    open spec fn view(&self) -> TwoV1 {
        TwoV1 {
            balances: pair(self.balances),
            price_scale: self.price_scale@,
            price_oracle: self.price_oracle@,
            last_prices: self.last_prices@,
            last_prices_timestamp: self.last_prices_timestamp as int,
            d: self.d@,
            virtual_price: self.virtual_price@,
            xcp_profit: self.xcp_profit@,
            xcp_profit_a: self.xcp_profit_a@,
            admin_fee: self.admin_fee@,
            ann: self.ann@,
            gamma: self.gamma@,
            mid_fee: self.mid_fee@,
            out_fee: self.out_fee@,
            fee_gamma: self.fee_gamma@,
            precisions: pair(self.precisions),
            total_supply: self.total_supply@,
            allowed_extra_profit: self.allowed_extra_profit@,
            adjustment_step: self.adjustment_step@,
            ma_half_time: self.ma_half_time@,
            not_adjusted: self.not_adjusted,
            future_a_gamma_time: self.future_a_gamma_time@,
            eth_variant: self.eth_variant,
        }
    }
}

/// The fee rate for the balances `x`.
pub open spec fn fee_model(x: (int, int), mid_fee: int, out_fee: int, fee_gamma: int) -> Result<
    int,
    Fault,
> {
    if x.0.plus(x.1) == 0 {
        Err(Fault)
    } else {
        match steep_weight(fee_gamma, evenness_2(x)) {
            Err(e) => Err(e),
            Ok(f) => Ok(mixed_fee(mid_fee, out_fee, f)),
        }
    }
}

/// The fee rate for the balances `xp`, or a fault where a divisor is zero.
pub fn fee(xp: &[U256; 2], mid_fee: U256, out_fee: U256, fee_gamma: U256) -> (r: Result<U256, Fault>)
    ensures
        quantity(r) == fee_model(pair(*xp), mid_fee@, out_fee@, fee_gamma@),
{
    let s = xp[0] + xp[1];
    if s.is_zero() {
        return Err(Fault);
    }
    let k = U256::from(WAD) * U256::from(4u64) * xp[0] / s * xp[1] / s;
    Ok(mix(mid_fee, out_fee, steep(fee_gamma, k)?))
}

/// The geometric mean of an even split with the invariant `d` at the price `scale`.
pub open spec fn mean_of_even_2(d: int, scale: int) -> Result<int, Fault> {
    let below = 2int.times(scale);
    if below == 0 {
        Err(Fault)
    } else {
        geometric_mean_model((d.over(2), d.times(WAD as int).over(below)), true)
    }
}

/// The value of [`mean_of_even_2`].
pub fn even_mean_2(d: U256, scale: U256) -> (r: Result<U256, Fault>)
    ensures
        quantity(r) == mean_of_even_2(d@, scale@),
{
    let two = U256::from(2u64);
    try_geometric_mean([d / two, (d * U256::from(WAD)).div_by(two * scale)?], true)
}

/// The virtual price of a pool with the invariant `d`: the geometric mean of an even split at the
/// price `scale`, per pool token.
pub open spec fn virtual_price_2(d: int, scale: int, total_supply: int) -> Result<int, Fault> {
    match mean_of_even_2(d, scale) {
        Err(e) => Err(e),
        Ok(xcp) => if total_supply == 0 {
            Err(Fault)
        } else {
            Ok((WAD as int).times(xcp).over(total_supply))
        },
    }
}

/// The value of [`virtual_price_2`].
pub fn virtual_price_of_2(d: U256, scale: U256, total_supply: U256) -> (r: Result<U256, Fault>)
    ensures
        quantity(r) == virtual_price_2(d@, scale@, total_supply@),
{
    (U256::from(WAD) * even_mean_2(d, scale)?).div_by(total_supply)
}

impl TwoV1 {
    /// The price scale of coin `k`; the first coin has none.
    pub open spec fn scale(self, k: int) -> Option<int> {
        if k > 0 {
            Some(self.price_scale)
        } else {
            None
        }
    }

    /// The balances in common units.
    pub open spec fn normalized(self) -> (int, int) {
        (
            self.balances.0.times(self.precisions.0),
            self.balances.1.times(self.price_scale).times(self.precisions.1).over(WAD as int),
        )
    }

    /// The state after the admin's share of the profit has been claimed, with `D` and the virtual
    /// price taken anew where the solver has an answer.
    pub open spec fn with_claim(self, solve_d: SolveD) -> Result<TwoV1, Fault> {
        let (profit, supply) = claimed(
            self.xcp_profit,
            self.xcp_profit_a,
            self.virtual_price,
            self.total_supply,
            self.admin_fee,
        );
        let s = TwoV1 {
            xcp_profit: profit,
            total_supply: supply,
            xcp_profit_a: larger(self.xcp_profit_a, profit),
            ..self
        };
        match solve_d(self.ann, self.gamma, self.normalized()) {
            None => Ok(s),
            Some(d) => match mean_of_even_2(d, self.price_scale) {
                Err(e) => Err(e),
                Ok(xcp) => if supply == 0 {
                    Ok(TwoV1 { d, ..s })
                } else {
                    Ok(TwoV1 { d, virtual_price: (WAD as int).times(xcp).over(supply), ..s })
                },
            },
        }
    }

    /// The state with the moving average brought up to the time `now`.
    pub open spec fn with_average(self, now: int) -> Result<TwoV1, Fault> {
        let alpha = halfpow_model(
            (now - self.last_prices_timestamp).times(WAD as int).over(self.ma_half_time),
        );
        if self.last_prices_timestamp >= now {
            Ok(self)
        } else if self.ma_half_time == 0 {
            Err(Fault)
        } else {
            Ok(
                TwoV1 {
                    price_oracle: moved_average(self.last_prices, self.price_oracle, alpha),
                    last_prices_timestamp: now,
                    ..self
                },
            )
        }
    }

    /// The invariant of the balances `xp`: `new_d` if it is known, else what the solver finds, else the
    /// old one.
    pub open spec fn invariant_at(self, xp: (int, int), new_d: int, solve_d: SolveD) -> int {
        if new_d != 0 {
            new_d
        } else {
            match solve_d(self.ann, self.gamma, xp) {
                Some(d) => d,
                None => self.d,
            }
        }
    }

    /// The last price: `p` if it is known, else what a millionth more of the first coin would buy, else
    /// the old one.
    pub open spec fn price_at(self, xp: (int, int), p: int, d: int, solve_y: SolveY) -> int {
        let nudge = xp.0.over(1_000_000);
        if p > 0 {
            p
        } else {
            match solve_y(
                self.ann,
                self.gamma,
                (xp.0.plus(nudge), xp.1),
                d,
                1,
                self.eth_variant,
            ) {
                Some(y) => if xp.1 > y {
                    self.price_scale.times(nudge).over(xp.1.minus(y))
                } else {
                    self.last_prices
                },
                None => self.last_prices,
            }
        }
    }

    /// The virtual price, the profit and the end of a change of parameters, for the invariant `d`;
    /// nothing where the virtual price would fall while the parameters do not change.
    pub open spec fn profit_at(self, d: int) -> Result<Option<(int, int, int)>, Fault> {
        let t = self.future_a_gamma_time;
        if self.virtual_price > 0 {
            match virtual_price_2(d, self.price_scale, self.total_supply) {
                Err(e) => Err(e),
                Ok(v) => if v < self.virtual_price && t == 0 {
                    Ok(None)
                } else {
                    Ok(
                        Some(
                            (
                                v,
                                self.xcp_profit.times(v).over(self.virtual_price),
                                if t == 1 {
                                    0
                                } else {
                                    t
                                },
                            ),
                        ),
                    )
                },
            }
        } else if 2int.times(self.price_scale) == 0 {
            Err(Fault)
        } else {
            Ok(Some((WAD as int, WAD as int, t)))
        }
    }

    /// A new price scale, its invariant and its virtual price, where the solver has an answer and enough
    /// of the profit is kept.
    pub open spec fn moved_price(
        self,
        xp: (int, int),
        norm: int,
        step: int,
        solve_d: SolveD,
    ) -> Result<Option<(int, int, int)>, Fault> {
        let p = moved_scale(self.price_scale, self.price_oracle, norm, step);
        match solve_d(self.ann, self.gamma, (xp.0, xp.1.times(p).over(self.price_scale))) {
            None => Ok(None),
            Some(d) => match virtual_price_2(d, p, self.total_supply) {
                Err(e) => Err(e),
                Ok(v) => if keeps_profit(v, self.xcp_profit) {
                    Ok(Some((p, d, v)))
                } else {
                    Ok(None)
                },
            },
        }
    }

    /// The state after the price scale has moved, where a move is due and pays, or with the invariant
    /// `d` and the virtual price `v`, after a claim where a move was due.
    pub open spec fn settled(self, xp: (int, int), d: int, v: int, solve_d: SolveD) -> Result<
        TwoV1,
        Fault,
    > {
        let norm = deviation(self.price_oracle, self.price_scale);
        let step = step_size(self.adjustment_step, norm);
        let room = norm > step && self.virtual_price > 0;
        let due = self.not_adjusted || (profit_allows(
            v,
            self.xcp_profit,
            self.allowed_extra_profit,
        ) && room);
        let kept = TwoV1 { d, virtual_price: v, not_adjusted: false, ..self };
        if due && room {
            match self.moved_price(xp, norm, step, solve_d) {
                Err(e) => Err(e),
                Ok(Some((p, d2, v2))) => Ok(
                    TwoV1 {
                        price_scale: p,
                        d: d2,
                        virtual_price: v2,
                        not_adjusted: true,
                        ..self
                    },
                ),
                Ok(None) => kept.with_claim(solve_d),
            }
        } else if due {
            kept.with_claim(solve_d)
        } else {
            Ok(kept)
        }
    }

    /// The state after a change of the balances to `xp` in common units, at the time `now`: `p` is the
    /// price of the change and `new_d` the invariant after it, where they are known.
    pub open spec fn tweaked(
        self,
        xp: (int, int),
        p: int,
        new_d: int,
        now: int,
        solve_d: SolveD,
        solve_y: SolveY,
    ) -> Result<TwoV1, Fault> {
        match self.with_average(now) {
            Err(e) => Err(e),
            Ok(s0) => {
                let d = s0.invariant_at(xp, new_d, solve_d);
                let s1 = TwoV1 { last_prices: s0.price_at(xp, p, d, solve_y), ..s0 };
                match s1.profit_at(d) {
                    Err(e) => Err(e),
                    Ok(None) => Ok(s1),
                    Ok(Some((v, profit, t))) => {
                        let s2 = TwoV1 { xcp_profit: profit, future_a_gamma_time: t, ..s1 };
                        s2.settled(xp, d, v, solve_d)
                    },
                }
            },
        }
    }
}

impl TwoCryptoV1State {
    /// The balances in common units: see [`TwoV1::normalized`].
    pub fn common_units(&self) -> (r: [U256; 2])
        ensures
            pair(r) == self@.normalized(),
    {
        [
            self.balances[0] * self.precisions[0],
            self.balances[1] * self.price_scale * self.precisions[1] / U256::from(WAD),
        ]
    }

    /// The price scale of coin `k`: see [`TwoV1::scale`].
    fn scale_at(&self, k: usize) -> (r: Option<U256>)
        ensures
            scale_of(r) == self@.scale(k as int),
    {
        if k > 0 {
            Some(self.price_scale)
        } else {
            None
        }
    }

    /// Claims the admin's share of the profit; where [`TwoCryptoV1State::claim_admin_fees`] is not
    /// defined, a fault, and the state stays as it is.
    pub fn try_claim_admin_fees<F: Fn(U256, U256, [U256; 2]) -> Option<U256>>(
        &mut self,
        newton_d: &F,
    ) -> (r: Result<(), Fault>)
        requires
            pure_d(*newton_d),
        ensures
            match old(self)@.with_claim(d_of(*newton_d)) {
                Ok(s) => r is Ok && final(self)@ == s,
                Err(_) => r is Err && *final(self) == *old(self),
            },
    {
        let mut s = *self;
        let (profit, supply) = claim(
            s.xcp_profit,
            s.xcp_profit_a,
            s.virtual_price,
            s.total_supply,
            s.admin_fee,
        );
        s.xcp_profit = profit;
        s.total_supply = supply;
        s.xcp_profit_a = s.xcp_profit_a.max(profit);
        match ask_d(newton_d, s.ann, s.gamma, self.common_units()) {
            None => {},
            Some(d) => {
                s.d = d;
                let xcp = even_mean_2(d, s.price_scale)?;
                if !supply.is_zero() {
                    s.virtual_price = U256::from(WAD) * xcp / supply;
                }
            },
        }
        *self = s;
        Ok(())
    }

    /// Claims the admin's share of the profit since the last claim as pool tokens, then takes `D` and
    /// the virtual price anew. `newton_d` solves for `D`.
    pub fn claim_admin_fees<F: Fn(U256, U256, [U256; 2]) -> Option<U256>>(&mut self, newton_d: &F)
        requires
            pure_d(*newton_d),
            old(self)@.with_claim(d_of(*newton_d)) is Ok,
        ensures
            Ok::<TwoV1, Fault>(final(self)@) == old(self)@.with_claim(d_of(*newton_d)),
    {
        let _ = self.try_claim_admin_fees(newton_d);
    }
}

impl TwoCryptoV1State {
    /// The state with the moving average brought up to date: see [`TwoV1::with_average`].
    fn averaged(&self, now: u64) -> (r: Result<TwoCryptoV1State, Fault>)
        ensures
            state_outcome(r) == self@.with_average(now as int),
    {
        let mut s = *self;
        if self.last_prices_timestamp < now {
            let dt = U256::from(now - self.last_prices_timestamp);
            let alpha = halfpow((dt * U256::from(WAD)).div_by(self.ma_half_time)?);
            s.price_oracle = move_average(self.last_prices, self.price_oracle, alpha);
            s.last_prices_timestamp = now;
        }
        Ok(s)
    }

    /// The last price: see [`TwoV1::price_at`].
    fn price_now<Y: Fn(U256, U256, [U256; 2], U256, usize, bool) -> Option<U256>>(
        &self,
        xp: [U256; 2],
        p: U256,
        d: U256,
        newton_y: &Y,
    ) -> (r: U256)
        requires
            pure_y(*newton_y),
        ensures
            r@ == self@.price_at(pair(xp), p@, d@, y_of(*newton_y)),
    {
        if p > U256::zero() {
            return p;
        }
        let nudge = xp[0] / U256::from(1_000_000u64);
        match ask_y(
            newton_y,
            self.ann,
            self.gamma,
            [xp[0] + nudge, xp[1]],
            d,
            1,
            self.eth_variant,
        ) {
            Some(y) => {
                if xp[1] > y {
                    proof {
                        lemma_word_range(xp[1]);
                        lemma_word_range(y);
                        lemma_minus(xp[1]@, y@);
                    }
                    self.price_scale * nudge / (xp[1] - y)
                } else {
                    self.last_prices
                }
            },
            None => self.last_prices,
        }
    }

    /// The virtual price, the profit and the end of a change of parameters: see [`TwoV1::profit_at`].
    fn profit_now(&self, d: U256) -> (r: Result<Option<(U256, U256, U256)>, Fault>)
        ensures
            profit_outcome(r) == self@.profit_at(d@),
    {
        let t = self.future_a_gamma_time;
        if self.virtual_price > U256::zero() {
            let v = virtual_price_of_2(d, self.price_scale, self.total_supply)?;
            if v < self.virtual_price && t.is_zero() {
                return Ok(None);
            }
            let profit = self.xcp_profit * v / self.virtual_price;
            let ended = if t == U256::from(1u64) {
                U256::zero()
            } else {
                t
            };
            Ok(Some((v, profit, ended)))
        } else {
            if (U256::from(2u64) * self.price_scale).is_zero() {
                return Err(Fault);
            }
            Ok(Some((U256::from(WAD), U256::from(WAD), t)))
        }
    }

    /// A new price scale, its invariant and its virtual price: see [`TwoV1::moved_price`].
    fn price_moved<D: Fn(U256, U256, [U256; 2]) -> Option<U256>>(
        &self,
        xp: [U256; 2],
        norm: U256,
        step: U256,
        newton_d: &D,
    ) -> (r: Result<Option<(U256, U256, U256)>, Fault>)
        requires
            pure_d(*newton_d),
            norm@ != 0,
            self@.price_scale != 0,
        ensures
            profit_outcome(r) == self@.moved_price(pair(xp), norm@, step@, d_of(*newton_d)),
    {
        let p = move_scale(self.price_scale, self.price_oracle, norm, step);
        match ask_d(newton_d, self.ann, self.gamma, [xp[0], xp[1] * p / self.price_scale]) {
            None => Ok(None),
            Some(d) => {
                let v = virtual_price_of_2(d, p, self.total_supply)?;
                if profit_kept(v, self.xcp_profit) {
                    Ok(Some((p, d, v)))
                } else {
                    Ok(None)
                }
            },
        }
    }

    /// The state after the price scale has moved or not: see [`TwoV1::settled`].
    fn settle<D: Fn(U256, U256, [U256; 2]) -> Option<U256>>(
        &self,
        xp: [U256; 2],
        d: U256,
        v: U256,
        newton_d: &D,
    ) -> (r: Result<TwoCryptoV1State, Fault>)
        requires
            pure_d(*newton_d),
            self@.price_scale != 0,
        ensures
            state_outcome(r) == self@.settled(pair(xp), d@, v@, d_of(*newton_d)),
    {
        let norm = deviate(self.price_oracle, self.price_scale)?;
        let step = step_for(self.adjustment_step, norm);
        proof {
            lemma_word_range(step);
        }
        let room = norm > step && self.virtual_price > U256::zero();
        let due = self.not_adjusted || (profit_permits(
            v,
            self.xcp_profit,
            self.allowed_extra_profit,
        ) && room);
        let mut s = *self;
        if due && room {
            match self.price_moved(xp, norm, step, newton_d)? {
                Some((p, d2, v2)) => {
                    s.price_scale = p;
                    s.d = d2;
                    s.virtual_price = v2;
                    s.not_adjusted = true;
                    return Ok(s);
                },
                None => {},
            }
        }
        s.d = d;
        s.virtual_price = v;
        s.not_adjusted = false;
        if due {
            s.try_claim_admin_fees(newton_d)?;
        }
        Ok(s)
    }

    /// Brings the state up to date after a change of the balances to `xp` in common units: the price
    /// oracle, the last price, `D`, the profit and, where it is due and pays, the price scale. `p` is the
    /// price of the change and `new_d` the invariant after it; zero stands for not known. On a fault
    /// the state stays as it is.
    pub fn tweak_price<D: Fn(U256, U256, [U256; 2]) -> Option<U256>, Y: Fn(U256, U256, [U256; 2], U256, usize, bool) -> Option<U256>>(
        &mut self,
        xp: [U256; 2],
        p: U256,
        new_d: U256,
        block_timestamp: u64,
        newton_d: &D,
        newton_y: &Y,
    ) -> (r: Result<(), Fault>)
        requires
            pure_d(*newton_d),
            pure_y(*newton_y),
        ensures
            match old(self)@.tweaked(
                pair(xp),
                p@,
                new_d@,
                block_timestamp as int,
                d_of(*newton_d),
                y_of(*newton_y),
            ) {
                Ok(s) => r is Ok && final(self)@ == s,
                Err(_) => r is Err && *final(self) == *old(self),
            },
    {
        let mut s = self.averaged(block_timestamp)?;
        let d = if new_d.is_zero() {
            match ask_d(newton_d, s.ann, s.gamma, xp) {
                Some(d) => d,
                None => s.d,
            }
        } else {
            new_d
        };
        s.last_prices = s.price_now(xp, p, d, newton_y);
        match s.profit_now(d)? {
            None => {
                *self = s;
            },
            Some((v, profit, t)) => {
                proof {
                    if s@.price_scale == 0 {
                        lemma_times(2, 0);
                    }
                }
                s.xcp_profit = profit;
                s.future_a_gamma_time = t;
                *self = s.settle(xp, d, v, newton_d)?;
            },
        }
        Ok(())
    }
}

/// The numbers behind a calculated state.
pub open spec fn state_outcome(r: Result<TwoCryptoV1State, Fault>) -> Result<TwoV1, Fault> {
    match r {
        Ok(s) => Ok(s@),
        Err(e) => Err(e),
    }
}

/// The numbers behind three calculated words that may be missing.
pub open spec fn profit_outcome(r: Result<Option<(U256, U256, U256)>, Fault>) -> Result<
    Option<(int, int, int)>,
    Fault,
> {
    match r {
        Ok(Some((a, b, c))) => Ok(Some((a@, b@, c@))),
        Ok(None) => Ok(None),
        Err(e) => Err(e),
    }
}

impl TwoV1 {
    /// The state with `D` solved anew from the balances before the trade, while the parameters change:
    /// `xp` are the balances with the trade in common units, and `x0` is the balance of coin `i`
    /// before it. Nothing where the solver has no answer.
    pub open spec fn ramped(self, xp: (int, int), i: int, x0: int, now: int, solve_d: SolveD) -> Option<
        TwoV1,
    > {
        let before = set2(xp, i, in_units(x0, get2(self.precisions, i), self.scale(i)));
        if self.future_a_gamma_time == 0 {
            Some(self)
        } else {
            match solve_d(self.ann, self.gamma, before) {
                None => None,
                Some(d) => Some(
                    TwoV1 {
                        d,
                        future_a_gamma_time: if now >= self.future_a_gamma_time {
                            1
                        } else {
                            self.future_a_gamma_time
                        },
                        ..self
                    },
                ),
            }
        }
    }

    /// The state after the balance of coin `j` has gone to `y` in common units, and the amount paid out
    /// and the fee.
    pub open spec fn paid(
        self,
        xp: (int, int),
        i: int,
        j: int,
        dx: int,
        y: int,
        now: int,
        solve_d: SolveD,
        solve_y: SolveY,
    ) -> Result<(TwoV1, (int, int)), Fault> {
        let x_j = get2(xp, j);
        let prec_j = get2(self.precisions, j);
        let xp1 = set2(xp, j, y);
        match gross_out(x_j, y, prec_j, self.scale(j)) {
            Err(e) => Err(e),
            Ok(out) => match fee_model(xp1, self.mid_fee, self.out_fee, self.fee_gamma) {
                Err(e) => Err(e),
                Ok(rate) => {
                    let fee = fee_on(rate, out);
                    let dy = out.minus(fee);
                    let left = get2(self.balances, j).minus(dy);
                    let xp2 = set2(xp1, j, in_units(left, prec_j, self.scale(j)));
                    let s = TwoV1 { balances: set2(self.balances, j, left), ..self };
                    match trade_price(dx, dy, get2(self.precisions, i), prec_j, i == 0) {
                        Err(e) => Err(e),
                        Ok(p) => match s.tweaked(xp2, p, 0, now, solve_d, solve_y) {
                            Err(e) => Err(e),
                            Ok(s2) => Ok((s2, (dy, fee))),
                        },
                    }
                },
            },
        }
    }

    /// The state after an exchange of `dx` of coin `i` for coin `j`, and the amount paid out and the fee
    /// where the exchange went through. A request for no exchange between two coins changes nothing;
    /// where a solver has no answer, the coins that came in stay.
    pub open spec fn exchanged(
        self,
        i: int,
        j: int,
        dx: int,
        now: int,
        solve_d: SolveD,
        solve_y: SolveY,
    ) -> Result<(TwoV1, Option<(int, int)>), Fault> {
        let x0 = get2(self.balances, i);
        let s1 = TwoV1 { balances: set2(self.balances, i, x0.plus(dx)), ..self };
        let xp = s1.normalized();
        if i == j || i >= 2 || j >= 2 || dx == 0 {
            Ok((self, None))
        } else {
            match s1.ramped(xp, i, x0, now, solve_d) {
                None => Ok((s1, None)),
                Some(s2) => match solve_y(s2.ann, s2.gamma, xp, s2.d, j, s2.eth_variant) {
                    None => Ok((s2, None)),
                    Some(y) => match s2.paid(xp, i, j, dx, y, now, solve_d, solve_y) {
                        Err(e) => Err(e),
                        Ok((s3, out)) => Ok((s3, Some(out))),
                    },
                },
            }
        }
    }

    /// The state after `amounts` have been added to the balances, and the invariant where the solver had
    /// an answer; where it had none, only the balances change.
    pub open spec fn added(
        self,
        amounts: (int, int),
        now: int,
        solve_d: SolveD,
        solve_y: SolveY,
    ) -> Result<(TwoV1, Option<int>), Fault> {
        let s1 = TwoV1 {
            balances: (self.balances.0.plus(amounts.0), self.balances.1.plus(amounts.1)),
            ..self
        };
        let xp = s1.normalized();
        match solve_d(s1.ann, s1.gamma, xp) {
            None => Ok((s1, None)),
            Some(d) => match s1.tweaked(xp, 0, d, now, solve_d, solve_y) {
                Err(e) => Err(e),
                Ok(s2) => Ok((s2, Some(s2.d))),
            },
        }
    }

    /// What `token_amount` pool tokens stand for in `D`. Meant for `total_supply != 0` only.
    pub open spec fn share_of_d(self, token_amount: int) -> int {
        token_amount.times(self.d).over(self.total_supply)
    }

    /// The price at which coin `i` is withdrawn for pool tokens worth `dd` of `D`; zero where either
    /// amount is too small to tell.
    pub open spec fn withdraw_price(self, i: int, token_amount: int, dy: int, dd: int) -> Result<
        int,
        Fault,
    > {
        let w = WAD as int;
        let precision = get2(self.precisions, i);
        let other = if i == 1 {
            self.balances.0.times(self.precisions.0)
        } else {
            self.balances.1.times(self.precisions.1)
        };
        let below = dy.times(precision).minus(
            dd.times(get2(self.balances, i)).times(precision).over(self.d),
        );
        let p = other.times(dd).over(self.d).times(w).over(below);
        if !(dy > 100_000 && token_amount > 100_000) {
            Ok(0)
        } else if self.d == 0 {
            Err(Fault)
        } else if below == 0 {
            Ok(0)
        } else if i != 0 {
            Ok(p)
        } else if p == 0 {
            Err(Fault)
        } else {
            Ok(w.times(w).over(p))
        }
    }

    /// The state after `token_amount` pool tokens have been burnt for `coin_amount` of coin `i`, and the
    /// invariant where the solver had an answer; where it had none, nothing changes.
    pub open spec fn removed(
        self,
        i: int,
        token_amount: int,
        coin_amount: int,
        now: int,
        solve_d: SolveD,
        solve_y: SolveY,
    ) -> Result<(TwoV1, Option<int>), Fault> {
        let xp = (
            self.balances.0.times(self.precisions.0),
            self.balances.1.times(self.price_scale.times(self.precisions.1)).over(WAD as int),
        );
        match fee_model(xp, self.mid_fee, self.out_fee, self.fee_gamma) {
            Err(e) => Err(e),
            Ok(rate) => {
                let dd = self.share_of_d(token_amount);
                let d = self.d.minus(
                    dd.minus(
                        rate.times(dd).over(2int.times(FEE_DENOMINATOR as int)).plus(1),
                    ),
                );
                if self.total_supply == 0 {
                    Err(Fault)
                } else {
                    match solve_y(self.ann, self.gamma, xp, d, i, self.eth_variant) {
                        None => Ok((self, None)),
                        Some(y) => if i >= 2 {
                            Err(Fault)
                        } else {
                            match self.withdraw_price(i, token_amount, coin_amount, dd) {
                                Err(e) => Err(e),
                                Ok(p) => {
                                    let s = TwoV1 {
                                        balances: set2(
                                            self.balances,
                                            i,
                                            get2(self.balances, i).minus(coin_amount),
                                        ),
                                        total_supply: self.total_supply.minus(token_amount),
                                        ..self
                                    };
                                    match s.tweaked(
                                        set2(xp, i, y),
                                        p,
                                        d,
                                        now,
                                        solve_d,
                                        solve_y,
                                    ) {
                                        Err(e) => Err(e),
                                        Ok(s2) => Ok((s2, Some(s2.d))),
                                    }
                                },
                            }
                        },
                    }
                }
            },
        }
    }
}

impl TwoCryptoV1State {
    /// The state with `D` solved anew while the parameters change: see [`TwoV1::ramped`].
    fn ramp<D: Fn(U256, U256, [U256; 2]) -> Option<U256>>(
        &self,
        xp: [U256; 2],
        i: usize,
        x0: U256,
        now: u64,
        newton_d: &D,
    ) -> (r: Option<TwoCryptoV1State>)
        requires
            pure_d(*newton_d),
            i < 2,
        ensures
            self@.ramped(pair(xp), i as int, x0@, now as int, d_of(*newton_d)) == match r {
                Some(s) => Some(s@),
                None => None,
            },
    {
        let t = self.future_a_gamma_time;
        proof {
            lemma_word_range(t);
        }
        if t > U256::zero() {
            let before = put2(xp, i, to_units(x0, self.precisions[i], self.scale_at(i)));
            let d = ask_d(newton_d, self.ann, self.gamma, before)?;
            let mut s = *self;
            s.d = d;
            if U256::from(now) >= t {
                s.future_a_gamma_time = U256::from(1u64);
            }
            Some(s)
        } else {
            Some(*self)
        }
    }

    /// The state after a payout, and the payout: see [`TwoV1::paid`].
    fn pay<D: Fn(U256, U256, [U256; 2]) -> Option<U256>, Y: Fn(U256, U256, [U256; 2], U256, usize, bool) -> Option<U256>>(
        &self,
        xp: [U256; 2],
        i: usize,
        j: usize,
        dx: U256,
        y: U256,
        now: u64,
        newton_d: &D,
        newton_y: &Y,
    ) -> (r: Result<(TwoCryptoV1State, ExchangeResult), Fault>)
        requires
            pure_d(*newton_d),
            pure_y(*newton_y),
            i < 2,
            j < 2,
        ensures
            self@.paid(
                pair(xp),
                i as int,
                j as int,
                dx@,
                y@,
                now as int,
                d_of(*newton_d),
                y_of(*newton_y),
            ) == match r {
                Ok((s, out)) => Ok::<_, Fault>((s@, (out.dy@, out.fee@))),
                Err(e) => Err(e),
            },
    {
        let prec_j = self.precisions[j];
        let xp1 = put2(xp, j, y);
        let out = gross(xp[j], y, prec_j, self.scale_at(j))?;
        let rate = fee(&xp1, self.mid_fee, self.out_fee, self.fee_gamma)?;
        let fee = fee_at(rate, out);
        let dy = out - fee;
        let left = self.balances[j] - dy;
        let xp2 = put2(xp1, j, to_units(left, prec_j, self.scale_at(j)));
        let mut s = *self;
        s.balances = put2(self.balances, j, left);
        let p = price_of_trade(dx, dy, self.precisions[i], prec_j, i == 0)?;
        s.tweak_price(xp2, p, U256::zero(), now, newton_d, newton_y)?;
        Ok((s, ExchangeResult { dy, fee }))
    }

    /// Exchanges `dx` of coin `i` for coin `j`; where [`TwoCryptoV1State::exchange`] is not defined, a
    /// fault, and the state stays as it is.
    pub fn try_exchange<D: Fn(U256, U256, [U256; 2]) -> Option<U256>, Y: Fn(U256, U256, [U256; 2], U256, usize, bool) -> Option<U256>>(
        &mut self,
        i: usize,
        j: usize,
        dx: U256,
        block_timestamp: u64,
        newton_d: &D,
        newton_y: &Y,
    ) -> (r: Result<Option<ExchangeResult>, Fault>)
        requires
            pure_d(*newton_d),
            pure_y(*newton_y),
        ensures
            match old(self)@.exchanged(
                i as int,
                j as int,
                dx@,
                block_timestamp as int,
                d_of(*newton_d),
                y_of(*newton_y),
            ) {
                Ok((s, out)) => final(self)@ == s && payout_outcome(r) == Ok::<_, Fault>(out),
                Err(_) => r is Err && *final(self) == *old(self),
            },
    {
        if i == j || i >= 2 || j >= 2 || dx.is_zero() {
            return Ok(None);
        }
        let mut s = *self;
        let x0 = s.balances[i];
        s.balances = put2(s.balances, i, x0 + dx);
        let xp = s.common_units();
        match s.ramp(xp, i, x0, block_timestamp, newton_d) {
            None => {
                *self = s;
                Ok(None)
            },
            Some(s2) => match ask_y(newton_y, s2.ann, s2.gamma, xp, s2.d, j, s2.eth_variant) {
                None => {
                    *self = s2;
                    Ok(None)
                },
                Some(y) => {
                    let (s3, out) = s2.pay(xp, i, j, dx, y, block_timestamp, newton_d, newton_y)?;
                    *self = s3;
                    Ok(Some(out))
                },
            },
        }
    }

    /// Exchanges `dx` of coin `i` for coin `j` and brings the state up to date: `None` where there is
    /// nothing to exchange between two coins of the pool, or where a solver has no answer. `newton_d`
    /// solves for `D` and `newton_y` for the balance of a coin.
    pub fn exchange<D: Fn(U256, U256, [U256; 2]) -> Option<U256>, Y: Fn(U256, U256, [U256; 2], U256, usize, bool) -> Option<U256>>(
        &mut self,
        i: usize,
        j: usize,
        dx: U256,
        block_timestamp: u64,
        newton_d: &D,
        newton_y: &Y,
    ) -> (r: Option<ExchangeResult>)
        requires
            pure_d(*newton_d),
            pure_y(*newton_y),
            old(self)@.exchanged(
                i as int,
                j as int,
                dx@,
                block_timestamp as int,
                d_of(*newton_d),
                y_of(*newton_y),
            ) is Ok,
        ensures
            Ok::<_, Fault>((final(self)@, payout(r))) == old(self)@.exchanged(
                i as int,
                j as int,
                dx@,
                block_timestamp as int,
                d_of(*newton_d),
                y_of(*newton_y),
            ),
    {
        match self.try_exchange(i, j, dx, block_timestamp, newton_d, newton_y) {
            Ok(r) => r,
            Err(_) => None,
        }
    }

    /// Adds liquidity; where [`TwoCryptoV1State::apply_add_liquidity`] is not defined, a fault, and the
    /// state stays as it is.
    pub fn try_apply_add_liquidity<D: Fn(U256, U256, [U256; 2]) -> Option<U256>, Y: Fn(U256, U256, [U256; 2], U256, usize, bool) -> Option<U256>>(
        &mut self,
        amounts: [U256; 2],
        block_timestamp: u64,
        newton_d: &D,
        newton_y: &Y,
    ) -> (r: Result<Option<U256>, Fault>)
        requires
            pure_d(*newton_d),
            pure_y(*newton_y),
        ensures
            match old(self)@.added(
                pair(amounts),
                block_timestamp as int,
                d_of(*newton_d),
                y_of(*newton_y),
            ) {
                Ok((s, d)) => final(self)@ == s && outcome(r) == Ok::<_, Fault>(d),
                Err(_) => r is Err && *final(self) == *old(self),
            },
    {
        let mut s = *self;
        s.balances = [s.balances[0] + amounts[0], s.balances[1] + amounts[1]];
        let xp = s.common_units();
        match ask_d(newton_d, s.ann, s.gamma, xp) {
            None => {
                *self = s;
                Ok(None)
            },
            Some(d) => {
                s.tweak_price(xp, U256::zero(), d, block_timestamp, newton_d, newton_y)?;
                *self = s;
                Ok(Some(s.d))
            },
        }
    }

    /// Adds `amounts` to the balances and brings the state up to date. Returns the invariant after it,
    /// or `None` where `newton_d` finds no invariant for the new balances.
    pub fn apply_add_liquidity<D: Fn(U256, U256, [U256; 2]) -> Option<U256>, Y: Fn(U256, U256, [U256; 2], U256, usize, bool) -> Option<U256>>(
        &mut self,
        amounts: [U256; 2],
        block_timestamp: u64,
        newton_d: &D,
        newton_y: &Y,
    ) -> (r: Option<U256>)
        requires
            pure_d(*newton_d),
            pure_y(*newton_y),
            old(self)@.added(
                pair(amounts),
                block_timestamp as int,
                d_of(*newton_d),
                y_of(*newton_y),
            ) is Ok,
        ensures
            Ok::<_, Fault>((final(self)@, number(r))) == old(self)@.added(
                pair(amounts),
                block_timestamp as int,
                d_of(*newton_d),
                y_of(*newton_y),
            ),
    {
        match self.try_apply_add_liquidity(amounts, block_timestamp, newton_d, newton_y) {
            Ok(r) => r,
            Err(_) => None,
        }
    }

    /// The price of a withdrawal: see [`TwoV1::withdraw_price`].
    fn withdraw_price_of(&self, i: usize, token_amount: U256, dy: U256, dd: U256) -> (r: Result<
        U256,
        Fault,
    >)
        requires
            i < 2,
        ensures
            quantity(r) == self@.withdraw_price(i as int, token_amount@, dy@, dd@),
    {
        let w = U256::from(WAD);
        let dust = U256::from(100_000u64);
        if !(dy > dust && token_amount > dust) {
            return Ok(U256::zero());
        }
        let other = if i == 1 {
            self.balances[0] * self.precisions[0]
        } else {
            self.balances[1] * self.precisions[1]
        };
        let precision = self.precisions[i];
        let above = (other * dd).div_by(self.d)?;
        let below = dy * precision - dd * self.balances[i] * precision / self.d;
        if below.is_zero() {
            return Ok(U256::zero());
        }
        let p = above * w / below;
        if i == 0 {
            (w * w).div_by(p)
        } else {
            Ok(p)
        }
    }

    /// Removes liquidity in one coin; where [`TwoCryptoV1State::apply_remove_liquidity_one`] is not
    /// defined, a fault, and the state stays as it is.
    pub fn try_apply_remove_liquidity_one<D: Fn(U256, U256, [U256; 2]) -> Option<U256>, Y: Fn(U256, U256, [U256; 2], U256, usize, bool) -> Option<U256>>(
        &mut self,
        i: usize,
        token_amount: U256,
        coin_amount: U256,
        block_timestamp: u64,
        newton_d: &D,
        newton_y: &Y,
    ) -> (r: Result<Option<U256>, Fault>)
        requires
            pure_d(*newton_d),
            pure_y(*newton_y),
        ensures
            match old(self)@.removed(
                i as int,
                token_amount@,
                coin_amount@,
                block_timestamp as int,
                d_of(*newton_d),
                y_of(*newton_y),
            ) {
                Ok((s, d)) => final(self)@ == s && outcome(r) == Ok::<_, Fault>(d),
                Err(_) => r is Err && *final(self) == *old(self),
            },
    {
        let mut s = *self;
        let xp = [
            s.balances[0] * s.precisions[0],
            s.balances[1] * (s.price_scale * s.precisions[1]) / U256::from(WAD),
        ];
        let rate = fee(&xp, s.mid_fee, s.out_fee, s.fee_gamma)?;
        let dd = (token_amount * s.d).div_by(s.total_supply)?;
        proof {
            lemma_times(2, FEE_DENOMINATOR as int);
        }
        let d_fee = rate * dd / (U256::from(2u64) * U256::from(FEE_DENOMINATOR)) + U256::from(1u64);
        let d = s.d - (dd - d_fee);
        match ask_y(newton_y, s.ann, s.gamma, xp, d, i, s.eth_variant) {
            None => Ok(None),
            Some(y) => {
                if i >= 2 {
                    return Err(Fault);
                }
                let p = s.withdraw_price_of(i, token_amount, coin_amount, dd)?;
                s.balances = put2(s.balances, i, s.balances[i] - coin_amount);
                s.total_supply = s.total_supply - token_amount;
                s.tweak_price(put2(xp, i, y), p, d, block_timestamp, newton_d, newton_y)?;
                *self = s;
                Ok(Some(s.d))
            },
        }
    }

    /// Burns `token_amount` pool tokens for `coin_amount` of coin `i` and brings the state up to date.
    /// Returns the invariant after it, or `None`, with the state as it was, where `newton_y` has no
    /// answer.
    pub fn apply_remove_liquidity_one<D: Fn(U256, U256, [U256; 2]) -> Option<U256>, Y: Fn(U256, U256, [U256; 2], U256, usize, bool) -> Option<U256>>(
        &mut self,
        i: usize,
        token_amount: U256,
        coin_amount: U256,
        block_timestamp: u64,
        newton_d: &D,
        newton_y: &Y,
    ) -> (r: Option<U256>)
        requires
            pure_d(*newton_d),
            pure_y(*newton_y),
            old(self)@.removed(
                i as int,
                token_amount@,
                coin_amount@,
                block_timestamp as int,
                d_of(*newton_d),
                y_of(*newton_y),
            ) is Ok,
        ensures
            Ok::<_, Fault>((final(self)@, number(r))) == old(self)@.removed(
                i as int,
                token_amount@,
                coin_amount@,
                block_timestamp as int,
                d_of(*newton_d),
                y_of(*newton_y),
            ),
    {
        match self.try_apply_remove_liquidity_one(
            i,
            token_amount,
            coin_amount,
            block_timestamp,
            newton_d,
            newton_y,
        ) {
            Ok(r) => r,
            Err(_) => None,
        }
    }
}

impl TwoV1 {
    /// Whether two states have the same parameters: all that no operation of the pool changes.
    pub open spec fn same_parameters(self, other: TwoV1) -> bool {
        &&& self.admin_fee == other.admin_fee
        &&& self.ann == other.ann
        &&& self.gamma == other.gamma
        &&& self.mid_fee == other.mid_fee
        &&& self.out_fee == other.out_fee
        &&& self.fee_gamma == other.fee_gamma
        &&& self.precisions == other.precisions
        &&& self.allowed_extra_profit == other.allowed_extra_profit
        &&& self.adjustment_step == other.adjustment_step
        &&& self.ma_half_time == other.ma_half_time
        &&& self.eth_variant == other.eth_variant
    }

    /// Whether the virtual price would fall with the invariant `d` while the parameters do not change.
    pub open spec fn falls_at(self, d: int) -> bool {
        &&& self.virtual_price > 0
        &&& self.future_a_gamma_time == 0
        &&& virtual_price_2(d, self.price_scale, self.total_supply) matches Ok(v)
        &&& v < self.virtual_price
    }

    /// Whether two states have the same prices.
    pub open spec fn same_prices(self, other: TwoV1) -> bool {
        &&& self.price_scale == other.price_scale
        &&& self.price_oracle == other.price_oracle
        &&& self.last_prices == other.last_prices
        &&& self.last_prices_timestamp == other.last_prices_timestamp
    }
}

/// A claim of the admin's share leaves the balances, the prices and the parameters as they are, and
/// never lowers the profit that was last claimed.
pub proof fn law_claim(s: TwoV1, solve_d: SolveD)
    ensures
        s.with_claim(solve_d) matches Ok(t) ==> {
            &&& t.balances == s.balances
            &&& t.same_prices(s)
            &&& t.same_parameters(s)
            &&& t.not_adjusted == s.not_adjusted
            &&& t.future_a_gamma_time == s.future_a_gamma_time
            &&& t.xcp_profit_a >= s.xcp_profit_a
            &&& t.xcp_profit_a >= t.xcp_profit
        },
{
}

/// Bringing the state up to date leaves the balances and the parameters as they are and moves the time
/// of the moving average forward to now.
pub proof fn law_tweak(
    s: TwoV1,
    xp: (int, int),
    p: int,
    new_d: int,
    now: int,
    solve_d: SolveD,
    solve_y: SolveY,
)
    ensures
        s.tweaked(xp, p, new_d, now, solve_d, solve_y) matches Ok(t) ==> {
            &&& t.balances == s.balances
            &&& t.same_parameters(s)
            &&& t.last_prices_timestamp == larger(s.last_prices_timestamp, now)
        },
{
}

/// Where the virtual price would fall while the parameters do not change, the invariant, the virtual
/// price, the profit, the profit already shared, the supply and the price scale stay as they were, and so
/// does whether a move of the price scale is still due.
pub proof fn law_no_loss(
    s: TwoV1,
    xp: (int, int),
    p: int,
    new_d: int,
    now: int,
    solve_d: SolveD,
    solve_y: SolveY,
)
    requires
        s.falls_at(s.invariant_at(xp, new_d, solve_d)),
    ensures
        s.tweaked(xp, p, new_d, now, solve_d, solve_y) matches Ok(t) ==> {
            &&& t.d == s.d
            &&& t.virtual_price == s.virtual_price
            &&& t.xcp_profit == s.xcp_profit
            &&& t.xcp_profit_a == s.xcp_profit_a
            &&& t.not_adjusted == s.not_adjusted
            &&& t.total_supply == s.total_supply
            &&& t.price_scale == s.price_scale
        },
{
}

/// A request for an exchange of nothing, of a coin for itself or of a coin that the pool does not have
/// is refused, and the state stays as it is.
pub proof fn law_exchange_refused(
    s: TwoV1,
    i: usize,
    j: usize,
    dx: U256,
    now: u64,
    solve_d: SolveD,
    solve_y: SolveY,
)
    requires
        i == j || i >= 2 || j >= 2 || dx@ == 0,
    ensures
        s.exchanged(i as int, j as int, dx@, now as int, solve_d, solve_y) == Ok::<_, Fault>(
            (s, None::<(int, int)>),
        ),
{
}

proof fn lemma_paid(
    s: TwoV1,
    xp: (int, int),
    i: int,
    j: int,
    dx: int,
    y: int,
    now: int,
    solve_d: SolveD,
    solve_y: SolveY,
)
    ensures
        s.paid(xp, i, j, dx, y, now, solve_d, solve_y) matches Ok((t, (dy, fee))) ==> {
            &&& t.same_parameters(s)
            &&& t.balances == set2(s.balances, j, get2(s.balances, j).minus(dy))
            &&& t.last_prices_timestamp == larger(s.last_prices_timestamp, now)
        },
{
}

proof fn lemma_ramped(s: TwoV1, xp: (int, int), i: int, x0: int, now: int, solve_d: SolveD)
    ensures
        s.ramped(xp, i, x0, now, solve_d) matches Some(t) ==> t == (TwoV1 {
            d: t.d,
            future_a_gamma_time: t.future_a_gamma_time,
            ..s
        }),
{
}

/// An exchange adds what comes in to the balance of the first coin and takes what goes out from that of
/// the second. The parameters stay as they are, and the moving average is brought up to now. Where a
/// solver has no answer, what came in stays in the pool and the prices, the profit and the virtual
/// price stay as they were.
pub proof fn law_exchange(
    s: TwoV1,
    i: usize,
    j: usize,
    dx: U256,
    now: u64,
    solve_d: SolveD,
    solve_y: SolveY,
)
    requires
        i < 2,
        j < 2,
        i != j,
        dx@ != 0,
    ensures
        s.exchanged(i as int, j as int, dx@, now as int, solve_d, solve_y) matches Ok((t, out)) ==> {
            &&& t.same_parameters(s)
            &&& get2(t.balances, i as int) == get2(s.balances, i as int).plus(dx@)
            &&& match out {
                Some((dy, fee)) => {
                    &&& get2(t.balances, j as int) == get2(s.balances, j as int).minus(dy)
                    &&& t.last_prices_timestamp == larger(s.last_prices_timestamp, now as int)
                },
                None => {
                    &&& get2(t.balances, j as int) == get2(s.balances, j as int)
                    &&& t.same_prices(s)
                    &&& t.xcp_profit == s.xcp_profit
                    &&& t.virtual_price == s.virtual_price
                    &&& t.total_supply == s.total_supply
                },
            }
        },
{
    let x0 = get2(s.balances, i as int);
    let s1 = TwoV1 { balances: set2(s.balances, i as int, x0.plus(dx@)), ..s };
    let xp = s1.normalized();
    lemma_ramped(s1, xp, i as int, x0, now as int, solve_d);
    if let Some(s2) = s1.ramped(xp, i as int, x0, now as int, solve_d) {
        if let Some(y) = solve_y(s2.ann, s2.gamma, xp, s2.d, j as int, s2.eth_variant) {
            lemma_paid(s2, xp, i as int, j as int, dx@, y, now as int, solve_d, solve_y);
        }
    }
}

/// Adding liquidity adds the amounts to the balances and leaves the parameters as they are; what it
/// returns is the invariant of the new state.
pub proof fn law_add_liquidity(
    s: TwoV1,
    amounts: [U256; 2],
    now: u64,
    solve_d: SolveD,
    solve_y: SolveY,
)
    ensures
        s.added(pair(amounts), now as int, solve_d, solve_y) matches Ok((t, d)) ==> {
            &&& t.same_parameters(s)
            &&& t.balances.0 == s.balances.0.plus(amounts[0]@)
            &&& t.balances.1 == s.balances.1.plus(amounts[1]@)
            &&& d is Some ==> d == Some(t.d) && t.last_prices_timestamp == larger(
                s.last_prices_timestamp,
                now as int,
            )
            &&& d is None ==> t == (TwoV1 { balances: t.balances, ..s })
        },
{
}

/// Removing liquidity in one coin takes the amount from the balance of that coin and leaves the other
/// balance and the parameters as they are; what it returns is the invariant of the new state. Where
/// it is refused, the state stays as it is.
pub proof fn law_remove_liquidity_one(
    s: TwoV1,
    i: usize,
    token_amount: U256,
    coin_amount: U256,
    now: u64,
    solve_d: SolveD,
    solve_y: SolveY,
)
    ensures
        s.removed(
            i as int,
            token_amount@,
            coin_amount@,
            now as int,
            solve_d,
            solve_y,
        ) matches Ok((t, d)) ==> {
            &&& d is None ==> t == s
            &&& d is Some ==> {
                &&& d == Some(t.d)
                &&& t.same_parameters(s)
                &&& i < 2
                &&& t.balances == set2(
                    s.balances,
                    i as int,
                    get2(s.balances, i as int).minus(coin_amount@),
                )
                &&& t.last_prices_timestamp == larger(s.last_prices_timestamp, now as int)
            }
        },
{
}

/// The fee lies between the two rates, and an even split pays the first one, as long as the products are
/// words.
pub proof fn law_fee(x: [U256; 2], mid_fee: U256, out_fee: U256, fee_gamma: U256)
    requires
        0 < x[0]@ + x[1]@,
        4_000_000_000_000_000_000 * (x[0]@ + x[1]@) < modulus(),
        mid_fee@ <= out_fee@,
        out_fee@ * WAD < modulus(),
        0 < fee_gamma@,
        fee_gamma@ * WAD < modulus(),
    ensures
        fee_model(pair(x), mid_fee@, out_fee@, fee_gamma@) matches Ok(v) && mid_fee@ <= v <= out_fee@
            && (x[0]@ == x[1]@ ==> v == mid_fee@),
{
    lemma_word_range(x[0]);
    lemma_word_range(x[1]);
    lemma_word_range(mid_fee);
    lemma_plus(x[0]@, x[1]@);
    lemma_evenness_2(pair(x));
    lemma_weighted(mid_fee@, out_fee@, fee_gamma@, evenness_2(pair(x)));
}

/// The weight of the old average after some seconds is at most one.
pub proof fn lemma_half_life(dt: int, ma_half_time: int)
    requires
        0 <= dt <= u64::MAX,
        0 < ma_half_time,
    ensures
        0 <= halfpow_model(dt.times(WAD as int).over(ma_half_time)) <= WAD,
{
    let w = WAD as int;
    assert(0 <= dt * w <= 0xffff_ffff_ffff_ffff * 1_000_000_000_000_000_000) by (nonlinear_arith)
        requires
            0 <= dt <= 0xffff_ffff_ffff_ffff,
            w == 1_000_000_000_000_000_000,
    ;
    lemma_times(dt, w);
    lemma_over(dt * w, ma_half_time);
    let q = (dt * w) / ma_half_time;
    assert(0 <= q <= dt * w) by (nonlinear_arith)
        requires
            q == (dt * w) / ma_half_time,
            0 <= dt * w,
            ma_half_time > 0,
    ;
    lemma_halfpow(q);
}

/// The moving average stays between the last price and its old value, as long as the products with ten
/// to the eighteenth are words.
pub proof fn law_average(s: TwoCryptoV1State, now: u64)
    requires
        s.ma_half_time@ != 0,
        larger(s.last_prices@, s.price_oracle@) * WAD < modulus(),
    ensures
        s@.with_average(now as int) matches Ok(t) && smaller(s.last_prices@, s.price_oracle@)
            <= t.price_oracle <= larger(s.last_prices@, s.price_oracle@),
{
    lemma_word_range(s.last_prices);
    lemma_word_range(s.price_oracle);
    lemma_word_range(s.ma_half_time);
    if s.last_prices_timestamp < now {
        let dt = now - s.last_prices_timestamp;
        lemma_half_life(dt, s.ma_half_time@);
        lemma_average_between(
            s.last_prices@,
            s.price_oracle@,
            halfpow_model(dt.times(WAD as int).over(s.ma_half_time@)),
        );
    }
}

} // verus!
