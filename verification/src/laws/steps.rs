//! The steps of Newton's method toward the invariant and toward a balance.
use super::lemma_share;
use crate::bounds::lemma_quotient;
use crate::fault::Fault;
use crate::newton::{
    g1k0, k0_3_at, mul1_model, newton_d_step, newton_y_run, newton_y_step, Step, A_MULTIPLIER, WAD,
};
use crate::solvers::tricrypto_ng::newton_y_3_model;
use crate::solvers::twocrypto_ng::{k0_at, newton_y_2_model};
use crate::uint::{lemma_minus, lemma_over, lemma_plus, lemma_times, modulus, Word};
use vstd::prelude::*;

verus! {

/// How far a number is from another.
pub open spec fn apart(a: int, b: int) -> int {
    if a > b {
        a - b
    } else {
        b - a
    }
}

/// The gap is how far `K0` is from one and `gamma`, on either side, and one more.
pub proof fn law_gap(gamma: int, k0: int)
    requires
        0 <= gamma,
        0 <= k0,
        gamma + WAD + 1 < modulus(),
        k0 + 1 < modulus(),
    ensures
        g1k0(gamma, k0) == apart(gamma + WAD, k0) + 1,
{
    let base = gamma + WAD;
    lemma_plus(gamma, WAD as int);
    if base > k0 {
        lemma_minus(base, k0);
        lemma_plus(base - k0, 1);
    } else {
        lemma_minus(k0, base);
        lemma_plus(k0 - base, 1);
    }
}

/// A product of numbers that are not negative is not negative.
proof fn lemma_sign(a: int, b: int)
    requires
        0 <= a,
        0 <= b,
    ensures
        0 <= a * b,
{
    assert(0 <= a * b) by (nonlinear_arith)
        requires
            0 <= a,
            0 <= b,
    ;
}

/// The first factor of both steps: `D` times the square of the gap per `gamma`, times 10 000 per `ann`, rounded
/// down after each division.
pub proof fn law_mul1(ann: int, gamma: int, d: int, g: int, a: int, b: int)
    requires
        0 < ann,
        0 < gamma,
        0 <= d,
        0 <= g,
        WAD * d < modulus(),
        a == WAD * d / gamma,
        a * g < modulus(),
        b == a * g / gamma,
        b * g < modulus(),
        b * g * 10_000 < modulus(),
    ensures
        mul1_model(ann, gamma, d, g) == b * g * 10_000 / ann,
        0 <= b * g * 10_000 / ann < modulus(),
{
    lemma_share(WAD as int, d, gamma);
    lemma_share(a, g, gamma);
    lemma_sign(b, g);
    lemma_times(b, g);
    lemma_share(b * g, A_MULTIPLIER as int, ann);
}

/// One step toward the invariant, in numbers, from `d` with `K0` and the sum `s` of the balances. It is the
/// difference of the two parts of Newton's step, or half of it where the second part is the larger one; it
/// is taken for good where it moves by less than one part in ten to the fourteenth, or by less than a hundred
/// for a small number.
pub proof fn law_newton_d_step(
    n: int,
    ann: int,
    gamma: int,
    s: int,
    k0: int,
    d: int,
    g: int,
    m1: int,
    m2: int,
    f: int,
    plus: int,
    minus: int,
    next: int,
)
    requires
        0 < n,
        0 < ann,
        0 < gamma,
        0 < k0,
        0 < d < modulus(),
        0 <= s,
        gamma + WAD + 1 < modulus(),
        k0 + 1 < modulus(),
        g == apart(gamma + WAD, k0) + 1,
        m1 == mul1_model(ann, gamma, d, g),
        0 <= m1,
        2 * WAD * n < modulus(),
        2 * WAD * n * k0 < modulus(),
        m2 == 2 * WAD * n * k0 / g,
        s * m2 < modulus(),
        m1 * n < modulus(),
        m2 * d < modulus(),
        s + s * m2 / (WAD as int) + m1 * n / k0 < modulus(),
        f == s + s * m2 / (WAD as int) + m1 * n / k0 - m2 * d / (WAD as int),
        0 < f,
        f + s < modulus(),
        d * (f + s) < modulus(),
        plus == d * (f + s) / f,
        d * d < modulus(),
        d * (m1 / f) < modulus(),
        d * (m1 / f) / (WAD as int) * apart(WAD as int, k0) < modulus(),
        minus == d * d / f + (if k0 < WAD {
            d * (m1 / f) / (WAD as int) * (WAD - k0) / k0
        } else {
            -(d * (m1 / f) / (WAD as int) * (k0 - WAD) / k0)
        }),
        0 <= minus < modulus(),
        next == (if plus > minus { plus - minus } else { (minus - plus) / 2 }),
        apart(next, d) * 100_000_000_000_000 < modulus(),
    ensures
        newton_d_step(n, ann, gamma, s, k0, d) == Ok::<_, Fault>(
            if apart(next, d) * 100_000_000_000_000 < 10_000_000_000_000_000 || apart(next, d)
                * 100_000_000_000_000 < next {
                Step::Done(next)
            } else {
                Step::Next(next)
            },
        ),
{
    let w = WAD as int;
    law_gap(gamma, k0);
    lemma_times(2, w);
    lemma_sign(2 * w, n);
    lemma_times(2 * w, n);
    lemma_sign(2 * w * n, k0);
    lemma_share(2 * w * n, k0, g);
    lemma_share(s, m2, w);
    lemma_share(m1, n, k0);
    lemma_share(m2, d, w);
    let p = s * m2 / w;
    let q = m1 * n / k0;
    let r = m2 * d / w;
    lemma_plus(s, p);
    lemma_plus(s + p, q);
    lemma_minus(s + p + q, r);
    lemma_plus(f, s);
    lemma_share(d, f + s, f);
    lemma_share(d, d, f);
    lemma_over(m1, f);
    lemma_quotient(m1, f);
    lemma_share(d, m1 / f, w);
    let drift = d * (m1 / f) / w;
    if w > k0 {
        lemma_minus(w, k0);
        lemma_share(drift, w - k0, k0);
        lemma_plus(d * d / f, drift * (w - k0) / k0);
    } else {
        lemma_minus(k0, w);
        lemma_share(drift, k0 - w, k0);
        lemma_minus(d * d / f, drift * (k0 - w) / k0);
    }
    if plus > minus {
        lemma_minus(plus, minus);
    } else {
        lemma_minus(minus, plus);
        lemma_over(minus - plus, 2);
    }
    lemma_apart(next, d);
    lemma_times(apart(next, d), 100_000_000_000_000);
}

/// The distance of two numbers.
proof fn lemma_apart(a: int, b: int)
    requires
        0 <= a < modulus(),
        0 <= b < modulus(),
    ensures
        crate::uint::distance(a, b) == apart(a, b),
        0 <= apart(a, b) < modulus(),
{
    if a > b {
        lemma_minus(a, b);
    } else {
        lemma_minus(b, a);
    }
}

/// One step toward a balance, in numbers, from `y` with the sum `others` of the other balances and `K0` without
/// `y` in `k0_i`. Where the step would leave the positive numbers, half of `y` is tried next; else it is
/// the difference of the two parts of Newton's step, and taken for good where it moves by less than `limit` or
/// one part in ten to the fourteenth.
pub proof fn law_newton_y_step(
    n: int,
    ann: int,
    gamma: int,
    others: int,
    k0_i: int,
    d: int,
    limit: int,
    y: int,
    k0: int,
    s: int,
    g: int,
    m1: int,
    m2: int,
    rise: int,
    fall: int,
    slope: int,
    plus: int,
    minus: int,
    next: int,
)
    requires
        0 < n,
        0 < ann,
        0 < gamma,
        0 < d < modulus(),
        0 <= others,
        0 <= k0_i,
        0 < y < modulus(),
        k0_i * y < modulus(),
        k0_i * y * n < modulus(),
        k0 == k0_i * y * n / d,
        0 < k0,
        k0 + 1 < modulus(),
        gamma + WAD + 1 < modulus(),
        s == others + y,
        s < modulus(),
        g == apart(gamma + WAD, k0) + 1,
        m1 == mul1_model(ann, gamma, d, g),
        0 <= m1,
        2 * WAD * k0 < modulus(),
        m2 == WAD + 2 * WAD * k0 / g,
        m2 < modulus(),
        WAD * y < modulus(),
        s * m2 < modulus(),
        rise == WAD * y + s * m2 + m1,
        rise < modulus(),
        fall == d * m2,
        fall < modulus(),
        rise >= fall ==> {
            &&& slope == (rise - fall) / y
            &&& 0 < slope
            &&& WAD * d < modulus()
            &&& rise - fall + WAD * d < modulus()
            &&& m1 / slope * WAD < modulus()
            &&& plus == (rise - fall + WAD * d) / slope + m1 / slope * WAD / k0
            &&& plus < modulus()
            &&& WAD * s < modulus()
            &&& minus == m1 / slope + WAD * s / slope
            &&& minus < modulus()
            &&& next == (if plus < minus { y / 2 } else { plus - minus })
        },
    ensures
        newton_y_step(n, ann, gamma, others, k0_i, d, limit, y) == Ok::<_, Fault>(
            if rise < fall {
                Step::Next(y / 2)
            } else if apart(next, y) < limit || apart(next, y) < next / 100_000_000_000_000 {
                Step::Done(next)
            } else {
                Step::Next(next)
            },
        ),
{
    let w = WAD as int;
    lemma_sign(k0_i, y);
    lemma_times(k0_i, y);
    lemma_share(k0_i * y, n, d);
    lemma_plus(others, y);
    law_gap(gamma, k0);
    lemma_times(2, w);
    lemma_share(2 * w, k0, g);
    lemma_plus(w, 2 * w * k0 / g);
    lemma_sign(w, y);
    lemma_times(w, y);
    lemma_sign(s, m2);
    lemma_times(s, m2);
    lemma_plus(w * y, s * m2);
    lemma_plus(w * y + s * m2, m1);
    lemma_sign(d, m2);
    lemma_times(d, m2);
    lemma_over(y, 2);
    if rise >= fall {
        lemma_minus(rise, fall);
        lemma_over(rise - fall, y);
        lemma_sign(w, d);
        lemma_times(w, d);
        lemma_plus(rise - fall, w * d);
        lemma_over(rise - fall + w * d, slope);
        lemma_over(m1, slope);
        lemma_quotient(m1, slope);
        lemma_share(m1 / slope, w, k0);
        lemma_quotient(rise - fall + w * d, slope);
        lemma_plus((rise - fall + w * d) / slope, m1 / slope * w / k0);
        lemma_sign(w, s);
        lemma_times(w, s);
        lemma_over(w * s, slope);
        lemma_quotient(w * s, slope);
        lemma_plus(m1 / slope, w * s / slope);
        if plus >= minus {
            lemma_minus(plus, minus);
        }
        lemma_apart(next, y);
        lemma_over(next, 100_000_000_000_000);
    }
}

/// `K0` of two balances at `d`: four times their product per the square of `d`, rounded down twice.
pub proof fn law_k0_two(x: (int, int), d: int)
    requires
        0 <= x.0,
        0 <= x.1,
        0 < d,
        4_000_000_000_000_000_000 * x.0 < modulus(),
        4_000_000_000_000_000_000 * x.0 / d * x.1 < modulus(),
    ensures
        k0_at(x, d) == 4_000_000_000_000_000_000 * x.0 / d * x.1 / d,
{
    lemma_times(WAD as int, 2);
    lemma_times(2 * WAD, 2);
    lemma_share(4_000_000_000_000_000_000, x.0, d);
    lemma_share(4_000_000_000_000_000_000 * x.0 / d, x.1, d);
}

/// `K0` of three balances at `d`: twenty-seven times their product per the cube of `d`, with a factor of three
/// taken in and rounded down at each division.
pub proof fn law_k0_three(x: (int, int, int), d: int, a: int, b: int)
    requires
        0 <= x.0,
        0 <= x.1,
        0 <= x.2,
        0 < d,
        WAD * x.0 < modulus(),
        WAD * x.0 * 3 < modulus(),
        a == WAD * x.0 * 3 / d,
        a * x.1 < modulus(),
        a * x.1 * 3 < modulus(),
        b == a * x.1 * 3 / d,
        b * x.2 < modulus(),
        b * x.2 * 3 < modulus(),
    ensures
        k0_3_at(x, d) == b * x.2 * 3 / d,
{
    lemma_sign(WAD as int, x.0);
    lemma_times(WAD as int, x.0);
    lemma_share(WAD * x.0, 3, d);
    lemma_sign(a, x.1);
    lemma_times(a, x.1);
    lemma_share(a * x.1, 3, d);
    lemma_sign(b, x.2);
    lemma_times(b, x.2);
    lemma_share(b * x.2, 3, d);
}

/// The larger of three numbers.
pub open spec fn most(a: int, b: int, c: int) -> int {
    if a >= b && a >= c {
        a
    } else if b >= c {
        b
    } else {
        c
    }
}

/// The balance of one of two coins by Newton's method starts from the square of `D` per four times the other
/// balance, with twice that balance per `D` for `K0`, and is within a tolerance of one part in ten to the
/// fourteenth of `D` and of that balance, and at least a hundred.
pub proof fn law_newton_y_2_start(ann: int, gamma: int, x: (int, int), d: int, i: int, lim_mul: int, other: int)
    requires
        i == 0 || i == 1,
        other == (if i == 0 { x.1 } else { x.0 }),
        0 < other,
        0 < d,
        0 < lim_mul,
        other * 4 < modulus(),
        d * d < modulus(),
        2_000_000_000_000_000_000 * other < modulus(),
        1_000_000_000_000_000_000_000_000_000_000_000_000int / lim_mul <= 2_000_000_000_000_000_000 * other / d
            <= lim_mul,
    ensures
        newton_y_2_model(ann, gamma, x, d, i, lim_mul) == newton_y_run(
            2,
            ann,
            gamma,
            other,
            2_000_000_000_000_000_000 * other / d,
            d,
            most(other / 100_000_000_000_000, d / 100_000_000_000_000, 100),
            d * d / (other * 4),
            255,
        ),
{
    lemma_times(WAD as int, 2);
    lemma_share(2_000_000_000_000_000_000, other, d);
    lemma_times(other, 4);
    lemma_share(d, d, other * 4);
    lemma_over(other, 100_000_000_000_000);
    lemma_over(d, 100_000_000_000_000);
    lemma_over(1_000_000_000_000_000_000_000_000_000_000_000_000, lim_mul);
}

/// The balance of one of three coins by Newton's method starts from a third of `D`, times `D` per three times
/// each of the other balances, from the smaller one on, with those balances per `D` for `K0`, and is within
/// a tolerance of one part in ten to the fourteenth of `D` and of the larger one, and at least a hundred. The
/// order in which the other balances come does not matter.
pub proof fn law_newton_y_3_start(
    ann: int,
    gamma: int,
    x: (int, int, int),
    d: int,
    i: int,
    high: int,
    low: int,
    a: int,
    k: int,
)
    requires
        0 <= i < 3,
        ({
            let (p, q) = if i == 0 {
                (x.1, x.2)
            } else if i == 1 {
                (x.0, x.2)
            } else {
                (x.0, x.1)
            };
            (p >= q && high == p && low == q) || (q >= p && high == q && low == p)
        }),
        0 < low,
        0 < d,
        high * 3 < modulus(),
        high + low < modulus(),
        d / 3 * d < modulus(),
        a == d / 3 * d / (low * 3),
        a * d < modulus(),
        3_000_000_000_000_000_000 * high < modulus(),
        k == 3_000_000_000_000_000_000 * high / d,
        k * 3 < modulus(),
        k * 3 * low < modulus(),
    ensures
        newton_y_3_model(ann, gamma, x, d, i) matches Ok(Some(y)) ==> newton_y_run(
            3,
            ann,
            gamma,
            high + low,
            k * 3 * low / d,
            d,
            most(high / 100_000_000_000_000, d / 100_000_000_000_000, 100),
            a * d / (high * 3),
            255,
        ) == Ok::<_, Fault>(Some(y)),
        newton_y_run(
            3,
            ann,
            gamma,
            high + low,
            k * 3 * low / d,
            d,
            most(high / 100_000_000_000_000, d / 100_000_000_000_000, 100),
            a * d / (high * 3),
            255,
        ) matches Ok(Some(y)) ==> (0 <= y * WAD < modulus() && 10_000_000_000_000_000 <= y * WAD / d
            <= 100_000_000_000_000_000_000 ==> newton_y_3_model(ann, gamma, x, d, i) == Ok::<_, Fault>(Some(y))),
{
    lemma_times(WAD as int, 3);
    lemma_share(3_000_000_000_000_000_000, high, d);
    lemma_times(k, 3);
    lemma_share(k * 3, low, d);
    lemma_times(low, 3);
    lemma_times(high, 3);
    lemma_over(d, 3);
    lemma_quotient(d, 3);
    lemma_share(d / 3, d, low * 3);
    lemma_share(a, d, high * 3);
    lemma_plus(high, low);
    lemma_over(high, 100_000_000_000_000);
    lemma_over(d, 100_000_000_000_000);
    if let Ok(Some(y)) = newton_y_run(
        3,
        ann,
        gamma,
        high + low,
        k * 3 * low / d,
        d,
        most(high / 100_000_000_000_000, d / 100_000_000_000_000, 100),
        a * d / (high * 3),
        255,
    ) {
        if 0 <= y * WAD < modulus() {
            lemma_times(y, WAD as int);
            lemma_over(y * WAD, d);
        }
    }
}

/// Asked for a coin that the pool does not have, Newton's method takes the two largest balances for the others
/// and starts from a third of `D`, times `D` per three times each of the three balances, from the smallest one
/// on.
pub proof fn law_newton_y_3_outside(
    ann: int,
    gamma: int,
    x: (int, int, int),
    d: int,
    i: int,
    a: int,
    b: int,
    k: int,
)
    requires
        3 <= i,
        x.0 >= x.1 >= x.2 > 0,
        0 < d,
        x.0 * 3 < modulus(),
        x.0 + x.1 < modulus(),
        d / 3 * d < modulus(),
        a == d / 3 * d / (x.2 * 3),
        a * d < modulus(),
        b == a * d / (x.1 * 3),
        b * d < modulus(),
        3_000_000_000_000_000_000 * x.0 < modulus(),
        k == 3_000_000_000_000_000_000 * x.0 / d,
        k * 3 < modulus(),
        k * 3 * x.1 < modulus(),
    ensures
        newton_y_3_model(ann, gamma, x, d, i) matches Ok(Some(y)) ==> newton_y_run(
            3,
            ann,
            gamma,
            x.0 + x.1,
            k * 3 * x.1 / d,
            d,
            most(x.0 / 100_000_000_000_000, d / 100_000_000_000_000, 100),
            b * d / (x.0 * 3),
            255,
        ) == Ok::<_, Fault>(Some(y)),
{
    lemma_times(WAD as int, 3);
    lemma_share(3_000_000_000_000_000_000, x.0, d);
    lemma_times(k, 3);
    lemma_share(k * 3, x.1, d);
    lemma_times(x.2, 3);
    lemma_times(x.1, 3);
    lemma_times(x.0, 3);
    lemma_over(d, 3);
    lemma_quotient(d, 3);
    lemma_share(d / 3, d, x.2 * 3);
    lemma_share(a, d, x.1 * 3);
    lemma_share(b, d, x.0 * 3);
    lemma_plus(x.0, x.1);
    lemma_over(x.0, 100_000_000_000_000);
    lemma_over(d, 100_000_000_000_000);
}

} // verus!
