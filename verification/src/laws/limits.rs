//! What the solvers refuse, and between which limits their answers lie.
use super::lemma_share;
use crate::bounds::lemma_quotient;
use crate::coins::{get2, sorted2, sorted3};
use crate::cubic::ten;
use crate::exchange::geometric_mean_model;
use crate::fault::Fault;
use crate::newton::{newton_d_3_run, WAD};
use crate::roots::{cbrt_model, isqrt_floor, lemma_isqrt_floor};
use crate::signed::{floor_div, half, wrap, SignedWord};
use crate::solvers::tricrypto_ng::{
    get_y_3_model, ladder_3, newton_d_3_guess, newton_d_3_model, newton_y_3_model,
};
use crate::solvers::twocrypto_ng::{
    cubic_2, divider_2, get_y_2_model, ladder_2, lim_mul_model, newton_d_2_guess, newton_d_2_model,
    newton_d_2_run, newton_y_2_model, reduced_2, solved_2,
};
use crate::uint::{lemma_over, lemma_plus, lemma_times, modulus, Word};
use vstd::prelude::*;

verus! {

/// Whether `v` lies between two shares of `d`, both in units of 10^18: from `least` to less than one above
/// `most`.
pub open spec fn shares(v: int, d: int, least: int, most: int) -> bool {
    0 < d && least * d <= v * WAD < (most + 1) * d
}

/// A quotient between two numbers.
proof fn lemma_shares(v: int, d: int, least: int, most: int)
    requires
        0 <= v * WAD < modulus(),
        0 < least,
        d != 0,
        least <= v.times(WAD as int).over(d) <= most,
    ensures
        shares(v, d, least, most),
{
    let n = v * WAD;
    lemma_times(v, WAD as int);
    lemma_over(n, d);
    assert(0 < d) by (nonlinear_arith)
        requires
            0 < n / d,
            0 <= n,
            d != 0,
    ;
    lemma_quotient(n, d);
    let q = n / d;
    assert(least * d <= n < (most + 1) * d) by (nonlinear_arith)
        requires
            q * d <= n < (q + 1) * d,
            least <= q <= most,
            0 < d,
    ;
}

/// The invariant of two balances is refused where the larger one is below 10^9 or above 10^33, or where the
/// smaller one is less than one part in ten thousand of it. One that is found has each balance between a two
/// hundredth of it and fifty times as much.
pub proof fn law_newton_d_2_limits(ann: int, gamma: int, x: (int, int), k0_prev: int)
    requires
        0 <= x.0,
        0 <= x.1,
        x.0 * WAD < modulus(),
        x.1 * WAD < modulus(),
    ensures
        ({
            let (a, b) = if x.0 < x.1 { (x.1, x.0) } else { x };
            a < 1_000_000_000 || a > 1_000_000_000_000_000_000_000_000_000_000_000 || b * WAD
                < 100_000_000_000_000 * a ==> newton_d_2_model(ann, gamma, x, k0_prev) == Ok::<_, Fault>(
                None::<int>,
            )
        }),
        newton_d_2_model(ann, gamma, x, k0_prev) matches Ok(Some(d)) ==> {
            &&& shares(x.0, d, 5_000_000_000_000_000, 50_000_000_000_000_000_000)
            &&& shares(x.1, d, 5_000_000_000_000_000, 50_000_000_000_000_000_000)
        },
{
    let y = sorted2(x);
    lemma_times(y.1, WAD as int);
    if y.0 >= 1_000_000_000 {
        lemma_over(y.1 * WAD, y.0);
        lemma_quotient(y.1 * WAD, y.0);
        if y.1 * WAD < 100_000_000_000_000 * y.0 {
            let q = y.1 * WAD / y.0;
            assert(q < 100_000_000_000_000) by (nonlinear_arith)
                requires
                    q * y.0 <= y.1 * WAD,
                    y.1 * WAD < 100_000_000_000_000 * y.0,
                    0 < y.0,
            ;
        }
    }
    if let Ok(Some(d)) = newton_d_2_model(ann, gamma, x, k0_prev) {
        lemma_shares(y.0, d, 5_000_000_000_000_000, 50_000_000_000_000_000_000);
        lemma_shares(y.1, d, 5_000_000_000_000_000, 50_000_000_000_000_000_000);
    }
}

/// The invariant of three balances is refused where there is none. One that is found has each balance between
/// a hundredth of it, less one part in ten to the eighteenth, and a hundred times as much.
pub proof fn law_newton_d_3_limits(ann: int, gamma: int, x: (int, int, int), k0_prev: int)
    requires
        0 <= x.0,
        0 <= x.1,
        0 <= x.2,
        x.0 * WAD < modulus(),
        x.1 * WAD < modulus(),
        x.2 * WAD < modulus(),
    ensures
        x.0 == 0 && x.1 == 0 && x.2 == 0 ==> newton_d_3_model(ann, gamma, x, k0_prev) == Ok::<_, Fault>(
            None::<int>,
        ),
        newton_d_3_model(ann, gamma, x, k0_prev) matches Ok(Some(d)) ==> {
            &&& shares(x.0, d, 9_999_999_999_999_999, 100_000_000_000_000_000_000)
            &&& shares(x.1, d, 9_999_999_999_999_999, 100_000_000_000_000_000_000)
            &&& shares(x.2, d, 9_999_999_999_999_999, 100_000_000_000_000_000_000)
        },
{
    let y = sorted3(x);
    if let Ok(Some(d)) = newton_d_3_model(ann, gamma, x, k0_prev) {
        lemma_shares(y.0, d, 9_999_999_999_999_999, 100_000_000_000_000_000_000);
        lemma_shares(y.1, d, 9_999_999_999_999_999, 100_000_000_000_000_000_000);
        lemma_shares(y.2, d, 9_999_999_999_999_999, 100_000_000_000_000_000_000);
    }
}

/// The balance of one of three coins lies between a hundredth of `D` and a hundred times as much, up to one
/// part in ten to the eighteenth. What is not a signed word, or not one of the coins, is refused.
pub proof fn law_y_3_limits(ann: int, gamma: int, x: (int, int, int), d: int, i: int)
    ensures
        newton_y_3_model(ann, gamma, x, d, i) matches Ok(Some(y)) ==> (0 <= y * WAD < modulus() ==> shares(
            y,
            d,
            10_000_000_000_000_000,
            100_000_000_000_000_000_000,
        )),
        get_y_3_model(ann, gamma, x, d, i) matches Ok(Some((y, k))) ==> (0 <= y * WAD < modulus() ==> shares(
            y,
            d,
            9_999_999_999_999_999,
            100_000_000_000_000_000_000,
        )),
        i > 2 || ann >= half() || gamma >= half() || d >= half() ==> get_y_3_model(ann, gamma, x, d, i)
            == Ok::<_, Fault>(None::<(int, int)>),
{
    if let Ok(Some(y)) = newton_y_3_model(ann, gamma, x, d, i) {
        if 0 <= y * WAD < modulus() {
            lemma_shares(y, d, 10_000_000_000_000_000, 100_000_000_000_000_000_000);
        }
    }
    if let Ok(Some((y, k))) = get_y_3_model(ann, gamma, x, d, i) {
        if 0 <= y * WAD < modulus() {
            lemma_shares(y, d, 9_999_999_999_999_999, 100_000_000_000_000_000_000);
        }
    }
}

/// A product that is a signed word is exact.
proof fn lemma_wtimes(a: int, b: int)
    requires
        0 <= a * b < half(),
    ensures
        a.wtimes(b) == a * b,
{
    reveal(wrap);
    vstd::arithmetic::div_mod::lemma_small_mod((a * b) as nat, modulus() as nat);
}

/// The limit for a two-coin pool: a hundred, and less in proportion to `gamma` where `gamma` is above one
/// fiftieth.
proof fn lemma_lim_mul(gamma: int, lim: int)
    requires
        lim == (if gamma > 20_000_000_000_000_000 {
            2_000_000_000_000_000_000_000_000_000_000_000_000int / gamma
        } else {
            100_000_000_000_000_000_000
        }),
    ensures
        lim_mul_model(gamma) == lim,
{
    lemma_times(100, WAD as int);
    lemma_times(100_000_000_000_000_000_000, 20_000_000_000_000_000);
    lemma_over(2_000_000_000_000_000_000_000_000_000_000_000_000, gamma);
}

/// The balance of one of two coins is refused where twice the other balance per `D` is above the limit `lim` or
/// below its inverse: a hundred, and less in proportion to `gamma` where `gamma` is above one fiftieth. A
/// balance that the cubic gives lies between half of the inverse and half of the limit in `D`.
pub proof fn law_y_2_limits(ann: int, gamma: int, x: (int, int), d: int, i: int, lim: int)
    requires
        i == 0 || i == 1,
        0 < d,
        lim == (if gamma > 20_000_000_000_000_000 {
            2_000_000_000_000_000_000_000_000_000_000_000_000int / gamma
        } else {
            100_000_000_000_000_000_000
        }),
        0 < lim,
        0 < get2(x, 1 - i),
        2_000_000_000_000_000_000 * get2(x, 1 - i) < half(),
    ensures
        ({
            let low = 1_000_000_000_000_000_000_000_000_000_000_000_000int / lim;
            let other = 2_000_000_000_000_000_000 * get2(x, 1 - i);
            other < low * d || other >= (lim + 1) * d ==> {
                &&& d < half() ==> !(get_y_2_model(ann, gamma, x, d, i) matches Ok(Some(_)))
                &&& !(newton_y_2_model(ann, gamma, x, d, i, lim) matches Ok(Some(_)))
            }
        }),
        get_y_2_model(ann, gamma, x, d, i) matches Ok(Some((y, k))) ==> (k != 0 && 0 <= y * WAD < modulus()
            && 1 < lim <= 500_000_000_000_000_000_000_000_000_000_000_000 ==> shares(
            y,
            d,
            500_000_000_000_000_000_000_000_000_000_000_000int / lim,
            lim / 2,
        )),
        ann >= half() || gamma >= half() || d >= half() ==> get_y_2_model(ann, gamma, x, d, i) == Ok::<_, Fault>(
            None::<(int, int)>,
        ),
{
    let unit = 1_000_000_000_000_000_000_000_000_000_000_000_000int;
    let w = WAD as int;
    let x_j = get2(x, 1 - i);
    let other = 2 * w * x_j;
    lemma_lim_mul(gamma, lim);
    lemma_wtimes(w, 2);
    lemma_wtimes(2 * w, x_j);
    reveal(floor_div);
    lemma_times(w, 2);
    lemma_times(2 * w, x_j);
    lemma_over(other, d);
    lemma_over(unit, lim);
    lemma_quotient(other, d);
    let q = other / d;
    let low = unit / lim;
    if other < low * d {
        assert(q < low) by (nonlinear_arith)
            requires
                q * d <= other < low * d,
                0 < d,
        ;
    }
    if other >= (lim + 1) * d {
        assert(q > lim) by (nonlinear_arith)
            requires
                (lim + 1) * d <= other < (q + 1) * d,
                0 < d,
        ;
    }
    if let Ok(Some((y, k))) = get_y_2_model(ann, gamma, x, d, i) {
        if k != 0 && 0 <= y * WAD < modulus() && 1 < lim <= 500_000_000_000_000_000_000_000_000_000_000_000 {
            lemma_over(unit, 2);
            lemma_over(unit / 2, lim);
            lemma_over(lim, 2);
            let least = 500_000_000_000_000_000_000_000_000_000_000_000int / lim;
            assert(0 < least) by (nonlinear_arith)
                requires
                    least == 500_000_000_000_000_000_000_000_000_000_000_000int / lim,
                    0 < lim <= 500_000_000_000_000_000_000_000_000_000_000_000,
            ;
            lemma_shares(y, d, least, lim / 2);
        }
    }
}

/// A number that lies between two shares has its quotient between them.
proof fn lemma_within(v: int, d: int, least: int, most: int)
    requires
        shares(v, d, least, most),
        0 <= v * WAD < modulus(),
    ensures
        least <= v.times(WAD as int).over(d) <= most,
{
    let n = v * WAD;
    lemma_times(v, WAD as int);
    lemma_over(n, d);
    lemma_quotient(n, d);
    let q = n / d;
    assert(least <= q <= most) by (nonlinear_arith)
        requires
            q * d <= n < (q + 1) * d,
            least * d <= n < (most + 1) * d,
            0 < d,
    ;
}

/// What the iteration finds for two balances within the limits is the invariant, where each balance has its
/// share in it: nothing else is refused.
pub proof fn law_newton_d_2_accepts(ann: int, gamma: int, x: (int, int), k0_prev: int, first: int, d: int)
    requires
        x.0 >= x.1 >= 0,
        1_000_000_000 <= x.0 <= 1_000_000_000_000_000_000_000_000_000_000_000,
        100_000_000_000_000 * x.0 <= x.1 * WAD,
        newton_d_2_guess(x, x.0 + x.1, k0_prev) == Ok::<_, Fault>(first),
        newton_d_2_run(ann, gamma, x, x.0 + x.1, first, 255) == Ok::<_, Fault>(Some(d)),
        shares(x.0, d, 5_000_000_000_000_000, 50_000_000_000_000_000_000),
        shares(x.1, d, 5_000_000_000_000_000, 50_000_000_000_000_000_000),
    ensures
        newton_d_2_model(ann, gamma, x, k0_prev) == Ok::<_, Fault>(Some(d)),
        newton_d_2_model(ann, gamma, (x.1, x.0), k0_prev) == Ok::<_, Fault>(Some(d)),
{
    let w = WAD as int;
    lemma_plus(x.0, x.1);
    lemma_times(x.1, w);
    lemma_over(x.1 * w, x.0);
    let q = x.1 * w / x.0;
    assert(q >= 100_000_000_000_000) by (nonlinear_arith)
        requires
            q == x.1 * w / x.0,
            100_000_000_000_000 * x.0 <= x.1 * w,
            0 < x.0,
    ;
    lemma_within(x.0, d, 5_000_000_000_000_000, 50_000_000_000_000_000_000);
    lemma_within(x.1, d, 5_000_000_000_000_000, 50_000_000_000_000_000_000);
}

/// What the iteration finds for three balances, the largest one first, is the invariant, where each balance has
/// its share in it: nothing else is refused.
pub proof fn law_newton_d_3_accepts(ann: int, gamma: int, x: (int, int, int), k0_prev: int, d: int)
    requires
        x.0 >= x.1 >= x.2 >= 0,
        0 < x.0,
        x.0 * WAD < modulus(),
        x.1 * WAD < modulus(),
        x.2 * WAD < modulus(),
        x.0 + x.1 + x.2 < modulus(),
        newton_d_3_run(
            ann,
            gamma,
            x,
            x.0 + x.1 + x.2,
            newton_d_3_guess(x, x.0 + x.1 + x.2, k0_prev),
            255,
        ) == Ok::<_, Fault>(Some(d)),
        shares(x.0, d, 9_999_999_999_999_999, 100_000_000_000_000_000_000),
        shares(x.1, d, 9_999_999_999_999_999, 100_000_000_000_000_000_000),
        shares(x.2, d, 9_999_999_999_999_999, 100_000_000_000_000_000_000),
    ensures
        newton_d_3_model(ann, gamma, x, k0_prev) == Ok::<_, Fault>(Some(d)),
{
    lemma_plus(x.0, x.1);
    lemma_plus(x.0 + x.1, x.2);
    lemma_within(x.0, d, 9_999_999_999_999_999, 100_000_000_000_000_000_000);
    lemma_within(x.1, d, 9_999_999_999_999_999, 100_000_000_000_000_000_000);
    lemma_within(x.2, d, 9_999_999_999_999_999, 100_000_000_000_000_000_000);
}

/// The balance of one of two coins comes from the cubic wherever the other balance is within the limit.
pub proof fn law_y_2_accepts(ann: int, gamma: int, x: (int, int), d: int, i: int, lim: int, other: int)
    requires
        i == 0 || i == 1,
        ann < half(),
        gamma < half(),
        0 < d < half(),
        lim == (if gamma > 20_000_000_000_000_000 {
            2_000_000_000_000_000_000_000_000_000_000_000_000int / gamma
        } else {
            100_000_000_000_000_000_000
        }),
        0 < lim,
        other == (if i == 0 { x.1 } else { x.0 }),
        0 < other,
        2_000_000_000_000_000_000 * other < half(),
        1_000_000_000_000_000_000_000_000_000_000_000_000int / lim * d <= 2_000_000_000_000_000_000 * other,
        2_000_000_000_000_000_000 * other < (lim + 1) * d,
    ensures
        get_y_2_model(ann, gamma, x, d, i) == match cubic_2(ann, gamma, d, other) {
            Err(e) => Err(e),
            Ok(q) => match divider_2(q) {
                Err(e) => Err(e),
                Ok(v) => solved_2(reduced_2(q, v), ann, gamma, x, d, i, lim),
            },
        },
{
    let w = WAD as int;
    let low = 1_000_000_000_000_000_000_000_000_000_000_000_000int / lim;
    let n = 2 * w * other;
    lemma_lim_mul(gamma, lim);
    assert(0 <= lim <= 100_000_000_000_000_000_000) by {
        if gamma > 20_000_000_000_000_000 {
            assert(2_000_000_000_000_000_000_000_000_000_000_000_000int / gamma <= 100_000_000_000_000_000_000)
                by (nonlinear_arith)
                requires
                    gamma > 20_000_000_000_000_000,
            ;
        }
    }
    lemma_wtimes(w, 2);
    lemma_wtimes(2 * w, other);
    reveal(floor_div);
    lemma_quotient(n, d);
    let q = n / d;
    assert(low <= q <= lim) by (nonlinear_arith)
        requires
            q * d <= n < (q + 1) * d,
            low * d <= n < (lim + 1) * d,
            0 < d,
    ;
}

/// Powers of ten multiply.
proof fn lemma_tens(a: nat, b: nat)
    ensures
        ten(a) * ten(b) == ten(a + b),
        0 < ten(a),
{
    vstd::arithmetic::power::lemma_pow_adds(10, a, b);
    vstd::arithmetic::power::lemma_pow_positive(10, a);
}

/// What the coefficients of the cubic of a two-coin pool are divided by leaves a number above 10^18, from 10^24
/// up to 10^48 one of at most 10^20, and below that one of at most 10^22; what is at most 10^20 is not
/// divided.
pub proof fn law_ladder_2(t: int)
    ensures
        0 < ladder_2(t),
        t <= ten(20) ==> ladder_2(t) == 1,
        t > ten(20) ==> ladder_2(t) * ten(18) < t,
        ten(24) < t <= ten(48) ==> t <= ladder_2(t) * ten(20),
        ten(20) < t <= ten(24) ==> t <= ladder_2(t) * ten(22),
{
    lemma_tens(30, 18);
    lemma_tens(28, 18);
    lemma_tens(28, 20);
    lemma_tens(26, 18);
    lemma_tens(26, 20);
    lemma_tens(24, 18);
    lemma_tens(24, 20);
    lemma_tens(22, 18);
    lemma_tens(22, 20);
    lemma_tens(20, 18);
    lemma_tens(20, 20);
    lemma_tens(18, 18);
    lemma_tens(18, 20);
    lemma_tens(16, 18);
    lemma_tens(16, 20);
    lemma_tens(14, 18);
    lemma_tens(14, 20);
    lemma_tens(12, 18);
    lemma_tens(12, 20);
    lemma_tens(10, 18);
    lemma_tens(10, 20);
    lemma_tens(8, 18);
    lemma_tens(8, 20);
    lemma_tens(6, 18);
    lemma_tens(6, 20);
    lemma_tens(2, 18);
    lemma_tens(2, 22);
    lemma_rising(20, 48);
}

/// Higher powers of ten are larger.
proof fn lemma_rising(a: nat, b: nat)
    requires
        a <= b,
    ensures
        forall|i: nat, j: nat| a <= i < j <= b ==> #[trigger] ten(i) < #[trigger] ten(j),
{
    assert forall|i: nat, j: nat| a <= i < j <= b implies #[trigger] ten(i) < #[trigger] ten(j) by {
        vstd::arithmetic::power::lemma_pow_strictly_increases(10, i, j);
    }
}

/// What the coefficients of the cubic of a three-coin pool are divided by leaves a number above 10^18, and up
/// to 10^48 one of at most 10^22; what is at most 10^20 is not divided.
pub proof fn law_ladder_3(t: int)
    ensures
        0 < ladder_3(t),
        t <= ten(20) ==> ladder_3(t) == 1,
        t > ten(20) ==> ladder_3(t) * ten(18) < t,
        ten(20) < t <= ten(48) ==> t <= ladder_3(t) * ten(22),
{
    lemma_tens(30, 18);
    lemma_tens(26, 18);
    lemma_tens(26, 22);
    lemma_tens(22, 18);
    lemma_tens(22, 22);
    lemma_tens(18, 18);
    lemma_tens(18, 22);
    lemma_tens(14, 18);
    lemma_tens(14, 22);
    lemma_tens(10, 18);
    lemma_tens(10, 22);
    lemma_tens(6, 18);
    lemma_tens(6, 22);
    lemma_tens(2, 18);
    lemma_tens(2, 22);
    lemma_rising(20, 48);
}

/// What the iteration toward the invariant of two balances starts from: twice their geometric mean without a
/// hint, and with one the number whose square is four times their product per the hint, at most their sum;
/// both rounded down.
pub proof fn law_newton_d_2_start(x: (int, int), k0_prev: int)
    requires
        0 < x.0,
        0 < x.1,
        0 <= k0_prev,
        x.0 + x.1 < modulus(),
        4 * x.0 * x.1 < modulus() - 1,
        k0_prev != 0 ==> 4 * x.0 * x.1 / k0_prev * WAD < modulus() - 1,
    ensures
        newton_d_2_guess(x, x.0 + x.1, k0_prev) matches Ok(g) && {
            &&& k0_prev == 0 ==> g % 2 == 0 && (g / 2) * (g / 2) <= x.0 * x.1 < (g / 2 + 1) * (g / 2 + 1)
            &&& k0_prev != 0 ==> g <= x.0 + x.1 && g * g <= 4 * x.0 * x.1 / k0_prev * WAD && (g == x.0 + x.1
                || 4 * x.0 * x.1 / k0_prev * WAD < (g + 1) * (g + 1))
        },
{
    let p = x.0 * x.1;
    assert(0 < p && 4 * x.0 * x.1 == 4 * p && 4 * x.0 <= 4 * p) by (nonlinear_arith)
        requires
            p == x.0 * x.1,
            0 < x.0,
            0 < x.1,
    ;
    lemma_times(x.0, x.1);
    lemma_times(4, x.0);
    lemma_times(4 * x.0, x.1);
    lemma_isqrt_floor(p, 0);
    let r = isqrt_floor(p);
    assert(r <= p) by (nonlinear_arith)
        requires
            0 <= r,
            r * r <= p,
    ;
    lemma_times(2, r);
    if k0_prev != 0 {
        lemma_over(4 * x.0 * x.1, k0_prev);
        lemma_quotient(4 * x.0 * x.1, k0_prev);
        let n = 4 * x.0 * x.1 / k0_prev;
        lemma_times(n, WAD as int);
        lemma_isqrt_floor(n * WAD, 0);
        let z = isqrt_floor(n * WAD);
        let s = x.0 + x.1;
        if s < z {
            assert(s * s <= z * z) by (nonlinear_arith)
                requires
                    0 < s < z,
            ;
        }
    }
}

/// What the iteration toward the invariant of three balances starts from without a hint: three times the cube
/// root of their product.
pub proof fn law_newton_d_3_start(x: (int, int, int), s: int, k0_prev: int)
    requires
        0 <= x.0,
        0 <= x.1,
        0 <= x.2,
        x.0 * x.1 < modulus(),
        0 <= k0_prev,
    ensures
        k0_prev == 0 && x.0 * x.1 / (WAD as int) * x.2 < modulus() && 3 * cbrt_model(
            x.0 * x.1 / (WAD as int) * x.2 / (WAD as int),
        ) < modulus() && 0 <= cbrt_model(x.0 * x.1 / (WAD as int) * x.2 / (WAD as int)) ==> newton_d_3_guess(
            x,
            s,
            k0_prev,
        ) == 3 * cbrt_model(x.0 * x.1 / (WAD as int) * x.2 / (WAD as int)),
        k0_prev > 0 ==> {
            let (unit, back) = if s > 1_000_000_000_000_000_000_000_000_000_000_000_000 {
                (1_000_000_000_000_000_000_000_000_000_000_000_000int, 1_000_000_000_000int)
            } else if s > 1_000_000_000_000_000_000_000_000 {
                (1_000_000_000_000_000_000_000_000int, 1_000_000int)
            } else {
                (1_000_000_000_000_000_000int, 1int)
            };
            let n = x.0 * x.1 / unit * x.2 / k0_prev;
            x.0 * x.1 / unit * x.2 < modulus() && n * 27 < modulus() && n * 27 * back < modulus()
                ==> newton_d_3_guess(x, s, k0_prev) == cbrt_model(n * 27 * back)
        },
{
    let w = WAD as int;
    let p = x.0 * x.1;
    assert(0 <= p) by (nonlinear_arith)
        requires
            p == x.0 * x.1,
            0 <= x.0,
            0 <= x.1,
    ;
    lemma_times(x.0, x.1);
    if k0_prev == 0 {
        lemma_over(p, w);
        lemma_quotient(p, w);
        if p / w * x.2 < modulus() {
            lemma_share(p / w, x.2, w);
            let root = cbrt_model(p / w * x.2 / w);
            if 0 <= 3 * root < modulus() {
                lemma_times(3, root);
            }
        }
    } else {
        let (unit, back) = if s > 1_000_000_000_000_000_000_000_000_000_000_000_000 {
            (1_000_000_000_000_000_000_000_000_000_000_000_000int, 1_000_000_000_000int)
        } else if s > 1_000_000_000_000_000_000_000_000 {
            (1_000_000_000_000_000_000_000_000int, 1_000_000int)
        } else {
            (1_000_000_000_000_000_000int, 1int)
        };
        lemma_over(p, unit);
        lemma_quotient(p, unit);
        let n = p / unit * x.2 / k0_prev;
        if p / unit * x.2 < modulus() && n * 27 < modulus() && n * 27 * back < modulus() {
            lemma_share(p / unit, x.2, k0_prev);
            lemma_times(n, 27);
            lemma_times(n * 27, back);
        }
    }
}

/// Numbers that come with the larger one first are not sorted again.
pub proof fn law_mean_sorted(a: int, b: int)
    requires
        a >= b,
    ensures
        geometric_mean_model((a, b), false) == geometric_mean_model((a, b), true),
        geometric_mean_model((a, b), true) == geometric_mean_model((b, a), true),
{
}

} // verus!
