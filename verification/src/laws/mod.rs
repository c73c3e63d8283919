//! What the operations of the pools do, in plain numbers.
//!
//! The laws here speak of what goes into an operation and what comes out of it, as long as the products
//! are words: in which units a pool counts, what it pays, when its price scales move and to where.
use crate::bounds::lemma_quotient;
use crate::exchange::{halfpow_model, lemma_halfpow};
use crate::fault::Fault;
use crate::newton::{FEE_DENOMINATOR, WAD};
use crate::pricing::{
    claimed, deviation, fee_on, gross_out, in_units, keeps_profit, moved_average, moved_scale, norm_3,
    profit_allows, step_size, trade_price,
};
use crate::roots::{is_isqrt, lemma_isqrt_floor};
use crate::uint::{lemma_minus, lemma_over, lemma_plus, lemma_times, modulus, Word};
use vstd::prelude::*;

pub mod answers;
pub mod cubics;
pub mod limits;
pub mod prices;
pub mod rates;
pub mod steps;
pub mod tri_ng;
pub mod tri_v1;
pub mod two_ng;
pub mod two_v1;

verus! {

/// A product of three numbers does not depend on their order and grouping, as long as it is a word and
/// the last two are not zero.
pub proof fn lemma_product(v: int, a: int, b: int)
    requires
        0 <= v,
        0 < a,
        0 < b,
        v * a * b < modulus(),
    ensures
        0 <= v * a <= v * a * b,
        0 <= v * b <= v * a * b,
        v <= v * a * b,
        v.times(a).times(b) == v * a * b,
        v.times(b).times(a) == v * a * b,
        v.times(a.times(b)) == v * a * b,
{
    assert(0 <= v * a <= v * a * b && 0 <= v * b <= v * a * b && v <= v * a * b && v * b * a == v * a * b && v * (a
        * b) == v * a * b) by (nonlinear_arith)
        requires
            0 <= v,
            0 < a,
            0 < b,
    ;
    lemma_times(v, a);
    lemma_times(v * a, b);
    lemma_times(v, b);
    lemma_times(v * b, a);
    if v == 0 {
        reveal(crate::uint::word_mul);
        assert(0 * a.times(b) == 0);
    } else {
        assert(0 < a * b <= v * (a * b)) by (nonlinear_arith)
            requires
                1 <= v,
                0 < a,
                0 < b,
        ;
        lemma_times(a, b);
        lemma_times(v, a * b);
    }
}

/// A balance times a precision and a price, per ten to the eighteenth, gives back no more than the
/// product when it is multiplied by ten to the eighteenth again.
pub proof fn lemma_per_wad(n: int)
    requires
        0 <= n,
    ensures
        n.over(WAD as int) == n / (WAD as int),
        0 <= n / (WAD as int) <= n,
        (n / (WAD as int)) * WAD <= n,
{
    lemma_over(n, WAD as int);
    lemma_quotient(n, WAD as int);
}

/// Dividing by one number and then by another is dividing by their product.
pub proof fn lemma_twice_over(n: int, a: int, b: int)
    requires
        0 <= n,
        0 < a,
        0 < b,
    ensures
        n.over(a).over(b) == n / a / b,
        n / a / b == n / (a * b),
        (n / a / b) * (a * b) <= n < (n / a / b + 1) * (a * b),
{
    lemma_over(n, a);
    lemma_over(n / a, b);
    vstd::arithmetic::div_mod::lemma_div_denominator(n, a, b);
    assert(0 < a * b) by (nonlinear_arith)
        requires
            0 < a,
            0 < b,
    ;
    lemma_quotient(n, a * b);
}

/// How far a price is from its scale.
pub proof fn lemma_deviation(oracle: int, scale: int)
    requires
        0 <= oracle,
        0 < scale,
        oracle * WAD < modulus(),
    ensures
        deviation(oracle, scale) == (if oracle * WAD / scale > WAD {
            oracle * WAD / scale - WAD
        } else {
            WAD - oracle * WAD / scale
        }),
        0 <= deviation(oracle, scale) < modulus(),
{
    let w = WAD as int;
    assert(0 <= oracle * w) by (nonlinear_arith)
        requires
            0 <= oracle,
            0 <= w,
    ;
    lemma_times(oracle, w);
    lemma_over(oracle * w, scale);
    lemma_quotient(oracle * w, scale);
    let ratio = oracle * w / scale;
    if ratio > w {
        lemma_minus(ratio, w);
    } else {
        lemma_minus(w, ratio);
    }
}

/// How far two prices are from their scales together: the square root of the sum of the squares, rounded
/// down.
pub proof fn lemma_norm(oracle: (int, int), scale: (int, int), a: int, b: int, norm: int)
    requires
        0 <= oracle.0,
        0 <= oracle.1,
        0 < scale.0,
        0 < scale.1,
        oracle.0 * WAD < modulus(),
        oracle.1 * WAD < modulus(),
        a == (if oracle.0 * WAD / scale.0 > WAD {
            oracle.0 * WAD / scale.0 - WAD
        } else {
            WAD - oracle.0 * WAD / scale.0
        }),
        b == (if oracle.1 * WAD / scale.1 > WAD {
            oracle.1 * WAD / scale.1 - WAD
        } else {
            WAD - oracle.1 * WAD / scale.1
        }),
        a * a + b * b < modulus() - 1,
        0 <= norm,
        norm * norm <= a * a + b * b < (norm + 1) * (norm + 1),
    ensures
        norm_3(oracle, scale) == Ok::<_, Fault>(norm),
        0 <= norm < modulus(),
{
    lemma_deviation(oracle.0, scale.0);
    lemma_deviation(oracle.1, scale.1);
    assert(0 <= a * a && 0 <= b * b && norm <= norm * norm) by (nonlinear_arith)
        requires
            0 <= norm,
    ;
    lemma_times(a, a);
    lemma_times(b, b);
    lemma_plus(a * a, b * b);
    assert(is_isqrt(a * a + b * b, norm));
    lemma_isqrt_floor(a * a + b * b, norm);
}

/// The step is a fifth of the way, or the least step where that is more.
pub proof fn lemma_step(least: int, norm: int)
    ensures
        step_size(least, norm) == (if least > norm / 5 { least } else { norm / 5 }),
{
    lemma_over(norm, 5);
}

/// The weighted mean that a price scale moves to.
pub proof fn lemma_moved_scale(scale: int, oracle: int, norm: int, step: int)
    requires
        0 <= scale,
        0 <= oracle,
        0 <= step < norm < modulus(),
        scale * (norm - step) + step * oracle < modulus(),
    ensures
        moved_scale(scale, oracle, norm, step) == (scale * (norm - step) + step * oracle) / norm,
        0 <= moved_scale(scale, oracle, norm, step) < modulus(),
{
    assert(0 <= scale * (norm - step) && 0 <= step * oracle) by (nonlinear_arith)
        requires
            0 <= scale,
            0 <= oracle,
            0 <= step < norm,
    ;
    lemma_minus(norm, step);
    lemma_times(scale, norm - step);
    lemma_times(step, oracle);
    lemma_plus(scale * (norm - step), step * oracle);
    lemma_over(scale * (norm - step) + step * oracle, norm);
    lemma_quotient(scale * (norm - step) + step * oracle, norm);
}

/// The weighted mean of a price and an average.
pub proof fn lemma_moved_average(price: int, average: int, alpha: int)
    requires
        0 <= price,
        0 <= average,
        0 <= alpha <= WAD,
        price * (WAD - alpha) + average * alpha < modulus(),
    ensures
        moved_average(price, average, alpha) == (price * (WAD - alpha) + average * alpha) / (WAD as int),
{
    let w = WAD as int;
    assert(0 <= price * (w - alpha) && 0 <= average * alpha) by (nonlinear_arith)
        requires
            0 <= price,
            0 <= average,
            0 <= alpha <= w,
    ;
    lemma_minus(w, alpha);
    lemma_times(price, w - alpha);
    lemma_times(average, alpha);
    lemma_plus(price * (w - alpha), average * alpha);
    lemma_over(price * (w - alpha) + average * alpha, w);
}

/// When the profit leaves room for a move.
pub proof fn lemma_allows(v: int, profit: int, allowed: int)
    requires
        WAD <= 2 * v < modulus(),
        0 <= profit,
        0 <= allowed,
        profit + 2 * allowed < modulus(),
    ensures
        profit_allows(v, profit, allowed) == (2 * v - WAD > profit + 2 * allowed),
{
    lemma_times(v, 2);
    lemma_minus(2 * v, WAD as int);
    lemma_times(2, allowed);
    lemma_plus(profit, 2 * allowed);
}

/// When a move keeps enough of the profit.
pub proof fn lemma_keeps(v: int, profit: int)
    requires
        0 <= v,
        2 * v < modulus(),
    ensures
        keeps_profit(v, profit) == (v > WAD && 2 * v - WAD > profit),
{
    lemma_times(2, v);
    if v > WAD {
        lemma_minus(2 * v, WAD as int);
    }
}

/// A quotient by a positive number is not negative and at most the dividend.
pub proof fn lemma_share(a: int, b: int, c: int)
    requires
        0 <= a,
        0 <= b,
        0 < c,
        a * b < modulus(),
    ensures
        a.times(b).over(c) == a * b / c,
        b.times(a).over(c) == a * b / c,
        0 <= a * b,
        0 <= a * b / c <= a * b,
        (a * b / c) * c <= a * b < (a * b / c + 1) * c,
{
    assert(0 <= a * b && a * b == b * a) by (nonlinear_arith)
        requires
            0 <= a,
            0 <= b,
    ;
    lemma_times(a, b);
    lemma_times(b, a);
    lemma_over(a * b, c);
    lemma_quotient(a * b, c);
}

/// What is owed of a coin that lost `units` in common units, before the fee.
pub proof fn lemma_owed(before: int, after: int, precision: int, scale: Option<int>)
    requires
        0 <= after < before < modulus(),
        0 < precision,
        scale matches Some(p) ==> 0 < p && before * WAD < modulus(),
    ensures
        gross_out(before, after, precision, scale) matches Ok(e) && 0 <= e < modulus() && match scale {
            None => e * precision <= before - after - 1 < (e + 1) * precision,
            Some(p) => e * (p * precision) <= (before - after - 1) * WAD < (e + 1) * (p * precision),
        },
{
    lemma_minus(before, after);
    lemma_minus(before - after, 1);
    let units = before - after - 1;
    match scale {
        None => {
            lemma_over(units, precision);
            lemma_quotient(units, precision);
        },
        Some(p) => {
            lemma_times(units, WAD as int);
            lemma_twice_over(units * WAD, p, precision);
            lemma_quotient(units * WAD, p);
            lemma_quotient(units * WAD / p, precision);
        },
    }
}

/// The fee on an amount is what is kept of it: both together make up the amount.
pub proof fn lemma_kept(rate: int, out: int)
    requires
        0 <= out < modulus(),
    ensures
        out.minus(fee_on(rate, out)) + fee_on(rate, out) < modulus() ==> out.minus(fee_on(rate, out))
            + fee_on(rate, out) == out,
        0 <= rate * out < modulus() ==> {
            &&& fee_on(rate, out) * FEE_DENOMINATOR <= rate * out
            &&& rate * out < (fee_on(rate, out) + 1) * FEE_DENOMINATOR
        },
{
    reveal(crate::uint::word_mul);
    reveal(crate::uint::word_sub);
    let fee = fee_on(rate, out);
    let product = rate.times(out);
    lemma_over(product, FEE_DENOMINATOR as int);
    lemma_quotient(product, FEE_DENOMINATOR as int);
    if fee <= out {
        lemma_minus(out, fee);
    } else {
        vstd::arithmetic::div_mod::lemma_mod_add_multiples_vanish(out - fee, modulus());
        vstd::arithmetic::div_mod::lemma_small_mod((out - fee + modulus()) as nat, modulus() as nat);
    }
    if 0 <= rate * out < modulus() {
        lemma_times(rate, out);
    }
}

/// The same amount in finer units is the same in common units.
pub proof fn lemma_same_units(x: int, m: int, q: int, price: int)
    requires
        0 <= x,
        0 < m,
        0 < q,
        0 < price,
        x * (m * q) < modulus(),
    ensures
        in_units(x, m * q, None) == in_units(x * m, q, None),
        in_units(x, m * q, Some(price)) == in_units(x * m, q, Some(price)),
{
    assert((x * m) * q == x * (m * q) && 0 <= x * (m * q)) by (nonlinear_arith)
        requires
            0 <= x,
            0 < m,
            0 < q,
    ;
    lemma_times(x, m * q);
    lemma_times(x * m, q);
}

/// What a claim takes from the profit and what it mints, in numbers.
pub proof fn lemma_claimed(profit: int, before: int, v: int, n: int, admin_fee: int, fees: int, minted: int)
    requires
        0 <= before <= profit < modulus(),
        0 <= admin_fee,
        (profit - before) * admin_fee < modulus(),
        fees == (profit - before) * admin_fee / (2 * FEE_DENOMINATOR),
        2 * fees <= profit,
        fees < v,
        v * WAD < modulus(),
        0 < n,
        minted == n * (v * WAD / (v - fees) - WAD) / (WAD as int),
        n * (v * WAD / (v - fees) - WAD) < modulus(),
        n + minted < modulus(),
    ensures
        claimed(profit, before, v, n, admin_fee) == (profit - 2 * fees, n + minted),
        0 <= minted,
        fees == 0 ==> minted == 0,
        (n + minted) * (v - fees) <= n * v,
{
    let w = WAD as int;
    lemma_minus(profit, before);
    lemma_times(2, FEE_DENOMINATOR as int);
    lemma_share(profit - before, admin_fee, 2 * FEE_DENOMINATOR);
    assert(v <= v * w) by (nonlinear_arith)
        requires
            0 < v,
            w == 1_000_000_000_000_000_000,
    ;
    lemma_minus(v, fees);
    lemma_share(v, w, v - fees);
    let ratio = v * w / (v - fees);
    assert(w <= ratio && (fees == 0 ==> ratio == w)) by (nonlinear_arith)
        requires
            ratio == v * w / (v - fees),
            0 <= fees < v,
            0 < w,
    ;
    lemma_minus(ratio, w);
    lemma_share(n, ratio - w, w);
    lemma_times(fees, 2);
    lemma_minus(profit, 2 * fees);
    lemma_plus(n, minted);
    assert((n + minted) * (v - fees) <= n * v) by (nonlinear_arith)
        requires
            minted * w <= n * (ratio - w),
            ratio * (v - fees) <= v * w,
            0 <= fees < v,
            0 < w,
            0 <= n,
    {
        assert((minted * w) * (v - fees) <= (n * (ratio - w)) * (v - fees));
        assert((n * (ratio - w)) * (v - fees) == n * (ratio * (v - fees)) - n * w * (v - fees));
        assert(n * (ratio * (v - fees)) <= n * (v * w));
        assert((minted * (v - fees)) * w <= (n * fees) * w);
        assert(minted * (v - fees) <= n * fees);
    }
    if fees == 0 {
        assert(minted == 0) by (nonlinear_arith)
            requires
                minted == n * (ratio - w) / w,
                ratio == w,
                0 < w,
        ;
    }
    if profit == before {
        assert(fees == 0) by (nonlinear_arith)
            requires
                fees == (profit - before) * admin_fee / (2 * FEE_DENOMINATOR),
                profit == before,
        ;
    }
}

/// Half of one is a half.
pub proof fn lemma_half()
    ensures
        halfpow_model(WAD as int) == 500_000_000_000_000_000,
{
    lemma_halfpow(WAD as int);
    vstd::arithmetic::power2::lemma2_to64();
}

/// There is one quotient rounded down.
pub proof fn lemma_same_quotient(n: int, c: int, q: int)
    requires
        0 <= n,
        0 < c,
    ensures
        q == n / c <==> q * c <= n < (q + 1) * c,
{
    lemma_quotient(n, c);
    let z = n / c;
    if q * c <= n < (q + 1) * c {
        assert(q == z) by (nonlinear_arith)
            requires
                q * c <= n < (q + 1) * c,
                z * c <= n < (z + 1) * c,
                0 < c,
        ;
    }
}

/// What is owed of a coin is the only amount that comes to what the coin lost, short of less than one unit.
pub proof fn lemma_owed_exact(before: int, after: int, precision: int, scale: Option<int>, e: int)
    requires
        0 <= after < before < modulus(),
        0 < precision,
        scale matches Some(p) ==> 0 < p && before * WAD < modulus(),
        match scale {
            None => e * precision <= before - after - 1 < (e + 1) * precision,
            Some(p) => e * (p * precision) <= (before - after - 1) * WAD < (e + 1) * (p * precision),
        },
    ensures
        gross_out(before, after, precision, scale) == Ok::<_, Fault>(e),
{
    lemma_owed(before, after, precision, scale);
    let a = gross_out(before, after, precision, scale)->Ok_0;
    match scale {
        None => {
            lemma_same_quotient(before - after - 1, precision, e);
            lemma_same_quotient(before - after - 1, precision, a);
        },
        Some(p) => {
            assert(0 < p * precision) by (nonlinear_arith)
                requires
                    0 < p,
                    0 < precision,
            ;
            lemma_same_quotient((before - after - 1) * WAD, p * precision, e);
            lemma_same_quotient((before - after - 1) * WAD, p * precision, a);
        },
    }
}

/// The fee on an amount, and what is left of it.
pub proof fn lemma_fee_exact(rate: int, dy: int, fee: int)
    requires
        0 <= rate,
        0 <= dy,
        0 <= fee,
        dy + fee < modulus(),
        rate * (dy + fee) < modulus(),
        fee * FEE_DENOMINATOR <= rate * (dy + fee) < (fee + 1) * FEE_DENOMINATOR,
    ensures
        fee_on(rate, dy + fee) == fee,
        (dy + fee).minus(fee) == dy,
{
    lemma_share(rate, dy + fee, FEE_DENOMINATOR as int);
    lemma_same_quotient(rate * (dy + fee), FEE_DENOMINATOR as int, fee);
    lemma_minus(dy + fee, fee);
}

/// A product with a positive number, both ways round.
pub proof fn lemma_scaled(x: int, a: int, b: int)
    requires
        0 <= x,
        0 < a,
        0 < b,
        x * a * b < modulus(),
    ensures
        x.times(a).times(b) == x * a * b,
        x.times(a) == x * a,
        x <= x * a <= x * a * b,
{
    lemma_product(x, a, b);
    assert(x <= x * a) by (nonlinear_arith)
        requires
            0 <= x,
            0 < a,
    ;
    lemma_times(x, a);
}

/// The price of a trade that is large enough to tell: what came in per what went out, both with their
/// own precision, as the price of the second coin in the first.
pub proof fn lemma_trade_price(dx: int, dy: int, prec_i: int, prec_j: int, from_first: bool)
    requires
        100_000 < dx,
        100_000 < dy,
        0 < prec_i,
        0 < prec_j,
        dx * prec_i * WAD < modulus(),
        dy * prec_j * WAD < modulus(),
    ensures
        trade_price(dx, dy, prec_i, prec_j, from_first) == Ok::<_, Fault>(
            if from_first {
                dx * prec_i * WAD / (dy * prec_j)
            } else {
                dy * prec_j * WAD / (dx * prec_i)
            },
        ),
        0 < dx * prec_i,
        0 < dy * prec_j,
{
    lemma_scaled(dx, prec_i, WAD as int);
    lemma_scaled(dy, prec_j, WAD as int);
    lemma_over(dx * prec_i * WAD, dy * prec_j);
    lemma_over(dy * prec_j * WAD, dx * prec_i);
}

/// The price of a trade, also where it is too small to tell.
pub proof fn lemma_trade_price_defined(dx: int, dy: int, prec_i: int, prec_j: int, from_first: bool)
    requires
        0 <= dx,
        0 <= dy,
        0 < prec_i,
        0 < prec_j,
        dx * prec_i * WAD < modulus(),
        dy * prec_j * WAD < modulus(),
    ensures
        trade_price(dx, dy, prec_i, prec_j, from_first) == Ok::<_, Fault>(
            if dx <= 100_000 || dy <= 100_000 {
                0
            } else if from_first {
                dx * prec_i * WAD / (dy * prec_j)
            } else {
                dy * prec_j * WAD / (dx * prec_i)
            },
        ),
{
    if dx > 100_000 && dy > 100_000 {
        lemma_trade_price(dx, dy, prec_i, prec_j, from_first);
    }
}

/// Without pool tokens none are minted.
pub proof fn lemma_none_minted(profit: int, before: int, v: int, admin_fee: int)
    ensures
        claimed(profit, before, v, 0, admin_fee).1 == 0,
{
    reveal(crate::uint::word_mul);
    reveal(crate::uint::word_add);
    lemma_over(0, WAD as int);
    assert(forall|f: int| #[trigger] (0 * f) == 0);
}

} // verus!
