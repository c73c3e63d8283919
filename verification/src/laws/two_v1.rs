//! Two-coin pools of the first generation.
use super::{
    lemma_allows, lemma_claimed, lemma_deviation, lemma_fee_exact, lemma_half, lemma_keeps, lemma_kept,
    lemma_moved_average, lemma_moved_scale, lemma_none_minted, lemma_owed, lemma_owed_exact,
    lemma_per_wad, lemma_product, lemma_same_units, lemma_scaled, lemma_share, lemma_step,
    lemma_trade_price, lemma_trade_price_defined,
};
use crate::bounds::lemma_quotient;
use crate::callbacks::{SolveD, SolveY};
use crate::coins::{get2, set2};
use crate::exchange::{
    fee_model, geometric_mean_model, halfpow_model, law_geometric_mean_between, lemma_half_life,
    mean_of_even_2, virtual_price_2, TwoCryptoV1State, TwoV1,
};
use crate::fault::Fault;
use crate::newton::{FEE_DENOMINATOR, WAD};
use crate::pricing::{
    deviation, gross_out, in_units, lemma_average_between, lemma_between, moved_scale, step_size,
    trade_price,
};
use crate::uint::{
    law_word_of, lemma_minus, lemma_over, lemma_plus, lemma_times, lemma_word_range, modulus, Word, U256,
};
use vstd::prelude::*;

verus! {

/// The balances that the solvers see: what the pool holds of the first coin times its precision, and
/// what it holds of the second times its price and precision.
proof fn lemma_units(s: TwoV1)
    requires
        0 <= s.balances.0,
        0 <= s.balances.1,
        0 < s.precisions.0,
        0 < s.precisions.1,
        0 < s.price_scale,
        s.balances.0 * s.precisions.0 < modulus(),
        s.balances.1 * s.price_scale * s.precisions.1 < modulus(),
    ensures
        s.normalized().0 == s.balances.0 * s.precisions.0,
        s.normalized().1 == s.balances.1 * s.price_scale * s.precisions.1 / (WAD as int),
        s.normalized().1 * WAD <= s.balances.1 * s.price_scale * s.precisions.1,
        0 <= s.normalized().0,
        0 <= s.normalized().1,
        in_units(s.balances.0, s.precisions.0, s.scale(0)) == s.normalized().0,
        in_units(s.balances.1, s.precisions.1, s.scale(1)) == s.normalized().1,
        s.balances.1.times(s.price_scale.times(s.precisions.1)).over(WAD as int) == s.normalized().1,
{
    assert(0 <= s.balances.0 * s.precisions.0) by (nonlinear_arith)
        requires
            0 <= s.balances.0,
            0 < s.precisions.0,
    ;
    lemma_times(s.balances.0, s.precisions.0);
    lemma_product(s.balances.1, s.price_scale, s.precisions.1);
    lemma_per_wad(s.balances.1 * s.price_scale * s.precisions.1);
}

/// The balances of a pool in common units: the first coin times its precision, the second times its price and
/// its precision.
pub proof fn law_common_units(s: TwoV1)
    requires
        0 <= s.balances.0,
        0 <= s.balances.1,
        0 < s.precisions.0,
        0 < s.precisions.1,
        0 < s.price_scale,
        s.balances.0 * s.precisions.0 < modulus(),
        s.balances.1 * s.price_scale * s.precisions.1 < modulus(),
    ensures
        s.normalized() == (
            s.balances.0 * s.precisions.0,
            s.balances.1 * s.price_scale * s.precisions.1 / (WAD as int),
        ),
{
    lemma_units(s);
}

/// What an exchange pays is counted in the units of the coin that goes out. The solver is asked with
/// what the pool holds, what came in included, in common units: the first coin times its precision, the
/// second times its price and its precision. What it finds that the pool can do without, less one unit,
/// is paid out and kept as the fee, short of less than one unit of the coin that goes out. Where the
/// solver has no answer, nothing is paid and what came in stays. While the parameters change, `D` is what the solver
/// finds for the balances before the trade.
pub proof fn law_exchange_payout(
    s: TwoCryptoV1State,
    i: usize,
    j: usize,
    dx: U256,
    now: u64,
    solve_d: SolveD,
    solve_y: SolveY,
    x: (int, int),
)
    requires
        i < 2,
        j < 2,
        i != j,
        dx@ != 0,
        x.0 == s.balances[0]@ + (if i == 0 { dx@ } else { 0 }),
        x.1 == s.balances[1]@ + (if i == 1 { dx@ } else { 0 }),
        0 < s.precisions[0]@,
        0 < s.precisions[1]@,
        0 < s.price_scale@,
        x.0 * s.precisions[0]@ < modulus(),
        x.1 * s.price_scale@ * s.precisions[1]@ < modulus(),
    ensures
        s@.exchanged(i as int, j as int, dx@, now as int, solve_d, solve_y) matches Ok((t, out)) ==> {
            let u = (
                x.0 * s.precisions[0]@,
                x.1 * s.price_scale@ * s.precisions[1]@ / (WAD as int),
            );
            let d = if s.future_a_gamma_time@ == 0 {
                Some(s.d@)
            } else {
                solve_d(
                    s.ann@,
                    s.gamma@,
                    (
                        s.balances[0]@ * s.precisions[0]@,
                        s.balances[1]@ * s.price_scale@ * s.precisions[1]@ / (WAD as int),
                    ),
                )
            };
            let time = if 0 < s.future_a_gamma_time@ <= now {
                1
            } else {
                s.future_a_gamma_time@
            };
            match d {
                None => out is None && t == (TwoV1 { balances: x, ..s@ }),
                Some(d) => match solve_y(s.ann@, s.gamma@, u, d, j as int, s.eth_variant) {
                    None => out is None && t == (TwoV1 {
                        balances: x,
                        d,
                        future_a_gamma_time: time,
                        ..s@
                    }),
                    Some(y) => out matches Some((dy, fee)) && (0 <= y < get2(u, j as int) && dy + fee
                        < modulus() ==> {
                        &&& fee_model(
                            if j == 0 { (y, u.1) } else { (u.0, y) },
                            s.mid_fee@,
                            s.out_fee@,
                            s.fee_gamma@,
                        ) matches Ok(rate)
                        &&& 0 <= rate * (dy + fee) < modulus() ==> fee * FEE_DENOMINATOR <= rate * (dy + fee)
                            < (fee + 1) * FEE_DENOMINATOR
                        &&& j == 0 ==> (dy + fee) * s.precisions[0]@ <= u.0 - y - 1
                            < (dy + fee + 1) * s.precisions[0]@
                        &&& j == 1 ==> (dy + fee) * (s.price_scale@ * s.precisions[1]@)
                            <= (u.1 - y - 1) * WAD < (dy + fee + 1) * (s.price_scale@
                            * s.precisions[1]@)
                    }),
                },
            }
        },
{
    lemma_word_range(s.balances[0]);
    lemma_word_range(s.balances[1]);
    lemma_word_range(dx);
    lemma_word_range(s.future_a_gamma_time);
    let b = s@.balances;
    let x0 = get2(b, i as int);
    assert(x.0 <= x.0 * s.precisions[0]@) by (nonlinear_arith)
        requires
            0 <= x.0,
            0 < s.precisions[0]@,
    ;
    lemma_product(x.1, s.price_scale@, s.precisions[1]@);
    lemma_plus(x0, dx@);
    let s1 = TwoV1 { balances: set2(b, i as int, x0.plus(dx@)), ..s@ };
    assert(s1.balances == x);
    lemma_units(s1);
    assert(b.0 * s.precisions[0]@ <= x.0 * s.precisions[0]@ && b.1 * s.price_scale@
        * s.precisions[1]@ <= x.1 * s.price_scale@ * s.precisions[1]@) by (nonlinear_arith)
        requires
            0 <= b.0 <= x.0,
            0 <= b.1 <= x.1,
            0 < s.precisions[0]@,
            0 < s.precisions[1]@,
            0 < s.price_scale@,
    ;
    lemma_units(s@);
    let xp = s1.normalized();
    if let Some(s2) = s1.ramped(xp, i as int, x0, now as int, solve_d) {
        if let Some(y) = solve_y(s2.ann, s2.gamma, xp, s2.d, j as int, s2.eth_variant) {
            let x_j = get2(xp, j as int);
            if 0 <= y < x_j {
                lemma_owed(x_j, y, get2(s@.precisions, j as int), s2.scale(j as int));
                let e = gross_out(x_j, y, get2(s@.precisions, j as int), s2.scale(j as int))->Ok_0;
                if let Ok(rate) = fee_model(set2(xp, j as int, y), s@.mid_fee, s@.out_fee, s@.fee_gamma) {
                    lemma_kept(rate, e);
                }
            }
        }
    }
}

/// The virtual price of an even split.
proof fn lemma_worth(d: int, scale: int, supply: int, mean: int)
    requires
        0 <= d,
        0 < scale,
        0 < supply,
        0 <= mean,
        2 * scale < modulus(),
        d * WAD < modulus(),
        mean * WAD < modulus(),
        geometric_mean_model((d / 2, d * WAD / (2 * scale)), true) == Ok::<_, Fault>(mean),
    ensures
        virtual_price_2(d, scale, supply) == Ok::<_, Fault>(mean * WAD / supply),
        0 <= mean * WAD / supply < modulus(),
{
    lemma_times(2, scale);
    lemma_over(d, 2);
    lemma_share(d, WAD as int, 2 * scale);
    lemma_share(mean, WAD as int, supply);
}

/// After a change that is worth something, the pool takes the invariant of the new balances, its virtual
/// price and the profit in proportion. The price scale stays where it is whenever twice the virtual price
/// less one is at most the profit and twice the extra profit that the pool asks for, unless a
/// move is still due; the supply and what was claimed then stay too.
pub proof fn law_tweak_threshold(
    s: TwoV1,
    xp: (int, int),
    p: int,
    new_d: int,
    now: int,
    solve_d: SolveD,
    solve_y: SolveY,
    d: int,
    mean: int,
    v: int,
    profit: int,
)
    requires
        now <= s.last_prices_timestamp || s.ma_half_time != 0,
        d == (if new_d != 0 {
            new_d
        } else {
            match solve_d(s.ann, s.gamma, xp) {
                Some(found) => found,
                None => s.d,
            }
        }),
        0 <= d,
        0 < s.price_scale,
        0 < s.total_supply,
        0 < s.virtual_price,
        2 * s.price_scale < modulus(),
        d * WAD < modulus(),
        geometric_mean_model((d / 2, d * WAD / (2 * s.price_scale)), true) == Ok::<_, Fault>(mean),
        0 <= mean,
        mean * WAD < modulus(),
        v == mean * WAD / s.total_supply,
        v >= s.virtual_price || s.future_a_gamma_time != 0,
        0 <= s.xcp_profit,
        s.xcp_profit * v < modulus(),
        profit == s.xcp_profit * v / s.virtual_price,
        WAD <= 2 * v < modulus(),
        0 <= s.allowed_extra_profit,
        profit + 2 * s.allowed_extra_profit < modulus(),
        !s.not_adjusted,
        2 * v - WAD <= profit + 2 * s.allowed_extra_profit,
    ensures
        s.tweaked(xp, p, new_d, now, solve_d, solve_y) matches Ok(t) && {
            &&& t.price_scale == s.price_scale
            &&& t.d == d
            &&& t.virtual_price == v
            &&& t.xcp_profit == profit
            &&& t.xcp_profit_a == s.xcp_profit_a
            &&& t.total_supply == s.total_supply
            &&& !t.not_adjusted
            &&& t.future_a_gamma_time == (if s.future_a_gamma_time == 1 {
                0
            } else {
                s.future_a_gamma_time
            })
        },
{
    lemma_worth(d, s.price_scale, s.total_supply, mean);
    lemma_share(s.xcp_profit, v, s.virtual_price);
    lemma_allows(v, profit, s.allowed_extra_profit);
}

/// Where the virtual price would fall while the parameters do not change, only the prices that were seen
/// are noted.
pub proof fn law_tweak_loss(
    s: TwoV1,
    xp: (int, int),
    p: int,
    new_d: int,
    now: int,
    solve_d: SolveD,
    solve_y: SolveY,
    d: int,
    mean: int,
)
    requires
        now <= s.last_prices_timestamp || s.ma_half_time != 0,
        d == (if new_d != 0 {
            new_d
        } else {
            match solve_d(s.ann, s.gamma, xp) {
                Some(found) => found,
                None => s.d,
            }
        }),
        0 <= d,
        0 < s.price_scale,
        0 < s.total_supply,
        2 * s.price_scale < modulus(),
        d * WAD < modulus(),
        geometric_mean_model((d / 2, d * WAD / (2 * s.price_scale)), true) == Ok::<_, Fault>(mean),
        0 <= mean,
        mean * WAD < modulus(),
        mean * WAD / s.total_supply < s.virtual_price,
        s.future_a_gamma_time == 0,
    ensures
        s.tweaked(xp, p, new_d, now, solve_d, solve_y) matches Ok(t) && t == (TwoV1 {
            last_prices: t.last_prices,
            price_oracle: t.price_oracle,
            last_prices_timestamp: t.last_prices_timestamp,
            ..s
        }),
{
    lemma_worth(d, s.price_scale, s.total_supply, mean);
}

/// A pool that has no virtual price yet starts at one, with a profit of one and the price scale that it has.
pub proof fn law_tweak_first(
    s: TwoV1,
    xp: (int, int),
    p: int,
    new_d: int,
    now: int,
    solve_d: SolveD,
    solve_y: SolveY,
)
    requires
        now <= s.last_prices_timestamp || s.ma_half_time != 0,
        s.virtual_price == 0,
        0 < s.price_scale,
        2 * s.price_scale < modulus(),
        !s.not_adjusted,
    ensures
        s.tweaked(xp, p, new_d, now, solve_d, solve_y) matches Ok(t) && {
            &&& t.virtual_price == WAD
            &&& t.xcp_profit == WAD
            &&& t.price_scale == s.price_scale
            &&& t.total_supply == s.total_supply
            &&& t.future_a_gamma_time == s.future_a_gamma_time
            &&& new_d != 0 ==> t.d == new_d
        },
{
    lemma_times(2, s.price_scale);
}

/// What an update touches: the prices, the invariant, the virtual price, the profit, what was claimed, the
/// supply and whether a move is still due. The end of a change of parameters is forgotten once it has been
/// seen, and stays otherwise.
pub proof fn law_tweak_touches(
    s: TwoV1,
    t: TwoV1,
    xp: (int, int),
    p: int,
    new_d: int,
    now: int,
    solve_d: SolveD,
    solve_y: SolveY,
)
    requires
        s.tweaked(xp, p, new_d, now, solve_d, solve_y) == Ok::<_, Fault>(t),
    ensures
        t == (TwoV1 {
            price_scale: t.price_scale,
            price_oracle: t.price_oracle,
            last_prices: t.last_prices,
            last_prices_timestamp: if s.last_prices_timestamp < now {
                now
            } else {
                s.last_prices_timestamp
            },
            d: t.d,
            virtual_price: t.virtual_price,
            xcp_profit: t.xcp_profit,
            xcp_profit_a: t.xcp_profit_a,
            total_supply: t.total_supply,
            not_adjusted: t.not_adjusted,
            future_a_gamma_time: t.future_a_gamma_time,
            ..s
        }),
        t.future_a_gamma_time == s.future_a_gamma_time || (s.future_a_gamma_time == 1
            && t.future_a_gamma_time == 0),
        s.future_a_gamma_time == 1 && 0 < s.virtual_price ==> t.future_a_gamma_time == 0,
{
}

/// When the price scale moves and to where. It moves only where the oracle is farther from it than the
/// step, which is a fifth of the distance or `adjustment_step` where that is more, and where the
/// profit leaves room or a move is still due. It then moves that step of the way to the oracle, as long as
/// the virtual price at the new scale stays above one and twice of it less one above the profit. Where a
/// move is called for and does not come about, the admin's share is claimed.
pub proof fn law_tweak_move(
    s: TwoV1,
    t: TwoV1,
    xp: (int, int),
    p: int,
    new_d: int,
    now: int,
    solve_d: SolveD,
    solve_y: SolveY,
    d: int,
    mean: int,
    v: int,
    profit: int,
    norm: int,
    step: int,
)
    requires
        s.tweaked(xp, p, new_d, now, solve_d, solve_y) == Ok::<_, Fault>(t),
        d == (if new_d != 0 {
            new_d
        } else {
            match solve_d(s.ann, s.gamma, xp) {
                Some(found) => found,
                None => s.d,
            }
        }),
        0 <= xp.1,
        0 <= d,
        0 < s.price_scale,
        0 < s.total_supply,
        0 < s.virtual_price,
        2 * s.price_scale < modulus(),
        d * WAD < modulus(),
        geometric_mean_model((d / 2, d * WAD / (2 * s.price_scale)), true) == Ok::<_, Fault>(mean),
        0 <= mean,
        mean * WAD < modulus(),
        v == mean * WAD / s.total_supply,
        v >= s.virtual_price || s.future_a_gamma_time != 0,
        0 <= s.xcp_profit,
        s.xcp_profit * v < modulus(),
        profit == s.xcp_profit * v / s.virtual_price,
        WAD <= 2 * v < modulus(),
        0 <= s.allowed_extra_profit,
        profit + 2 * s.allowed_extra_profit < modulus(),
        0 <= t.price_oracle,
        t.price_oracle * WAD < modulus(),
        norm == (if t.price_oracle * WAD / s.price_scale > WAD {
            t.price_oracle * WAD / s.price_scale - WAD
        } else {
            WAD - t.price_oracle * WAD / s.price_scale
        }),
        step == (if s.adjustment_step > norm / 5 { s.adjustment_step } else { norm / 5 }),
        step < norm ==> s.price_scale * (norm - step) + step * t.price_oracle < modulus(),
    ensures
        step >= norm ==> t.price_scale == s.price_scale,
        step >= norm && !s.not_adjusted ==> t.d == d && t.virtual_price == v && t.xcp_profit == profit
            && t.total_supply == s.total_supply,
        !s.not_adjusted && 2 * v - WAD <= profit + 2 * s.allowed_extra_profit ==> t.price_scale
            == s.price_scale,
        (s.not_adjusted || (step < norm && 2 * v - WAD > profit + 2 * s.allowed_extra_profit))
            && !t.not_adjusted ==> (
        TwoV1 {
            d,
            virtual_price: v,
            xcp_profit: profit,
            not_adjusted: false,
            future_a_gamma_time: t.future_a_gamma_time,
            last_prices: t.last_prices,
            price_oracle: t.price_oracle,
            last_prices_timestamp: t.last_prices_timestamp,
            ..s
        }).with_claim(solve_d) == Ok::<_, Fault>(t),
        step < norm && (s.not_adjusted || 2 * v - WAD > profit + 2 * s.allowed_extra_profit) ==> {
            let c = (s.price_scale * (norm - step) + step * t.price_oracle) / norm;
            xp.1 * c < modulus() ==> match solve_d(s.ann, s.gamma, (xp.0, xp.1 * c / s.price_scale)) {
                None => t.price_scale == s.price_scale,
                Some(e) => match geometric_mean_model((e / 2, e * WAD / (2 * c)), true) {
                    Err(_) => true,
                    Ok(m) => 0 <= e && 0 < c && 0 <= m && 2 * c < modulus() && e * WAD < modulus() && m * WAD
                        < modulus() && 2 * (m * WAD / s.total_supply) < modulus() ==> {
                        let w = m * WAD / s.total_supply;
                        if w > WAD && 2 * w - WAD > profit {
                            &&& t.price_scale == c
                            &&& t.d == e
                            &&& t.virtual_price == w
                            &&& t.xcp_profit == profit
                            &&& t.total_supply == s.total_supply
                            &&& t.not_adjusted
                        } else {
                            t.price_scale == s.price_scale && !t.not_adjusted
                        }
                    },
                },
            }
        },
{
    lemma_worth(d, s.price_scale, s.total_supply, mean);
    lemma_share(s.xcp_profit, v, s.virtual_price);
    lemma_allows(v, profit, s.allowed_extra_profit);
    lemma_deviation(t.price_oracle, s.price_scale);
    lemma_step(s.adjustment_step, norm);
    assert(s.with_average(now) matches Ok(s0) && s0.price_oracle == t.price_oracle);
    if step < norm {
        assert(0 <= step);
        lemma_moved_scale(s.price_scale, t.price_oracle, norm, step);
        let c = (s.price_scale * (norm - step) + step * t.price_oracle) / norm;
        if xp.1 * c < modulus() {
            lemma_share(xp.1, c, s.price_scale);
            if let Some(e) = solve_d(s.ann, s.gamma, (xp.0, xp.1 * c / s.price_scale)) {
                if 0 <= e && 0 < 2 * c < modulus() && e * WAD < modulus() {
                    if let Ok(m) = geometric_mean_model((e / 2, e * WAD / (2 * c)), true) {
                        if 0 <= m && m * WAD < modulus() && 2 * (m * WAD / s.total_supply) < modulus() {
                            lemma_worth(e, c, s.total_supply, m);
                            lemma_keeps(m * WAD / s.total_supply, profit);
                        }
                    }
                }
            }
        }
    }
}

/// Where both amounts of a trade are above the dust limit, the last price is what the first coin paid or
/// got per what the second got or paid, each times its own precision, rounded down, as long as that is
/// not zero. The trade hands the new balances to the rest of the update in the units in which the solver
/// was asked, with that price; below the dust limit it hands over none.
pub proof fn law_exchange_price(
    s: TwoCryptoV1State,
    i: usize,
    j: usize,
    dx: U256,
    now: u64,
    solve_d: SolveD,
    solve_y: SolveY,
    t: TwoV1,
    dy: int,
    fee: int,
    first: int,
    second: int,
)
    requires
        s@.exchanged(i as int, j as int, dx@, now as int, solve_d, solve_y) == Ok::<_, Fault>(
            (t, Some((dy, fee))),
        ),
        0 <= dy <= get2((s.balances[0]@, s.balances[1]@), j as int),
        first == (if i == 0 { dx@ } else { dy }),
        second == (if i == 0 { dy } else { dx@ }),
        0 < s.precisions[0]@,
        0 < s.precisions[1]@,
        0 < s.price_scale@,
        first * s.precisions[0]@ * WAD < modulus(),
        second * s.precisions[1]@ * WAD < modulus(),
        (s.balances[0]@ + (if i == 0 { dx@ } else { 0 })) * s.precisions[0]@ < modulus(),
        (s.balances[1]@ + (if i == 1 { dx@ } else { 0 })) * s.price_scale@ * s.precisions[1]@ < modulus(),
    ensures
        first > 100_000 && second > 100_000 ==> (0 < first * s.precisions[0]@ * WAD / (second
            * s.precisions[1]@) ==> t.last_prices == first * s.precisions[0]@ * WAD / (second
            * s.precisions[1]@)),
        ({
            let left = (
                s.balances[0]@ + (if i == 0 { dx@ } else { -dy }),
                s.balances[1]@ + (if i == 1 { dx@ } else { -dy }),
            );
            let d = if s.future_a_gamma_time@ == 0 {
                Some(s.d@)
            } else {
                solve_d(
                    s.ann@,
                    s.gamma@,
                    (
                        s.balances[0]@ * s.precisions[0]@,
                        s.balances[1]@ * s.price_scale@ * s.precisions[1]@ / (WAD as int),
                    ),
                )
            };
            let time = if 0 < s.future_a_gamma_time@ <= now {
                1
            } else {
                s.future_a_gamma_time@
            };
            d is Some && (TwoV1 { balances: left, d: d->Some_0, future_a_gamma_time: time, ..s@ }).tweaked(
                (
                    left.0 * s.precisions[0]@,
                    left.1 * s.price_scale@ * s.precisions[1]@ / (WAD as int),
                ),
                if first > 100_000 && second > 100_000 {
                    first * s.precisions[0]@ * WAD / (second * s.precisions[1]@)
                } else {
                    0
                },
                0,
                now as int,
                solve_d,
                solve_y,
            ) == Ok::<_, Fault>(t)
        }),
{
    lemma_word_range(s.balances[0]);
    lemma_word_range(s.balances[1]);
    lemma_word_range(dx);
    lemma_word_range(s.price_scale);
    let b = s@.balances;
    let x0 = get2(b, i as int);
    let x = set2(b, i as int, x0 + dx@);
    let left = set2(x, j as int, get2(b, j as int) - dy);
    let p0 = s.precisions[0]@;
    let p1 = s.precisions[1]@;
    let ps = s.price_scale@;
    assert(x.0 <= x.0 * p0 && left.0 * p0 <= x.0 * p0 && b.0 * p0 <= x.0 * p0) by (nonlinear_arith)
        requires
            0 < p0,
            0 <= left.0 <= x.0,
            0 <= b.0 <= x.0,
    ;
    lemma_product(x.1, ps, p1);
    assert(left.1 * ps * p1 <= x.1 * ps * p1 && b.1 * ps * p1 <= x.1 * ps * p1) by (nonlinear_arith)
        requires
            0 < ps,
            0 < p1,
            0 <= left.1 <= x.1,
            0 <= b.1 <= x.1,
    ;
    lemma_plus(x0, dx@);
    let s1 = TwoV1 { balances: x, ..s@ };
    lemma_units(s1);
    lemma_units(s@);
    lemma_word_range(s.future_a_gamma_time);
    let xp = s1.normalized();
    let s2 = s1.ramped(xp, i as int, x0, now as int, solve_d)->Some_0;
    let s3 = TwoV1 { balances: left, d: s2.d, future_a_gamma_time: s2.future_a_gamma_time, ..s@ };
    lemma_units(s3);
    lemma_minus(get2(b, j as int), dy);
    if first > 100_000 && second > 100_000 {
        if i == 0 {
            lemma_trade_price(dx@, dy, p0, p1, true);
        } else {
            lemma_trade_price(dx@, dy, p1, p0, false);
        }
        lemma_scaled(first, p0, WAD as int);
        lemma_quotient(first * p0 * WAD, second * p1);
    }
    let y = solve_y(s2.ann, s2.gamma, xp, s2.d, j as int, s2.eth_variant)->Some_0;
    assert(s2.paid(xp, i as int, j as int, dx@, y, now as int, solve_d, solve_y) == Ok::<_, Fault>(
        (t, (dy, fee)),
    ));
    assert(s3 == (TwoV1 { balances: set2(s2.balances, j as int, get2(b, j as int) - dy), ..s2 }));
    assert(set2(set2(xp, j as int, y), j as int, get2(s3.normalized(), j as int)) == s3.normalized());
}

/// Whether a price is one that the arithmetic has room for: from 10^6 to 10^30.
pub open spec fn common_price(p: int) -> bool {
    1_000_000 <= p <= 1_000_000_000_000_000_000_000_000_000_000
}

/// Whether an invariant is one that the arithmetic has room for: from 10^18 to 10^28.
pub open spec fn common_invariant(d: int) -> bool {
    1_000_000_000_000_000_000 <= d <= 10_000_000_000_000_000_000_000_000_000
}

/// The geometric mean of an even split is defined.
proof fn lemma_mean_defined(d: int, p: int)
    requires
        common_invariant(d),
        common_price(p),
    ensures
        mean_of_even_2(d, p) is Ok,
{
    let w = WAD as int;
    let a = d / 2;
    let b = d * w / (2 * p);
    lemma_times(2, p);
    lemma_over(d, 2);
    lemma_share(d, w, 2 * p);
    assert(1 <= b <= d * w) by (nonlinear_arith)
        requires
            b == d * w / (2 * p),
            0 < 2 * p <= d * w,
    ;
    assert(a * b < modulus() && d * w < 20_000_000_000_000_000_000_000_000_000_000_000_000_000_000_000)
        by (nonlinear_arith)
        requires
            0 < a <= 5_000_000_000_000_000_000_000_000_000,
            0 < b <= d * w,
            0 < d <= 10_000_000_000_000_000_000_000_000_000,
            w == 1_000_000_000_000_000_000,
            modulus() == 0x1_0000000000000000_0000000000000000_0000000000000000_0000000000000000int,
    ;
    law_word_of(a);
    law_word_of(b);
    law_geometric_mean_between(U256::of(a), U256::of(b));
}

/// A price scale that moves stays a common price.
proof fn lemma_moved_common(scale: int, oracle: int, norm: int, step: int)
    requires
        common_price(scale),
        common_price(oracle),
        norm == deviation(oracle, scale),
        0 <= step < norm,
    ensures
        common_price(moved_scale(scale, oracle, norm, step)),
{
    let w = WAD as int;
    lemma_deviation(oracle, scale);
    let high = 1_000_000_000_000_000_000_000_000_000_000int;
    let top = 1_000_000_000_000_000_000_000_000_000_000_000_000_000_000int;
    assert(oracle * w / scale <= top) by (nonlinear_arith)
        requires
            0 <= oracle <= high,
            1_000_000 <= scale,
            w == 1_000_000_000_000_000_000,
            high == 1_000_000_000_000_000_000_000_000_000_000int,
            top == 1_000_000_000_000_000_000_000_000_000_000_000_000_000_000int,
    {
        assert(oracle * w <= high * w);
        assert(high * w == top * 1_000_000);
        assert(oracle * w <= top * scale);
    }
    let rest = norm - step;
    assert(scale * rest + oracle * step <= high * norm && high * norm < modulus()) by (nonlinear_arith)
        requires
            0 <= scale <= high,
            0 <= oracle <= high,
            rest + step == norm,
            0 <= rest,
            0 <= step,
            0 < norm <= top,
            high == 1_000_000_000_000_000_000_000_000_000_000int,
            top == 1_000_000_000_000_000_000_000_000_000_000_000_000_000_000int,
            modulus() == 0x1_0000000000000000_0000000000000000_0000000000000000_0000000000000000int,
    {
        assert(scale * rest <= high * rest);
        assert(oracle * step <= high * step);
        assert(high * norm <= high * top);
    }
    assert(step * oracle == oracle * step) by (nonlinear_arith);
    lemma_moved_scale(scale, oracle, norm, step);
    lemma_between(scale, oracle, rest, step, norm);
    assert(0 <= scale * rest && 0 <= oracle * step) by (nonlinear_arith)
        requires
            0 <= scale,
            0 <= oracle,
            0 <= rest,
            0 <= step,
    ;
    lemma_times(scale, rest);
    lemma_times(oracle, step);
    lemma_plus(scale * rest, oracle * step);
    lemma_over(scale * rest + oracle * step, norm);
}

/// An update never fails, in a pool with pool tokens and a half-life, with prices from 10^6 to 10^30 and
/// invariants from 10^18 to 10^28.
pub proof fn law_tweak_goes_through(
    s: TwoV1,
    xp: (int, int),
    p: int,
    new_d: int,
    now: int,
    solve_d: SolveD,
    solve_y: SolveY,
)
    requires
        now <= s.last_prices_timestamp || (0 < s.ma_half_time && now - s.last_prices_timestamp <= u64::MAX),
        0 < s.total_supply,
        common_price(s.price_scale),
        common_price(s.price_oracle),
        common_price(s.last_prices),
        common_invariant(s.d),
        new_d == 0 || common_invariant(new_d),
        forall|x: (int, int)|
            #![trigger solve_d(s.ann, s.gamma, x)]
            solve_d(s.ann, s.gamma, x) matches Some(d) ==> common_invariant(d),
        0 <= s.adjustment_step,
    ensures
        s.tweaked(xp, p, new_d, now, solve_d, solve_y) is Ok,
{
    if now > s.last_prices_timestamp {
        let dt = now - s.last_prices_timestamp;
        lemma_half_life(dt, s.ma_half_time);
        lemma_average_between(
            s.last_prices,
            s.price_oracle,
            halfpow_model(dt.times(WAD as int).over(s.ma_half_time)),
        );
    }
    let s0 = s.with_average(now)->Ok_0;
    assert(common_price(s0.price_oracle));
    let d = s0.invariant_at(xp, new_d, solve_d);
    assert(common_invariant(d));
    lemma_mean_defined(d, s.price_scale);
    lemma_times(2, s.price_scale);
    let s1 = TwoV1 { last_prices: s0.price_at(xp, p, d, solve_y), ..s0 };
    if let Ok(Some((v, profit, t))) = s1.profit_at(d) {
        let s2 = TwoV1 { xcp_profit: profit, future_a_gamma_time: t, ..s1 };
        lemma_settled_defined(s2, xp, d, v, solve_d);
    }
}

/// The last part of an update never fails either.
proof fn lemma_settled_defined(s: TwoV1, xp: (int, int), d: int, v: int, solve_d: SolveD)
    requires
        0 < s.total_supply,
        common_price(s.price_scale),
        common_price(s.price_oracle),
        forall|x: (int, int)|
            #![trigger solve_d(s.ann, s.gamma, x)]
            solve_d(s.ann, s.gamma, x) matches Some(d) ==> common_invariant(d),
        0 <= s.adjustment_step,
    ensures
        s.settled(xp, d, v, solve_d) is Ok,
{
    let norm = deviation(s.price_oracle, s.price_scale);
    let step = step_size(s.adjustment_step, norm);
    lemma_step(s.adjustment_step, norm);
    let kept = TwoV1 { d, virtual_price: v, not_adjusted: false, ..s };
    if let Some(e) = solve_d(s.ann, s.gamma, kept.normalized()) {
        lemma_mean_defined(e, s.price_scale);
    }
    assert(kept.with_claim(solve_d) is Ok);
    if norm > step {
        lemma_moved_common(s.price_scale, s.price_oracle, norm, step);
        let c = moved_scale(s.price_scale, s.price_oracle, norm, step);
        if let Some(e) = solve_d(s.ann, s.gamma, (xp.0, xp.1.times(c).over(s.price_scale))) {
            lemma_mean_defined(e, c);
        }
        assert(s.moved_price(xp, norm, step, solve_d) is Ok);
    }
}

/// The price scale of a pool is the same after an exchange with constant parameters as before it whenever twice
/// the virtual price less one, with the virtual price of what the solver finds for what is left in the pool,
/// is at most the new profit and twice the extra profit that the pool asks for, unless a move is still due. The
/// new virtual price and profit are then these.
pub proof fn law_exchange_threshold(
    s: TwoCryptoV1State,
    i: usize,
    j: usize,
    dx: U256,
    now: u64,
    solve_d: SolveD,
    solve_y: SolveY,
    t: TwoV1,
    dy: int,
    fee: int,
    d: int,
    mean: int,
    v: int,
    profit: int,
)
    requires
        s@.exchanged(i as int, j as int, dx@, now as int, solve_d, solve_y) == Ok::<_, Fault>(
            (t, Some((dy, fee))),
        ),
        0 <= dy <= get2((s.balances[0]@, s.balances[1]@), j as int),
        0 < s.precisions[0]@,
        0 < s.precisions[1]@,
        0 < s.price_scale@,
        (if i == 0 { dx@ } else { dy }) * s.precisions[0]@ * WAD < modulus(),
        (if i == 0 { dy } else { dx@ }) * s.precisions[1]@ * WAD < modulus(),
        (s.balances[0]@ + (if i == 0 { dx@ } else { 0 })) * s.precisions[0]@ < modulus(),
        (s.balances[1]@ + (if i == 1 { dx@ } else { 0 })) * s.price_scale@ * s.precisions[1]@ < modulus(),
        s.future_a_gamma_time@ == 0,
        d == (match solve_d(
            s.ann@,
            s.gamma@,
            (
                (s.balances[0]@ + (if i == 0 { dx@ } else { -dy })) * s.precisions[0]@,
                (s.balances[1]@ + (if i == 1 { dx@ } else { -dy })) * s.price_scale@ * s.precisions[1]@
                    / (WAD as int),
            ),
        ) {
            Some(found) => found,
            None => s.d@,
        }),
        0 <= d,
        0 < s.total_supply@,
        0 < s.virtual_price@,
        2 * s.price_scale@ < modulus(),
        d * WAD < modulus(),
        geometric_mean_model((d / 2, d * WAD / (2 * s.price_scale@)), true) == Ok::<_, Fault>(mean),
        0 <= mean,
        mean * WAD < modulus(),
        v == mean * WAD / s.total_supply@,
        v >= s.virtual_price@,
        s.xcp_profit@ * v < modulus(),
        profit == s.xcp_profit@ * v / s.virtual_price@,
        WAD <= 2 * v < modulus(),
        profit + 2 * s.allowed_extra_profit@ < modulus(),
        !s.not_adjusted,
        2 * v - WAD <= profit + 2 * s.allowed_extra_profit@,
        now <= s.last_prices_timestamp || s.ma_half_time@ != 0,
    ensures
        t.price_scale == s.price_scale@,
        t.d == d,
        t.virtual_price == v,
        t.xcp_profit == profit,
        t.total_supply == s.total_supply@,
{
    lemma_word_range(s.xcp_profit);
    lemma_word_range(s.allowed_extra_profit);
    let first = if i == 0 { dx@ } else { dy };
    let second = if i == 0 { dy } else { dx@ };
    law_exchange_price(s, i, j, dx, now, solve_d, solve_y, t, dy, fee, first, second);
    let left = (
        s.balances[0]@ + (if i == 0 { dx@ } else { -dy }),
        s.balances[1]@ + (if i == 1 { dx@ } else { -dy }),
    );
    let xp = (
        left.0 * s.precisions[0]@,
        left.1 * s.price_scale@ * s.precisions[1]@ / (WAD as int),
    );
    let p = if first > 100_000 && second > 100_000 {
        first * s.precisions[0]@ * WAD / (second * s.precisions[1]@)
    } else {
        0
    };
    law_tweak_threshold(
        TwoV1 { balances: left, future_a_gamma_time: 0, ..s@ },
        xp,
        p,
        0,
        now as int,
        solve_d,
        solve_y,
        d,
        mean,
        v,
        profit,
    );
}

/// A move of the average toward the last price: after a half-life it is half way, and it moves only when
/// time has passed.
pub proof fn law_tweak_oracle(
    s: TwoV1,
    t: TwoV1,
    xp: (int, int),
    p: int,
    new_d: int,
    now: int,
    solve_d: SolveD,
    solve_y: SolveY,
)
    requires
        s.tweaked(xp, p, new_d, now, solve_d, solve_y) == Ok::<_, Fault>(t),
        0 <= s.last_prices,
        0 <= s.price_oracle,
        s.last_prices * WAD < modulus(),
        s.price_oracle * WAD < modulus(),
        0 < s.ma_half_time,
        s.last_prices * WAD + s.price_oracle * WAD < modulus(),
        0 <= s.last_prices_timestamp,
        now <= u64::MAX,
    ensures
        now <= s.last_prices_timestamp ==> t.price_oracle == s.price_oracle,
        now == s.last_prices_timestamp + s.ma_half_time ==> t.price_oracle == (s.last_prices
            + s.price_oracle) / 2,
        now > s.last_prices_timestamp ==> {
            let alpha = halfpow_model((now - s.last_prices_timestamp) * WAD / s.ma_half_time);
            t.price_oracle == (s.last_prices * (WAD - alpha) + s.price_oracle * alpha) / (WAD as int)
        },
{
    if now > s.last_prices_timestamp {
        let w = WAD as int;
        let dt = now - s.last_prices_timestamp;
        let (l, o) = (s.last_prices, s.price_oracle);
        lemma_half_life(dt, s.ma_half_time);
        lemma_times(dt, w);
        lemma_over(dt * w, s.ma_half_time);
        let alpha = halfpow_model(dt * w / s.ma_half_time);
        assert(l * (w - alpha) <= l * w && o * alpha <= o * w) by (nonlinear_arith)
            requires
                0 <= l,
                0 <= o,
                0 <= alpha <= w,
        ;
        lemma_moved_average(l, o, alpha);
        if dt == s.ma_half_time {
            assert(dt * w / dt == w) by (nonlinear_arith)
                requires
                    0 < dt,
            ;
            lemma_half();
            let h = 500_000_000_000_000_000int;
            assert(l * h + o * h == (l + o) * h) by (nonlinear_arith);
            assert(((l + o) * h) / w == (l + o) / 2) by (nonlinear_arith)
                requires
                    w == 2 * h,
                    h == 500_000_000_000_000_000int,
            ;
        }
    }
}

/// Where no price is known, the last price is what a millionth more of the first coin would cost in the
/// second: the price scale times what goes in per what comes out, rounded down. It stays where the solver
/// finds nothing to come out. Where a price is known, it is the last price.
pub proof fn law_tweak_price(
    s: TwoV1,
    t: TwoV1,
    xp: (int, int),
    p: int,
    new_d: int,
    now: int,
    solve_d: SolveD,
    solve_y: SolveY,
    d: int,
)
    requires
        s.tweaked(xp, p, new_d, now, solve_d, solve_y) == Ok::<_, Fault>(t),
        d == (if new_d != 0 {
            new_d
        } else {
            match solve_d(s.ann, s.gamma, xp) {
                Some(found) => found,
                None => s.d,
            }
        }),
        0 <= xp.0,
        xp.0 + xp.0 / 1_000_000 < modulus(),
        xp.1 < modulus(),
        0 <= s.price_scale,
        s.price_scale * (xp.0 / 1_000_000) < modulus(),
    ensures
        p > 0 ==> t.last_prices == p,
        p == 0 ==> match solve_y(
            s.ann,
            s.gamma,
            (xp.0 + xp.0 / 1_000_000, xp.1),
            d,
            1,
            s.eth_variant,
        ) {
            Some(y) => {
                &&& y >= xp.1 ==> t.last_prices == s.last_prices
                &&& 0 <= y < xp.1 ==> t.last_prices * (xp.1 - y) <= s.price_scale * (xp.0 / 1_000_000)
                    < (t.last_prices + 1) * (xp.1 - y)
            },
            None => t.last_prices == s.last_prices,
        },
{
    lemma_over(xp.0, 1_000_000);
    let nudge = xp.0 / 1_000_000;
    lemma_plus(xp.0, nudge);
    if let Some(y) = solve_y(s.ann, s.gamma, (xp.0 + nudge, xp.1), d, 1, s.eth_variant) {
        if 0 <= y < xp.1 {
            lemma_minus(xp.1, y);
            lemma_share(s.price_scale, nudge, xp.1 - y);
        }
    }
}

/// Whether `dy` and `fee` are what a pool owes in coin `j` when its balance goes from that in `u` to `y`, both in
/// common units: together they come to the difference less one, short of less than one unit of the coin, and
/// the fee is the rate for the balances without what goes out, rounded down.
pub open spec fn owes(s: TwoV1, u: (int, int), j: int, y: int, dy: int, fee: int, rate: int) -> bool {
    let e = dy + fee;
    &&& fee_model(if j == 0 { (y, u.1) } else { (u.0, y) }, s.mid_fee, s.out_fee, s.fee_gamma) == Ok::<
        _,
        Fault,
    >(rate)
    &&& 0 <= dy
    &&& 0 <= fee
    &&& 0 <= rate
    &&& 0 <= y
    &&& e < modulus()
    &&& rate * e < modulus()
    &&& fee * FEE_DENOMINATOR <= rate * e < (fee + 1) * FEE_DENOMINATOR
    &&& j == 0 ==> y < u.0 && e * s.precisions.0 <= u.0 - y - 1 < (e + 1) * s.precisions.0
    &&& j == 1 ==> y < u.1 && e * (s.price_scale * s.precisions.1) <= (u.1 - y - 1) * WAD < (e + 1) * (
    s.price_scale * s.precisions.1)
}

/// An exchange with constant parameters goes through whenever the solver has an answer, the fee has a rate
/// and the update goes through, and pays just what is owed. The update runs with what is left and with
/// the price of the trade, or with none below the dust limit.
pub proof fn law_exchange_goes_through(
    s: TwoV1,
    i: int,
    j: int,
    dx: int,
    now: int,
    solve_d: SolveD,
    solve_y: SolveY,
    x: (int, int),
    left: (int, int),
    y: int,
    rate: int,
    dy: int,
    fee: int,
)
    requires
        0 <= i < 2,
        0 <= j < 2,
        i != j,
        0 < dx,
        0 <= s.balances.0,
        0 <= s.balances.1,
        0 < s.precisions.0,
        0 < s.precisions.1,
        0 < s.price_scale,
        x.0 == s.balances.0 + (if i == 0 { dx } else { 0 }),
        x.1 == s.balances.1 + (if i == 1 { dx } else { 0 }),
        x.0 * s.precisions.0 < modulus(),
        x.1 * s.price_scale * s.precisions.1 < modulus(),
        s.future_a_gamma_time == 0,
        solve_y(
            s.ann,
            s.gamma,
            (x.0 * s.precisions.0, x.1 * s.price_scale * s.precisions.1 / (WAD as int)),
            s.d,
            j,
            s.eth_variant,
        ) == Some(y),
        owes(
            s,
            (x.0 * s.precisions.0, x.1 * s.price_scale * s.precisions.1 / (WAD as int)),
            j,
            y,
            dy,
            fee,
            rate,
        ),
        dy <= get2(s.balances, j),
        dx * get2(s.precisions, i) * WAD < modulus(),
        dy * get2(s.precisions, j) * WAD < modulus(),
        left.0 == x.0 - (if j == 0 { dy } else { 0 }),
        left.1 == x.1 - (if j == 1 { dy } else { 0 }),
    ensures
        s.exchanged(i, j, dx, now, solve_d, solve_y) == match (TwoV1 { balances: left, ..s }).tweaked(
            (left.0 * s.precisions.0, left.1 * s.price_scale * s.precisions.1 / (WAD as int)),
            if dx <= 100_000 || dy <= 100_000 {
                0
            } else if i == 0 {
                dx * s.precisions.0 * WAD / (dy * s.precisions.1)
            } else {
                dy * s.precisions.0 * WAD / (dx * s.precisions.1)
            },
            0,
            now,
            solve_d,
            solve_y,
        ) {
            Err(e) => Err(e),
            Ok(t) => Ok((t, Some((dy, fee)))),
        },
{
    let b = s.balances;
    let x0 = get2(b, i);
    let s1 = TwoV1 { balances: x, ..s };
    lemma_less(s1, s);
    lemma_units(s1);
    lemma_plus(x0, dx);
    assert(s1 == (TwoV1 { balances: set2(b, i, x0.plus(dx)), ..s }));
    let xp = s1.normalized();
    lemma_owed_exact(get2(xp, j), y, get2(s.precisions, j), s1.scale(j), dy + fee);
    lemma_fee_exact(rate, dy, fee);
    lemma_trade_price_defined(dx, dy, get2(s.precisions, i), get2(s.precisions, j), i == 0);
    lemma_minus(get2(b, j), dy);
    let s3 = TwoV1 { balances: left, ..s };
    lemma_less(s1, s3);
    lemma_units(s3);
    assert(s3 == (TwoV1 { balances: set2(s1.balances, j, get2(b, j) - dy), ..s1 }));
    assert(set2(set2(xp, j, y), j, get2(s3.normalized(), j)) == s3.normalized());
}

/// Two pools that hold the same in common units and differ in nothing but balances and precisions are
/// updated alike.
proof fn lemma_tweaked_alike(
    s: TwoV1,
    r: TwoV1,
    xp: (int, int),
    p: int,
    new_d: int,
    now: int,
    solve_d: SolveD,
    solve_y: SolveY,
)
    requires
        r == (TwoV1 { balances: r.balances, precisions: r.precisions, ..s }),
        r.normalized() == s.normalized(),
    ensures
        match s.tweaked(xp, p, new_d, now, solve_d, solve_y) {
            Err(_) => r.tweaked(xp, p, new_d, now, solve_d, solve_y) is Err,
            Ok(t) => r.tweaked(xp, p, new_d, now, solve_d, solve_y) == Ok::<_, Fault>(
                TwoV1 { balances: r.balances, precisions: r.precisions, ..t },
            ),
        },
{
}

/// The same amounts in finer units.
proof fn lemma_finer(s: TwoV1, r: TwoV1, k: int, m: int, q: int)
    requires
        k == 0 || k == 1,
        0 <= s.balances.0,
        0 <= s.balances.1,
        0 < m,
        0 < q,
        0 < s.precisions.0,
        0 < s.precisions.1,
        0 < s.price_scale,
        get2(s.precisions, k) == m * q,
        r == (TwoV1 {
            balances: set2(s.balances, k, get2(s.balances, k) * m),
            precisions: set2(s.precisions, k, q),
            ..s
        }),
        s.balances.0 * s.precisions.0 < modulus(),
        s.balances.1 * s.price_scale * s.precisions.1 < modulus(),
    ensures
        r.normalized() == s.normalized(),
        0 <= get2(s.balances, k) <= get2(s.balances, k) * m < modulus(),
{
    let x = get2(s.balances, k);
    let ps = s.price_scale;
    assert((x * m) * q == x * (m * q) && (x * m) * ps * q == x * ps * (m * q) && x <= x * m && x * m <= (x * m) * q
        && x * m <= (x * m) * ps * q) by (nonlinear_arith)
        requires
            0 <= x,
            0 < m,
            0 < q,
            0 < ps,
    ;
    lemma_units(s);
    lemma_units(r);
}

/// A pool with one coin in coarse units and the same pool with that coin in units that are `m` times finer
/// get the same `D`, the same prices and the same profit when the same amounts are added.
pub proof fn law_add_decimals(
    s: TwoV1,
    r: TwoV1,
    k: int,
    m: int,
    q: int,
    amounts: (int, int),
    now: int,
    solve_d: SolveD,
    solve_y: SolveY,
)
    requires
        k == 0 || k == 1,
        0 <= s.balances.0,
        0 <= s.balances.1,
        0 <= amounts.0,
        0 <= amounts.1,
        0 < m,
        0 < q,
        0 < s.precisions.0,
        0 < s.precisions.1,
        0 < s.price_scale,
        get2(s.precisions, k) == m * q,
        r == (TwoV1 {
            balances: set2(s.balances, k, get2(s.balances, k) * m),
            precisions: set2(s.precisions, k, q),
            ..s
        }),
        (s.balances.0 + amounts.0) * s.precisions.0 < modulus(),
        (s.balances.1 + amounts.1) * s.price_scale * s.precisions.1 < modulus(),
    ensures
        match s.added(amounts, now, solve_d, solve_y) {
            Err(_) => r.added(set2(amounts, k, get2(amounts, k) * m), now, solve_d, solve_y) is Err,
            Ok((t, d)) => r.added(set2(amounts, k, get2(amounts, k) * m), now, solve_d, solve_y) == Ok::<
                _,
                Fault,
            >(
                (
                    TwoV1 {
                        balances: set2(t.balances, k, get2(t.balances, k) * m),
                        precisions: r.precisions,
                        ..t
                    },
                    d,
                ),
            ),
        },
{
    let b = s.balances;
    let s1 = TwoV1 { balances: (b.0 + amounts.0, b.1 + amounts.1), ..s };
    let fine = set2(amounts, k, get2(amounts, k) * m);
    let r1 = TwoV1 { balances: (r.balances.0 + fine.0, r.balances.1 + fine.1), ..r };
    let x = get2(b, k);
    let a = get2(amounts, k);
    assert(x * m + a * m == (x + a) * m && 0 <= a * m && 0 <= x * m) by (nonlinear_arith)
        requires
            0 <= x,
            0 <= a,
            0 < m,
    ;
    lemma_finer(s1, r1, k, m, q);
    assert(b.0 + amounts.0 <= (b.0 + amounts.0) * s.precisions.0) by (nonlinear_arith)
        requires
            0 <= b.0 + amounts.0,
            0 < s.precisions.0,
    ;
    lemma_product(b.1 + amounts.1, s.price_scale, s.precisions.1);
    lemma_plus(b.0, amounts.0);
    lemma_plus(b.1, amounts.1);
    lemma_plus(r.balances.0, fine.0);
    lemma_plus(r.balances.1, fine.1);
    let xp = s1.normalized();
    if let Some(d) = solve_d(s1.ann, s1.gamma, xp) {
        lemma_tweaked_alike(s1, r1, xp, 0, d, now, solve_d, solve_y);
        crate::exchange::law_tweak(s1, xp, 0, d, now, solve_d, solve_y);
    }
}

/// The invariant that adding liquidity gives is what the solver finds for the new balances in common
/// units, the first coin times its precision and the second times its price and its precision, where
/// the pool is worth no less than before and the price scale does not move. Where the solver has no answer,
/// nothing comes back.
pub proof fn law_add_invariant(
    s: TwoV1,
    amounts: (int, int),
    now: int,
    solve_d: SolveD,
    solve_y: SolveY,
    u: (int, int),
)
    requires
        0 <= s.balances.0,
        0 <= s.balances.1,
        0 <= amounts.0,
        0 <= amounts.1,
        0 < s.precisions.0,
        0 < s.precisions.1,
        0 < s.price_scale,
        (s.balances.0 + amounts.0) * s.precisions.0 < modulus(),
        (s.balances.1 + amounts.1) * s.price_scale * s.precisions.1 < modulus(),
        u.0 == (s.balances.0 + amounts.0) * s.precisions.0,
        u.1 == (s.balances.1 + amounts.1) * s.price_scale * s.precisions.1 / (WAD as int),
    ensures
        ({
            let more = TwoV1 {
                balances: (s.balances.0 + amounts.0, s.balances.1 + amounts.1),
                ..s
            };
            s.added(amounts, now, solve_d, solve_y) == match solve_d(s.ann, s.gamma, u) {
                None => Ok((more, None)),
                Some(d) => match more.tweaked(u, 0, d, now, solve_d, solve_y) {
                    Err(e) => Err(e),
                    Ok(t) => Ok((t, Some(t.d))),
                },
            }
        }),
        s.added(amounts, now, solve_d, solve_y) matches Ok((t, r)) ==> match solve_d(s.ann, s.gamma, u) {
            None => r is None && t == (TwoV1 { balances: t.balances, ..s }),
            Some(d) => {
                &&& r == Some(t.d)
                &&& (TwoV1 {
                    balances: (s.balances.0 + amounts.0, s.balances.1 + amounts.1),
                    ..s
                }).tweaked(u, 0, d, now, solve_d, solve_y) == Ok::<_, Fault>(t)
                &&& match geometric_mean_model((d / 2, d * WAD / (2 * s.price_scale)), true) {
                    Err(_) => true,
                    Ok(mean) => 0 <= d && 0 <= mean && d * WAD < modulus() && mean * WAD < modulus() && 2
                        * s.price_scale < modulus() && u.1 * s.price_scale < modulus() && 0
                        < s.total_supply && (s.virtual_price == 0 || mean * WAD / s.total_supply
                        >= s.virtual_price) && t.price_scale == s.price_scale ==> r == Some(d),
                }
            },
        },
{
    let b = s.balances;
    let s1 = TwoV1 { balances: (b.0 + amounts.0, b.1 + amounts.1), ..s };
    assert(b.0 + amounts.0 <= (b.0 + amounts.0) * s.precisions.0) by (nonlinear_arith)
        requires
            0 <= b.0 + amounts.0,
            0 < s.precisions.0,
    ;
    lemma_product(b.1 + amounts.1, s.price_scale, s.precisions.1);
    lemma_plus(b.0, amounts.0);
    lemma_plus(b.1, amounts.1);
    lemma_units(s1);
    if let Some(d) = solve_d(s.ann, s.gamma, u) {
        if let Ok(mean) = geometric_mean_model((d / 2, d * WAD / (2 * s.price_scale)), true) {
            if 0 <= d && 0 <= mean && d * WAD < modulus() && mean * WAD < modulus() && 2 * s.price_scale
                < modulus() && 0 < s.total_supply && u.1 * s.price_scale < modulus() {
                lemma_worth(d, s.price_scale, s.total_supply, mean);
                lemma_share(u.1, s.price_scale, s.price_scale);
                assert(u.1 * s.price_scale / s.price_scale == u.1) by (nonlinear_arith)
                    requires
                        0 < s.price_scale,
                ;
            }
        }
    }
}

/// What is paid does not depend on the units of the coin that comes in.
proof fn lemma_paid_alike(
    s: TwoV1,
    r: TwoV1,
    xp: (int, int),
    i: int,
    j: int,
    m: int,
    q: int,
    dx: int,
    y: int,
    now: int,
    solve_d: SolveD,
    solve_y: SolveY,
)
    requires
        0 <= i < 2,
        0 <= j < 2,
        i != j,
        0 <= s.balances.0,
        0 <= s.balances.1,
        0 < m,
        0 < q,
        0 < s.precisions.0,
        0 < s.precisions.1,
        0 < s.price_scale,
        get2(s.precisions, i) == m * q,
        r == (TwoV1 {
            balances: set2(s.balances, i, get2(s.balances, i) * m),
            precisions: set2(s.precisions, i, q),
            ..s
        }),
        s.balances.0 * s.precisions.0 < modulus(),
        s.balances.1 * s.price_scale * s.precisions.1 < modulus(),
        dx <= dx * m,
        dx.times(m * q) == (dx * m).times(q),
    ensures
        s.paid(xp, i, j, dx, y, now, solve_d, solve_y) matches Ok((t, (dy, fee))) ==> {
            &&& r.paid(xp, i, j, dx * m, y, now, solve_d, solve_y) matches Ok((u, paid)) ==> paid == (dy, fee)
            &&& dx > 100_000 && 0 <= dy <= get2(s.balances, j) < modulus() ==> r.paid(
                xp,
                i,
                j,
                dx * m,
                y,
                now,
                solve_d,
                solve_y,
            ) == Ok::<_, Fault>(
                (
                    TwoV1 {
                        balances: set2(t.balances, i, get2(t.balances, i) * m),
                        precisions: r.precisions,
                        ..t
                    },
                    (dy, fee),
                ),
            )
        },
{
    let b = s.balances;
    if let Ok((t, (dy, fee))) = s.paid(xp, i, j, dx, y, now, solve_d, solve_y) {
        if dx > 100_000 && 0 <= dy <= get2(b, j) < modulus() {
            let left = get2(b, j) - dy;
            lemma_minus(get2(b, j), dy);
            let s3 = TwoV1 { balances: set2(b, j, left), ..s };
            let r3 = TwoV1 { balances: set2(r.balances, j, left), ..r };
            lemma_less(s, s3);
            lemma_finer(s3, r3, i, m, q);
            let xp2 = set2(set2(xp, j, y), j, in_units(left, get2(s.precisions, j), s.scale(j)));
            let p = trade_price(dx, dy, m * q, get2(s.precisions, j), i == 0)->Ok_0;
            lemma_tweaked_alike(s3, r3, xp2, p, 0, now, solve_d, solve_y);
            crate::exchange::law_tweak(s3, xp2, p, 0, now, solve_d, solve_y);
        }
    }
}

/// Smaller balances are smaller in common units.
proof fn lemma_less(s: TwoV1, r: TwoV1)
    requires
        0 <= r.balances.0 <= s.balances.0,
        0 <= r.balances.1 <= s.balances.1,
        0 < s.precisions.0,
        0 < s.precisions.1,
        0 < s.price_scale,
    ensures
        r.balances.0 * s.precisions.0 <= s.balances.0 * s.precisions.0,
        r.balances.1 * s.price_scale * s.precisions.1 <= s.balances.1 * s.price_scale * s.precisions.1,
        s.balances.0 <= s.balances.0 * s.precisions.0,
        s.balances.1 <= s.balances.1 * s.precisions.1 <= s.balances.1 * s.price_scale * s.precisions.1,
{
    let (z, x) = (r.balances, s.balances);
    let (p0, p1, ps) = (s.precisions.0, s.precisions.1, s.price_scale);
    assert(z.0 * p0 <= x.0 * p0 && x.0 <= x.0 * p0) by (nonlinear_arith)
        requires
            0 <= z.0 <= x.0,
            0 < p0,
    ;
    assert(z.1 * ps * p1 <= x.1 * ps * p1 && x.1 <= x.1 * p1 <= x.1 * ps * p1) by (nonlinear_arith)
        requires
            0 <= z.1 <= x.1,
            0 < p1,
            0 < ps,
    ;
}

/// A pool whose coin that comes in counts in coarse units, and the same pool with that coin in units that
/// are `m` times finer, pay the same and keep the same fee for the same trade. Above the dust limit all
/// else in their states stays the same too.
pub proof fn law_exchange_decimals(
    s: TwoV1,
    r: TwoV1,
    i: int,
    j: int,
    m: int,
    q: int,
    dx: int,
    now: int,
    solve_d: SolveD,
    solve_y: SolveY,
)
    requires
        0 <= i < 2,
        0 <= j < 2,
        i != j,
        0 <= s.balances.0,
        0 <= s.balances.1,
        0 < dx,
        0 < m,
        0 < q,
        0 < s.precisions.0,
        0 < s.precisions.1,
        0 < s.price_scale,
        get2(s.precisions, i) == m * q,
        r == (TwoV1 {
            balances: set2(s.balances, i, get2(s.balances, i) * m),
            precisions: set2(s.precisions, i, q),
            ..s
        }),
        (s.balances.0 + (if i == 0 { dx } else { 0 })) * s.precisions.0 < modulus(),
        (s.balances.1 + (if i == 1 { dx } else { 0 })) * s.price_scale * s.precisions.1 < modulus(),
    ensures
        s.exchanged(i, j, dx, now, solve_d, solve_y) matches Ok((t, out)) ==> {
            &&& r.exchanged(i, j, dx * m, now, solve_d, solve_y) matches Ok((u, paid)) ==> paid == out
            &&& dx > 100_000 && get2(s.balances, j) < modulus() && (out matches Some((dy, fee)) ==> 0 <= dy
                <= get2(s.balances, j)) ==> r.exchanged(i, j, dx * m, now, solve_d, solve_y) == Ok::<
                _,
                Fault,
            >(
                (
                    TwoV1 {
                        balances: set2(t.balances, i, get2(t.balances, i) * m),
                        precisions: r.precisions,
                        ..t
                    },
                    out,
                ),
            )
        },
{
    let b = s.balances;
    let x0 = get2(b, i);
    let x = set2(b, i, x0 + dx);
    let s1 = TwoV1 { balances: x, ..s };
    let r1 = TwoV1 { balances: set2(r.balances, i, x0 * m + dx * m), ..r };
    assert(x0 * m + dx * m == (x0 + dx) * m && 0 < dx * m && 0 <= x0 * m && dx <= dx * m && dx * (m * q) == (dx
        * m) * q && 0 < dx * (m * q) <= (x0 + dx) * (m * q) && x0 * (m * q) <= (x0 + dx) * (m * q)) by (nonlinear_arith)
        requires
            0 <= x0,
            0 < dx,
            0 < m,
            0 < q,
    ;
    lemma_less(s1, s);
    lemma_times(dx, m * q);
    lemma_times(dx * m, q);
    lemma_plus(x0, dx);
    lemma_finer(s1, r1, i, m, q);
    lemma_finer(s, r, i, m, q);
    lemma_plus(x0 * m, dx * m);
    lemma_units(s1);
    lemma_units(s);
    lemma_same_units(x0, m, q, s.price_scale);
    let xp = s1.normalized();
    assert(in_units(x0, m * q, s.scale(i)) == in_units(x0 * m, q, r.scale(i)));
    if let Some(s2) = s1.ramped(xp, i, x0, now, solve_d) {
        let r2 = r1.ramped(xp, i, x0 * m, now, solve_d)->Some_0;
        if let Some(y) = solve_y(s2.ann, s2.gamma, xp, s2.d, j, s2.eth_variant) {
            lemma_paid_alike(s2, r2, xp, i, j, m, q, dx, y, now, solve_d, solve_y);
        }
    }
}

/// The price of a withdrawal, in numbers.
proof fn lemma_withdraw_price(s: TwoV1, i: int, token_amount: int, dy: int, dd: int, below: int, q: int)
    requires
        i == 0 || i == 1,
        0 <= s.balances.0,
        0 <= s.balances.1,
        0 < s.precisions.0,
        0 < s.precisions.1,
        0 < s.d,
        0 <= dd,
        100_000 < token_amount,
        100_000 < dy,
        dy * get2(s.precisions, i) < modulus(),
        dd * get2(s.balances, i) * get2(s.precisions, i) < modulus(),
        get2(s.balances, 1 - i) * get2(s.precisions, 1 - i) * dd < modulus(),
        get2(s.balances, 1 - i) * get2(s.precisions, 1 - i) < modulus(),
        get2(s.balances, 1 - i) * get2(s.precisions, 1 - i) * dd / s.d * WAD < modulus(),
        below == dy * get2(s.precisions, i) - dd * get2(s.balances, i) * get2(s.precisions, i) / s.d,
        0 < below,
        q == get2(s.balances, 1 - i) * get2(s.precisions, 1 - i) * dd / s.d * WAD / below,
    ensures
        0 <= q,
        i == 1 ==> s.withdraw_price(i, token_amount, dy, dd) == Ok::<_, Fault>(q),
        i == 0 && 0 < q ==> s.withdraw_price(i, token_amount, dy, dd) == Ok::<_, Fault>(
            (WAD * WAD) as int / q,
        ),
{
    let w = WAD as int;
    let prec = get2(s.precisions, i);
    let b = get2(s.balances, i);
    let o = get2(s.balances, 1 - i);
    let po = get2(s.precisions, 1 - i);
    assert(0 <= dy * prec && 0 <= dd * b && 0 <= dd * b * prec && dd * b <= dd * b * prec && 0 <= o * po)
        by (nonlinear_arith)
        requires
            0 <= dy,
            0 < prec,
            0 <= dd,
            0 <= b,
            0 <= o,
            0 < po,
    ;
    lemma_times(dy, prec);
    lemma_times(dd, b);
    lemma_times(dd * b, prec);
    lemma_over(dd * b * prec, s.d);
    lemma_quotient(dd * b * prec, s.d);
    lemma_minus(dy * prec, dd * b * prec / s.d);
    lemma_times(o, po);
    lemma_share(o * po, dd, s.d);
    lemma_share(o * po * dd / s.d, w, below);
    lemma_times(w, w);
    if q != 0 {
        lemma_over(w * w, q);
    }
}

/// What a withdrawal in one coin does, in numbers. Pool tokens stand for their share `dd` of `D`; `D` falls
/// by that share less half of the fee on it and one unit, and the solver is asked for the balance of
/// the coin at the lower `D`, with what the pool holds in common units. With both amounts above the
/// dust limit, the last price is the share of the other coin per what is withdrawn beyond the share of the
/// coin itself: its inverse where the first coin is withdrawn, and it depends on the balance of the coin that
/// is not withdrawn. The update runs with the coins gone and the pool tokens burnt.
pub proof fn law_remove(
    s: TwoV1,
    i: int,
    token_amount: int,
    coin_amount: int,
    now: int,
    solve_d: SolveD,
    solve_y: SolveY,
    rate: int,
    dd: int,
    after: int,
    p: int,
)
    requires
        i == 0 || i == 1,
        0 <= s.balances.0,
        0 <= s.balances.1,
        0 < s.precisions.0,
        0 < s.precisions.1,
        0 < s.price_scale,
        s.balances.0 * s.precisions.0 < modulus(),
        s.balances.1 * s.price_scale * s.precisions.1 < modulus(),
        0 < s.d,
        0 <= token_amount <= s.total_supply < modulus(),
        0 < s.total_supply,
        token_amount * s.d < modulus(),
        0 <= coin_amount <= get2(s.balances, i) < modulus(),
        fee_model(
            (
                s.balances.0 * s.precisions.0,
                s.balances.1 * s.price_scale * s.precisions.1 / (WAD as int),
            ),
            s.mid_fee,
            s.out_fee,
            s.fee_gamma,
        ) == Ok::<_, Fault>(rate),
        dd == token_amount * s.d / s.total_supply,
        0 <= rate,
        rate * dd < modulus(),
        after == s.d - (dd - (rate * dd / (2 * FEE_DENOMINATOR) + 1)),
        rate * dd / (2 * FEE_DENOMINATOR) + 1 <= dd,
        0 <= after < modulus(),
        coin_amount <= 100_000 || token_amount <= 100_000 ==> p == 0,
        coin_amount > 100_000 && token_amount > 100_000 ==> {
            let below = coin_amount * get2(s.precisions, i) - dd * get2(s.balances, i) * get2(
                s.precisions,
                i,
            ) / s.d;
            let other = get2(s.balances, 1 - i) * get2(s.precisions, 1 - i);
            let q = other * dd / s.d * WAD / below;
            &&& coin_amount * get2(s.precisions, i) < modulus()
            &&& dd * get2(s.balances, i) * get2(s.precisions, i) < modulus()
            &&& other * dd < modulus()
            &&& other * dd / s.d * WAD < modulus()
            &&& 0 < below
            &&& i == 1 ==> p == q
            &&& i == 0 ==> 0 < q && p == 1_000_000_000_000_000_000_000_000_000_000_000_000int / q
        },
    ensures
        ({
            let u = (
                s.balances.0 * s.precisions.0,
                s.balances.1 * s.price_scale * s.precisions.1 / (WAD as int),
            );
            let less = TwoV1 {
                balances: set2(s.balances, i, get2(s.balances, i) - coin_amount),
                total_supply: s.total_supply - token_amount,
                ..s
            };
            s.removed(i, token_amount, coin_amount, now, solve_d, solve_y) == match solve_y(
                s.ann,
                s.gamma,
                u,
                after,
                i,
                s.eth_variant,
            ) {
                None => Ok((s, None)),
                Some(y) => match less.tweaked(set2(u, i, y), p, after, now, solve_d, solve_y) {
                    Err(e) => Err(e),
                    Ok(t) => Ok((t, Some(t.d))),
                },
            }
        }),
        s.removed(i, token_amount, coin_amount, now, solve_d, solve_y) matches Ok((t, r)) ==> {
            let u = (
                s.balances.0 * s.precisions.0,
                s.balances.1 * s.price_scale * s.precisions.1 / (WAD as int),
            );
            match solve_y(s.ann, s.gamma, u, after, i, s.eth_variant) {
                None => r is None && t == s,
                Some(y) => {
                    &&& r == Some(t.d)
                    &&& 0 < p ==> t.last_prices == p
                    &&& (TwoV1 {
                        balances: set2(s.balances, i, get2(s.balances, i) - coin_amount),
                        total_supply: s.total_supply - token_amount,
                        ..s
                    }).tweaked(set2(u, i, y), p, after, now, solve_d, solve_y) == Ok::<_, Fault>(t)
                },
            }
        },
{
    lemma_units(s);
    lemma_share(token_amount, s.d, s.total_supply);
    lemma_times(2, FEE_DENOMINATOR as int);
    lemma_share(rate, dd, 2 * FEE_DENOMINATOR);
    let cut = rate * dd / (2 * FEE_DENOMINATOR);
    assert(dd <= s.d) by (nonlinear_arith)
        requires
            dd == token_amount * s.d / s.total_supply,
            0 <= token_amount <= s.total_supply,
            0 < s.total_supply,
            0 < s.d,
    ;
    assert(cut + 1 < modulus()) by {
        lemma_quotient(rate * dd, 2 * FEE_DENOMINATOR);
    }
    lemma_plus(cut, 1);
    assert(dd < modulus()) by {
        lemma_quotient(token_amount * s.d, s.total_supply);
    }
    lemma_minus(dd, cut + 1);
    lemma_minus(s.d, dd - (cut + 1));
    lemma_minus(get2(s.balances, i), coin_amount);
    lemma_minus(s.total_supply, token_amount);
    if coin_amount > 100_000 && token_amount > 100_000 {
        let below = coin_amount * get2(s.precisions, i) - dd * get2(s.balances, i) * get2(s.precisions, i)
            / s.d;
        let q = get2(s.balances, 1 - i) * get2(s.precisions, 1 - i) * dd / s.d * WAD / below;
        assert(s.balances.1 * s.precisions.1 < modulus()) by {
            lemma_product(s.balances.1, s.price_scale, s.precisions.1);
        }
        lemma_withdraw_price(s, i, token_amount, coin_amount, dd, below, q);
    }
}

/// Twice as much to divide gives at least twice as much.
proof fn lemma_doubled(a: int, b: int, c: int)
    requires
        0 <= a,
        2 * a <= b,
        0 < c,
    ensures
        2 * (a / c) <= b / c,
{
    lemma_quotient(a, c);
    lemma_quotient(b, c);
    let (x, y) = (a / c, b / c);
    assert(2 * x <= y) by (nonlinear_arith)
        requires
            x * c <= a,
            2 * a <= b,
            b < (y + 1) * c,
            0 < c,
    ;
}

/// Twice as much to divide gives hardly more than twice as much, in two divisions.
proof fn lemma_hardly_more(x: int, d: int, below: int, share: int, share2: int, q: int, q2: int)
    requires
        0 <= x,
        0 < d,
        0 < below,
        share == x / d,
        share2 == 2 * x / d,
        q == share * WAD / below,
        q2 == share2 * WAD / below,
    ensures
        q2 <= 2 * q + 2 + WAD as int / below,
{
    let w = WAD as int;
    lemma_quotient(x, d);
    lemma_quotient(2 * x, d);
    assert(share2 <= 2 * share + 1) by (nonlinear_arith)
        requires
            share2 * d <= 2 * x,
            x < (share + 1) * d,
            0 < d,
    ;
    lemma_quotient(share * w, below);
    lemma_quotient(share2 * w, below);
    lemma_quotient(w, below);
    let r = w / below;
    assert(q2 <= 2 * q + 2 + r) by (nonlinear_arith)
        requires
            q2 * below <= share2 * w,
            share2 * w <= 2 * (share * w) + w,
            share * w < (q + 1) * below,
            w < (r + 1) * below,
            0 < below,
    {
        assert(q2 * below < (2 * q + 3 + r) * below);
    }
}

/// A price that is at least twice as high has an inverse at most half as large.
proof fn lemma_inverse(w: int, p: int, q: int)
    requires
        0 <= w,
        0 < p,
        2 * p <= q,
    ensures
        2 * (w / q) <= w / p,
{
    lemma_quotient(w, p);
    lemma_quotient(w, q);
    let (x, y) = (w / p, w / q);
    assert(2 * y <= x) by (nonlinear_arith)
        requires
            y * q <= w,
            w < (x + 1) * p,
            0 < p,
            2 * p <= q,
            0 <= y,
    ;
}

/// With twice as much of the second coin in the pool and all else the same, a withdrawal of the first coin
/// above the dust limit leaves a last price half as high, and one of the second coin with twice as much of
/// the first a last price twice as high, up to rounding.
pub proof fn law_remove_doubled(
    s: TwoV1,
    r: TwoV1,
    i: int,
    token_amount: int,
    coin_amount: int,
    now: int,
    solve_d: SolveD,
    solve_y: SolveY,
    rates: (int, int),
    dd: int,
    after: (int, int),
    below: int,
    share: int,
)
    requires
        i == 0 || i == 1,
        r == (TwoV1 { balances: set2(s.balances, 1 - i, 2 * get2(s.balances, 1 - i)), ..s }),
        0 <= s.balances.0,
        0 <= s.balances.1,
        0 < s.precisions.0,
        0 < s.precisions.1,
        0 < s.price_scale,
        r.balances.0 * s.precisions.0 < modulus(),
        r.balances.1 * s.price_scale * s.precisions.1 < modulus(),
        0 < s.d,
        100_000 < token_amount <= s.total_supply < modulus(),
        token_amount * s.d < modulus(),
        100_000 < coin_amount <= get2(s.balances, i) < modulus(),
        dd == token_amount * s.d / s.total_supply,
        fee_model(
            (
                s.balances.0 * s.precisions.0,
                s.balances.1 * s.price_scale * s.precisions.1 / (WAD as int),
            ),
            s.mid_fee,
            s.out_fee,
            s.fee_gamma,
        ) == Ok::<_, Fault>(rates.0),
        fee_model(
            (
                r.balances.0 * s.precisions.0,
                r.balances.1 * s.price_scale * s.precisions.1 / (WAD as int),
            ),
            s.mid_fee,
            s.out_fee,
            s.fee_gamma,
        ) == Ok::<_, Fault>(rates.1),
        0 <= rates.0,
        0 <= rates.1,
        rates.0 * dd < modulus(),
        rates.1 * dd < modulus(),
        rates.0 * dd / (2 * FEE_DENOMINATOR) + 1 <= dd,
        rates.1 * dd / (2 * FEE_DENOMINATOR) + 1 <= dd,
        after.0 == s.d - (dd - (rates.0 * dd / (2 * FEE_DENOMINATOR) + 1)),
        after.1 == s.d - (dd - (rates.1 * dd / (2 * FEE_DENOMINATOR) + 1)),
        0 <= after.0 < modulus(),
        0 <= after.1 < modulus(),
        coin_amount * get2(s.precisions, i) < modulus(),
        dd * get2(s.balances, i) * get2(s.precisions, i) < modulus(),
        below == coin_amount * get2(s.precisions, i) - dd * get2(s.balances, i) * get2(s.precisions, i) / s.d,
        0 < below,
        get2(r.balances, 1 - i) * get2(s.precisions, 1 - i) * dd < modulus(),
        get2(r.balances, 1 - i) * get2(s.precisions, 1 - i) * dd / s.d * WAD < modulus(),
        share == get2(s.balances, 1 - i) * get2(s.precisions, 1 - i) * dd / s.d,
        0 < share * WAD / below,
        i == 0 ==> get2(r.balances, 1 - i) * get2(s.precisions, 1 - i) * dd / s.d * WAD / below
            <= 1_000_000_000_000_000_000_000_000_000_000_000_000int,
    ensures
        s.removed(i, token_amount, coin_amount, now, solve_d, solve_y) matches Ok((t, Some(d))) ==> r.removed(
            i,
            token_amount,
            coin_amount,
            now,
            solve_d,
            solve_y,
        ) matches Ok((u, Some(e))) ==> {
            &&& i == 0 ==> 0 < 2 * u.last_prices <= t.last_prices
            &&& i == 0 ==> (u.last_prices + 1) * (2 * (share * WAD / below) + 2 + WAD as int / below)
                > 1_000_000_000_000_000_000_000_000_000_000_000_000int
            &&& i == 1 ==> 0 < 2 * t.last_prices <= u.last_prices <= 2 * t.last_prices + 2 + WAD as int / below
        },
{
    let b = get2(s.balances, 1 - i);
    let po = get2(s.precisions, 1 - i);
    let x = b * po * dd;
    let x2 = (2 * b) * po * dd;
    assert(x2 == 2 * x && 0 <= x) by (nonlinear_arith)
        requires
            x == b * po * dd,
            x2 == (2 * b) * po * dd,
            0 <= b,
            0 < po,
            0 <= dd,
    ;
    lemma_quotient(token_amount * s.d, s.total_supply);
    lemma_doubled(x, x2, s.d);
    lemma_quotient(x, s.d);
    let share2 = x2 / s.d;
    lemma_doubled(share * WAD, share2 * WAD, below);
    let q = share * WAD / below;
    let q2 = share2 * WAD / below;
    lemma_hardly_more(x, s.d, below, share, share2, q, q2);
    let ww = 1_000_000_000_000_000_000_000_000_000_000_000_000int;
    lemma_less(r, s);
    if i == 0 {
        lemma_inverse(ww, q, q2);
        lemma_quotient(ww, q2);
        let more = 2 * q + 2 + WAD as int / below;
        assert((ww / q2 + 1) * q2 <= (ww / q2 + 1) * more) by (nonlinear_arith)
            requires
                q2 <= more,
                0 <= ww / q2,
        ;
        assert(0 < ww / q2 && 0 < ww / q) by (nonlinear_arith)
            requires
                0 < q2 <= ww,
                0 < q <= ww,
        ;
        law_remove(
            s,
            i,
            token_amount,
            coin_amount,
            now,
            solve_d,
            solve_y,
            rates.0,
            dd,
            after.0,
            ww / q,
        );
        law_remove(
            r,
            i,
            token_amount,
            coin_amount,
            now,
            solve_d,
            solve_y,
            rates.1,
            dd,
            after.1,
            ww / q2,
        );
    } else {
        law_remove(s, i, token_amount, coin_amount, now, solve_d, solve_y, rates.0, dd, after.0, q);
        law_remove(r, i, token_amount, coin_amount, now, solve_d, solve_y, rates.1, dd, after.1, q2);
    }
}

/// Where nothing was made since the last claim, or where the share would be worth as much as a pool token,
/// a claim takes nothing and mints nothing.
pub proof fn law_claim_nothing(s: TwoV1, solve_d: SolveD, t: TwoV1, fees: int)
    requires
        s.with_claim(solve_d) == Ok::<_, Fault>(t),
        s.xcp_profit <= s.xcp_profit_a || {
            &&& 0 <= s.xcp_profit_a
            &&& s.xcp_profit < modulus()
            &&& 0 <= s.admin_fee
            &&& (s.xcp_profit - s.xcp_profit_a) * s.admin_fee < modulus()
            &&& fees == (s.xcp_profit - s.xcp_profit_a) * s.admin_fee / (2 * FEE_DENOMINATOR)
            &&& s.virtual_price <= fees
        },
    ensures
        t.xcp_profit == s.xcp_profit,
        t.total_supply == s.total_supply,
{
    if s.xcp_profit > s.xcp_profit_a {
        lemma_minus(s.xcp_profit, s.xcp_profit_a);
        lemma_times(2, FEE_DENOMINATOR as int);
        lemma_share(s.xcp_profit - s.xcp_profit_a, s.admin_fee, 2 * FEE_DENOMINATOR);
    }
}

/// A claim in a pool without pool tokens mints none and keeps the virtual price, and takes the invariant of what
/// the pool holds.
pub proof fn law_claim_empty(s: TwoV1, solve_d: SolveD, t: TwoV1)
    requires
        s.with_claim(solve_d) == Ok::<_, Fault>(t),
        0 <= s.balances.0,
        0 <= s.balances.1,
        0 < s.precisions.0,
        0 < s.precisions.1,
        0 < s.price_scale,
        s.balances.0 * s.precisions.0 < modulus(),
        s.balances.1 * s.price_scale * s.precisions.1 < modulus(),
        s.total_supply == 0,
    ensures
        t.total_supply == 0,
        t.virtual_price == s.virtual_price,
        match solve_d(
            s.ann,
            s.gamma,
            (
                s.balances.0 * s.precisions.0,
                s.balances.1 * s.price_scale * s.precisions.1 / (WAD as int),
            ),
        ) {
            None => t.d == s.d,
            Some(d) => t.d == d,
        },
{
    lemma_units(s);
    lemma_none_minted(s.xcp_profit, s.xcp_profit_a, s.virtual_price, s.admin_fee);
}

/// What the admin's share of the profit is, in numbers. It is `admin_fee` of half of what was made since the
/// last claim; twice of it is taken from the profit, and pool tokens are minted for it, so that the
/// tokens that were there are worth that much less. The solver is asked with what the pool holds in common
/// units, and the virtual price is taken anew per pool token.
pub proof fn law_claim_share(s: TwoV1, solve_d: SolveD, t: TwoV1, fees: int, minted: int)
    requires
        s.with_claim(solve_d) == Ok::<_, Fault>(t),
        0 <= s.balances.0,
        0 <= s.balances.1,
        0 < s.precisions.0,
        0 < s.precisions.1,
        0 < s.price_scale,
        s.balances.0 * s.precisions.0 < modulus(),
        s.balances.1 * s.price_scale * s.precisions.1 < modulus(),
        0 <= s.xcp_profit_a <= s.xcp_profit < modulus(),
        0 <= s.admin_fee,
        (s.xcp_profit - s.xcp_profit_a) * s.admin_fee < modulus(),
        fees == (s.xcp_profit - s.xcp_profit_a) * s.admin_fee / (2 * FEE_DENOMINATOR),
        2 * fees <= s.xcp_profit,
        fees < s.virtual_price,
        s.virtual_price * WAD < modulus(),
        0 < s.total_supply,
        minted == s.total_supply * (s.virtual_price * WAD / (s.virtual_price - fees) - WAD) / (WAD as int),
        s.total_supply * (s.virtual_price * WAD / (s.virtual_price - fees) - WAD) < modulus(),
        s.total_supply + minted < modulus(),
        2 * s.price_scale < modulus(),
    ensures
        t.xcp_profit == s.xcp_profit - 2 * fees,
        t.total_supply == s.total_supply + minted,
        0 <= minted,
        fees == 0 ==> minted == 0,
        t.total_supply * (s.virtual_price - fees) <= s.total_supply * s.virtual_price,
        t.xcp_profit_a == (if t.xcp_profit > s.xcp_profit_a { t.xcp_profit } else { s.xcp_profit_a }),
        match solve_d(
            s.ann,
            s.gamma,
            (
                s.balances.0 * s.precisions.0,
                s.balances.1 * s.price_scale * s.precisions.1 / (WAD as int),
            ),
        ) {
            None => t.d == s.d && t.virtual_price == s.virtual_price,
            Some(d) => t.d == d && match geometric_mean_model((d / 2, d * WAD / (2 * s.price_scale)), true) {
                Err(_) => true,
                Ok(mean) => 0 <= d && 0 <= mean && d * WAD < modulus() && mean * WAD < modulus()
                    ==> t.virtual_price == mean * WAD / t.total_supply,
            },
        },
{
    lemma_units(s);
    lemma_claimed(
        s.xcp_profit,
        s.xcp_profit_a,
        s.virtual_price,
        s.total_supply,
        s.admin_fee,
        fees,
        minted,
    );
    if let Some(d) = solve_d(s.ann, s.gamma, s.normalized()) {
        if let Ok(mean) = geometric_mean_model((d / 2, d * WAD / (2 * s.price_scale)), true) {
            if 0 <= d && 0 <= mean && d * WAD < modulus() && mean * WAD < modulus() {
                lemma_worth(d, s.price_scale, t.total_supply, mean);
                lemma_share(mean, WAD as int, t.total_supply);
            }
        }
    }
}

} // verus!
