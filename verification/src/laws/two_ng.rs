//! Two-coin pools of the second generation.
use super::{
    lemma_allows, lemma_deviation, lemma_fee_exact, lemma_keeps, lemma_kept, lemma_moved_average,
    lemma_moved_scale, lemma_owed, lemma_owed_exact, lemma_per_wad, lemma_product, lemma_share,
    lemma_step,
};
use crate::bounds::lemma_quotient;
use crate::callbacks::{SolveStableD, SolveStableY};
use crate::coins::{get2, set2};
use crate::exchange_twocrypto_ng::{
    fee_2_model, get_p_2_model, get_p_2_stable_model, virtual_price_ng, TwoNG,
};
use crate::exponential::{lemma_wad_exp, wad_exp_model};
use crate::fault::Fault;
use crate::marginal::{gk0_model, nnag2_model, slope_model};
use crate::newton::{A_MULTIPLIER, FEE_DENOMINATOR, WAD};
use crate::pricing::{gross_out, in_units};
use crate::roots::{is_isqrt, lemma_isqrt_floor};
use crate::signed::half;
use crate::solvers::twocrypto_ng::{get_y_2_model, newton_d_2_model};
use crate::uint::{lemma_minus, lemma_over, lemma_plus, lemma_times, modulus, Word};
use vstd::prelude::*;

verus! {

/// What a pool's own solver answers when it is asked for the invariant of the balances `x`: that of the stable
/// pools, or Newton's method with the hint `k0_prev`.
pub open spec fn answer_d(
    s: TwoNG,
    x: (int, int),
    k0_prev: int,
    stable_d: SolveStableD,
) -> Result<Option<int>, Fault> {
    if s.is_stable {
        Ok(stable_d(x, s.ann))
    } else {
        newton_d_2_model(s.ann, s.gamma, x, k0_prev)
    }
}

/// What a pool's own solver answers when it is asked for the balance of coin `j` at the invariant `d`, with
/// the balances `x` of which coin `i` has come in, and the hint that comes with it.
pub open spec fn answer_y(
    s: TwoNG,
    x: (int, int),
    d: int,
    i: int,
    j: int,
    stable_y: SolveStableY,
) -> Result<Option<(int, int)>, Fault> {
    if s.is_stable {
        match stable_y(i, j, if i == 0 { x.0 } else { x.1 }, x, d, s.ann) {
            Some(y) => Ok(Some((y, 0))),
            None => Ok(None),
        }
    } else {
        get_y_2_model(s.ann, s.gamma, x, d, j)
    }
}

/// Whether the amounts of a pool are numbers that its common units can hold.
pub open spec fn countable(s: TwoNG) -> bool {
    &&& 0 <= s.balances.0
    &&& 0 <= s.balances.1
    &&& 0 < s.precisions.0
    &&& 0 < s.precisions.1
    &&& 0 < s.price_scale
    &&& s.balances.0 * s.precisions.0 < modulus()
    &&& s.balances.1 * s.price_scale * s.precisions.1 < modulus()
}

/// What a pool holds in common units: the first coin times its precision, the second times its price and its
/// precision.
pub open spec fn units(s: TwoNG) -> (int, int) {
    (
        s.balances.0 * s.precisions.0,
        s.balances.1 * s.price_scale * s.precisions.1 / (WAD as int),
    )
}

/// The balances that the solvers see.
proof fn lemma_units(s: TwoNG)
    requires
        countable(s),
    ensures
        s.normalized() == units(s),
        0 <= units(s).0 < modulus(),
        0 <= units(s).1,
        units(s).1 * WAD < modulus(),
        in_units(s.balances.0, s.precisions.0, s.scale(0)) == units(s).0,
        in_units(s.balances.1, s.precisions.1, s.scale(1)) == units(s).1,
        s.balances.0 < modulus(),
        s.balances.1 < modulus(),
{
    assert(0 <= s.balances.0 <= s.balances.0 * s.precisions.0) by (nonlinear_arith)
        requires
            0 <= s.balances.0,
            0 < s.precisions.0,
    ;
    lemma_times(s.balances.0, s.precisions.0);
    lemma_product(s.balances.1, s.price_scale, s.precisions.1);
    lemma_per_wad(s.balances.1 * s.price_scale * s.precisions.1);
}

/// The balances of a pool in common units: the first coin times its precision, the second times its price and
/// its precision.
pub proof fn law_common_units(s: TwoNG)
    requires
        countable(s),
    ensures
        s.normalized() == (
            s.balances.0 * s.precisions.0,
            s.balances.1 * s.price_scale * s.precisions.1 / (WAD as int),
        ),
{
    lemma_units(s);
}

/// Smaller balances are smaller in common units.
proof fn lemma_less(s: TwoNG, r: TwoNG)
    requires
        countable(s),
        0 <= r.balances.0 <= s.balances.0,
        0 <= r.balances.1 <= s.balances.1,
        r.precisions == s.precisions,
        r.price_scale == s.price_scale,
    ensures
        countable(r),
{
    let (z, x) = (r.balances, s.balances);
    let (p0, p1, ps) = (s.precisions.0, s.precisions.1, s.price_scale);
    assert(z.0 * p0 <= x.0 * p0) by (nonlinear_arith)
        requires
            0 <= z.0 <= x.0,
            0 < p0,
    ;
    assert(z.1 * ps * p1 <= x.1 * ps * p1) by (nonlinear_arith)
        requires
            0 <= z.1 <= x.1,
            0 < p1,
            0 < ps,
    ;
}

/// The same pool with `dx` more of coin `i`.
pub open spec fn with_more(s: TwoNG, i: int, dx: int) -> TwoNG {
    TwoNG {
        balances: (
            s.balances.0 + (if i == 0 { dx } else { 0 }),
            s.balances.1 + (if i == 1 { dx } else { 0 }),
        ),
        ..s
    }
}

/// What comes in is added to the balance of its coin, and what was there before is seen in common units.
proof fn lemma_entry(s: TwoNG, i: int, dx: int)
    requires
        0 <= i < 2,
        0 < dx,
        0 <= s.balances.0,
        0 <= s.balances.1,
        countable(with_more(s, i, dx)),
    ensures
        with_more(s, i, dx) == (TwoNG {
            balances: set2(s.balances, i, get2(s.balances, i).plus(dx)),
            ..s
        }),
        with_more(s, i, dx).normalized() == units(with_more(s, i, dx)),
        set2(
            units(with_more(s, i, dx)),
            i,
            in_units(get2(s.balances, i), get2(s.precisions, i), s.scale(i)),
        ) == units(s),
        countable(s),
{
    let s1 = with_more(s, i, dx);
    lemma_units(s1);
    lemma_plus(get2(s.balances, i), dx);
    lemma_less(s1, s);
    lemma_units(s);
}

/// The invariant with which a trade is solved.
pub open spec fn invariant_before(s: TwoNG, now: int, stable_d: SolveStableD) -> Result<Option<int>, Fault> {
    if s.future_a_gamma_time == 0 || now >= s.future_a_gamma_time {
        Ok(Some(s.d))
    } else {
        answer_d(s, units(s), 0, stable_d)
    }
}

/// An exchange in terms of what the pool holds in common units.
proof fn lemma_exchanged(
    s: TwoNG,
    i: int,
    j: int,
    dx: int,
    now: int,
    stable_d: SolveStableD,
    stable_y: SolveStableY,
)
    requires
        0 <= i < 2,
        0 <= j < 2,
        i != j,
        0 < dx,
        0 <= s.balances.0,
        0 <= s.balances.1,
        countable(with_more(s, i, dx)),
    ensures
        ({
            let s1 = with_more(s, i, dx);
            s.exchanged(i, j, dx, now, stable_d, stable_y) == match invariant_before(s, now, stable_d) {
                Err(e) => Err(e),
                Ok(None) => Ok((s1, None)),
                Ok(Some(d)) => match answer_y(s, units(s1), d, i, j, stable_y) {
                    Err(e) => Err(e),
                    Ok(None) => Ok((TwoNG { d, ..s1 }, None)),
                    Ok(Some((y, k0))) => match (TwoNG { d, ..s1 }).paid(units(s1), j, y, k0, now, stable_d) {
                        Err(e) => Err(e),
                        Ok((t, out)) => Ok((t, Some(out))),
                    },
                },
            }
        }),
{
    lemma_entry(s, i, dx);
}

/// What a trade is solved to is what the solver answers for the balances with what came in, in common units,
/// at the invariant before the trade.
pub proof fn law_solve_trade(
    s: TwoNG,
    i: int,
    j: int,
    dx: int,
    now: int,
    stable_d: SolveStableD,
    stable_y: SolveStableY,
)
    requires
        0 <= i < 2,
        0 <= j < 2,
        0 < dx,
        0 <= s.balances.0,
        0 <= s.balances.1,
        countable(with_more(s, i, dx)),
    ensures
        s.traded_y(i, j, dx, now, stable_d, stable_y) == match invariant_before(s, now, stable_d) {
            Err(e) => Err(e),
            Ok(None) => Ok(None),
            Ok(Some(d)) => answer_y(s, units(with_more(s, i, dx)), d, i, j, stable_y),
        },
{
    lemma_entry(s, i, dx);
}

/// Whether `dy` and `fee` are what a pool owes in coin `j` when its balance goes from that in `u` to `y`, both in
/// common units: together they come to the difference less one, short of less than one unit of the coin, and
/// the fee is the rate for the balances without what goes out, rounded down.
pub open spec fn owes(s: TwoNG, u: (int, int), j: int, y: int, dy: int, fee: int) -> bool {
    let e = dy + fee;
    &&& fee_2_model(
        if j == 0 { (y, u.1) } else { (u.0, y) },
        s.mid_fee,
        s.out_fee,
        s.fee_gamma,
        s.is_stable,
    ) matches Ok(rate)
    &&& 0 <= rate * e < modulus() ==> fee * FEE_DENOMINATOR <= rate * e < (fee + 1) * FEE_DENOMINATOR
    &&& j == 0 ==> e * s.precisions.0 <= u.0 - y - 1 < (e + 1) * s.precisions.0
    &&& j == 1 ==> e * (s.price_scale * s.precisions.1) <= (u.1 - y - 1) * WAD < (e + 1) * (s.price_scale
        * s.precisions.1)
}

/// What an exchange pays is counted in the units of the coin that goes out. The solver is asked with
/// what the pool holds, what came in included, in common units: the first coin times its precision, the
/// second times its price and its precision. What it finds that the pool can do without, less one unit,
/// is paid out and kept as the fee, short of less than one unit of the coin that goes out. Where the
/// solver has no answer, nothing is paid and what came in stays. While the parameters change, `D` is what
/// the solver finds for the balances before the trade. The rest of the update runs with what is left in the
/// pool and with what the solver finds for it.
pub proof fn law_exchange_payout(
    s: TwoNG,
    i: int,
    j: int,
    dx: int,
    now: int,
    stable_d: SolveStableD,
    stable_y: SolveStableY,
)
    requires
        0 <= i < 2,
        0 <= j < 2,
        i != j,
        0 < dx,
        0 <= s.balances.0,
        0 <= s.balances.1,
        countable(with_more(s, i, dx)),
    ensures
        s.exchanged(i, j, dx, now, stable_d, stable_y) matches Ok((t, out)) ==> {
            let u = units(with_more(s, i, dx));
            match invariant_before(s, now, stable_d) {
                Err(_) => false,
                Ok(None) => out is None && t == with_more(s, i, dx),
                Ok(Some(d)) => match answer_y(s, u, d, i, j, stable_y) {
                    Err(_) => false,
                    Ok(None) => out is None && t == (TwoNG { d, ..with_more(s, i, dx) }),
                    Ok(Some((y, k0))) => out matches Some((dy, fee)) && (0 <= y < get2(u, j) && dy + fee
                        < modulus() ==> {
                        &&& owes(s, u, j, y, dy, fee)
                        &&& 0 <= dy <= get2(s.balances, j) ==> {
                            let left = TwoNG { d, ..with_more(with_more(s, i, dx), j, -dy) };
                            match answer_d(s, units(left), k0, stable_d) {
                                Err(_) => false,
                                Ok(new_d) => left.tweaked(
                                    units(left),
                                    match new_d {
                                        Some(e) => e,
                                        None => 0,
                                    },
                                    k0,
                                    now,
                                    stable_d,
                                ) == Ok::<_, Fault>(t),
                            }
                        }
                    }),
                },
            }
        },
{
    let s1 = with_more(s, i, dx);
    lemma_exchanged(s, i, j, dx, now, stable_d, stable_y);
    if let Ok(Some(d)) = invariant_before(s, now, stable_d) {
        if let Ok(Some((y, k0))) = answer_y(s, units(s1), d, i, j, stable_y) {
            lemma_payout(s1, d, j, y, k0, now, stable_d);
        }
    }
}

/// What is paid out of a pool that the solver has seen.
proof fn lemma_payout(s1: TwoNG, d: int, j: int, y: int, k0: int, now: int, stable_d: SolveStableD)
    requires
        0 <= j < 2,
        countable(s1),
    ensures
        (TwoNG { d, ..s1 }).paid(units(s1), j, y, k0, now, stable_d) matches Ok((t, (dy, fee))) ==> (0 <= y
            < get2(units(s1), j) && dy + fee < modulus() ==> {
            &&& owes(s1, units(s1), j, y, dy, fee)
            &&& 0 <= dy <= get2(s1.balances, j) ==> {
                let left = TwoNG { d, ..with_more(s1, j, -dy) };
                match answer_d(s1, units(left), k0, stable_d) {
                    Err(_) => false,
                    Ok(new_d) => left.tweaked(
                        units(left),
                        match new_d {
                            Some(e) => e,
                            None => 0,
                        },
                        k0,
                        now,
                        stable_d,
                    ) == Ok::<_, Fault>(t),
                }
            }
        }),
{
    let xp = units(s1);
    let s2 = TwoNG { d, ..s1 };
    lemma_units(s1);
    let x_j = get2(xp, j);
    let prec_j = get2(s1.precisions, j);
    if 0 <= y < x_j {
        lemma_owed(x_j, y, prec_j, s2.scale(j));
        let e = gross_out(x_j, y, prec_j, s2.scale(j))->Ok_0;
        if let Ok(rate) = fee_2_model(set2(xp, j, y), s1.mid_fee, s1.out_fee, s1.fee_gamma, s1.is_stable) {
            lemma_kept(rate, e);
        }
        if let Ok((t, (dy, fee))) = s2.paid(xp, j, y, k0, now, stable_d) {
            if 0 <= dy <= get2(s1.balances, j) {
                lemma_minus(get2(s1.balances, j), dy);
                let s3 = TwoNG { balances: set2(s2.balances, j, get2(s1.balances, j) - dy), ..s2 };
                lemma_less(s1, s3);
                lemma_units(s3);
                assert(set2(set2(xp, j, y), j, get2(units(s3), j)) == units(s3));
                assert(s3 == (TwoNG { d, ..with_more(s1, j, -dy) }));
            }
        }
    }
}

/// An exchange goes through whenever the solver has its answers, the fee has a rate and the update goes
/// through, and pays just what is owed.
pub proof fn law_exchange_goes_through(
    s: TwoNG,
    i: int,
    j: int,
    dx: int,
    now: int,
    stable_d: SolveStableD,
    stable_y: SolveStableY,
    d: int,
    y: int,
    k0: int,
    rate: int,
    dy: int,
    fee: int,
    found: Option<int>,
)
    requires
        0 <= i < 2,
        0 <= j < 2,
        i != j,
        0 < dx,
        0 <= s.balances.0,
        0 <= s.balances.1,
        countable(with_more(s, i, dx)),
        invariant_before(s, now, stable_d) == Ok::<_, Fault>(Some(d)),
        answer_y(s, units(with_more(s, i, dx)), d, i, j, stable_y) == Ok::<_, Fault>(Some((y, k0))),
        0 <= y < get2(units(with_more(s, i, dx)), j),
        fee_2_model(
            set2(units(with_more(s, i, dx)), j, y),
            s.mid_fee,
            s.out_fee,
            s.fee_gamma,
            s.is_stable,
        ) == Ok::<_, Fault>(rate),
        0 <= rate,
        0 <= dy <= get2(s.balances, j),
        0 <= fee,
        dy + fee < modulus(),
        rate * (dy + fee) < modulus(),
        owes(s, units(with_more(s, i, dx)), j, y, dy, fee),
        answer_d(s, units(with_more(with_more(s, i, dx), j, -dy)), k0, stable_d) == Ok::<_, Fault>(found),
    ensures
        ({
            let left = TwoNG { d, ..with_more(with_more(s, i, dx), j, -dy) };
            let new_d = match found {
                Some(e) => e,
                None => 0,
            };
            s.exchanged(i, j, dx, now, stable_d, stable_y) == match left.tweaked(
                units(left),
                new_d,
                k0,
                now,
                stable_d,
            ) {
                Err(e) => Err(e),
                Ok(t) => Ok((t, Some((dy, fee)))),
            }
        }),
{
    lemma_exchanged(s, i, j, dx, now, stable_d, stable_y);
    lemma_paid_exact(with_more(s, i, dx), d, j, y, k0, now, stable_d, rate, dy, fee, found);
}

proof fn lemma_paid_exact(
    s1: TwoNG,
    d: int,
    j: int,
    y: int,
    k0: int,
    now: int,
    stable_d: SolveStableD,
    rate: int,
    dy: int,
    fee: int,
    found: Option<int>,
)
    requires
        0 <= j < 2,
        countable(s1),
        0 <= y < get2(units(s1), j),
        fee_2_model(set2(units(s1), j, y), s1.mid_fee, s1.out_fee, s1.fee_gamma, s1.is_stable) == Ok::<_, Fault>(
            rate,
        ),
        0 <= rate,
        0 <= dy <= get2(s1.balances, j),
        0 <= fee,
        dy + fee < modulus(),
        rate * (dy + fee) < modulus(),
        owes(s1, units(s1), j, y, dy, fee),
        answer_d(s1, units(with_more(s1, j, -dy)), k0, stable_d) == Ok::<_, Fault>(found),
    ensures
        ({
            let left = TwoNG { d, ..with_more(s1, j, -dy) };
            let new_d = match found {
                Some(e) => e,
                None => 0,
            };
            (TwoNG { d, ..s1 }).paid(units(s1), j, y, k0, now, stable_d) == match left.tweaked(
                units(left),
                new_d,
                k0,
                now,
                stable_d,
            ) {
                Err(e) => Err(e),
                Ok(t) => Ok((t, (dy, fee))),
            }
        }),
{
    let xp = units(s1);
    let s2 = TwoNG { d, ..s1 };
    lemma_units(s1);
    lemma_owed_exact(get2(xp, j), y, get2(s1.precisions, j), s2.scale(j), dy + fee);
    assert(0 <= rate * (dy + fee)) by (nonlinear_arith)
        requires
            0 <= rate,
            0 <= dy + fee,
    ;
    lemma_fee_exact(rate, dy, fee);
    lemma_minus(get2(s1.balances, j), dy);
    let s3 = TwoNG { balances: set2(s2.balances, j, get2(s1.balances, j) - dy), ..s2 };
    lemma_less(s1, s3);
    lemma_units(s3);
    assert(set2(set2(xp, j, y), j, get2(units(s3), j)) == units(s3));
    assert(s3 == (TwoNG { d, ..with_more(s1, j, -dy) }));
}

/// Two pools that differ in nothing but balances and precisions are updated alike.
proof fn lemma_tweaked_alike(
    s: TwoNG,
    r: TwoNG,
    xp: (int, int),
    new_d: int,
    k0_prev: int,
    now: int,
    stable_d: SolveStableD,
)
    requires
        r == (TwoNG { balances: r.balances, precisions: r.precisions, ..s }),
    ensures
        match s.tweaked(xp, new_d, k0_prev, now, stable_d) {
            Err(_) => r.tweaked(xp, new_d, k0_prev, now, stable_d) is Err,
            Ok(t) => t.balances == s.balances && r.tweaked(xp, new_d, k0_prev, now, stable_d) == Ok::<_, Fault>(
                TwoNG { balances: r.balances, precisions: r.precisions, ..t },
            ),
        },
{
}

/// The same amounts in finer units are the same in common units.
proof fn lemma_finer(s: TwoNG, r: TwoNG, k: int, m: int, q: int)
    requires
        k == 0 || k == 1,
        countable(s),
        0 < m,
        0 < q,
        get2(s.precisions, k) == m * q,
        r == (TwoNG {
            balances: set2(s.balances, k, get2(s.balances, k) * m),
            precisions: set2(s.precisions, k, q),
            ..s
        }),
    ensures
        countable(r),
        units(r) == units(s),
        0 <= get2(s.balances, k) <= get2(s.balances, k) * m < modulus(),
{
    let x = get2(s.balances, k);
    let ps = s.price_scale;
    assert((x * m) * q == x * (m * q) && (x * m) * ps * q == x * ps * (m * q) && x <= x * m && x * m <= (x * m) * q
        && x * m <= (x * m) * ps * q) by (nonlinear_arith)
        requires
            0 <= x,
            0 < m,
            0 < q,
            0 < ps,
    ;
    lemma_units(s);
    lemma_units(r);
}

/// What is paid does not depend on the units of the coin that comes in.
proof fn lemma_paid_alike(
    s: TwoNG,
    r: TwoNG,
    xp: (int, int),
    i: int,
    j: int,
    m: int,
    y: int,
    k0_prev: int,
    now: int,
    stable_d: SolveStableD,
)
    requires
        0 <= i < 2,
        0 <= j < 2,
        i != j,
        r == (TwoNG {
            balances: set2(s.balances, i, get2(s.balances, i) * m),
            precisions: r.precisions,
            ..s
        }),
        get2(r.precisions, j) == get2(s.precisions, j),
    ensures
        match s.paid(xp, j, y, k0_prev, now, stable_d) {
            Err(_) => r.paid(xp, j, y, k0_prev, now, stable_d) is Err,
            Ok((t, out)) => r.paid(xp, j, y, k0_prev, now, stable_d) == Ok::<_, Fault>(
                (
                    TwoNG {
                        balances: set2(t.balances, i, get2(t.balances, i) * m),
                        precisions: r.precisions,
                        ..t
                    },
                    out,
                ),
            ),
        },
{
    let prec_j = get2(s.precisions, j);
    if let Ok(out) = gross_out(get2(xp, j), y, prec_j, s.scale(j)) {
        if let Ok(rate) = fee_2_model(set2(xp, j, y), s.mid_fee, s.out_fee, s.fee_gamma, s.is_stable) {
            let dy = out.minus(crate::pricing::fee_on(rate, out));
            let left = get2(s.balances, j).minus(dy);
            let xp2 = set2(set2(xp, j, y), j, in_units(left, prec_j, s.scale(j)));
            let s3 = TwoNG { balances: set2(s.balances, j, left), ..s };
            let r3 = TwoNG { balances: set2(r.balances, j, left), ..r };
            if let Ok(found) = s3.solved_d(xp2, k0_prev, stable_d) {
                let new_d = match found {
                    Some(d) => d,
                    None => 0,
                };
                lemma_tweaked_alike(s3, r3, xp2, new_d, k0_prev, now, stable_d);
            }
        }
    }
}

/// What an exchange comes to.
#[verifier::opaque]
spec fn traded(
    s: TwoNG,
    i: int,
    j: int,
    dx: int,
    now: int,
    stable_d: SolveStableD,
    stable_y: SolveStableY,
) -> Result<(TwoNG, Option<(int, int)>), Fault> {
    s.exchanged(i, j, dx, now, stable_d, stable_y)
}

/// What a trade comes to that starts from the balances `u` in common units with the invariant `d`.
#[verifier::opaque]
spec fn handed(
    s: TwoNG,
    u: (int, int),
    d: int,
    i: int,
    j: int,
    now: int,
    stable_d: SolveStableD,
    stable_y: SolveStableY,
) -> Result<(TwoNG, Option<(int, int)>), Fault> {
    match answer_y(s, u, d, i, j, stable_y) {
        Err(e) => Err(e),
        Ok(None) => Ok((TwoNG { d, ..s }, None)),
        Ok(Some((y, k0))) => match (TwoNG { d, ..s }).paid(u, j, y, k0, now, stable_d) {
            Err(e) => Err(e),
            Ok((t, out)) => Ok((t, Some(out))),
        },
    }
}

/// An exchange in two parts.
proof fn lemma_traded(
    s: TwoNG,
    i: int,
    j: int,
    dx: int,
    now: int,
    stable_d: SolveStableD,
    stable_y: SolveStableY,
)
    requires
        0 <= i < 2,
        0 <= j < 2,
        i != j,
        0 < dx,
        0 <= s.balances.0,
        0 <= s.balances.1,
        countable(with_more(s, i, dx)),
    ensures
        ({
            let s1 = with_more(s, i, dx);
            traded(s, i, j, dx, now, stable_d, stable_y) == match invariant_before(s, now, stable_d) {
                Err(e) => Err(e),
                Ok(None) => Ok((s1, None)),
                Ok(Some(d)) => handed(s1, units(s1), d, i, j, now, stable_d, stable_y),
            }
        }),
{
    reveal(traded);
    reveal(handed);
    lemma_exchanged(s, i, j, dx, now, stable_d, stable_y);
}

/// The second part does not depend on the units of the coin that comes in.
proof fn lemma_handed_alike(
    s: TwoNG,
    r: TwoNG,
    u: (int, int),
    d: int,
    i: int,
    j: int,
    m: int,
    now: int,
    stable_d: SolveStableD,
    stable_y: SolveStableY,
)
    requires
        0 <= i < 2,
        0 <= j < 2,
        i != j,
        r == (TwoNG {
            balances: set2(s.balances, i, get2(s.balances, i) * m),
            precisions: r.precisions,
            ..s
        }),
        get2(r.precisions, j) == get2(s.precisions, j),
    ensures
        match handed(s, u, d, i, j, now, stable_d, stable_y) {
            Err(_) => handed(r, u, d, i, j, now, stable_d, stable_y) is Err,
            Ok((t, out)) => handed(r, u, d, i, j, now, stable_d, stable_y) == Ok::<_, Fault>(
                (
                    TwoNG {
                        balances: set2(t.balances, i, get2(t.balances, i) * m),
                        precisions: r.precisions,
                        ..t
                    },
                    out,
                ),
            ),
        },
{
    reveal(handed);
    if let Ok(Some((y, k0))) = answer_y(s, u, d, i, j, stable_y) {
        lemma_paid_alike(TwoNG { d, ..s }, TwoNG { d, ..r }, u, i, j, m, y, k0, now, stable_d);
    }
}

/// An exchange does not depend on the units of the coin that comes in.
proof fn lemma_traded_alike(
    s: TwoNG,
    r: TwoNG,
    i: int,
    j: int,
    m: int,
    q: int,
    dx: int,
    now: int,
    stable_d: SolveStableD,
    stable_y: SolveStableY,
)
    requires
        0 <= i < 2,
        0 <= j < 2,
        i != j,
        0 < dx,
        0 <= s.balances.0,
        0 <= s.balances.1,
        countable(with_more(s, i, dx)),
        0 < m,
        0 < q,
        get2(s.precisions, i) == m * q,
        r == (TwoNG {
            balances: set2(s.balances, i, get2(s.balances, i) * m),
            precisions: set2(s.precisions, i, q),
            ..s
        }),
    ensures
        match traded(s, i, j, dx, now, stable_d, stable_y) {
            Err(_) => traded(r, i, j, dx * m, now, stable_d, stable_y) is Err,
            Ok((t, out)) => traded(r, i, j, dx * m, now, stable_d, stable_y) == Ok::<_, Fault>(
                (
                    TwoNG {
                        balances: set2(t.balances, i, get2(t.balances, i) * m),
                        precisions: r.precisions,
                        ..t
                    },
                    out,
                ),
            ),
        },
{
    let x0 = get2(s.balances, i);
    let s1 = with_more(s, i, dx);
    let r1 = with_more(r, i, dx * m);
    assert(x0 * m + dx * m == (x0 + dx) * m && 0 < dx * m && 0 <= x0 * m) by (nonlinear_arith)
        requires
            0 <= x0,
            0 < dx,
            0 < m,
    ;
    lemma_entry(s, i, dx);
    lemma_finer(s1, r1, i, m, q);
    lemma_finer(s, r, i, m, q);
    lemma_traded(s, i, j, dx, now, stable_d, stable_y);
    lemma_traded(r, i, j, dx * m, now, stable_d, stable_y);
    assert(invariant_before(r, now, stable_d) == invariant_before(s, now, stable_d));
    if let Ok(Some(d)) = invariant_before(s, now, stable_d) {
        lemma_handed_alike(s1, r1, units(s1), d, i, j, m, now, stable_d, stable_y);
    }
}

/// A pool whose coin that comes in counts in coarse units, and the same pool with that coin in units that
/// are `m` times finer, pay the same and keep the same fee for the same trade, and all else in their
/// states stays the same too.
pub proof fn law_exchange_decimals(
    s: TwoNG,
    r: TwoNG,
    i: int,
    j: int,
    m: int,
    q: int,
    dx: int,
    now: int,
    stable_d: SolveStableD,
    stable_y: SolveStableY,
)
    requires
        0 <= i < 2,
        0 <= j < 2,
        i != j,
        0 < dx,
        0 <= s.balances.0,
        0 <= s.balances.1,
        countable(with_more(s, i, dx)),
        0 < m,
        0 < q,
        get2(s.precisions, i) == m * q,
        r == (TwoNG {
            balances: set2(s.balances, i, get2(s.balances, i) * m),
            precisions: set2(s.precisions, i, q),
            ..s
        }),
    ensures
        match s.exchanged(i, j, dx, now, stable_d, stable_y) {
            Err(_) => r.exchanged(i, j, dx * m, now, stable_d, stable_y) is Err,
            Ok((t, out)) => r.exchanged(i, j, dx * m, now, stable_d, stable_y) == Ok::<_, Fault>(
                (
                    TwoNG {
                        balances: set2(t.balances, i, get2(t.balances, i) * m),
                        precisions: r.precisions,
                        ..t
                    },
                    out,
                ),
            ),
        },
{
    reveal(traded);
    lemma_traded_alike(s, r, i, j, m, q, dx, now, stable_d, stable_y);
}

/// The virtual price of an even split, from its square root rounded down.
proof fn lemma_worth(d: int, scale: int, supply: int, root: int)
    requires
        0 <= d,
        0 < scale,
        0 < supply,
        0 <= root,
        2 * scale < modulus(),
        d * WAD < modulus(),
        d / 2 * (d * WAD / (2 * scale)) < modulus() - 1,
        root * root <= d / 2 * (d * WAD / (2 * scale)) < (root + 1) * (root + 1),
        root * WAD < modulus(),
    ensures
        virtual_price_ng(d, scale, supply) == Ok::<_, Fault>(root * WAD / supply),
        0 <= root * WAD / supply < modulus(),
{
    lemma_times(2, scale);
    lemma_over(d, 2);
    lemma_share(d, WAD as int, 2 * scale);
    let (a, b) = (d / 2, d * WAD / (2 * scale));
    assert(0 <= a * b) by (nonlinear_arith)
        requires
            0 <= a,
            0 <= b,
    ;
    lemma_times(a, b);
    assert(is_isqrt(a * b, root));
    lemma_isqrt_floor(a * b, root);
    lemma_share(root, WAD as int, supply);
}

/// Whether a change of the balances to `xp` leaves the invariant `d`, the virtual price `v` and the profit
/// `profit` where the price scale does not move: `d` is what is known or what the solver answers, `v` is
/// the geometric mean of an even split per pool token, with `root` for its square root rounded down, and
/// the profit grows with the virtual price, by the difference in a stable pool and in proportion elsewhere.
pub open spec fn worth(
    s: TwoNG,
    xp: (int, int),
    new_d: int,
    k0_prev: int,
    stable_d: SolveStableD,
    d: int,
    root: int,
    v: int,
    profit: int,
) -> bool {
    &&& if new_d != 0 {
        d == new_d
    } else {
        match answer_d(s, xp, k0_prev, stable_d) {
            Err(_) => false,
            Ok(Some(found)) => d == found,
            Ok(None) => d == s.d,
        }
    }
    &&& 0 <= d
    &&& 0 < s.price_scale
    &&& 0 < s.total_supply
    &&& 0 < s.virtual_price
    &&& 2 * s.price_scale < modulus()
    &&& d * WAD < modulus()
    &&& d / 2 * (d * WAD / (2 * s.price_scale)) < modulus() - 1
    &&& 0 <= root
    &&& root * root <= d / 2 * (d * WAD / (2 * s.price_scale)) < (root + 1) * (root + 1)
    &&& root * WAD < modulus()
    &&& v == root * WAD / s.total_supply
    &&& 0 <= s.xcp_profit
    &&& if s.is_stable {
        0 <= s.xcp_profit + v - s.virtual_price && s.xcp_profit + v < modulus() && profit == s.xcp_profit + v
            - s.virtual_price
    } else {
        s.xcp_profit * v < modulus() && profit == s.xcp_profit * v / s.virtual_price
    }
}

proof fn lemma_worth_at(
    s: TwoNG,
    xp: (int, int),
    new_d: int,
    k0_prev: int,
    stable_d: SolveStableD,
    now: int,
    d: int,
    root: int,
    v: int,
    profit: int,
)
    requires
        worth(s, xp, new_d, k0_prev, stable_d, d, root, v, profit),
    ensures
        0 <= v,
        0 <= profit,
        s.invariant_at(xp, new_d, k0_prev, stable_d) == Ok::<_, Fault>(d),
        virtual_price_ng(d, s.price_scale, s.total_supply) == Ok::<_, Fault>(v),
        v < s.virtual_price && s.future_a_gamma_time < now ==> s.profit_at(d, now) == Ok::<_, Fault>(
            None::<(int, int)>,
        ),
        v >= s.virtual_price || s.future_a_gamma_time >= now ==> s.profit_at(d, now) == Ok::<_, Fault>(
            Some((v, profit)),
        ),
{
    lemma_worth(d, s.price_scale, s.total_supply, root);
    if s.is_stable {
        lemma_plus(s.xcp_profit, v);
        lemma_minus(s.xcp_profit + v, s.virtual_price);
    } else {
        lemma_share(s.xcp_profit, v, s.virtual_price);
    }
}

/// The price scale stays where it is whenever twice the virtual price of the unadjusted invariant less one
/// is at most the profit and twice the extra profit that the pool asks for, and in a stable pool whenever no
/// time has passed. The pool then takes the invariant of the new balances, its virtual price and the
/// profit.
pub proof fn law_tweak_threshold(
    s: TwoNG,
    t: TwoNG,
    xp: (int, int),
    new_d: int,
    k0_prev: int,
    now: int,
    stable_d: SolveStableD,
    d: int,
    root: int,
    v: int,
    profit: int,
)
    requires
        s.tweaked(xp, new_d, k0_prev, now, stable_d) == Ok::<_, Fault>(t),
        worth(s, xp, new_d, k0_prev, stable_d, d, root, v, profit),
        v >= s.virtual_price || s.future_a_gamma_time >= now,
        WAD <= 2 * v < modulus(),
        0 <= s.allowed_extra_profit,
        profit + 2 * s.allowed_extra_profit < modulus(),
        2 * v - WAD <= profit + 2 * s.allowed_extra_profit || (s.is_stable && now
            <= s.last_prices_timestamp),
    ensures
        t.price_scale == s.price_scale,
        t.d == d,
        t.virtual_price == v,
        t.xcp_profit == profit,
{
    let s0 = s.with_average(now)->Ok_0;
    lemma_worth_at(s0, xp, new_d, k0_prev, stable_d, now, d, root, v, profit);
    lemma_allows(v, profit, s.allowed_extra_profit);
}

/// The price scale of a pool is the same after an exchange as before it whenever twice the virtual price less
/// one, with the virtual price of the invariant of what is left in the pool, is at most the new profit and
/// twice the extra profit that the pool asks for. The new virtual price and profit are then these.
pub proof fn law_exchange_threshold(
    s: TwoNG,
    t: TwoNG,
    i: int,
    j: int,
    dx: int,
    now: int,
    stable_d: SolveStableD,
    stable_y: SolveStableY,
    dy: int,
    fee: int,
    d0: int,
    y: int,
    k0: int,
    d: int,
    root: int,
    v: int,
    profit: int,
)
    requires
        0 <= i < 2,
        0 <= j < 2,
        i != j,
        0 < dx,
        0 <= s.balances.0,
        0 <= s.balances.1,
        countable(with_more(s, i, dx)),
        s.exchanged(i, j, dx, now, stable_d, stable_y) == Ok::<_, Fault>((t, Some((dy, fee)))),
        0 <= dy <= get2(s.balances, j),
        dy + fee < modulus(),
        invariant_before(s, now, stable_d) == Ok::<_, Fault>(Some(d0)),
        answer_y(s, units(with_more(s, i, dx)), d0, i, j, stable_y) == Ok::<_, Fault>(Some((y, k0))),
        0 <= y < get2(units(with_more(s, i, dx)), j),
        worth(
            TwoNG { d: d0, ..s },
            units(with_more(with_more(s, i, dx), j, -dy)),
            0,
            k0,
            stable_d,
            d,
            root,
            v,
            profit,
        ),
        v >= s.virtual_price || s.future_a_gamma_time >= now,
        WAD <= 2 * v < modulus(),
        0 <= s.allowed_extra_profit,
        profit + 2 * s.allowed_extra_profit < modulus(),
        2 * v - WAD <= profit + 2 * s.allowed_extra_profit,
    ensures
        t.price_scale == s.price_scale,
        t.d == d,
        t.virtual_price == v,
        t.xcp_profit == profit,
{
    law_exchange_payout(s, i, j, dx, now, stable_d, stable_y);
    let left = TwoNG { d: d0, ..with_more(with_more(s, i, dx), j, -dy) };
    let found = answer_d(s, units(left), k0, stable_d)->Ok_0;
    let new_d = match found {
        Some(e) => e,
        None => 0,
    };
    law_tweak_threshold(left, t, units(left), new_d, k0, now, stable_d, d, root, v, profit);
}

/// An update goes through where the time constant is not zero, the balances have an invariant and a price at
/// the margin, and the price scale does not move.
pub proof fn law_tweak_goes_through(
    s: TwoNG,
    xp: (int, int),
    new_d: int,
    k0_prev: int,
    now: int,
    stable_d: SolveStableD,
    d: int,
    root: int,
    v: int,
    profit: int,
)
    requires
        now <= s.last_prices_timestamp || (0 < s.ma_time && (now - s.last_prices_timestamp) * WAD < half()),
        worth(s, xp, new_d, k0_prev, stable_d, d, root, v, profit),
        if s.is_stable {
            get_p_2_stable_model(xp, d, s.ann) is Ok
        } else {
            get_p_2_model(xp, d, s.ann, s.gamma) is Ok
        },
        WAD <= 2 * v < modulus(),
        0 <= s.allowed_extra_profit,
        profit + 2 * s.allowed_extra_profit < modulus(),
        2 * v - WAD <= profit + 2 * s.allowed_extra_profit || (s.is_stable && now
            <= s.last_prices_timestamp),
    ensures
        s.tweaked(xp, new_d, k0_prev, now, stable_d) is Ok,
{
    if now > s.last_prices_timestamp {
        let dt = now - s.last_prices_timestamp;
        lemma_share(dt, WAD as int, s.ma_time);
        lemma_wad_exp(-(dt * WAD / s.ma_time));
    }
    let s0 = s.with_average(now)->Ok_0;
    lemma_worth_at(s0, xp, new_d, k0_prev, stable_d, now, d, root, v, profit);
    lemma_allows(v, profit, s.allowed_extra_profit);
}

/// Where the virtual price would fall while the parameters do not change, only the prices that were seen
/// are noted.
pub proof fn law_tweak_loss(
    s: TwoNG,
    t: TwoNG,
    xp: (int, int),
    new_d: int,
    k0_prev: int,
    now: int,
    stable_d: SolveStableD,
    d: int,
    root: int,
    v: int,
    profit: int,
)
    requires
        s.tweaked(xp, new_d, k0_prev, now, stable_d) == Ok::<_, Fault>(t),
        worth(s, xp, new_d, k0_prev, stable_d, d, root, v, profit),
        v < s.virtual_price,
        s.future_a_gamma_time < now,
    ensures
        t == (TwoNG {
            last_prices: t.last_prices,
            price_oracle: t.price_oracle,
            last_prices_timestamp: t.last_prices_timestamp,
            ..s
        }),
{
    let s0 = s.with_average(now)->Ok_0;
    lemma_worth_at(s0, xp, new_d, k0_prev, stable_d, now, d, root, v, profit);
}

/// A pool that has no virtual price yet starts at one, with a profit of one and the price scale that it has.
pub proof fn law_tweak_first(
    s: TwoNG,
    t: TwoNG,
    xp: (int, int),
    new_d: int,
    k0_prev: int,
    now: int,
    stable_d: SolveStableD,
)
    requires
        s.tweaked(xp, new_d, k0_prev, now, stable_d) == Ok::<_, Fault>(t),
        s.virtual_price == 0,
    ensures
        t.virtual_price == WAD,
        t.xcp_profit == WAD,
        t.price_scale == s.price_scale,
        new_d != 0 ==> t.d == new_d,
{
}

/// What an update touches: the prices, the invariant, the virtual price and the profit.
pub proof fn law_tweak_touches(
    s: TwoNG,
    t: TwoNG,
    xp: (int, int),
    new_d: int,
    k0_prev: int,
    now: int,
    stable_d: SolveStableD,
)
    requires
        s.tweaked(xp, new_d, k0_prev, now, stable_d) == Ok::<_, Fault>(t),
    ensures
        t == (TwoNG {
            price_scale: t.price_scale,
            price_oracle: t.price_oracle,
            last_prices: t.last_prices,
            last_prices_timestamp: if s.last_prices_timestamp < now {
                now
            } else {
                s.last_prices_timestamp
            },
            d: t.d,
            virtual_price: t.virtual_price,
            xcp_profit: t.xcp_profit,
            ..s
        }),
{
}

/// When the price scale moves and to where. It moves only where the oracle is farther from it than the
/// step, which is a fifth of the distance or `adjustment_step` where that is more, and where the
/// profit leaves room, in a stable pool only where time has passed. It then moves that step of the way to
/// the oracle, as long as the virtual price at the new scale, with `r` for the square root in it, stays above
/// one and twice of it less one above the profit.
pub proof fn law_tweak_move(
    s: TwoNG,
    t: TwoNG,
    xp: (int, int),
    new_d: int,
    k0_prev: int,
    now: int,
    stable_d: SolveStableD,
    d: int,
    root: int,
    v: int,
    profit: int,
    norm: int,
    step: int,
    r: int,
)
    requires
        s.tweaked(xp, new_d, k0_prev, now, stable_d) == Ok::<_, Fault>(t),
        worth(s, xp, new_d, k0_prev, stable_d, d, root, v, profit),
        v >= s.virtual_price || s.future_a_gamma_time >= now,
        WAD <= 2 * v < modulus(),
        0 <= s.allowed_extra_profit,
        profit + 2 * s.allowed_extra_profit < modulus(),
        0 <= xp.1,
        0 <= t.price_oracle,
        t.price_oracle * WAD < modulus(),
        norm == (if t.price_oracle * WAD / s.price_scale > WAD {
            t.price_oracle * WAD / s.price_scale - WAD
        } else {
            WAD - t.price_oracle * WAD / s.price_scale
        }),
        step == (if s.adjustment_step > norm / 5 { s.adjustment_step } else { norm / 5 }),
        step < norm ==> s.price_scale * (norm - step) + step * t.price_oracle < modulus(),
    ensures
        t.xcp_profit == profit,
        step >= norm ==> t.price_scale == s.price_scale && t.d == d && t.virtual_price == v,
        step < norm && 2 * v - WAD > profit + 2 * s.allowed_extra_profit && (!s.is_stable || now
            > s.last_prices_timestamp) ==> {
            let c = (s.price_scale * (norm - step) + step * t.price_oracle) / norm;
            xp.1 * c < modulus() ==> match answer_d(s, (xp.0, xp.1 * c / s.price_scale), 0, stable_d) {
                Err(_) => false,
                Ok(None) => t.price_scale == s.price_scale && t.d == d && t.virtual_price == v,
                Ok(Some(e)) => {
                    let product = e / 2 * (e * WAD / (2 * c));
                    let w = r * WAD / s.total_supply;
                    0 <= e && 0 < c && 2 * c < modulus() && e * WAD < modulus() && product < modulus() - 1 && 0
                        <= r && r * r <= product < (r + 1) * (r + 1) && r * WAD < modulus() && 2 * w
                        < modulus() ==> if w > WAD && 2 * w - WAD > profit {
                        t.price_scale == c && t.d == e && t.virtual_price == w
                    } else {
                        t.price_scale == s.price_scale && t.d == d && t.virtual_price == v
                    }
                },
            }
        },
{
    let s0 = s.with_average(now)->Ok_0;
    lemma_worth_at(s0, xp, new_d, k0_prev, stable_d, now, d, root, v, profit);
    lemma_allows(v, profit, s.allowed_extra_profit);
    assert(s0.price_oracle == t.price_oracle);
    lemma_deviation(t.price_oracle, s.price_scale);
    lemma_step(s.adjustment_step, norm);
    if step < norm {
        lemma_moved_scale(s.price_scale, t.price_oracle, norm, step);
        let c = (s.price_scale * (norm - step) + step * t.price_oracle) / norm;
        if xp.1 * c < modulus() {
            lemma_share(xp.1, c, s.price_scale);
            if let Ok(Some(e)) = answer_d(s, (xp.0, xp.1 * c / s.price_scale), 0, stable_d) {
                if 0 <= e && 0 < c && 0 <= r && 2 * c < modulus() && e * WAD < modulus() && e / 2 * (e * WAD / (2
                    * c)) < modulus() - 1 && r * r <= e / 2 * (e * WAD / (2 * c)) < (r + 1) * (r + 1) && r * WAD
                    < modulus() && 2 * (r * WAD / s.total_supply) < modulus() {
                    lemma_worth(e, c, s.total_supply, r);
                    lemma_keeps(r * WAD / s.total_supply, profit);
                }
            }
        }
    }
}

/// The average moves toward the last price, which counts for at most twice the price scale, with the weight
/// that is left of the old average after the time that has passed; it stays where no time has passed.
pub proof fn law_tweak_oracle(
    s: TwoNG,
    t: TwoNG,
    xp: (int, int),
    new_d: int,
    k0_prev: int,
    now: int,
    stable_d: SolveStableD,
)
    requires
        s.tweaked(xp, new_d, k0_prev, now, stable_d) == Ok::<_, Fault>(t),
        0 <= s.last_prices,
        0 <= s.price_oracle,
        0 <= s.price_scale,
        2 * s.price_scale < modulus(),
        s.last_prices * WAD + s.price_oracle * WAD < modulus(),
        0 < s.ma_time,
        0 <= (now - s.last_prices_timestamp) * WAD < modulus() || now <= s.last_prices_timestamp,
    ensures
        now <= s.last_prices_timestamp ==> t.price_oracle == s.price_oracle,
        now > s.last_prices_timestamp ==> {
            let last = if s.last_prices < 2 * s.price_scale {
                s.last_prices
            } else {
                2 * s.price_scale
            };
            wad_exp_model(-((now - s.last_prices_timestamp) * WAD / s.ma_time)) matches Ok(alpha) && {
                &&& 0 <= alpha <= WAD
                &&& t.price_oracle == (last * (WAD - alpha) + s.price_oracle * alpha) / (WAD as int)
            }
        },
{
    if now > s.last_prices_timestamp {
        let w = WAD as int;
        let dt = now - s.last_prices_timestamp;
        lemma_share(dt, w, s.ma_time);
        let q = dt * w / s.ma_time;
        lemma_wad_exp(-q);
        let alpha = wad_exp_model(-q)->Ok_0;
        lemma_times(2, s.price_scale);
        let last = if s.last_prices < 2 * s.price_scale {
            s.last_prices
        } else {
            2 * s.price_scale
        };
        let o = s.price_oracle;
        let l = s.last_prices;
        assert(last * (w - alpha) <= l * w && o * alpha <= o * w) by (nonlinear_arith)
            requires
                0 <= last <= l,
                0 <= o,
                0 <= alpha <= w,
        ;
        lemma_moved_average(last, o, alpha);
    }
}

/// The last price is the price at the margin of the new balances, times the price scale.
pub proof fn law_tweak_price(
    s: TwoNG,
    t: TwoNG,
    xp: (int, int),
    new_d: int,
    k0_prev: int,
    now: int,
    stable_d: SolveStableD,
    d: int,
)
    requires
        s.tweaked(xp, new_d, k0_prev, now, stable_d) == Ok::<_, Fault>(t),
        if new_d != 0 {
            d == new_d
        } else {
            match answer_d(s, xp, k0_prev, stable_d) {
                Err(_) => false,
                Ok(Some(found)) => d == found,
                Ok(None) => d == s.d,
            }
        },
    ensures
        (if s.is_stable {
            get_p_2_stable_model(xp, d, s.ann)
        } else {
            get_p_2_model(xp, d, s.ann, s.gamma)
        }) matches Ok(v) && (0 <= v * s.price_scale < modulus() ==> t.last_prices * WAD <= v * s.price_scale
            < (t.last_prices + 1) * WAD),
{
    let p = if s.is_stable {
        get_p_2_stable_model(xp, d, s.ann)
    } else {
        get_p_2_model(xp, d, s.ann, s.gamma)
    };
    if let Ok(v) = p {
        if 0 <= v * s.price_scale < modulus() {
            lemma_times(v, s.price_scale);
            lemma_per_wad(v * s.price_scale);
            lemma_quotient(v * s.price_scale, WAD as int);
        }
    }
}

/// At an even split in common units a coin costs what its price scale says.
pub proof fn law_price_even(x: int, d: int, ann: int, gamma: int, k0: int, slope: int)
    requires
        0 < x,
        0 < d,
        4 * x * x < modulus(),
        4 * x * x / d * 1_000_000_000_000_000_000_000_000_000_000_000_000 < modulus(),
        k0 == 4 * x * x / d * 1_000_000_000_000_000_000_000_000_000_000_000_000 / d,
        slope == slope_model(x, d, k0, gk0_model(k0, gamma), nnag2_model(ann, gamma)),
        0 < slope,
        x * slope < modulus(),
        slope * WAD < modulus(),
    ensures
        get_p_2_model((x, x), d, ann, gamma) == Ok::<_, Fault>(WAD as int),
{
    let unit = 1_000_000_000_000_000_000_000_000_000_000_000_000int;
    lemma_product(4, x, x);
    lemma_times(4, x);
    assert(4 * x <= 4 * x * x) by (nonlinear_arith)
        requires
            0 < x,
    ;
    lemma_over(4 * x * x, d);
    lemma_quotient(4 * x * x, d);
    lemma_times(4 * x * x / d, unit);
    lemma_over(4 * x * x / d * unit, d);
    lemma_share(x, slope, x);
    lemma_share(slope, WAD as int, slope);
    assert(x * slope / x == slope && slope * WAD / slope == WAD) by (nonlinear_arith)
        requires
            0 < x,
            0 < slope,
    ;
}

/// In a stable pool the scarcer coin is the dearer one: the second costs at least what its price scale says
/// where there is no more of it in common units, at most that where there is no less, and just that at an
/// even split.
pub proof fn law_stable_price(x: (int, int), d: int, ann: int, weight: int, dr: int)
    requires
        0 < x.0,
        0 < x.1,
        0 <= d,
        0 <= ann,
        d / 4 * d < modulus(),
        d / 4 * d / x.0 * d < modulus(),
        dr == d / 4 * d / x.0 * d / x.1,
        ann * 2 * x.0 < modulus(),
        weight == ann * 2 * x.0 / (A_MULTIPLIER as int),
        0 < weight + dr,
        weight + dr < modulus(),
        dr * x.0 < modulus(),
        weight + dr * x.0 / x.1 < modulus(),
        WAD * (weight + dr * x.0 / x.1) < modulus(),
    ensures
        get_p_2_stable_model(x, d, ann) matches Ok(v) && {
            &&& x.0 >= x.1 ==> v >= WAD
            &&& x.0 <= x.1 ==> v <= WAD
            &&& v * (weight + dr) <= WAD * (weight + dr * x.0 / x.1) < (v + 1) * (weight + dr)
        },
{
    let w = WAD as int;
    lemma_over(d, 4);
    lemma_quotient(d, 4);
    let a = d / 4;
    lemma_share(a, d, x.0);
    let b = a * d / x.0;
    lemma_share(b, d, x.1);
    assert(ann * 2 <= ann * 2 * x.0) by (nonlinear_arith)
        requires
            0 <= ann,
            0 < x.0,
    ;
    lemma_times(ann, 2);
    lemma_share(ann * 2, x.0, A_MULTIPLIER as int);
    lemma_share(dr, x.0, x.1);
    let n = dr * x.0 / x.1;
    assert((x.0 >= x.1 ==> n >= dr) && (x.0 <= x.1 ==> n <= dr)) by (nonlinear_arith)
        requires
            n == dr * x.0 / x.1,
            0 <= dr,
            0 < x.0,
            0 < x.1,
    ;
    lemma_plus(weight, n);
    lemma_plus(weight, dr);
    lemma_share(w, weight + n, weight + dr);
    let v = w * (weight + n) / (weight + dr);
    assert((n >= dr ==> v >= w) && (n <= dr ==> v <= w)) by (nonlinear_arith)
        requires
            v == w * (weight + n) / (weight + dr),
            0 <= w,
            0 < weight + dr,
            0 <= weight + n,
    ;
}

} // verus!
