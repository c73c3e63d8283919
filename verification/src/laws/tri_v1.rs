//! Three-coin pools of the first generation.
use super::{
    lemma_allows, lemma_claimed, lemma_fee_exact, lemma_half, lemma_keeps, lemma_kept,
    lemma_moved_average, lemma_moved_scale, lemma_none_minted, lemma_norm, lemma_owed, lemma_owed_exact, lemma_per_wad,
    lemma_product, lemma_share, lemma_step, lemma_trade_price_defined,
};
use crate::callbacks::SolveY3;
use crate::coins::{get2, get3, set3};
use crate::exchange::{halfpow_model, lemma_half_life};
use crate::exchange_tricrypto_v1::{
    fee_3_model, geometric_mean_3_model, newton_d_3_v1_model, virtual_price_3, TriV1,
};
use crate::fault::Fault;
use crate::newton::{FEE_DENOMINATOR, WAD};
use crate::pricing::{gross_out, in_units, moved_average};
use crate::uint::{lemma_minus, lemma_over, lemma_plus, lemma_times, modulus, Word};
use vstd::prelude::*;

verus! {

/// Whether the amounts of a pool are numbers that its common units can hold.
pub open spec fn countable(s: TriV1) -> bool {
    &&& 0 <= s.balances.0
    &&& 0 <= s.balances.1
    &&& 0 <= s.balances.2
    &&& 0 < s.precisions.0
    &&& 0 < s.precisions.1
    &&& 0 < s.precisions.2
    &&& 0 < s.price_scale.0
    &&& 0 < s.price_scale.1
    &&& s.balances.0 * s.precisions.0 < modulus()
    &&& s.balances.1 * s.price_scale.0 * s.precisions.1 < modulus()
    &&& s.balances.2 * s.price_scale.1 * s.precisions.2 < modulus()
}

/// What a pool holds in common units: the first coin times its precision, each other coin times its price and
/// its precision.
pub open spec fn units(s: TriV1) -> (int, int, int) {
    (
        s.balances.0 * s.precisions.0,
        s.balances.1 * s.price_scale.0 * s.precisions.1 / (WAD as int),
        s.balances.2 * s.price_scale.1 * s.precisions.2 / (WAD as int),
    )
}

/// The same pool with `amount` more of coin `k`.
pub open spec fn with_more(s: TriV1, k: int, amount: int) -> TriV1 {
    TriV1 {
        balances: (
            s.balances.0 + (if k == 0 { amount } else { 0 }),
            s.balances.1 + (if k == 1 { amount } else { 0 }),
            s.balances.2 + (if k == 2 { amount } else { 0 }),
        ),
        ..s
    }
}

/// The balances that the solvers see.
proof fn lemma_units(s: TriV1)
    requires
        countable(s),
    ensures
        s.normalized() == units(s),
        0 <= units(s).0 < modulus(),
        0 <= units(s).1,
        0 <= units(s).2,
        units(s).1 * WAD < modulus(),
        units(s).2 * WAD < modulus(),
        in_units(s.balances.0, s.precisions.0, s.scale(0)) == units(s).0,
        in_units(s.balances.1, s.precisions.1, s.scale(1)) == units(s).1,
        in_units(s.balances.2, s.precisions.2, s.scale(2)) == units(s).2,
        s.balances.0 < modulus(),
        s.balances.1 < modulus(),
        s.balances.2 < modulus(),
        s.balances.1 * s.precisions.1 < modulus(),
        s.balances.2 * s.precisions.2 < modulus(),
{
    let (b, p, c) = (s.balances, s.precisions, s.price_scale);
    assert(0 <= b.0 <= b.0 * p.0 && b.0 * p.0 == p.0 * b.0 && b.1 * p.1 == p.1 * b.1 && b.2 * p.2 == p.2 * b.2)
        by (nonlinear_arith)
        requires
            0 <= b.0,
            0 < p.0,
    ;
    lemma_times(b.0, p.0);
    lemma_times(p.0, b.0);
    lemma_product(b.1, c.0, p.1);
    lemma_per_wad(b.1 * c.0 * p.1);
    lemma_product(b.2, c.1, p.2);
    lemma_per_wad(b.2 * c.1 * p.2);
    lemma_times(b.1, p.1);
    lemma_times(p.1, b.1);
    lemma_times(b.2, p.2);
    lemma_times(p.2, b.2);
}

/// The balances of a pool in common units: the first coin times its precision, each other coin times its
/// price and its precision.
pub proof fn law_common_units(s: TriV1)
    requires
        countable(s),
    ensures
        s.normalized() == (
            s.balances.0 * s.precisions.0,
            s.balances.1 * s.price_scale.0 * s.precisions.1 / (WAD as int),
            s.balances.2 * s.price_scale.1 * s.precisions.2 / (WAD as int),
        ),
{
    lemma_units(s);
}

/// Smaller balances are smaller in common units.
proof fn lemma_less(s: TriV1, r: TriV1)
    requires
        countable(s),
        0 <= r.balances.0 <= s.balances.0,
        0 <= r.balances.1 <= s.balances.1,
        0 <= r.balances.2 <= s.balances.2,
        r.precisions == s.precisions,
        r.price_scale == s.price_scale,
    ensures
        countable(r),
{
    let (z, x) = (r.balances, s.balances);
    let (p, c) = (s.precisions, s.price_scale);
    assert(z.0 * p.0 <= x.0 * p.0) by (nonlinear_arith)
        requires
            0 <= z.0 <= x.0,
            0 < p.0,
    ;
    assert(z.1 * c.0 * p.1 <= x.1 * c.0 * p.1) by (nonlinear_arith)
        requires
            0 <= z.1 <= x.1,
            0 < p.1,
            0 < c.0,
    ;
    assert(z.2 * c.1 * p.2 <= x.2 * c.1 * p.2) by (nonlinear_arith)
        requires
            0 <= z.2 <= x.2,
            0 < p.2,
            0 < c.1,
    ;
}

/// What comes in is added to the balance of its coin, and what was there before is seen in common units.
proof fn lemma_entry(s: TriV1, i: int, dx: int)
    requires
        0 <= i < 3,
        0 < dx,
        0 <= s.balances.0,
        0 <= s.balances.1,
        0 <= s.balances.2,
        countable(with_more(s, i, dx)),
    ensures
        with_more(s, i, dx) == (TriV1 {
            balances: set3(s.balances, i, get3(s.balances, i).plus(dx)),
            ..s
        }),
        with_more(s, i, dx).normalized() == units(with_more(s, i, dx)),
        set3(
            units(with_more(s, i, dx)),
            i,
            in_units(get3(s.balances, i), get3(s.precisions, i), s.scale(i)),
        ) == units(s),
        countable(s),
{
    let s1 = with_more(s, i, dx);
    lemma_units(s1);
    lemma_plus(get3(s.balances, i), dx);
    lemma_less(s1, s);
    lemma_units(s);
}

/// The invariant with which a trade is solved.
pub open spec fn invariant_before(s: TriV1) -> Result<Option<int>, Fault> {
    if s.future_a_gamma_time == 0 {
        Ok(Some(s.d))
    } else {
        newton_d_3_v1_model(s.ann, s.gamma, units(s))
    }
}

/// The end of a change of parameters once a trade has seen it: one where it lies in the past.
pub open spec fn time_before(s: TriV1, now: int) -> int {
    if s.future_a_gamma_time != 0 && s.future_a_gamma_time <= now {
        1
    } else {
        s.future_a_gamma_time
    }
}

/// An exchange in terms of what the pool holds in common units.
proof fn lemma_exchanged(s: TriV1, i: int, j: int, dx: int, now: int, solve_y: SolveY3)
    requires
        0 <= i < 3,
        0 <= j < 3,
        i != j,
        0 < dx,
        0 <= s.balances.0,
        0 <= s.balances.1,
        0 <= s.balances.2,
        countable(with_more(s, i, dx)),
    ensures
        ({
            let s1 = with_more(s, i, dx);
            let time = time_before(s, now);
            s.exchanged(i, j, dx, now, solve_y) == match invariant_before(s) {
                Err(e) => Err(e),
                Ok(None) => Ok((s1, None)),
                Ok(Some(d)) => match solve_y(s.ann, s.gamma, units(s1), d, j) {
                    None => Ok((TriV1 { d, future_a_gamma_time: time, ..s1 }, None)),
                    Some(y) => match (TriV1 { d, future_a_gamma_time: time, ..s1 }).paid(
                        units(s1),
                        i,
                        j,
                        dx,
                        y,
                        now,
                        solve_y,
                    ) {
                        Err(e) => Err(e),
                        Ok((t, out)) => Ok((t, Some(out))),
                    },
                },
            }
        }),
{
    lemma_entry(s, i, dx);
}

/// Whether `dy` and `fee` are what a pool owes in coin `j` when its balance goes from that in `u` to `y`, both in
/// common units: together they come to the difference less one, short of less than one unit of the coin, and
/// the fee is the rate for the balances without what goes out, rounded down.
pub open spec fn owes(s: TriV1, u: (int, int, int), j: int, y: int, dy: int, fee: int) -> bool {
    let e = dy + fee;
    &&& fee_3_model(
        (if j == 0 { y } else { u.0 }, if j == 1 { y } else { u.1 }, if j == 2 { y } else { u.2 }),
        s.mid_fee,
        s.out_fee,
        s.fee_gamma,
    ) matches Ok(rate)
    &&& 0 <= rate * e < modulus() ==> fee * FEE_DENOMINATOR <= rate * e < (fee + 1) * FEE_DENOMINATOR
    &&& j == 0 ==> e * s.precisions.0 <= u.0 - y - 1 < (e + 1) * s.precisions.0
    &&& j == 1 ==> e * (s.price_scale.0 * s.precisions.1) <= (u.1 - y - 1) * WAD < (e + 1) * (s.price_scale.0
        * s.precisions.1)
    &&& j == 2 ==> e * (s.price_scale.1 * s.precisions.2) <= (u.2 - y - 1) * WAD < (e + 1) * (s.price_scale.1
        * s.precisions.2)
}

/// What an exchange pays is counted in the units of the coin that goes out. The solver is asked with
/// what the pool holds, what came in included, in common units: the first coin times its precision, each
/// other coin times its price and its precision. What it finds that the pool can do without, less one unit,
/// is paid out and kept as the fee, short of less than one unit of the coin that goes out. Where the
/// solver has no answer, nothing is paid and what came in stays. While the parameters change, `D` is what the solver
/// finds for the balances before the trade. The rest of the update runs with what is left in the pool.
pub proof fn law_exchange_payout(s: TriV1, i: int, j: int, dx: int, now: int, solve_y: SolveY3)
    requires
        0 <= i < 3,
        0 <= j < 3,
        i != j,
        0 < dx,
        0 <= s.balances.0,
        0 <= s.balances.1,
        0 <= s.balances.2,
        countable(with_more(s, i, dx)),
    ensures
        s.exchanged(i, j, dx, now, solve_y) matches Ok((t, out)) ==> {
            let u = units(with_more(s, i, dx));
            match invariant_before(s) {
                Err(_) => false,
                Ok(None) => out is None && t == with_more(s, i, dx),
                Ok(Some(d)) => match solve_y(s.ann, s.gamma, u, d, j) {
                    None => out is None && t == (TriV1 {
                        d,
                        future_a_gamma_time: time_before(s, now),
                        ..with_more(s, i, dx)
                    }),
                    Some(y) => out matches Some((dy, fee)) && (0 <= y < get3(u, j) && dy + fee < modulus() ==> {
                        &&& owes(s, u, j, y, dy, fee)
                        &&& 0 <= dy <= get3(s.balances, j) ==> {
                            let left = TriV1 {
                                d,
                                future_a_gamma_time: time_before(s, now),
                                ..with_more(with_more(s, i, dx), j, -dy)
                            };
                            left.tweaked(units(left), 0, now, solve_y) == Ok::<_, Fault>(t)
                        }
                    }),
                },
            }
        },
{
    let s1 = with_more(s, i, dx);
    lemma_exchanged(s, i, j, dx, now, solve_y);
    if let Ok(Some(d)) = invariant_before(s) {
        if let Some(y) = solve_y(s.ann, s.gamma, units(s1), d, j) {
            lemma_payout(s1, d, time_before(s, now), i, j, dx, y, now, solve_y);
        }
    }
}

/// What is paid out of a pool that the solver has seen.
proof fn lemma_payout(
    s1: TriV1,
    d: int,
    time: int,
    i: int,
    j: int,
    dx: int,
    y: int,
    now: int,
    solve_y: SolveY3,
)
    requires
        0 <= j < 3,
        countable(s1),
    ensures
        (TriV1 { d, future_a_gamma_time: time, ..s1 }).paid(
            units(s1),
            i,
            j,
            dx,
            y,
            now,
            solve_y,
        ) matches Ok((t, (dy, fee))) ==> (0 <= y < get3(units(s1), j) && dy + fee < modulus() ==> {
            &&& owes(s1, units(s1), j, y, dy, fee)
            &&& 0 <= dy <= get3(s1.balances, j) ==> {
                let left = TriV1 { d, future_a_gamma_time: time, ..with_more(s1, j, -dy) };
                left.tweaked(units(left), 0, now, solve_y) == Ok::<_, Fault>(t)
            }
        }),
{
    let xp = units(s1);
    let s2 = TriV1 { d, future_a_gamma_time: time, ..s1 };
    lemma_units(s1);
    let x_j = get3(xp, j);
    let prec_j = get3(s1.precisions, j);
    if 0 <= y < x_j {
        lemma_owed(x_j, y, prec_j, s2.scale(j));
        let e = gross_out(x_j, y, prec_j, s2.scale(j))->Ok_0;
        if let Ok(rate) = fee_3_model(set3(xp, j, y), s1.mid_fee, s1.out_fee, s1.fee_gamma) {
            lemma_kept(rate, e);
        }
        if let Ok((t, (dy, fee))) = s2.paid(xp, i, j, dx, y, now, solve_y) {
            if 0 <= dy <= get3(s1.balances, j) {
                lemma_minus(get3(s1.balances, j), dy);
                let s3 = TriV1 { balances: set3(s2.balances, j, get3(s1.balances, j) - dy), ..s2 };
                lemma_less(s1, s3);
                lemma_units(s3);
                assert(set3(set3(xp, j, y), j, get3(units(s3), j)) == units(s3));
                assert(s3 == (TriV1 { d, future_a_gamma_time: time, ..with_more(s1, j, -dy) }));
            }
        }
    }
}

/// An exchange goes through whenever the solver has an answer, the fee has a rate and the update goes
/// through, and pays just what is owed.
pub proof fn law_exchange_goes_through(
    s: TriV1,
    i: int,
    j: int,
    dx: int,
    now: int,
    solve_y: SolveY3,
    d: int,
    y: int,
    rate: int,
    dy: int,
    fee: int,
)
    requires
        0 <= i < 3,
        0 <= j < 3,
        i != j,
        0 < dx,
        0 <= s.balances.0,
        0 <= s.balances.1,
        0 <= s.balances.2,
        countable(with_more(s, i, dx)),
        invariant_before(s) == Ok::<_, Fault>(Some(d)),
        solve_y(s.ann, s.gamma, units(with_more(s, i, dx)), d, j) == Some(y),
        0 <= y < get3(units(with_more(s, i, dx)), j),
        fee_3_model(set3(units(with_more(s, i, dx)), j, y), s.mid_fee, s.out_fee, s.fee_gamma) == Ok::<_, Fault>(
            rate,
        ),
        0 <= rate,
        0 <= dy <= get3(s.balances, j),
        0 <= fee,
        dy + fee < modulus(),
        rate * (dy + fee) < modulus(),
        owes(s, units(with_more(s, i, dx)), j, y, dy, fee),
        dx * get3(s.precisions, i) * WAD < modulus(),
        dy * get3(s.precisions, j) * WAD < modulus(),
    ensures
        ({
            let left = TriV1 {
                d,
                future_a_gamma_time: time_before(s, now),
                ..with_more(with_more(s, i, dx), j, -dy)
            };
            s.exchanged(i, j, dx, now, solve_y) == match left.tweaked(units(left), 0, now, solve_y) {
                Err(e) => Err(e),
                Ok(t) => Ok((t, Some((dy, fee)))),
            }
        }),
{
    lemma_exchanged(s, i, j, dx, now, solve_y);
    lemma_paid_exact(
        with_more(s, i, dx),
        d,
        time_before(s, now),
        i,
        j,
        dx,
        y,
        now,
        solve_y,
        rate,
        dy,
        fee,
    );
}

proof fn lemma_paid_exact(
    s1: TriV1,
    d: int,
    time: int,
    i: int,
    j: int,
    dx: int,
    y: int,
    now: int,
    solve_y: SolveY3,
    rate: int,
    dy: int,
    fee: int,
)
    requires
        0 <= i < 3,
        0 <= j < 3,
        countable(s1),
        0 < dx,
        0 <= y < get3(units(s1), j),
        fee_3_model(set3(units(s1), j, y), s1.mid_fee, s1.out_fee, s1.fee_gamma) == Ok::<_, Fault>(rate),
        0 <= rate,
        0 <= dy <= get3(s1.balances, j),
        0 <= fee,
        dy + fee < modulus(),
        rate * (dy + fee) < modulus(),
        owes(s1, units(s1), j, y, dy, fee),
        dx * get3(s1.precisions, i) * WAD < modulus(),
        dy * get3(s1.precisions, j) * WAD < modulus(),
    ensures
        ({
            let left = TriV1 { d, future_a_gamma_time: time, ..with_more(s1, j, -dy) };
            (TriV1 { d, future_a_gamma_time: time, ..s1 }).paid(units(s1), i, j, dx, y, now, solve_y)
                == match left.tweaked(units(left), 0, now, solve_y) {
                Err(e) => Err(e),
                Ok(t) => Ok((t, (dy, fee))),
            }
        }),
{
    let xp = units(s1);
    let s2 = TriV1 { d, future_a_gamma_time: time, ..s1 };
    lemma_units(s1);
    lemma_owed_exact(get3(xp, j), y, get3(s1.precisions, j), s2.scale(j), dy + fee);
    assert(0 <= rate * (dy + fee)) by (nonlinear_arith)
        requires
            0 <= rate,
            0 <= dy + fee,
    ;
    lemma_fee_exact(rate, dy, fee);
    lemma_trade_price_defined(dx, dy, get3(s1.precisions, i), get3(s1.precisions, j), i == 0);
    lemma_minus(get3(s1.balances, j), dy);
    let s3 = TriV1 { balances: set3(s2.balances, j, get3(s1.balances, j) - dy), ..s2 };
    lemma_less(s1, s3);
    lemma_units(s3);
    assert(set3(set3(xp, j, y), j, get3(units(s3), j)) == units(s3));
    assert(s3 == (TriV1 { d, future_a_gamma_time: time, ..with_more(s1, j, -dy) }));
}

/// Two pools that hold the same in common units and differ in nothing but balances and precisions are
/// updated alike.
proof fn lemma_tweaked_alike(s: TriV1, r: TriV1, xp: (int, int, int), new_d: int, now: int, solve_y: SolveY3)
    requires
        r == (TriV1 { balances: r.balances, precisions: r.precisions, ..s }),
        r.normalized() == s.normalized(),
    ensures
        match s.tweaked(xp, new_d, now, solve_y) {
            Err(_) => r.tweaked(xp, new_d, now, solve_y) is Err,
            Ok(t) => t.balances == s.balances && r.tweaked(xp, new_d, now, solve_y) == Ok::<_, Fault>(
                TriV1 { balances: r.balances, precisions: r.precisions, ..t },
            ),
        },
{
}

/// The same amounts in finer units are the same in common units.
proof fn lemma_finer(s: TriV1, r: TriV1, k: int, m: int, q: int)
    requires
        0 <= k < 3,
        countable(s),
        0 < m,
        0 < q,
        get3(s.precisions, k) == m * q,
        r == (TriV1 {
            balances: set3(s.balances, k, get3(s.balances, k) * m),
            precisions: set3(s.precisions, k, q),
            ..s
        }),
    ensures
        countable(r),
        units(r) == units(s),
        r.normalized() == s.normalized(),
        0 <= get3(s.balances, k) <= get3(s.balances, k) * m < modulus(),
{
    let x = get3(s.balances, k);
    let ps = if k == 0 { 1 } else { get2(s.price_scale, k - 1) };
    assert((x * m) * q == x * (m * q) && (x * m) * ps * q == x * ps * (m * q) && x <= x * m && x * m <= (x * m) * q
        && x * m <= (x * m) * ps * q) by (nonlinear_arith)
        requires
            0 <= x,
            0 < m,
            0 < q,
            0 < ps,
    ;
    lemma_units(s);
    lemma_units(r);
}

/// What is paid does not depend on the units of the coin that comes in.
proof fn lemma_paid_alike(
    s: TriV1,
    r: TriV1,
    xp: (int, int, int),
    i: int,
    j: int,
    m: int,
    q: int,
    dx: int,
    y: int,
    now: int,
    solve_y: SolveY3,
)
    requires
        0 <= i < 3,
        0 <= j < 3,
        i != j,
        countable(s),
        0 < m,
        0 < q,
        get3(s.precisions, i) == m * q,
        r == (TriV1 {
            balances: set3(s.balances, i, get3(s.balances, i) * m),
            precisions: set3(s.precisions, i, q),
            ..s
        }),
        dx <= dx * m,
        dx.times(m * q) == (dx * m).times(q),
    ensures
        s.paid(xp, i, j, dx, y, now, solve_y) matches Ok((t, (dy, fee))) ==> {
            &&& r.paid(xp, i, j, dx * m, y, now, solve_y) matches Ok((u, paid)) ==> paid == (dy, fee)
            &&& dx > 100_000 && 0 <= dy <= get3(s.balances, j) ==> r.paid(xp, i, j, dx * m, y, now, solve_y)
                == Ok::<_, Fault>(
                (
                    TriV1 {
                        balances: set3(t.balances, i, get3(t.balances, i) * m),
                        precisions: r.precisions,
                        ..t
                    },
                    (dy, fee),
                ),
            )
        },
{
    lemma_units(s);
    let b = s.balances;
    if let Ok((t, (dy, fee))) = s.paid(xp, i, j, dx, y, now, solve_y) {
        if dx > 100_000 && 0 <= dy <= get3(b, j) {
            let left = get3(b, j) - dy;
            lemma_minus(get3(b, j), dy);
            let s3 = TriV1 { balances: set3(b, j, left), ..s };
            let r3 = TriV1 { balances: set3(r.balances, j, left), ..r };
            lemma_less(s, s3);
            lemma_finer(s3, r3, i, m, q);
            let xp2 = set3(set3(xp, j, y), j, in_units(left, get3(s.precisions, j), s.scale(j)));
            lemma_tweaked_alike(s3, r3, xp2, 0, now, solve_y);
        }
    }
}

/// A pool whose coin that comes in counts in coarse units, and the same pool with that coin in units that
/// are `m` times finer, pay the same and keep the same fee for the same trade. Above the dust limit all
/// else in their states stays the same too.
pub proof fn law_exchange_decimals(
    s: TriV1,
    r: TriV1,
    i: int,
    j: int,
    m: int,
    q: int,
    dx: int,
    now: int,
    solve_y: SolveY3,
)
    requires
        0 <= i < 3,
        0 <= j < 3,
        i != j,
        0 < dx,
        0 <= s.balances.0,
        0 <= s.balances.1,
        0 <= s.balances.2,
        countable(with_more(s, i, dx)),
        0 < m,
        0 < q,
        get3(s.precisions, i) == m * q,
        r == (TriV1 {
            balances: set3(s.balances, i, get3(s.balances, i) * m),
            precisions: set3(s.precisions, i, q),
            ..s
        }),
    ensures
        s.exchanged(i, j, dx, now, solve_y) matches Ok((t, out)) ==> {
            &&& r.exchanged(i, j, dx * m, now, solve_y) matches Ok((u, paid)) ==> paid == out
            &&& dx > 100_000 && (out matches Some((dy, fee)) ==> 0 <= dy <= get3(s.balances, j)) ==> r.exchanged(
                i,
                j,
                dx * m,
                now,
                solve_y,
            ) == Ok::<_, Fault>(
                (
                    TriV1 {
                        balances: set3(t.balances, i, get3(t.balances, i) * m),
                        precisions: r.precisions,
                        ..t
                    },
                    out,
                ),
            )
        },
{
    let x0 = get3(s.balances, i);
    let s1 = with_more(s, i, dx);
    let r1 = with_more(r, i, dx * m);
    assert(x0 * m + dx * m == (x0 + dx) * m && 0 < dx * m && 0 <= x0 * m && dx <= dx * m && dx * (m * q) == (dx
        * m) * q && 0 < dx * (m * q) <= (x0 + dx) * (m * q)) by (nonlinear_arith)
        requires
            0 <= x0,
            0 < dx,
            0 < m,
            0 < q,
    ;
    lemma_units(s1);
    lemma_entry(s, i, dx);
    lemma_finer(s1, r1, i, m, q);
    lemma_finer(s, r, i, m, q);
    lemma_times(dx, m * q);
    lemma_times(dx * m, q);
    lemma_exchanged(s, i, j, dx, now, solve_y);
    lemma_exchanged(r, i, j, dx * m, now, solve_y);
    if let Ok(Some(d)) = invariant_before(s) {
        if let Some(y) = solve_y(s.ann, s.gamma, units(s1), d, j) {
            let time = time_before(s, now);
            lemma_paid_alike(
                TriV1 { d, future_a_gamma_time: time, ..s1 },
                TriV1 { d, future_a_gamma_time: time, ..r1 },
                units(s1),
                i,
                j,
                m,
                q,
                dx,
                y,
                now,
                solve_y,
            );
        }
    }
}

/// The virtual price of an even split.
proof fn lemma_worth(d: int, scale: (int, int), supply: int, mean: int)
    requires
        0 <= d,
        0 < scale.0,
        0 < scale.1,
        0 < supply,
        3 * scale.0 < modulus(),
        3 * scale.1 < modulus(),
        d * WAD < modulus(),
        geometric_mean_3_model((d / 3, d * WAD / (3 * scale.0), d * WAD / (3 * scale.1))) == Ok::<_, Fault>(
            mean,
        ),
        0 <= mean,
        mean * WAD < modulus(),
    ensures
        virtual_price_3(d, scale, supply) == Ok::<_, Fault>(mean * WAD / supply),
        0 <= mean * WAD / supply < modulus(),
{
    lemma_times(3, scale.0);
    lemma_times(3, scale.1);
    lemma_over(d, 3);
    lemma_share(d, WAD as int, 3 * scale.0);
    lemma_share(d, WAD as int, 3 * scale.1);
    lemma_share(mean, WAD as int, supply);
}

/// Whether a change of the balances to `xp` leaves the invariant `d`, the virtual price `v` and the profit
/// `profit` where the price scales do not move: `d` is what is known or what the solver answers, `v` is
/// the geometric mean of an even split per pool token, and the profit grows in proportion to the virtual price.
pub open spec fn worth(s: TriV1, xp: (int, int, int), new_d: int, d: int, mean: int, v: int, profit: int) -> bool {
    &&& if new_d != 0 {
        d == new_d
    } else {
        match newton_d_3_v1_model(s.ann, s.gamma, xp) {
            Err(_) => false,
            Ok(Some(found)) => d == found,
            Ok(None) => d == s.d,
        }
    }
    &&& 0 <= d
    &&& 0 < s.price_scale.0
    &&& 0 < s.price_scale.1
    &&& 0 < s.total_supply
    &&& 0 < s.virtual_price
    &&& 3 * s.price_scale.0 < modulus()
    &&& 3 * s.price_scale.1 < modulus()
    &&& d * WAD < modulus()
    &&& geometric_mean_3_model(
        (d / 3, d * WAD / (3 * s.price_scale.0), d * WAD / (3 * s.price_scale.1)),
    ) == Ok::<_, Fault>(mean)
    &&& 0 <= mean
    &&& mean * WAD < modulus()
    &&& v == mean * WAD / s.total_supply
    &&& 0 <= s.xcp_profit
    &&& s.xcp_profit * v < modulus()
    &&& profit == s.xcp_profit * v / s.virtual_price
}

proof fn lemma_worth_at(s: TriV1, xp: (int, int, int), new_d: int, d: int, mean: int, v: int, profit: int)
    requires
        worth(s, xp, new_d, d, mean, v, profit),
    ensures
        0 <= v,
        0 <= profit,
        s.invariant_at(xp, new_d) == Ok::<_, Fault>(d),
        v < s.virtual_price && s.future_a_gamma_time == 0 ==> s.profit_at(d) == Ok::<_, Fault>(
            None::<(int, int, int)>,
        ),
        v >= s.virtual_price || s.future_a_gamma_time != 0 ==> s.profit_at(d) == Ok::<_, Fault>(
            Some(
                (
                    v,
                    profit,
                    if s.future_a_gamma_time == 1 {
                        0
                    } else {
                        s.future_a_gamma_time
                    },
                ),
            ),
        ),
{
    lemma_worth(d, s.price_scale, s.total_supply, mean);
    lemma_share(s.xcp_profit, v, s.virtual_price);
}

/// The state before the price scales are looked at.
proof fn lemma_before_settled(
    s: TriV1,
    t: TriV1,
    xp: (int, int, int),
    new_d: int,
    now: int,
    solve_y: SolveY3,
    d: int,
    mean: int,
    v: int,
    profit: int,
) -> (r: TriV1)
    requires
        s.tweaked(xp, new_d, now, solve_y) == Ok::<_, Fault>(t),
        worth(s, xp, new_d, d, mean, v, profit),
        v >= s.virtual_price || s.future_a_gamma_time != 0,
    ensures
        r.settled(xp, d, v) == Ok::<_, Fault>(t),
        r == (TriV1 {
            xcp_profit: profit,
            future_a_gamma_time: if s.future_a_gamma_time == 1 {
                0
            } else {
                s.future_a_gamma_time
            },
            last_prices: r.last_prices,
            price_oracle: r.price_oracle,
            last_prices_timestamp: r.last_prices_timestamp,
            ..s
        }),
        r.price_oracle == t.price_oracle,
        r.last_prices == t.last_prices,
        r.last_prices_timestamp == t.last_prices_timestamp,
        0 <= v,
        0 <= profit,
{
    let s0 = s.with_average(now)->Ok_0;
    lemma_worth_at(s0, xp, new_d, d, mean, v, profit);
    let s1 = TriV1 {
        last_prices: (s0.price_at(xp, 1, d, solve_y), s0.price_at(xp, 2, d, solve_y)),
        ..s0
    };
    lemma_worth_at(s1, xp, new_d, d, mean, v, profit);
    let r = TriV1 {
        xcp_profit: profit,
        future_a_gamma_time: if s.future_a_gamma_time == 1 {
            0
        } else {
            s.future_a_gamma_time
        },
        ..s1
    };
    lemma_settled_prices(r, t, xp, d, v);
    r
}

/// The last part of an update leaves the prices that were seen as they are.
proof fn lemma_settled_prices(s: TriV1, t: TriV1, xp: (int, int, int), d: int, v: int)
    requires
        s.settled(xp, d, v) == Ok::<_, Fault>(t),
    ensures
        t.price_oracle == s.price_oracle,
        t.last_prices == s.last_prices,
        t.last_prices_timestamp == s.last_prices_timestamp,
        t.future_a_gamma_time == s.future_a_gamma_time,
{
}

/// After a change that is worth something, the pool takes the invariant of the new balances, its virtual
/// price and the profit in proportion. The price scales stay where they are whenever twice the virtual
/// price less one is at most the profit and twice the extra profit that the pool asks for, unless a
/// move is still due; the supply and what was claimed then stay too.
pub proof fn law_tweak_threshold(
    s: TriV1,
    t: TriV1,
    xp: (int, int, int),
    new_d: int,
    now: int,
    solve_y: SolveY3,
    d: int,
    mean: int,
    v: int,
    profit: int,
)
    requires
        s.tweaked(xp, new_d, now, solve_y) == Ok::<_, Fault>(t),
        worth(s, xp, new_d, d, mean, v, profit),
        v >= s.virtual_price || s.future_a_gamma_time != 0,
        WAD <= 2 * v < modulus(),
        0 <= s.allowed_extra_profit,
        profit + 2 * s.allowed_extra_profit < modulus(),
        !s.not_adjusted,
        2 * v - WAD <= profit + 2 * s.allowed_extra_profit,
    ensures
        t.price_scale == s.price_scale,
        t.d == d,
        t.virtual_price == v,
        t.xcp_profit == profit,
        t.xcp_profit_a == s.xcp_profit_a,
        t.total_supply == s.total_supply,
        !t.not_adjusted,
        t.future_a_gamma_time == (if s.future_a_gamma_time == 1 {
            0
        } else {
            s.future_a_gamma_time
        }),
{
    let r = lemma_before_settled(s, t, xp, new_d, now, solve_y, d, mean, v, profit);
    lemma_allows(v, profit, s.allowed_extra_profit);
}

/// The price scales of a pool are the same after an exchange as before it whenever twice the virtual price
/// less one, with the virtual price of the invariant of what is left in the pool, is at most the new profit
/// and twice the extra profit that the pool asks for, unless a move is still due. The new virtual price and
/// profit are then these.
pub proof fn law_exchange_threshold(
    s: TriV1,
    t: TriV1,
    i: int,
    j: int,
    dx: int,
    now: int,
    solve_y: SolveY3,
    dy: int,
    fee: int,
    d0: int,
    y: int,
    d: int,
    mean: int,
    v: int,
    profit: int,
)
    requires
        0 <= i < 3,
        0 <= j < 3,
        i != j,
        0 < dx,
        0 <= s.balances.0,
        0 <= s.balances.1,
        0 <= s.balances.2,
        countable(with_more(s, i, dx)),
        s.exchanged(i, j, dx, now, solve_y) == Ok::<_, Fault>((t, Some((dy, fee)))),
        0 <= dy <= get3(s.balances, j),
        dy + fee < modulus(),
        invariant_before(s) == Ok::<_, Fault>(Some(d0)),
        solve_y(s.ann, s.gamma, units(with_more(s, i, dx)), d0, j) == Some(y),
        0 <= y < get3(units(with_more(s, i, dx)), j),
        worth(
            TriV1 { d: d0, ..s },
            units(with_more(with_more(s, i, dx), j, -dy)),
            0,
            d,
            mean,
            v,
            profit,
        ),
        v >= s.virtual_price || s.future_a_gamma_time != 0,
        WAD <= 2 * v < modulus(),
        0 <= s.allowed_extra_profit,
        profit + 2 * s.allowed_extra_profit < modulus(),
        !s.not_adjusted,
        2 * v - WAD <= profit + 2 * s.allowed_extra_profit,
    ensures
        t.price_scale == s.price_scale,
        t.d == d,
        t.virtual_price == v,
        t.xcp_profit == profit,
        t.total_supply == s.total_supply,
{
    law_exchange_payout(s, i, j, dx, now, solve_y);
    let left = TriV1 {
        d: d0,
        future_a_gamma_time: time_before(s, now),
        ..with_more(with_more(s, i, dx), j, -dy)
    };
    law_tweak_threshold(left, t, units(left), 0, now, solve_y, d, mean, v, profit);
}

/// Where the virtual price would fall while the parameters do not change, only the prices that were seen
/// are noted.
pub proof fn law_tweak_loss(
    s: TriV1,
    t: TriV1,
    xp: (int, int, int),
    new_d: int,
    now: int,
    solve_y: SolveY3,
    d: int,
    mean: int,
    v: int,
    profit: int,
)
    requires
        s.tweaked(xp, new_d, now, solve_y) == Ok::<_, Fault>(t),
        worth(s, xp, new_d, d, mean, v, profit),
        v < s.virtual_price,
        s.future_a_gamma_time == 0,
    ensures
        t == (TriV1 {
            last_prices: t.last_prices,
            price_oracle: t.price_oracle,
            last_prices_timestamp: t.last_prices_timestamp,
            ..s
        }),
{
    let s0 = s.with_average(now)->Ok_0;
    lemma_worth_at(s0, xp, new_d, d, mean, v, profit);
    let s1 = TriV1 {
        last_prices: (s0.price_at(xp, 1, d, solve_y), s0.price_at(xp, 2, d, solve_y)),
        ..s0
    };
    lemma_worth_at(s1, xp, new_d, d, mean, v, profit);
}

/// A pool that has no virtual price yet starts at one, with a profit of one and the price scales that it has.
pub proof fn law_tweak_first(
    s: TriV1,
    t: TriV1,
    xp: (int, int, int),
    new_d: int,
    now: int,
    solve_y: SolveY3,
)
    requires
        s.tweaked(xp, new_d, now, solve_y) == Ok::<_, Fault>(t),
        s.virtual_price == 0,
        !s.not_adjusted,
    ensures
        t.virtual_price == WAD,
        t.xcp_profit == WAD,
        t.price_scale == s.price_scale,
        t.total_supply == s.total_supply,
        t.future_a_gamma_time == s.future_a_gamma_time,
        new_d != 0 ==> t.d == new_d,
{
}

/// What an update touches: the prices, the invariant, the virtual price, the profit, what was claimed, the
/// supply and whether a move is still due. The end of a change of parameters is forgotten once it has been
/// seen, and stays otherwise.
pub proof fn law_tweak_touches(
    s: TriV1,
    t: TriV1,
    xp: (int, int, int),
    new_d: int,
    now: int,
    solve_y: SolveY3,
)
    requires
        s.tweaked(xp, new_d, now, solve_y) == Ok::<_, Fault>(t),
    ensures
        t == (TriV1 {
            price_scale: t.price_scale,
            price_oracle: t.price_oracle,
            last_prices: t.last_prices,
            last_prices_timestamp: if s.last_prices_timestamp < now {
                now
            } else {
                s.last_prices_timestamp
            },
            d: t.d,
            virtual_price: t.virtual_price,
            xcp_profit: t.xcp_profit,
            xcp_profit_a: t.xcp_profit_a,
            total_supply: t.total_supply,
            not_adjusted: t.not_adjusted,
            future_a_gamma_time: t.future_a_gamma_time,
            ..s
        }),
        t.future_a_gamma_time == s.future_a_gamma_time || (s.future_a_gamma_time == 1
            && t.future_a_gamma_time == 0),
        s.future_a_gamma_time == 1 && 0 < s.virtual_price ==> t.future_a_gamma_time == 0,
{
}

/// When the price scales move and to where. They move only where the oracles are together farther from them
/// than the step, which is a fifth of the distance or `adjustment_step` where that is more, and where the
/// profit leaves room or a move is still due. Both then move that step of the way to their oracles, as long as
/// the virtual price at the new scales stays above one and twice of it less one above the profit. Where
/// a move is called for and does not come about, the admin's share is claimed.
pub proof fn law_tweak_move(
    s: TriV1,
    t: TriV1,
    xp: (int, int, int),
    new_d: int,
    now: int,
    solve_y: SolveY3,
    d: int,
    mean: int,
    v: int,
    profit: int,
    a: int,
    b: int,
    norm: int,
    step: int,
    c: (int, int),
)
    requires
        s.tweaked(xp, new_d, now, solve_y) == Ok::<_, Fault>(t),
        worth(s, xp, new_d, d, mean, v, profit),
        v >= s.virtual_price || s.future_a_gamma_time != 0,
        WAD <= 2 * v < modulus(),
        0 <= s.allowed_extra_profit,
        profit + 2 * s.allowed_extra_profit < modulus(),
        0 <= xp.1,
        0 <= xp.2,
        0 <= t.price_oracle.0,
        0 <= t.price_oracle.1,
        t.price_oracle.0 * WAD < modulus(),
        t.price_oracle.1 * WAD < modulus(),
        a == (if t.price_oracle.0 * WAD / s.price_scale.0 > WAD {
            t.price_oracle.0 * WAD / s.price_scale.0 - WAD
        } else {
            WAD - t.price_oracle.0 * WAD / s.price_scale.0
        }),
        b == (if t.price_oracle.1 * WAD / s.price_scale.1 > WAD {
            t.price_oracle.1 * WAD / s.price_scale.1 - WAD
        } else {
            WAD - t.price_oracle.1 * WAD / s.price_scale.1
        }),
        a * a + b * b < modulus() - 1,
        0 <= norm,
        norm * norm <= a * a + b * b < (norm + 1) * (norm + 1),
        step == (if s.adjustment_step > norm / 5 { s.adjustment_step } else { norm / 5 }),
        step < norm ==> {
            &&& s.price_scale.0 * (norm - step) + step * t.price_oracle.0 < modulus()
            &&& s.price_scale.1 * (norm - step) + step * t.price_oracle.1 < modulus()
            &&& c.0 == (s.price_scale.0 * (norm - step) + step * t.price_oracle.0) / norm
            &&& c.1 == (s.price_scale.1 * (norm - step) + step * t.price_oracle.1) / norm
        },
    ensures
        step >= norm ==> t.price_scale == s.price_scale,
        step >= norm && !s.not_adjusted ==> t.d == d && t.virtual_price == v && t.xcp_profit == profit
            && t.total_supply == s.total_supply,
        (s.not_adjusted || (step < norm && 2 * v - WAD > profit + 2 * s.allowed_extra_profit))
            && !t.not_adjusted ==> (TriV1 {
            d,
            virtual_price: v,
            xcp_profit: profit,
            not_adjusted: false,
            future_a_gamma_time: t.future_a_gamma_time,
            last_prices: t.last_prices,
            price_oracle: t.price_oracle,
            last_prices_timestamp: t.last_prices_timestamp,
            ..s
        }).with_claim() == Ok::<_, Fault>(t),
        step < norm && (s.not_adjusted || 2 * v - WAD > profit + 2 * s.allowed_extra_profit) && xp.1 * c.0
            < modulus() && xp.2 * c.1 < modulus() ==> match newton_d_3_v1_model(
            s.ann,
            s.gamma,
            (xp.0, xp.1 * c.0 / s.price_scale.0, xp.2 * c.1 / s.price_scale.1),
        ) {
            Err(_) => false,
            Ok(None) => t.price_scale == s.price_scale && !t.not_adjusted,
            Ok(Some(e)) => match geometric_mean_3_model((e / 3, e * WAD / (3 * c.0), e * WAD / (3 * c.1))) {
                Err(_) => true,
                Ok(m) => {
                    let w = m * WAD / s.total_supply;
                    0 <= e && 0 < c.0 && 0 < c.1 && 3 * c.0 < modulus() && 3 * c.1 < modulus() && e * WAD
                        < modulus() && 0 <= m && m * WAD < modulus() && 2 * w < modulus() ==> if w > WAD && 2 * w
                        - WAD > profit {
                        &&& t.price_scale == c
                        &&& t.d == e
                        &&& t.virtual_price == w
                        &&& t.xcp_profit == profit
                        &&& t.total_supply == s.total_supply
                        &&& t.not_adjusted
                    } else {
                        t.price_scale == s.price_scale && !t.not_adjusted
                    }
                },
            },
        },
{
    let r = lemma_before_settled(s, t, xp, new_d, now, solve_y, d, mean, v, profit);
    lemma_settled_prices(r, t, xp, d, v);
    lemma_settled(r, t, xp, d, v, a, b, norm, step, c);
    assert((TriV1 {
        d,
        virtual_price: v,
        xcp_profit: profit,
        not_adjusted: false,
        future_a_gamma_time: t.future_a_gamma_time,
        last_prices: t.last_prices,
        price_oracle: t.price_oracle,
        last_prices_timestamp: t.last_prices_timestamp,
        ..s
    }) == (TriV1 { d, virtual_price: v, not_adjusted: false, ..r }));
}

/// The same of the last part of an update.
proof fn lemma_settled(
    s: TriV1,
    t: TriV1,
    xp: (int, int, int),
    d: int,
    v: int,
    a: int,
    b: int,
    norm: int,
    step: int,
    c: (int, int),
)
    requires
        s.settled(xp, d, v) == Ok::<_, Fault>(t),
        0 < s.price_scale.0,
        0 < s.price_scale.1,
        0 < s.total_supply,
        0 < s.virtual_price,
        WAD <= 2 * v < modulus(),
        0 <= s.xcp_profit,
        0 <= s.allowed_extra_profit,
        s.xcp_profit + 2 * s.allowed_extra_profit < modulus(),
        0 <= xp.1,
        0 <= xp.2,
        0 <= s.price_oracle.0,
        0 <= s.price_oracle.1,
        s.price_oracle.0 * WAD < modulus(),
        s.price_oracle.1 * WAD < modulus(),
        a == (if s.price_oracle.0 * WAD / s.price_scale.0 > WAD {
            s.price_oracle.0 * WAD / s.price_scale.0 - WAD
        } else {
            WAD - s.price_oracle.0 * WAD / s.price_scale.0
        }),
        b == (if s.price_oracle.1 * WAD / s.price_scale.1 > WAD {
            s.price_oracle.1 * WAD / s.price_scale.1 - WAD
        } else {
            WAD - s.price_oracle.1 * WAD / s.price_scale.1
        }),
        a * a + b * b < modulus() - 1,
        0 <= norm,
        norm * norm <= a * a + b * b < (norm + 1) * (norm + 1),
        step == (if s.adjustment_step > norm / 5 { s.adjustment_step } else { norm / 5 }),
        step < norm ==> {
            &&& s.price_scale.0 * (norm - step) + step * s.price_oracle.0 < modulus()
            &&& s.price_scale.1 * (norm - step) + step * s.price_oracle.1 < modulus()
            &&& c.0 == (s.price_scale.0 * (norm - step) + step * s.price_oracle.0) / norm
            &&& c.1 == (s.price_scale.1 * (norm - step) + step * s.price_oracle.1) / norm
        },
    ensures
        step >= norm ==> t.price_scale == s.price_scale,
        step >= norm && !s.not_adjusted ==> t.d == d && t.virtual_price == v && t.xcp_profit == s.xcp_profit
            && t.total_supply == s.total_supply,
        (s.not_adjusted || (step < norm && 2 * v - WAD > s.xcp_profit + 2 * s.allowed_extra_profit))
            && !t.not_adjusted ==> (TriV1 { d, virtual_price: v, not_adjusted: false, ..s }).with_claim()
            == Ok::<_, Fault>(t),
        step < norm && (s.not_adjusted || 2 * v - WAD > s.xcp_profit + 2 * s.allowed_extra_profit) && xp.1 * c.0
            < modulus() && xp.2 * c.1 < modulus() ==> match newton_d_3_v1_model(
            s.ann,
            s.gamma,
            (xp.0, xp.1 * c.0 / s.price_scale.0, xp.2 * c.1 / s.price_scale.1),
        ) {
            Err(_) => false,
            Ok(None) => t.price_scale == s.price_scale && !t.not_adjusted,
            Ok(Some(e)) => match geometric_mean_3_model((e / 3, e * WAD / (3 * c.0), e * WAD / (3 * c.1))) {
                Err(_) => true,
                Ok(m) => {
                    let w = m * WAD / s.total_supply;
                    0 <= e && 0 < c.0 && 0 < c.1 && 3 * c.0 < modulus() && 3 * c.1 < modulus() && e * WAD
                        < modulus() && 0 <= m && m * WAD < modulus() && 2 * w < modulus() ==> if w > WAD && 2 * w
                        - WAD > s.xcp_profit {
                        &&& t.price_scale == c
                        &&& t.d == e
                        &&& t.virtual_price == w
                        &&& t.xcp_profit == s.xcp_profit
                        &&& t.total_supply == s.total_supply
                        &&& t.not_adjusted
                    } else {
                        t.price_scale == s.price_scale && !t.not_adjusted
                    }
                },
            },
        },
{
    lemma_allows(v, s.xcp_profit, s.allowed_extra_profit);
    lemma_norm(s.price_oracle, s.price_scale, a, b, norm);
    lemma_step(s.adjustment_step, norm);
    if step < norm {
        lemma_moved_scale(s.price_scale.0, s.price_oracle.0, norm, step);
        lemma_moved_scale(s.price_scale.1, s.price_oracle.1, norm, step);
        if xp.1 * c.0 < modulus() && xp.2 * c.1 < modulus() {
            lemma_share(xp.1, c.0, s.price_scale.0);
            lemma_share(xp.2, c.1, s.price_scale.1);
            let x = (xp.0, xp.1 * c.0 / s.price_scale.0, xp.2 * c.1 / s.price_scale.1);
            if let Ok(Some(e)) = newton_d_3_v1_model(s.ann, s.gamma, x) {
                if let Ok(m) = geometric_mean_3_model((e / 3, e * WAD / (3 * c.0), e * WAD / (3 * c.1))) {
                    if 0 <= e && 0 < c.0 && 0 < c.1 && 3 * c.0 < modulus() && 3 * c.1 < modulus() && e * WAD
                        < modulus() && 0 <= m && m * WAD < modulus() && 2 * (m * WAD / s.total_supply)
                        < modulus() {
                        lemma_worth(e, c, s.total_supply, m);
                        lemma_keeps(m * WAD / s.total_supply, s.xcp_profit);
                    }
                }
            }
        }
    }
}

/// A move of the averages toward the last prices: after a half-life they are half way, and they move only
/// when time has passed.
pub proof fn law_tweak_oracle(
    s: TriV1,
    t: TriV1,
    xp: (int, int, int),
    new_d: int,
    now: int,
    solve_y: SolveY3,
)
    requires
        s.tweaked(xp, new_d, now, solve_y) == Ok::<_, Fault>(t),
        0 <= s.last_prices.0,
        0 <= s.last_prices.1,
        0 <= s.price_oracle.0,
        0 <= s.price_oracle.1,
        s.last_prices.0 * WAD + s.price_oracle.0 * WAD < modulus(),
        s.last_prices.1 * WAD + s.price_oracle.1 * WAD < modulus(),
        0 < s.ma_half_time,
        0 <= s.last_prices_timestamp,
        now <= u64::MAX,
    ensures
        now <= s.last_prices_timestamp ==> t.price_oracle == s.price_oracle,
        now == s.last_prices_timestamp + s.ma_half_time ==> t.price_oracle == (
            (s.last_prices.0 + s.price_oracle.0) / 2,
            (s.last_prices.1 + s.price_oracle.1) / 2,
        ),
        now > s.last_prices_timestamp ==> {
            let alpha = halfpow_model((now - s.last_prices_timestamp) * WAD / s.ma_half_time);
            &&& t.price_oracle.0 == (s.last_prices.0 * (WAD - alpha) + s.price_oracle.0 * alpha)
                / (WAD as int)
            &&& t.price_oracle.1 == (s.last_prices.1 * (WAD - alpha) + s.price_oracle.1 * alpha)
                / (WAD as int)
        },
{
    if now > s.last_prices_timestamp {
        let w = WAD as int;
        let dt = now - s.last_prices_timestamp;
        lemma_half_life(dt, s.ma_half_time);
        lemma_times(dt, w);
        lemma_over(dt * w, s.ma_half_time);
        let alpha = halfpow_model(dt * w / s.ma_half_time);
        lemma_average(s.last_prices.0, s.price_oracle.0, alpha);
        lemma_average(s.last_prices.1, s.price_oracle.1, alpha);
        assert(s.with_average(now) matches Ok(s0) && s0.price_oracle == t.price_oracle);
        if dt == s.ma_half_time {
            assert(dt * w / dt == w) by (nonlinear_arith)
                requires
                    0 < dt,
            ;
            lemma_half();
        }
    }
}

/// One of the two averages after an update.
proof fn lemma_average(last: int, oracle: int, alpha: int)
    requires
        0 <= last,
        0 <= oracle,
        last * WAD + oracle * WAD < modulus(),
        0 <= alpha <= WAD,
    ensures
        moved_average(last, oracle, alpha) == (last * (WAD - alpha) + oracle * alpha) / (WAD as int),
        alpha == 500_000_000_000_000_000 ==> moved_average(last, oracle, alpha) == (last + oracle) / 2,
{
    let w = WAD as int;
    assert(last * (w - alpha) <= last * w && oracle * alpha <= oracle * w) by (nonlinear_arith)
        requires
            0 <= last,
            0 <= oracle,
            0 <= alpha <= w,
    ;
    lemma_moved_average(last, oracle, alpha);
    let h = 500_000_000_000_000_000int;
    assert(((last + oracle) * h) / w == (last + oracle) / 2 && last * h + oracle * h == (last + oracle) * h)
        by (nonlinear_arith)
        requires
            w == 2 * h,
            h == 500_000_000_000_000_000int,
    ;
}

/// Each last price is what a millionth more of the first coin would cost in that coin: its price scale times
/// what goes in per what comes out, rounded down. It stays where the solver finds nothing to come out.
pub proof fn law_tweak_price(
    s: TriV1,
    t: TriV1,
    xp: (int, int, int),
    new_d: int,
    now: int,
    solve_y: SolveY3,
    d: int,
)
    requires
        s.tweaked(xp, new_d, now, solve_y) == Ok::<_, Fault>(t),
        if new_d != 0 {
            d == new_d
        } else {
            match newton_d_3_v1_model(s.ann, s.gamma, xp) {
                Err(_) => false,
                Ok(Some(found)) => d == found,
                Ok(None) => d == s.d,
            }
        },
        0 <= xp.0,
        xp.0 + xp.0 / 1_000_000 < modulus(),
        xp.1 < modulus(),
        xp.2 < modulus(),
        0 <= s.price_scale.0,
        0 <= s.price_scale.1,
        s.price_scale.0 * (xp.0 / 1_000_000) < modulus(),
        s.price_scale.1 * (xp.0 / 1_000_000) < modulus(),
    ensures
        match solve_y(s.ann, s.gamma, (xp.0 + xp.0 / 1_000_000, xp.1, xp.2), d, 1) {
            Some(y) => {
                &&& y >= xp.1 ==> t.last_prices.0 == s.last_prices.0
                &&& 0 <= y < xp.1 ==> t.last_prices.0 * (xp.1 - y) <= s.price_scale.0 * (xp.0 / 1_000_000)
                    < (t.last_prices.0 + 1) * (xp.1 - y)
            },
            None => t.last_prices.0 == s.last_prices.0,
        },
        match solve_y(s.ann, s.gamma, (xp.0 + xp.0 / 1_000_000, xp.1, xp.2), d, 2) {
            Some(y) => {
                &&& y >= xp.2 ==> t.last_prices.1 == s.last_prices.1
                &&& 0 <= y < xp.2 ==> t.last_prices.1 * (xp.2 - y) <= s.price_scale.1 * (xp.0 / 1_000_000)
                    < (t.last_prices.1 + 1) * (xp.2 - y)
            },
            None => t.last_prices.1 == s.last_prices.1,
        },
{
    lemma_over(xp.0, 1_000_000);
    let nudge = xp.0 / 1_000_000;
    lemma_plus(xp.0, nudge);
    let s0 = s.with_average(now)->Ok_0;
    assert(s0.invariant_at(xp, new_d) == Ok::<_, Fault>(d));
    let s1 = TriV1 {
        last_prices: (s0.price_at(xp, 1, d, solve_y), s0.price_at(xp, 2, d, solve_y)),
        ..s0
    };
    if let Ok(Some((v, profit, time))) = s1.profit_at(d) {
        lemma_settled_prices(
            TriV1 { xcp_profit: profit, future_a_gamma_time: time, ..s1 },
            t,
            xp,
            d,
            v,
        );
    }
    assert(t.last_prices == s1.last_prices);
    if let Some(y) = solve_y(s.ann, s.gamma, (xp.0 + nudge, xp.1, xp.2), d, 1) {
        if 0 <= y < xp.1 {
            lemma_minus(xp.1, y);
            lemma_share(s.price_scale.0, nudge, xp.1 - y);
        }
    }
    if let Some(y) = solve_y(s.ann, s.gamma, (xp.0 + nudge, xp.1, xp.2), d, 2) {
        if 0 <= y < xp.2 {
            lemma_minus(xp.2, y);
            lemma_share(s.price_scale.1, nudge, xp.2 - y);
        }
    }
}

/// Where nothing was made since the last claim, or where the share would be worth as much as a pool token,
/// a claim takes nothing and mints nothing.
pub proof fn law_claim_nothing(s: TriV1, t: TriV1, fees: int)
    requires
        s.with_claim() == Ok::<_, Fault>(t),
        s.xcp_profit <= s.xcp_profit_a || {
            &&& 0 <= s.xcp_profit_a
            &&& s.xcp_profit < modulus()
            &&& 0 <= s.admin_fee
            &&& (s.xcp_profit - s.xcp_profit_a) * s.admin_fee < modulus()
            &&& fees == (s.xcp_profit - s.xcp_profit_a) * s.admin_fee / (2 * FEE_DENOMINATOR)
            &&& s.virtual_price <= fees
        },
    ensures
        t.xcp_profit == s.xcp_profit,
        t.total_supply == s.total_supply,
{
    if s.xcp_profit > s.xcp_profit_a {
        lemma_minus(s.xcp_profit, s.xcp_profit_a);
        lemma_times(2, FEE_DENOMINATOR as int);
        lemma_share(s.xcp_profit - s.xcp_profit_a, s.admin_fee, 2 * FEE_DENOMINATOR);
    }
}

/// A claim in a pool without pool tokens mints none and keeps the virtual price, and takes the invariant of what
/// the pool holds.
pub proof fn law_claim_empty(s: TriV1, t: TriV1)
    requires
        s.with_claim() == Ok::<_, Fault>(t),
        countable(s),
        s.total_supply == 0,
    ensures
        t.total_supply == 0,
        t.virtual_price == s.virtual_price,
        newton_d_3_v1_model(s.ann, s.gamma, units(s)) matches Ok(found) && match found {
            None => t.d == s.d,
            Some(d) => t.d == d,
        },
{
    lemma_units(s);
    lemma_none_minted(s.xcp_profit, s.xcp_profit_a, s.virtual_price, s.admin_fee);
}

/// What the admin's share of the profit is, in numbers. It is `admin_fee` of half of what was made since the
/// last claim; twice of it is taken from the profit, and pool tokens are minted for it, so that the
/// tokens that were there are worth that much less. The solver is asked with what the pool holds in common
/// units, and the virtual price is taken anew per pool token.
pub proof fn law_claim_share(s: TriV1, t: TriV1, fees: int, minted: int)
    requires
        s.with_claim() == Ok::<_, Fault>(t),
        countable(s),
        0 <= s.xcp_profit_a <= s.xcp_profit < modulus(),
        0 <= s.admin_fee,
        (s.xcp_profit - s.xcp_profit_a) * s.admin_fee < modulus(),
        fees == (s.xcp_profit - s.xcp_profit_a) * s.admin_fee / (2 * FEE_DENOMINATOR),
        2 * fees <= s.xcp_profit,
        fees < s.virtual_price,
        s.virtual_price * WAD < modulus(),
        0 < s.total_supply,
        minted == s.total_supply * (s.virtual_price * WAD / (s.virtual_price - fees) - WAD) / (WAD as int),
        s.total_supply * (s.virtual_price * WAD / (s.virtual_price - fees) - WAD) < modulus(),
        s.total_supply + minted < modulus(),
        3 * s.price_scale.0 < modulus(),
        3 * s.price_scale.1 < modulus(),
    ensures
        t.xcp_profit == s.xcp_profit - 2 * fees,
        t.total_supply == s.total_supply + minted,
        0 <= minted,
        fees == 0 ==> minted == 0,
        t.total_supply * (s.virtual_price - fees) <= s.total_supply * s.virtual_price,
        t.xcp_profit_a == (if t.xcp_profit > s.xcp_profit_a { t.xcp_profit } else { s.xcp_profit_a }),
        match newton_d_3_v1_model(s.ann, s.gamma, units(s)) {
            Err(_) => false,
            Ok(None) => t.d == s.d && t.virtual_price == s.virtual_price,
            Ok(Some(d)) => t.d == d && match geometric_mean_3_model(
                (d / 3, d * WAD / (3 * s.price_scale.0), d * WAD / (3 * s.price_scale.1)),
            ) {
                Err(_) => true,
                Ok(mean) => 0 <= d && 0 <= mean && d * WAD < modulus() && mean * WAD < modulus()
                    ==> t.virtual_price == mean * WAD / t.total_supply,
            },
        },
{
    lemma_units(s);
    lemma_claimed(
        s.xcp_profit,
        s.xcp_profit_a,
        s.virtual_price,
        s.total_supply,
        s.admin_fee,
        fees,
        minted,
    );
    if let Ok(Some(d)) = newton_d_3_v1_model(s.ann, s.gamma, units(s)) {
        if let Ok(mean) = geometric_mean_3_model(
            (d / 3, d * WAD / (3 * s.price_scale.0), d * WAD / (3 * s.price_scale.1)),
        ) {
            if 0 <= d && 0 <= mean && d * WAD < modulus() && mean * WAD < modulus() {
                lemma_worth(d, s.price_scale, t.total_supply, mean);
                lemma_share(mean, WAD as int, t.total_supply);
            }
        }
    }
}

} // verus!
