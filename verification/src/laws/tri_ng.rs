//! Three-coin pools of the second generation.
use super::{
    lemma_allows, lemma_fee_exact, lemma_keeps, lemma_kept, lemma_moved_average, lemma_moved_scale,
    lemma_norm, lemma_owed, lemma_owed_exact, lemma_per_wad, lemma_product, lemma_same_quotient,
    lemma_share, lemma_step,
};
use crate::bounds::lemma_quotient;
use crate::coins::{get2, get3, set3};
use crate::exchange_ng::{fee_3_model, get_p_model, TriNG};
use crate::exponential::{lemma_wad_exp, wad_exp_model};
use crate::fault::Fault;
use crate::fees::crypto_fee_model;
use crate::marginal::{gk0_model, nnag2_model, slope_model};
use crate::newton::{FEE_DENOMINATOR, WAD};
use crate::pricing::{even_split_3, fee_on, gross_out, in_units, moved_average};
use crate::signed::half;
use crate::solvers::tricrypto_ng::{geometric_mean_3_model, get_y_3_model, newton_d_3_model};
use crate::uint::{lemma_minus, lemma_over, lemma_plus, lemma_times, modulus, smaller, Word};
use vstd::prelude::*;

verus! {

/// Whether the amounts of a pool are numbers that its common units can hold.
pub open spec fn countable(s: TriNG) -> bool {
    &&& 0 <= s.balances.0
    &&& 0 <= s.balances.1
    &&& 0 <= s.balances.2
    &&& 0 < s.precisions.0
    &&& 0 < s.precisions.1
    &&& 0 < s.precisions.2
    &&& 0 < s.price_scale.0
    &&& 0 < s.price_scale.1
    &&& s.balances.0 * s.precisions.0 < modulus()
    &&& s.balances.1 * s.price_scale.0 * s.precisions.1 < modulus()
    &&& s.balances.2 * s.price_scale.1 * s.precisions.2 < modulus()
}

/// What a pool holds in common units: the first coin times its precision, each other coin times its price and
/// its precision.
pub open spec fn units(s: TriNG) -> (int, int, int) {
    (
        s.balances.0 * s.precisions.0,
        s.balances.1 * s.price_scale.0 * s.precisions.1 / (WAD as int),
        s.balances.2 * s.price_scale.1 * s.precisions.2 / (WAD as int),
    )
}

/// The same pool with `amount` more of coin `k`.
pub open spec fn with_more(s: TriNG, k: int, amount: int) -> TriNG {
    TriNG {
        balances: (
            s.balances.0 + (if k == 0 { amount } else { 0 }),
            s.balances.1 + (if k == 1 { amount } else { 0 }),
            s.balances.2 + (if k == 2 { amount } else { 0 }),
        ),
        ..s
    }
}

/// The balances that the solvers see.
proof fn lemma_units(s: TriNG)
    requires
        countable(s),
    ensures
        s.normalized() == units(s),
        s.withdraw_units() == units(s),
        0 <= units(s).0 < modulus(),
        0 <= units(s).1,
        0 <= units(s).2,
        units(s).1 * WAD < modulus(),
        units(s).2 * WAD < modulus(),
        in_units(s.balances.0, s.precisions.0, s.scale(0)) == units(s).0,
        in_units(s.balances.1, s.precisions.1, s.scale(1)) == units(s).1,
        in_units(s.balances.2, s.precisions.2, s.scale(2)) == units(s).2,
        s.balances.0 < modulus(),
        s.balances.1 < modulus(),
        s.balances.2 < modulus(),
        s.balances.1 * s.precisions.1 < modulus(),
        s.balances.2 * s.precisions.2 < modulus(),
{
    let (b, p, c) = (s.balances, s.precisions, s.price_scale);
    assert(0 <= b.0 <= b.0 * p.0 && b.0 * p.0 == p.0 * b.0 && b.1 * p.1 == p.1 * b.1 && b.2 * p.2 == p.2 * b.2)
        by (nonlinear_arith)
        requires
            0 <= b.0,
            0 < p.0,
    ;
    lemma_times(b.0, p.0);
    lemma_times(p.0, b.0);
    lemma_product(b.1, c.0, p.1);
    lemma_per_wad(b.1 * c.0 * p.1);
    lemma_product(b.2, c.1, p.2);
    lemma_per_wad(b.2 * c.1 * p.2);
    lemma_times(b.1, p.1);
    lemma_times(p.1, b.1);
    lemma_times(b.2, p.2);
    lemma_times(p.2, b.2);
}

/// The balances of a pool in common units: the first coin times its precision, each other coin times its
/// price and its precision.
pub proof fn law_common_units(s: TriNG)
    requires
        countable(s),
    ensures
        s.normalized() == (
            s.balances.0 * s.precisions.0,
            s.balances.1 * s.price_scale.0 * s.precisions.1 / (WAD as int),
            s.balances.2 * s.price_scale.1 * s.precisions.2 / (WAD as int),
        ),
{
    lemma_units(s);
}

/// Smaller balances are smaller in common units.
proof fn lemma_less(s: TriNG, r: TriNG)
    requires
        countable(s),
        0 <= r.balances.0 <= s.balances.0,
        0 <= r.balances.1 <= s.balances.1,
        0 <= r.balances.2 <= s.balances.2,
        r.precisions == s.precisions,
        r.price_scale == s.price_scale,
    ensures
        countable(r),
{
    let (z, x) = (r.balances, s.balances);
    let (p, c) = (s.precisions, s.price_scale);
    assert(z.0 * p.0 <= x.0 * p.0) by (nonlinear_arith)
        requires
            0 <= z.0 <= x.0,
            0 < p.0,
    ;
    assert(z.1 * c.0 * p.1 <= x.1 * c.0 * p.1) by (nonlinear_arith)
        requires
            0 <= z.1 <= x.1,
            0 < p.1,
            0 < c.0,
    ;
    assert(z.2 * c.1 * p.2 <= x.2 * c.1 * p.2) by (nonlinear_arith)
        requires
            0 <= z.2 <= x.2,
            0 < p.2,
            0 < c.1,
    ;
}

/// What comes in is added to the balance of its coin, and what was there before is seen in common units.
proof fn lemma_entry(s: TriNG, i: int, dx: int)
    requires
        0 <= i < 3,
        0 < dx,
        0 <= s.balances.0,
        0 <= s.balances.1,
        0 <= s.balances.2,
        countable(with_more(s, i, dx)),
    ensures
        with_more(s, i, dx) == (TriNG {
            balances: set3(s.balances, i, get3(s.balances, i).plus(dx)),
            ..s
        }),
        with_more(s, i, dx).normalized() == units(with_more(s, i, dx)),
        set3(
            units(with_more(s, i, dx)),
            i,
            in_units(get3(s.balances, i), get3(s.precisions, i), s.scale(i)),
        ) == units(s),
        countable(s),
{
    let s1 = with_more(s, i, dx);
    lemma_units(s1);
    lemma_plus(get3(s.balances, i), dx);
    lemma_less(s1, s);
    lemma_units(s);
}

/// The invariant with which a trade is solved.
pub open spec fn invariant_before(s: TriNG, now: int) -> Result<Option<int>, Fault> {
    if s.future_a_gamma_time == 0 || now >= s.future_a_gamma_time {
        Ok(Some(s.d))
    } else {
        newton_d_3_model(s.ann, s.gamma, units(s), 0)
    }
}

/// An exchange in terms of what the pool holds in common units.
proof fn lemma_exchanged(s: TriNG, i: int, j: int, dx: int, now: int)
    requires
        0 <= i < 3,
        0 <= j < 3,
        i != j,
        0 < dx,
        0 <= s.balances.0,
        0 <= s.balances.1,
        0 <= s.balances.2,
        countable(with_more(s, i, dx)),
    ensures
        ({
            let s1 = with_more(s, i, dx);
            s.exchanged(i, j, dx, now) == match invariant_before(s, now) {
                Err(e) => Err(e),
                Ok(None) => Ok((s1, None)),
                Ok(Some(d)) => match get_y_3_model(s.ann, s.gamma, units(s1), d, j) {
                    Err(e) => Err(e),
                    Ok(None) => Ok((TriNG { d, ..s1 }, None)),
                    Ok(Some((y, k0))) => match (TriNG { d, ..s1 }).paid(units(s1), j, y, k0, now) {
                        Err(e) => Err(e),
                        Ok((t, out)) => Ok((t, Some(out))),
                    },
                },
            }
        }),
{
    lemma_entry(s, i, dx);
}

/// Whether `dy` and `fee` are what a pool owes in coin `j` when its balance goes from that in `u` to `y`, both in
/// common units: together they come to the difference less one, short of less than one unit of the coin, and
/// the fee is the rate for the balances without what goes out, rounded down.
pub open spec fn owes(s: TriNG, u: (int, int, int), j: int, y: int, dy: int, fee: int) -> bool {
    let e = dy + fee;
    &&& fee_3_model(
        (if j == 0 { y } else { u.0 }, if j == 1 { y } else { u.1 }, if j == 2 { y } else { u.2 }),
        s.mid_fee,
        s.out_fee,
        s.fee_gamma,
    ) matches Ok(rate)
    &&& 0 <= rate * e < modulus() ==> fee * FEE_DENOMINATOR <= rate * e < (fee + 1) * FEE_DENOMINATOR
    &&& j == 0 ==> e * s.precisions.0 <= u.0 - y - 1 < (e + 1) * s.precisions.0
    &&& j == 1 ==> e * (s.price_scale.0 * s.precisions.1) <= (u.1 - y - 1) * WAD < (e + 1) * (s.price_scale.0
        * s.precisions.1)
    &&& j == 2 ==> e * (s.price_scale.1 * s.precisions.2) <= (u.2 - y - 1) * WAD < (e + 1) * (s.price_scale.1
        * s.precisions.2)
}

/// What an exchange pays is counted in the units of the coin that goes out. The solver is asked with
/// what the pool holds, what came in included, in common units: the first coin times its precision, each
/// other coin times its price and its precision. What it finds that the pool can do without, less one unit,
/// is paid out and kept as the fee, short of less than one unit of the coin that goes out. Where the
/// solver has no answer, nothing is paid and what came in stays. While the parameters change, `D` is what the solver
/// finds for the balances before the trade. The rest of the update runs with what is left in the pool.
pub proof fn law_exchange_payout(s: TriNG, i: int, j: int, dx: int, now: int)
    requires
        0 <= i < 3,
        0 <= j < 3,
        i != j,
        0 < dx,
        0 <= s.balances.0,
        0 <= s.balances.1,
        0 <= s.balances.2,
        countable(with_more(s, i, dx)),
    ensures
        s.exchanged(i, j, dx, now) matches Ok((t, out)) ==> {
            let u = units(with_more(s, i, dx));
            match invariant_before(s, now) {
                Err(_) => false,
                Ok(None) => out is None && t == with_more(s, i, dx),
                Ok(Some(d)) => match get_y_3_model(s.ann, s.gamma, u, d, j) {
                    Err(_) => false,
                    Ok(None) => out is None && t == (TriNG { d, ..with_more(s, i, dx) }),
                    Ok(Some((y, k0))) => out matches Some((dy, fee)) && (0 <= y < get3(u, j) && dy + fee
                        < modulus() ==> {
                        &&& owes(s, u, j, y, dy, fee)
                        &&& 0 <= dy <= get3(s.balances, j) ==> {
                            let left = TriNG { d, ..with_more(with_more(s, i, dx), j, -dy) };
                            left.tweaked(units(left), 0, k0, now) == Ok::<_, Fault>(t)
                        }
                    }),
                },
            }
        },
{
    let s1 = with_more(s, i, dx);
    lemma_exchanged(s, i, j, dx, now);
    if let Ok(Some(d)) = invariant_before(s, now) {
        if let Ok(Some((y, k0))) = get_y_3_model(s.ann, s.gamma, units(s1), d, j) {
            lemma_payout(s1, d, j, y, k0, now);
        }
    }
}

/// What is paid out of a pool that the solver has seen.
proof fn lemma_payout(s1: TriNG, d: int, j: int, y: int, k0: int, now: int)
    requires
        0 <= j < 3,
        countable(s1),
    ensures
        (TriNG { d, ..s1 }).paid(units(s1), j, y, k0, now) matches Ok((t, (dy, fee))) ==> (0 <= y < get3(
            units(s1),
            j,
        ) && dy + fee < modulus() ==> {
            &&& owes(s1, units(s1), j, y, dy, fee)
            &&& 0 <= dy <= get3(s1.balances, j) ==> {
                let left = TriNG { d, ..with_more(s1, j, -dy) };
                left.tweaked(units(left), 0, k0, now) == Ok::<_, Fault>(t)
            }
        }),
{
    let xp = units(s1);
    let s2 = TriNG { d, ..s1 };
    lemma_units(s1);
    let x_j = get3(xp, j);
    let prec_j = get3(s1.precisions, j);
    if 0 <= y < x_j {
        lemma_owed(x_j, y, prec_j, s2.scale(j));
        let e = gross_out(x_j, y, prec_j, s2.scale(j))->Ok_0;
        if let Ok(rate) = fee_3_model(set3(xp, j, y), s1.mid_fee, s1.out_fee, s1.fee_gamma) {
            lemma_kept(rate, e);
        }
        if let Ok((t, (dy, fee))) = s2.paid(xp, j, y, k0, now) {
            if 0 <= dy <= get3(s1.balances, j) {
                lemma_minus(get3(s1.balances, j), dy);
                let s3 = TriNG { balances: set3(s2.balances, j, get3(s1.balances, j) - dy), ..s2 };
                lemma_less(s1, s3);
                lemma_units(s3);
                assert(set3(set3(xp, j, y), j, get3(units(s3), j)) == units(s3));
                assert(s3 == (TriNG { d, ..with_more(s1, j, -dy) }));
            }
        }
    }
}

/// An exchange goes through whenever the solver has an answer, the fee has a rate and the update goes
/// through, and pays just what is owed.
pub proof fn law_exchange_goes_through(
    s: TriNG,
    i: int,
    j: int,
    dx: int,
    now: int,
    d: int,
    y: int,
    k0: int,
    rate: int,
    dy: int,
    fee: int,
)
    requires
        0 <= i < 3,
        0 <= j < 3,
        i != j,
        0 < dx,
        0 <= s.balances.0,
        0 <= s.balances.1,
        0 <= s.balances.2,
        countable(with_more(s, i, dx)),
        invariant_before(s, now) == Ok::<_, Fault>(Some(d)),
        get_y_3_model(s.ann, s.gamma, units(with_more(s, i, dx)), d, j) == Ok::<_, Fault>(Some((y, k0))),
        0 <= y < get3(units(with_more(s, i, dx)), j),
        fee_3_model(set3(units(with_more(s, i, dx)), j, y), s.mid_fee, s.out_fee, s.fee_gamma) == Ok::<_, Fault>(
            rate,
        ),
        0 <= rate,
        0 <= dy <= get3(s.balances, j),
        0 <= fee,
        dy + fee < modulus(),
        rate * (dy + fee) < modulus(),
        owes(s, units(with_more(s, i, dx)), j, y, dy, fee),
    ensures
        ({
            let left = TriNG { d, ..with_more(with_more(s, i, dx), j, -dy) };
            s.exchanged(i, j, dx, now) == match left.tweaked(units(left), 0, k0, now) {
                Err(e) => Err(e),
                Ok(t) => Ok((t, Some((dy, fee)))),
            }
        }),
{
    lemma_exchanged(s, i, j, dx, now);
    lemma_paid_exact(with_more(s, i, dx), d, j, y, k0, now, rate, dy, fee);
}

proof fn lemma_paid_exact(
    s1: TriNG,
    d: int,
    j: int,
    y: int,
    k0: int,
    now: int,
    rate: int,
    dy: int,
    fee: int,
)
    requires
        0 <= j < 3,
        countable(s1),
        0 <= y < get3(units(s1), j),
        fee_3_model(set3(units(s1), j, y), s1.mid_fee, s1.out_fee, s1.fee_gamma) == Ok::<_, Fault>(rate),
        0 <= rate,
        0 <= dy <= get3(s1.balances, j),
        0 <= fee,
        dy + fee < modulus(),
        rate * (dy + fee) < modulus(),
        owes(s1, units(s1), j, y, dy, fee),
    ensures
        ({
            let left = TriNG { d, ..with_more(s1, j, -dy) };
            (TriNG { d, ..s1 }).paid(units(s1), j, y, k0, now) == match left.tweaked(units(left), 0, k0, now) {
                Err(e) => Err(e),
                Ok(t) => Ok((t, (dy, fee))),
            }
        }),
{
    let xp = units(s1);
    let s2 = TriNG { d, ..s1 };
    lemma_units(s1);
    lemma_owed_exact(get3(xp, j), y, get3(s1.precisions, j), s2.scale(j), dy + fee);
    assert(0 <= rate * (dy + fee)) by (nonlinear_arith)
        requires
            0 <= rate,
            0 <= dy + fee,
    ;
    lemma_fee_exact(rate, dy, fee);
    lemma_minus(get3(s1.balances, j), dy);
    let s3 = TriNG { balances: set3(s2.balances, j, get3(s1.balances, j) - dy), ..s2 };
    lemma_less(s1, s3);
    lemma_units(s3);
    assert(set3(set3(xp, j, y), j, get3(units(s3), j)) == units(s3));
    assert(s3 == (TriNG { d, ..with_more(s1, j, -dy) }));
}

/// Two pools that differ in nothing but balances and precisions are updated alike.
proof fn lemma_tweaked_alike(s: TriNG, r: TriNG, xp: (int, int, int), new_d: int, k0_prev: int, now: int)
    requires
        r == (TriNG { balances: r.balances, precisions: r.precisions, ..s }),
    ensures
        match s.tweaked(xp, new_d, k0_prev, now) {
            Err(_) => r.tweaked(xp, new_d, k0_prev, now) is Err,
            Ok(t) => t.balances == s.balances && r.tweaked(xp, new_d, k0_prev, now) == Ok::<_, Fault>(
                TriNG { balances: r.balances, precisions: r.precisions, ..t },
            ),
        },
{
}

/// The same amounts in finer units are the same in common units.
proof fn lemma_finer(s: TriNG, r: TriNG, k: int, m: int, q: int)
    requires
        0 <= k < 3,
        countable(s),
        0 < m,
        0 < q,
        get3(s.precisions, k) == m * q,
        r == (TriNG {
            balances: set3(s.balances, k, get3(s.balances, k) * m),
            precisions: set3(s.precisions, k, q),
            ..s
        }),
    ensures
        countable(r),
        units(r) == units(s),
        0 <= get3(s.balances, k) <= get3(s.balances, k) * m < modulus(),
{
    let x = get3(s.balances, k);
    let ps = if k == 0 { 1 } else { get2(s.price_scale, k - 1) };
    assert((x * m) * q == x * (m * q) && (x * m) * ps * q == x * ps * (m * q) && x <= x * m && x * m <= (x * m) * q
        && x * m <= (x * m) * ps * q) by (nonlinear_arith)
        requires
            0 <= x,
            0 < m,
            0 < q,
            0 < ps,
    ;
    lemma_units(s);
    lemma_units(r);
}

/// What is paid does not depend on the units of the coin that comes in.
proof fn lemma_paid_alike(
    s: TriNG,
    r: TriNG,
    xp: (int, int, int),
    i: int,
    j: int,
    m: int,
    y: int,
    k0_prev: int,
    now: int,
)
    requires
        0 <= i < 3,
        0 <= j < 3,
        i != j,
        r == (TriNG {
            balances: set3(s.balances, i, get3(s.balances, i) * m),
            precisions: r.precisions,
            ..s
        }),
        get3(r.precisions, j) == get3(s.precisions, j),
    ensures
        match s.paid(xp, j, y, k0_prev, now) {
            Err(_) => r.paid(xp, j, y, k0_prev, now) is Err,
            Ok((t, out)) => r.paid(xp, j, y, k0_prev, now) == Ok::<_, Fault>(
                (
                    TriNG {
                        balances: set3(t.balances, i, get3(t.balances, i) * m),
                        precisions: r.precisions,
                        ..t
                    },
                    out,
                ),
            ),
        },
{
    let prec_j = get3(s.precisions, j);
    if let Ok(out) = gross_out(get3(xp, j), y, prec_j, s.scale(j)) {
        if let Ok(rate) = fee_3_model(set3(xp, j, y), s.mid_fee, s.out_fee, s.fee_gamma) {
            let left = get3(s.balances, j).minus(out.minus(fee_on(rate, out)));
            let xp2 = set3(set3(xp, j, y), j, in_units(left, prec_j, s.scale(j)));
            let s3 = TriNG { balances: set3(s.balances, j, left), ..s };
            let r3 = TriNG { balances: set3(r.balances, j, left), ..r };
            lemma_tweaked_alike(s3, r3, xp2, 0, k0_prev, now);
        }
    }
}

/// A pool whose coin that comes in counts in coarse units, and the same pool with that coin in units that
/// are `m` times finer, pay the same and keep the same fee for the same trade, and all else in their
/// states stays the same too.
pub proof fn law_exchange_decimals(
    s: TriNG,
    r: TriNG,
    i: int,
    j: int,
    m: int,
    q: int,
    dx: int,
    now: int,
)
    requires
        0 <= i < 3,
        0 <= j < 3,
        i != j,
        0 < dx,
        0 <= s.balances.0,
        0 <= s.balances.1,
        0 <= s.balances.2,
        countable(with_more(s, i, dx)),
        0 < m,
        0 < q,
        get3(s.precisions, i) == m * q,
        r == (TriNG {
            balances: set3(s.balances, i, get3(s.balances, i) * m),
            precisions: set3(s.precisions, i, q),
            ..s
        }),
    ensures
        match s.exchanged(i, j, dx, now) {
            Err(_) => r.exchanged(i, j, dx * m, now) is Err,
            Ok((t, out)) => r.exchanged(i, j, dx * m, now) == Ok::<_, Fault>(
                (
                    TriNG {
                        balances: set3(t.balances, i, get3(t.balances, i) * m),
                        precisions: r.precisions,
                        ..t
                    },
                    out,
                ),
            ),
        },
{
    let x0 = get3(s.balances, i);
    let s1 = with_more(s, i, dx);
    let r1 = with_more(r, i, dx * m);
    assert(x0 * m + dx * m == (x0 + dx) * m && 0 < dx * m && 0 <= x0 * m) by (nonlinear_arith)
        requires
            0 <= x0,
            0 < dx,
            0 < m,
    ;
    lemma_entry(s, i, dx);
    lemma_finer(s1, r1, i, m, q);
    lemma_finer(s, r, i, m, q);
    lemma_exchanged(s, i, j, dx, now);
    lemma_exchanged(r, i, j, dx * m, now);
    if let Ok(Some(d)) = invariant_before(s, now) {
        if let Ok(Some((y, k0))) = get_y_3_model(s.ann, s.gamma, units(s1), d, j) {
            lemma_paid_alike(TriNG { d, ..s1 }, TriNG { d, ..r1 }, units(s1), i, j, m, y, k0, now);
        }
    }
}

/// The virtual price of an even split.
proof fn lemma_worth(d: int, scale: (int, int), supply: int, mean: int)
    requires
        0 <= d,
        0 < scale.0,
        0 < scale.1,
        0 < supply,
        3 * scale.0 < modulus(),
        3 * scale.1 < modulus(),
        d * WAD < modulus(),
        mean == geometric_mean_3_model((d / 3, d * WAD / (3 * scale.0), d * WAD / (3 * scale.1))),
        0 <= mean,
        mean * WAD < modulus(),
    ensures
        even_split_3(d, scale) matches Ok(even) && geometric_mean_3_model(even) == mean,
        (WAD as int).times(mean).over(supply) == mean * WAD / supply,
        0 <= mean * WAD / supply < modulus(),
{
    lemma_times(3, scale.0);
    lemma_times(3, scale.1);
    lemma_over(d, 3);
    lemma_share(d, WAD as int, 3 * scale.0);
    lemma_share(d, WAD as int, 3 * scale.1);
    lemma_share(mean, WAD as int, supply);
}

/// Whether a change of the balances to `xp` leaves the invariant `d`, the virtual price `v` and the profit
/// `profit` where the price scales do not move: `d` is what is known or what the solver answers, `v` is
/// the geometric mean of an even split per pool token, and the profit grows in proportion to the virtual price.
pub open spec fn worth(
    s: TriNG,
    xp: (int, int, int),
    new_d: int,
    k0_prev: int,
    d: int,
    v: int,
    profit: int,
) -> bool {
    let mean = geometric_mean_3_model(
        (d / 3, d * WAD / (3 * s.price_scale.0), d * WAD / (3 * s.price_scale.1)),
    );
    &&& if new_d != 0 {
        d == new_d
    } else {
        match newton_d_3_model(s.ann, s.gamma, xp, k0_prev) {
            Err(_) => false,
            Ok(Some(found)) => d == found,
            Ok(None) => d == s.d,
        }
    }
    &&& 0 <= d
    &&& 0 < s.price_scale.0
    &&& 0 < s.price_scale.1
    &&& 0 < s.total_supply
    &&& 0 < s.virtual_price
    &&& 3 * s.price_scale.0 < modulus()
    &&& 3 * s.price_scale.1 < modulus()
    &&& d * WAD < modulus()
    &&& 0 <= mean
    &&& mean * WAD < modulus()
    &&& v == mean * WAD / s.total_supply
    &&& 0 <= s.xcp_profit
    &&& s.xcp_profit * v < modulus()
    &&& profit == s.xcp_profit * v / s.virtual_price
}

proof fn lemma_worth_at(
    s: TriNG,
    xp: (int, int, int),
    new_d: int,
    k0_prev: int,
    now: int,
    d: int,
    v: int,
    profit: int,
)
    requires
        worth(s, xp, new_d, k0_prev, d, v, profit),
    ensures
        0 <= v,
        0 <= profit,
        s.invariant_at(xp, new_d, k0_prev) == Ok::<_, Fault>(d),
        v < s.virtual_price && s.future_a_gamma_time < now ==> s.profit_at(d, now) == Ok::<_, Fault>(
            None::<(int, int)>,
        ),
        v >= s.virtual_price || s.future_a_gamma_time >= now ==> s.profit_at(d, now) == Ok::<_, Fault>(
            Some((v, profit)),
        ),
{
    let mean = geometric_mean_3_model(
        (d / 3, d * WAD / (3 * s.price_scale.0), d * WAD / (3 * s.price_scale.1)),
    );
    lemma_worth(d, s.price_scale, s.total_supply, mean);
    lemma_share(s.xcp_profit, v, s.virtual_price);
}

/// The price scales stay where they are whenever twice the virtual price of the unadjusted invariant less one
/// is at most the profit and twice the extra profit that the pool asks for. The pool then takes the
/// invariant of the new balances, its virtual price and the profit in proportion.
pub proof fn law_tweak_threshold(
    s: TriNG,
    t: TriNG,
    xp: (int, int, int),
    new_d: int,
    k0_prev: int,
    now: int,
    d: int,
    v: int,
    profit: int,
)
    requires
        s.tweaked(xp, new_d, k0_prev, now) == Ok::<_, Fault>(t),
        worth(s, xp, new_d, k0_prev, d, v, profit),
        v >= s.virtual_price || s.future_a_gamma_time >= now,
        WAD <= 2 * v < modulus(),
        0 <= s.allowed_extra_profit,
        profit + 2 * s.allowed_extra_profit < modulus(),
        2 * v - WAD <= profit + 2 * s.allowed_extra_profit,
    ensures
        t.price_scale == s.price_scale,
        t.d == d,
        t.virtual_price == v,
        t.xcp_profit == profit,
{
    let s0 = s.with_average(now)->Ok_0;
    lemma_worth_at(s0, xp, new_d, k0_prev, now, d, v, profit);
    let s1 = s0.with_prices(xp, d)->Ok_0;
    lemma_worth_at(s1, xp, new_d, k0_prev, now, d, v, profit);
    lemma_allows(v, profit, s.allowed_extra_profit);
}

/// An update goes through where the time constant is not zero, the balances have an invariant and prices at
/// the margin, and the price scales do not move.
pub proof fn law_tweak_goes_through(
    s: TriNG,
    xp: (int, int, int),
    new_d: int,
    k0_prev: int,
    now: int,
    d: int,
    v: int,
    profit: int,
)
    requires
        now <= s.last_prices_timestamp || (0 < s.ma_time && (now - s.last_prices_timestamp) * WAD < half()),
        worth(s, xp, new_d, k0_prev, d, v, profit),
        get_p_model(xp, d, s.ann, s.gamma) is Ok,
        WAD <= 2 * v < modulus(),
        0 <= s.allowed_extra_profit,
        profit + 2 * s.allowed_extra_profit < modulus(),
        2 * v - WAD <= profit + 2 * s.allowed_extra_profit,
    ensures
        s.tweaked(xp, new_d, k0_prev, now) is Ok,
{
    if now > s.last_prices_timestamp {
        let dt = now - s.last_prices_timestamp;
        lemma_share(dt, WAD as int, s.ma_time);
        lemma_wad_exp(-(dt * WAD / s.ma_time));
    }
    let s0 = s.with_average(now)->Ok_0;
    lemma_worth_at(s0, xp, new_d, k0_prev, now, d, v, profit);
    let s1 = s0.with_prices(xp, d)->Ok_0;
    lemma_worth_at(s1, xp, new_d, k0_prev, now, d, v, profit);
    lemma_allows(v, profit, s.allowed_extra_profit);
}

/// The price scales of a pool are the same after an exchange as before it whenever twice the virtual price
/// less one, with the virtual price of the invariant of what is left in the pool, is at most the new profit
/// and twice the extra profit that the pool asks for. The new virtual price and profit are then these.
pub proof fn law_exchange_threshold(
    s: TriNG,
    t: TriNG,
    i: int,
    j: int,
    dx: int,
    now: int,
    dy: int,
    fee: int,
    d0: int,
    y: int,
    k0: int,
    d: int,
    v: int,
    profit: int,
)
    requires
        0 <= i < 3,
        0 <= j < 3,
        i != j,
        0 < dx,
        0 <= s.balances.0,
        0 <= s.balances.1,
        0 <= s.balances.2,
        countable(with_more(s, i, dx)),
        s.exchanged(i, j, dx, now) == Ok::<_, Fault>((t, Some((dy, fee)))),
        0 <= dy <= get3(s.balances, j),
        dy + fee < modulus(),
        invariant_before(s, now) == Ok::<_, Fault>(Some(d0)),
        get_y_3_model(s.ann, s.gamma, units(with_more(s, i, dx)), d0, j) == Ok::<_, Fault>(Some((y, k0))),
        0 <= y < get3(units(with_more(s, i, dx)), j),
        worth(
            TriNG { d: d0, ..s },
            units(with_more(with_more(s, i, dx), j, -dy)),
            0,
            k0,
            d,
            v,
            profit,
        ),
        v >= s.virtual_price || s.future_a_gamma_time >= now,
        WAD <= 2 * v < modulus(),
        0 <= s.allowed_extra_profit,
        profit + 2 * s.allowed_extra_profit < modulus(),
        2 * v - WAD <= profit + 2 * s.allowed_extra_profit,
    ensures
        t.price_scale == s.price_scale,
        t.d == d,
        t.virtual_price == v,
        t.xcp_profit == profit,
{
    law_exchange_payout(s, i, j, dx, now);
    let left = TriNG { d: d0, ..with_more(with_more(s, i, dx), j, -dy) };
    law_tweak_threshold(left, t, units(left), 0, k0, now, d, v, profit);
}

/// Where the virtual price would fall while the parameters do not change, only the prices that were seen
/// are noted.
pub proof fn law_tweak_loss(
    s: TriNG,
    t: TriNG,
    xp: (int, int, int),
    new_d: int,
    k0_prev: int,
    now: int,
    d: int,
    v: int,
    profit: int,
)
    requires
        s.tweaked(xp, new_d, k0_prev, now) == Ok::<_, Fault>(t),
        worth(s, xp, new_d, k0_prev, d, v, profit),
        v < s.virtual_price,
        s.future_a_gamma_time < now,
    ensures
        t == (TriNG {
            last_prices: t.last_prices,
            price_oracle: t.price_oracle,
            last_prices_timestamp: t.last_prices_timestamp,
            ..s
        }),
{
    let s0 = s.with_average(now)->Ok_0;
    lemma_worth_at(s0, xp, new_d, k0_prev, now, d, v, profit);
    let s1 = s0.with_prices(xp, d)->Ok_0;
    lemma_worth_at(s1, xp, new_d, k0_prev, now, d, v, profit);
}

/// A pool that has no virtual price yet starts at one, with a profit of one and the price scales that it has.
pub proof fn law_tweak_first(
    s: TriNG,
    t: TriNG,
    xp: (int, int, int),
    new_d: int,
    k0_prev: int,
    now: int,
)
    requires
        s.tweaked(xp, new_d, k0_prev, now) == Ok::<_, Fault>(t),
        s.virtual_price == 0,
    ensures
        t.virtual_price == WAD,
        t.xcp_profit == WAD,
        t.price_scale == s.price_scale,
        new_d != 0 ==> t.d == new_d,
{
}

/// What an update touches: the prices, the invariant, the virtual price and the profit.
pub proof fn law_tweak_touches(
    s: TriNG,
    t: TriNG,
    xp: (int, int, int),
    new_d: int,
    k0_prev: int,
    now: int,
)
    requires
        s.tweaked(xp, new_d, k0_prev, now) == Ok::<_, Fault>(t),
    ensures
        t == (TriNG {
            price_scale: t.price_scale,
            price_oracle: t.price_oracle,
            last_prices: t.last_prices,
            last_prices_timestamp: if s.last_prices_timestamp < now {
                now
            } else {
                s.last_prices_timestamp
            },
            d: t.d,
            virtual_price: t.virtual_price,
            xcp_profit: t.xcp_profit,
            ..s
        }),
{
}

/// When the price scales move and to where. They move only where the oracles are together farther from them
/// than the step, which is a fifth of the distance or `adjustment_step` where that is more, and where the
/// profit leaves room. Both then move that step of the way to their oracles, as long as the virtual
/// price at the new scales stays above one and twice of it less one above the profit.
pub proof fn law_tweak_move(
    s: TriNG,
    t: TriNG,
    xp: (int, int, int),
    new_d: int,
    k0_prev: int,
    now: int,
    d: int,
    v: int,
    profit: int,
    a: int,
    b: int,
    norm: int,
    step: int,
    c: (int, int),
)
    requires
        s.tweaked(xp, new_d, k0_prev, now) == Ok::<_, Fault>(t),
        worth(s, xp, new_d, k0_prev, d, v, profit),
        v >= s.virtual_price || s.future_a_gamma_time >= now,
        WAD <= 2 * v < modulus(),
        0 <= s.allowed_extra_profit,
        profit + 2 * s.allowed_extra_profit < modulus(),
        0 <= xp.1,
        0 <= xp.2,
        0 <= t.price_oracle.0,
        0 <= t.price_oracle.1,
        t.price_oracle.0 * WAD < modulus(),
        t.price_oracle.1 * WAD < modulus(),
        a == (if t.price_oracle.0 * WAD / s.price_scale.0 > WAD {
            t.price_oracle.0 * WAD / s.price_scale.0 - WAD
        } else {
            WAD - t.price_oracle.0 * WAD / s.price_scale.0
        }),
        b == (if t.price_oracle.1 * WAD / s.price_scale.1 > WAD {
            t.price_oracle.1 * WAD / s.price_scale.1 - WAD
        } else {
            WAD - t.price_oracle.1 * WAD / s.price_scale.1
        }),
        a * a + b * b < modulus() - 1,
        0 <= norm,
        norm * norm <= a * a + b * b < (norm + 1) * (norm + 1),
        step == (if s.adjustment_step > norm / 5 { s.adjustment_step } else { norm / 5 }),
        step < norm ==> {
            &&& s.price_scale.0 * (norm - step) + step * t.price_oracle.0 < modulus()
            &&& s.price_scale.1 * (norm - step) + step * t.price_oracle.1 < modulus()
            &&& c.0 == (s.price_scale.0 * (norm - step) + step * t.price_oracle.0) / norm
            &&& c.1 == (s.price_scale.1 * (norm - step) + step * t.price_oracle.1) / norm
        },
    ensures
        t.xcp_profit == profit,
        step >= norm ==> t.price_scale == s.price_scale && t.d == d && t.virtual_price == v,
        step < norm && 2 * v - WAD > profit + 2 * s.allowed_extra_profit && xp.1 * c.0 < modulus() && xp.2 * c.1
            < modulus() ==> match newton_d_3_model(
            s.ann,
            s.gamma,
            (xp.0, xp.1 * c.0 / s.price_scale.0, xp.2 * c.1 / s.price_scale.1),
            0,
        ) {
            Err(_) => false,
            Ok(None) => t.price_scale == s.price_scale && t.d == d && t.virtual_price == v,
            Ok(Some(e)) => {
                let mean = geometric_mean_3_model((e / 3, e * WAD / (3 * c.0), e * WAD / (3 * c.1)));
                let w = mean * WAD / s.total_supply;
                0 <= e && 0 < c.0 && 0 < c.1 && 3 * c.0 < modulus() && 3 * c.1 < modulus() && e * WAD
                    < modulus() && 0 <= mean && mean * WAD < modulus() && 2 * w < modulus() ==> if w > WAD && 2
                    * w - WAD > profit {
                    t.price_scale == c && t.d == e && t.virtual_price == w
                } else {
                    t.price_scale == s.price_scale && t.d == d && t.virtual_price == v
                }
            },
        },
{
    let s0 = s.with_average(now)->Ok_0;
    lemma_worth_at(s0, xp, new_d, k0_prev, now, d, v, profit);
    let s1 = s0.with_prices(xp, d)->Ok_0;
    lemma_worth_at(s1, xp, new_d, k0_prev, now, d, v, profit);
    let s2 = TriNG { xcp_profit: profit, ..s1 };
    assert(s2.settled(xp, d, v) == Ok::<_, Fault>(t));
    lemma_settled(s2, t, xp, d, v, a, b, norm, step, c);
}

/// The same of the last part of an update.
proof fn lemma_settled(
    s: TriNG,
    t: TriNG,
    xp: (int, int, int),
    d: int,
    v: int,
    a: int,
    b: int,
    norm: int,
    step: int,
    c: (int, int),
)
    requires
        s.settled(xp, d, v) == Ok::<_, Fault>(t),
        0 < s.price_scale.0,
        0 < s.price_scale.1,
        0 < s.total_supply,
        0 < s.virtual_price,
        WAD <= 2 * v < modulus(),
        0 <= s.xcp_profit,
        0 <= s.allowed_extra_profit,
        s.xcp_profit + 2 * s.allowed_extra_profit < modulus(),
        0 <= xp.1,
        0 <= xp.2,
        0 <= s.price_oracle.0,
        0 <= s.price_oracle.1,
        s.price_oracle.0 * WAD < modulus(),
        s.price_oracle.1 * WAD < modulus(),
        a == (if s.price_oracle.0 * WAD / s.price_scale.0 > WAD {
            s.price_oracle.0 * WAD / s.price_scale.0 - WAD
        } else {
            WAD - s.price_oracle.0 * WAD / s.price_scale.0
        }),
        b == (if s.price_oracle.1 * WAD / s.price_scale.1 > WAD {
            s.price_oracle.1 * WAD / s.price_scale.1 - WAD
        } else {
            WAD - s.price_oracle.1 * WAD / s.price_scale.1
        }),
        a * a + b * b < modulus() - 1,
        0 <= norm,
        norm * norm <= a * a + b * b < (norm + 1) * (norm + 1),
        step == (if s.adjustment_step > norm / 5 { s.adjustment_step } else { norm / 5 }),
        step < norm ==> {
            &&& s.price_scale.0 * (norm - step) + step * s.price_oracle.0 < modulus()
            &&& s.price_scale.1 * (norm - step) + step * s.price_oracle.1 < modulus()
            &&& c.0 == (s.price_scale.0 * (norm - step) + step * s.price_oracle.0) / norm
            &&& c.1 == (s.price_scale.1 * (norm - step) + step * s.price_oracle.1) / norm
        },
    ensures
        t == (TriNG { price_scale: t.price_scale, d: t.d, virtual_price: t.virtual_price, ..s }),
        step >= norm ==> t.price_scale == s.price_scale && t.d == d && t.virtual_price == v,
        step < norm && 2 * v - WAD > s.xcp_profit + 2 * s.allowed_extra_profit && xp.1 * c.0 < modulus() && xp.2
            * c.1 < modulus() ==> match newton_d_3_model(
            s.ann,
            s.gamma,
            (xp.0, xp.1 * c.0 / s.price_scale.0, xp.2 * c.1 / s.price_scale.1),
            0,
        ) {
            Err(_) => false,
            Ok(None) => t.price_scale == s.price_scale && t.d == d && t.virtual_price == v,
            Ok(Some(e)) => {
                let mean = geometric_mean_3_model((e / 3, e * WAD / (3 * c.0), e * WAD / (3 * c.1)));
                let w = mean * WAD / s.total_supply;
                0 <= e && 0 < c.0 && 0 < c.1 && 3 * c.0 < modulus() && 3 * c.1 < modulus() && e * WAD
                    < modulus() && 0 <= mean && mean * WAD < modulus() && 2 * w < modulus() ==> if w > WAD && 2
                    * w - WAD > s.xcp_profit {
                    t.price_scale == c && t.d == e && t.virtual_price == w
                } else {
                    t.price_scale == s.price_scale && t.d == d && t.virtual_price == v
                }
            },
        },
{
    lemma_allows(v, s.xcp_profit, s.allowed_extra_profit);
    lemma_norm(s.price_oracle, s.price_scale, a, b, norm);
    lemma_step(s.adjustment_step, norm);
    if step < norm {
        lemma_moved_scale(s.price_scale.0, s.price_oracle.0, norm, step);
        lemma_moved_scale(s.price_scale.1, s.price_oracle.1, norm, step);
        if xp.1 * c.0 < modulus() && xp.2 * c.1 < modulus() {
            lemma_share(xp.1, c.0, s.price_scale.0);
            lemma_share(xp.2, c.1, s.price_scale.1);
            let x = (xp.0, xp.1 * c.0 / s.price_scale.0, xp.2 * c.1 / s.price_scale.1);
            if let Ok(Some(e)) = newton_d_3_model(s.ann, s.gamma, x, 0) {
                let mean = geometric_mean_3_model((e / 3, e * WAD / (3 * c.0), e * WAD / (3 * c.1)));
                if 0 <= e && 0 < c.0 && 0 < c.1 && 3 * c.0 < modulus() && 3 * c.1 < modulus() && e * WAD
                    < modulus() && 0 <= mean && mean * WAD < modulus() && 2 * (mean * WAD / s.total_supply)
                    < modulus() {
                    lemma_worth(e, c, s.total_supply, mean);
                    lemma_keeps(mean * WAD / s.total_supply, s.xcp_profit);
                }
            }
        }
    }
}

/// One of the two averages after an update.
proof fn lemma_average(last: int, scale: int, oracle: int, alpha: int)
    requires
        0 <= last,
        0 <= oracle,
        0 <= scale,
        2 * scale < modulus(),
        last * WAD + oracle * WAD < modulus(),
        0 <= alpha <= WAD,
    ensures
        moved_average(smaller(last, 2int.times(scale)), oracle, alpha) == ((if last < 2 * scale {
            last
        } else {
            2 * scale
        }) * (WAD - alpha) + oracle * alpha) / (WAD as int),
{
    let w = WAD as int;
    let p = if last < 2 * scale { last } else { 2 * scale };
    lemma_times(2, scale);
    assert(p * (w - alpha) <= last * w && oracle * alpha <= oracle * w) by (nonlinear_arith)
        requires
            0 <= p <= last,
            0 <= oracle,
            0 <= alpha <= w,
    ;
    lemma_moved_average(p, oracle, alpha);
}

/// The averages move toward the last prices, each of which counts for at most twice its price scale, with the
/// weight that is left of the old averages after the time that has passed; they stay where no time has
/// passed.
pub proof fn law_tweak_oracle(
    s: TriNG,
    t: TriNG,
    xp: (int, int, int),
    new_d: int,
    k0_prev: int,
    now: int,
)
    requires
        s.tweaked(xp, new_d, k0_prev, now) == Ok::<_, Fault>(t),
        0 <= s.last_prices.0,
        0 <= s.last_prices.1,
        0 <= s.price_oracle.0,
        0 <= s.price_oracle.1,
        0 <= s.price_scale.0,
        0 <= s.price_scale.1,
        2 * s.price_scale.0 < modulus(),
        2 * s.price_scale.1 < modulus(),
        s.last_prices.0 * WAD + s.price_oracle.0 * WAD < modulus(),
        s.last_prices.1 * WAD + s.price_oracle.1 * WAD < modulus(),
        0 < s.ma_time,
        now <= s.last_prices_timestamp || (now - s.last_prices_timestamp) * WAD < modulus(),
    ensures
        now <= s.last_prices_timestamp ==> t.price_oracle == s.price_oracle,
        now > s.last_prices_timestamp ==> {
            let first = if s.last_prices.0 < 2 * s.price_scale.0 {
                s.last_prices.0
            } else {
                2 * s.price_scale.0
            };
            let second = if s.last_prices.1 < 2 * s.price_scale.1 {
                s.last_prices.1
            } else {
                2 * s.price_scale.1
            };
            wad_exp_model(-((now - s.last_prices_timestamp) * WAD / s.ma_time)) matches Ok(alpha) && {
                &&& 0 <= alpha <= WAD
                &&& t.price_oracle.0 == (first * (WAD - alpha) + s.price_oracle.0 * alpha) / (WAD as int)
                &&& t.price_oracle.1 == (second * (WAD - alpha) + s.price_oracle.1 * alpha) / (WAD as int)
            }
        },
{
    if now > s.last_prices_timestamp {
        let dt = now - s.last_prices_timestamp;
        lemma_share(dt, WAD as int, s.ma_time);
        let q = dt * WAD / s.ma_time;
        lemma_wad_exp(-q);
        let alpha = wad_exp_model(-q)->Ok_0;
        lemma_average(s.last_prices.0, s.price_scale.0, s.price_oracle.0, alpha);
        lemma_average(s.last_prices.1, s.price_scale.1, s.price_oracle.1, alpha);
        assert(s.with_average(now) matches Ok(s0) && s0.price_oracle == t.price_oracle);
    }
}

/// The last prices are the prices at the margin of the new balances, each times its price scale.
pub proof fn law_tweak_price(
    s: TriNG,
    t: TriNG,
    xp: (int, int, int),
    new_d: int,
    k0_prev: int,
    now: int,
    d: int,
)
    requires
        s.tweaked(xp, new_d, k0_prev, now) == Ok::<_, Fault>(t),
        if new_d != 0 {
            d == new_d
        } else {
            match newton_d_3_model(s.ann, s.gamma, xp, k0_prev) {
                Err(_) => false,
                Ok(Some(found)) => d == found,
                Ok(None) => d == s.d,
            }
        },
    ensures
        get_p_model(xp, d, s.ann, s.gamma) matches Ok(v) && {
            &&& 0 <= v.0 * s.price_scale.0 < modulus() ==> t.last_prices.0 * WAD <= v.0 * s.price_scale.0
                < (t.last_prices.0 + 1) * WAD
            &&& 0 <= v.1 * s.price_scale.1 < modulus() ==> t.last_prices.1 * WAD <= v.1 * s.price_scale.1
                < (t.last_prices.1 + 1) * WAD
        },
{
    if let Ok(v) = get_p_model(xp, d, s.ann, s.gamma) {
        if 0 <= v.0 * s.price_scale.0 < modulus() {
            lemma_times(v.0, s.price_scale.0);
            lemma_over(v.0 * s.price_scale.0, WAD as int);
            lemma_quotient(v.0 * s.price_scale.0, WAD as int);
        }
        if 0 <= v.1 * s.price_scale.1 < modulus() {
            lemma_times(v.1, s.price_scale.1);
            lemma_over(v.1 * s.price_scale.1, WAD as int);
            lemma_quotient(v.1 * s.price_scale.1, WAD as int);
        }
    }
}

/// A coin of which there is as much in common units as of the first coin costs what its price scale says.
pub proof fn law_price_even(x: (int, int, int), d: int, ann: int, gamma: int, k0: int, slope: int)
    requires
        0 < x.0,
        0 < x.1,
        0 < x.2,
        0 < d,
        27 * x.0 * x.1 < modulus(),
        27 * x.0 * x.1 / d * x.2 < modulus(),
        27 * x.0 * x.1 / d * x.2 / d * 1_000_000_000_000_000_000_000_000_000_000_000_000 < modulus(),
        k0 == 27 * x.0 * x.1 / d * x.2 / d * 1_000_000_000_000_000_000_000_000_000_000_000_000 / d,
        slope == slope_model(x.0, d, k0, gk0_model(k0, gamma), nnag2_model(ann, gamma)),
        0 < slope,
        x.0 * slope < modulus(),
        slope * WAD < modulus(),
    ensures
        get_p_model(x, d, ann, gamma) matches Ok(p) ==> {
            &&& x.1 == x.0 ==> p.0 == WAD
            &&& x.2 == x.0 ==> p.1 == WAD
        },
{
    let unit = 1_000_000_000_000_000_000_000_000_000_000_000_000int;
    lemma_product(27, x.0, x.1);
    lemma_times(27, x.0);
    lemma_over(27 * x.0 * x.1, d);
    lemma_quotient(27 * x.0 * x.1, d);
    let a = 27 * x.0 * x.1 / d;
    lemma_share(a, x.2, d);
    lemma_share(a * x.2 / d, unit, d);
    lemma_share(x.0, slope, x.0);
    lemma_share(slope, WAD as int, slope);
    assert(x.0 * slope / x.0 == slope && slope * WAD / slope == WAD) by (nonlinear_arith)
        requires
            0 < x.0,
            0 < slope,
    ;
}

/// What a withdrawal in one coin does, in numbers. Pool tokens stand for their share `dd` of `D`; the rate of
/// the fee is that for the balances with three times the share of the coin gone, or `out_fee` where that is
/// all of it. `D` falls by the share less half of the fee on it and one unit, and the solver is asked
/// for the balance of the coin at the lower `D`. The amount has to be what the coin then loses in its own
/// units, rounded down; any other amount is refused, as is a withdrawal of which the fee takes all, and
/// the state stays as it is. The update runs with the coins gone and the pool tokens burnt.
pub proof fn law_remove(s: TriNG, burn: int, i: int, coin: int, now: int, rate: int, dd: int, cut: int, unit: int)
    requires
        0 <= i < 3,
        countable(s),
        0 < s.d < modulus(),
        0 <= burn <= s.total_supply < modulus(),
        0 < s.total_supply,
        burn * s.d < modulus(),
        dd == burn * s.d / s.total_supply,
        get3(units(s), i) * 3 * burn < modulus(),
        get3(units(s), i) * WAD < modulus(),
        ({
            let u = units(s);
            let gone = get3(u, i) * 3 * burn / s.total_supply;
            if gone < get3(u, i) {
                crypto_fee_model(
                    seq![
                        if i == 0 { u.0 - gone } else { u.0 },
                        if i == 1 { u.1 - gone } else { u.1 },
                        if i == 2 { u.2 - gone } else { u.2 },
                    ],
                    s.mid_fee,
                    s.out_fee,
                    s.fee_gamma,
                ) == Ok::<_, Fault>(Some(rate))
            } else {
                rate == s.out_fee
            }
        }),
        0 <= rate,
        rate * dd < modulus(),
        cut == rate * dd / (2 * FEE_DENOMINATOR) + 1,
        unit == (if i == 0 {
            WAD * s.precisions.0
        } else {
            get2(s.price_scale, i - 1) * get3(s.precisions, i)
        }),
        unit < modulus(),
        0 <= coin < modulus(),
    ensures
        cut >= dd ==> s.removed(burn, i, coin, now) == Ok::<_, Fault>((s, None::<int>)),
        cut < dd ==> (get_y_3_model(s.ann, s.gamma, units(s), s.d - (dd - cut), i) matches Ok(Some((y, k0)))
            ==> {
            let loss = (get3(units(s), i) - y) * WAD;
            let left = TriNG { total_supply: s.total_supply - burn, ..with_more(s, i, -coin) };
            0 <= y < get3(units(s), i) && coin * unit <= loss < (coin + 1) * unit && coin <= get3(
                s.balances,
                i,
            ) ==> s.removed(burn, i, coin, now) == match left.tweaked(
                (
                    if i == 0 { y } else { units(s).0 },
                    if i == 1 { y } else { units(s).1 },
                    if i == 2 { y } else { units(s).2 },
                ),
                s.d - (dd - cut),
                0,
                now,
            ) {
                Err(e) => Err(e),
                Ok(t) => Ok((t, Some(t.d))),
            }
        }),
        s.removed(burn, i, coin, now) matches Ok((t, r)) ==> {
            &&& r is None ==> t == s
            &&& cut >= dd ==> r is None
            &&& cut < dd ==> match get_y_3_model(s.ann, s.gamma, units(s), s.d - (dd - cut), i) {
                Err(_) => false,
                Ok(None) => r is None,
                Ok(Some((y, k0))) => {
                    let loss = (get3(units(s), i) - y) * WAD;
                    &&& y >= get3(units(s), i) ==> r is None
                    &&& 0 <= y < get3(units(s), i) ==> (r is Some <==> coin * unit <= loss < (coin + 1) * unit)
                    &&& r is Some ==> r == Some(t.d)
                    &&& r is Some && coin <= get3(s.balances, i) ==> TriNG {
                        total_supply: s.total_supply - burn,
                        ..with_more(s, i, -coin)
                    }.tweaked(
                        (
                            if i == 0 { y } else { units(s).0 },
                            if i == 1 { y } else { units(s).1 },
                            if i == 2 { y } else { units(s).2 },
                        ),
                        s.d - (dd - cut),
                        0,
                        now,
                    ) == Ok::<_, Fault>(t)
                },
            }
        },
{
    lemma_units(s);
    let xp = units(s);
    let x_i = get3(xp, i);
    lemma_fee(s, i, burn);
    lemma_share(burn, s.d, s.total_supply);
    lemma_times(2, FEE_DENOMINATOR as int);
    lemma_share(rate, dd, 2 * FEE_DENOMINATOR);
    lemma_quotient(rate * dd, 2 * FEE_DENOMINATOR);
    assert(2 * (cut - 1) <= rate * dd) by (nonlinear_arith)
        requires
            cut - 1 == rate * dd / (2 * FEE_DENOMINATOR),
            0 <= rate * dd,
            FEE_DENOMINATOR == 10_000_000_000,
    ;
    lemma_plus(cut - 1, 1);
    assert(s.withdraw_fee(xp, i, burn) == Ok::<_, Fault>(Some(rate)));
    if cut < dd {
        assert(dd <= s.d) by (nonlinear_arith)
            requires
                dd == burn * s.d / s.total_supply,
                0 <= burn <= s.total_supply,
                0 < s.total_supply,
                0 < s.d,
        ;
        lemma_minus(dd, cut);
        lemma_minus(s.d, dd - cut);
        assert(s.unit_price(i) == unit && 0 < unit) by {
            let p = if i == 0 { WAD as int } else { get2(s.price_scale, i - 1) };
            assert(0 < p * get3(s.precisions, i)) by (nonlinear_arith)
                requires
                    0 < p,
                    0 < get3(s.precisions, i),
            ;
            lemma_times(p, get3(s.precisions, i));
        }
        if let Ok(Some((y, k0))) = get_y_3_model(s.ann, s.gamma, xp, s.d - (dd - cut), i) {
            if 0 <= y < x_i {
                lemma_minus(x_i, y);
                lemma_share(x_i - y, WAD as int, unit);
                lemma_same_quotient((x_i - y) * WAD, unit, coin);
            }
            if coin <= get3(s.balances, i) {
                lemma_minus(get3(s.balances, i), coin);
                lemma_minus(s.total_supply, burn);
                assert(TriNG { total_supply: s.total_supply - burn, ..with_more(s, i, -coin) } == (TriNG {
                    balances: set3(s.balances, i, get3(s.balances, i).minus(coin)),
                    total_supply: s.total_supply.minus(burn),
                    ..s
                }));
            }
        }
    }
}

/// The rate on a withdrawal is taken with three times the share of the coin gone.
proof fn lemma_fee(s: TriNG, i: int, burn: int)
    requires
        0 <= i < 3,
        countable(s),
        0 <= burn,
        0 < s.total_supply,
        get3(units(s), i) * 3 * burn < modulus(),
    ensures
        ({
            let u = units(s);
            let gone = get3(u, i) * 3 * burn / s.total_supply;
            s.withdraw_fee(u, i, burn) == if gone < get3(u, i) {
                crypto_fee_model(
                    seq![
                        if i == 0 { u.0 - gone } else { u.0 },
                        if i == 1 { u.1 - gone } else { u.1 },
                        if i == 2 { u.2 - gone } else { u.2 },
                    ],
                    s.mid_fee,
                    s.out_fee,
                    s.fee_gamma,
                )
            } else {
                Ok(Some(s.out_fee))
            }
        }),
{
    lemma_units(s);
    let u = units(s);
    let x_i = get3(u, i);
    reveal(crate::uint::word_mul);
    if burn == 0 {
        assert(x_i.times(3) * 0 == 0);
        lemma_over(0, s.total_supply);
        assert(x_i * 3 * 0 == 0);
        assert(0int / s.total_supply == 0) by (nonlinear_arith)
            requires
                0 < s.total_supply,
        ;
        lemma_minus(x_i, 0);
    } else {
        lemma_product(x_i, 3, burn);
        let gone = x_i * 3 * burn / s.total_supply;
        lemma_over(x_i * 3 * burn, s.total_supply);
        lemma_quotient(x_i * 3 * burn, s.total_supply);
        if gone < x_i {
            lemma_minus(x_i, gone);
        }
    }
}

} // verus!
