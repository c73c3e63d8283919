//! The rules that all pools share: what a trade pays out, how the price oracle follows the last
//! prices, and when the price scale moves toward the oracle.
use crate::coins::{pair, triple};
use crate::fault::Fault;
use crate::newton::{quantity, FEE_DENOMINATOR, WAD};
use crate::roots::{isqrt_floor, try_isqrt};
use crate::uint::{
    larger, lemma_minus, lemma_over, lemma_plus, lemma_times, lemma_word_range, modulus, smaller,
    Word, U256,
};
use vstd::prelude::*;

verus! {

/// What a simulated exchange pays out, and the fee that was held back.
#[derive(Clone, Copy, Debug)]
pub struct ExchangeResult {
    pub dy: U256,
    pub fee: U256,
}

/// The numbers behind an exchange that may have been refused.
pub open spec fn payout(r: Option<ExchangeResult>) -> Option<(int, int)> {
    match r {
        Some(v) => Some((v.dy@, v.fee@)),
        None => None,
    }
}

/// The numbers behind a calculated exchange that may have been refused.
pub open spec fn payout_outcome(r: Result<Option<ExchangeResult>, Fault>) -> Result<
    Option<(int, int)>,
    Fault,
> {
    match r {
        Ok(v) => Ok(payout(v)),
        Err(e) => Err(e),
    }
}

/// The number behind a price scale; the first coin of a pool has none.
pub open spec fn scale_of(scale: Option<U256>) -> Option<int> {
    match scale {
        Some(p) => Some(p@),
        None => None,
    }
}

/// A balance in common units: times its precision and, for a coin with a price scale, its price.
pub open spec fn in_units(v: int, precision: int, scale: Option<int>) -> int {
    match scale {
        None => v.times(precision),
        Some(p) => v.times(precision).times(p).over(WAD as int),
    }
}

/// The value of [`in_units`].
pub fn to_units(v: U256, precision: U256, scale: Option<U256>) -> (r: U256)
    ensures
        r@ == in_units(v@, precision@, scale_of(scale)),
{
    match scale {
        None => v * precision,
        Some(p) => v * precision * p / U256::from(WAD),
    }
}

/// What comes out before the fee, where the balance in common units falls from `before` to `after`:
/// one unit less than the difference, taken back to the coin's own units.
pub open spec fn gross_out(before: int, after: int, precision: int, scale: Option<int>) -> Result<
    int,
    Fault,
> {
    let units = before.minus(after).minus(1);
    match scale {
        None => if precision == 0 {
            Err(Fault)
        } else {
            Ok(units.over(precision))
        },
        Some(p) => if p == 0 || precision == 0 {
            Err(Fault)
        } else {
            Ok(units.times(WAD as int).over(p).over(precision))
        },
    }
}

/// The value of [`gross_out`].
pub fn gross(before: U256, after: U256, precision: U256, scale: Option<U256>) -> (r: Result<
    U256,
    Fault,
>)
    ensures
        quantity(r) == gross_out(before@, after@, precision@, scale_of(scale)),
{
    let units = before - after - U256::from(1u64);
    match scale {
        None => units.div_by(precision),
        Some(p) => (units * U256::from(WAD)).div_by(p)?.div_by(precision),
    }
}

/// The fee on an amount at a rate in units of 10^10.
pub open spec fn fee_on(rate: int, amount: int) -> int {
    rate.times(amount).over(FEE_DENOMINATOR as int)
}

/// The value of [`fee_on`].
pub fn fee_at(rate: U256, amount: U256) -> (r: U256)
    ensures
        r@ == fee_on(rate@, amount@),
{
    rate * amount / U256::from(FEE_DENOMINATOR)
}

/// The price of an exchange of `dx` for `dy`, in units of 10^18, as the price of the second coin in
/// the first; zero where either amount is too small to tell.
pub open spec fn trade_price(dx: int, dy: int, prec_i: int, prec_j: int, from_first: bool) -> Result<
    int,
    Fault,
> {
    let a = dx.times(prec_i);
    let b = dy.times(prec_j);
    if !(dx > 100_000 && dy > 100_000) {
        Ok(0)
    } else if from_first {
        if b == 0 {
            Err(Fault)
        } else {
            Ok(a.times(WAD as int).over(b))
        }
    } else if a == 0 {
        Err(Fault)
    } else {
        Ok(b.times(WAD as int).over(a))
    }
}

/// The value of [`trade_price`].
pub fn price_of_trade(dx: U256, dy: U256, prec_i: U256, prec_j: U256, from_first: bool) -> (r: Result<
    U256,
    Fault,
>)
    ensures
        quantity(r) == trade_price(dx@, dy@, prec_i@, prec_j@, from_first),
{
    let dust = U256::from(100_000u64);
    if dx > dust && dy > dust {
        let a = dx * prec_i;
        let b = dy * prec_j;
        if from_first {
            (a * U256::from(WAD)).div_by(b)
        } else {
            (b * U256::from(WAD)).div_by(a)
        }
    } else {
        Ok(U256::zero())
    }
}

/// The moving average of a price: `alpha` is the weight of the old average, in units of 10^18.
pub open spec fn moved_average(price: int, average: int, alpha: int) -> int {
    price.times((WAD as int).minus(alpha)).plus(average.times(alpha)).over(WAD as int)
}

/// The value of [`moved_average`].
pub fn move_average(price: U256, average: U256, alpha: U256) -> (r: U256)
    ensures
        r@ == moved_average(price@, average@, alpha@),
{
    (price * (U256::from(WAD) - alpha) + average * alpha) / U256::from(WAD)
}

/// How far `oracle / scale` is from one, in units of 10^18. Meant for `scale != 0` only.
pub open spec fn deviation(oracle: int, scale: int) -> int {
    let ratio = oracle.times(WAD as int).over(scale);
    if ratio > WAD {
        ratio.minus(WAD as int)
    } else {
        (WAD as int).minus(ratio)
    }
}

/// The value of [`deviation`].
pub fn deviate(oracle: U256, scale: U256) -> (r: Result<U256, Fault>)
    ensures
        r is Err <==> scale@ == 0,
        r matches Ok(v) ==> v@ == deviation(oracle@, scale@),
{
    let w = U256::from(WAD);
    let ratio = (oracle * w).div_by(scale)?;
    if ratio > w {
        Ok(ratio - w)
    } else {
        Ok(w - ratio)
    }
}

/// The step by which the price scale moves: a fifth of the deviation, but no less than the step of
/// the pool.
pub open spec fn step_size(adjustment_step: int, norm: int) -> int {
    larger(adjustment_step, norm.over(5))
}

/// The value of [`step_size`].
pub fn step_for(adjustment_step: U256, norm: U256) -> (r: U256)
    ensures
        r@ == step_size(adjustment_step@, norm@),
{
    adjustment_step.max(norm / U256::from(5u64))
}

/// Whether a virtual price leaves more than half of the profit, with the extra profit on top.
pub open spec fn profit_allows(virtual_price: int, xcp_profit: int, allowed_extra_profit: int) -> bool {
    virtual_price.times(2).minus(WAD as int) > xcp_profit.plus(2int.times(allowed_extra_profit))
}

/// The value of [`profit_allows`].
pub fn profit_permits(virtual_price: U256, xcp_profit: U256, allowed_extra_profit: U256) -> (r: bool)
    ensures
        r == profit_allows(virtual_price@, xcp_profit@, allowed_extra_profit@),
{
    virtual_price * U256::from(2u64) - U256::from(WAD) > xcp_profit + U256::from(2u64)
        * allowed_extra_profit
}

/// The price scale moved toward the oracle by `step` out of `norm`. Meant for `norm != 0` only.
pub open spec fn moved_scale(scale: int, oracle: int, norm: int, step: int) -> int {
    scale.times(norm.minus(step)).plus(step.times(oracle)).over(norm)
}

/// The value of [`moved_scale`].
pub fn move_scale(scale: U256, oracle: U256, norm: U256, step: U256) -> (r: U256)
    requires
        norm@ != 0,
    ensures
        r@ == moved_scale(scale@, oracle@, norm@, step@),
{
    (scale * (norm - step) + step * oracle) / norm
}

/// Whether a virtual price after a rebalance keeps more than half of the profit.
pub open spec fn keeps_profit(virtual_price: int, xcp_profit: int) -> bool {
    virtual_price > WAD && 2int.times(virtual_price).minus(WAD as int) > xcp_profit
}

/// The value of [`keeps_profit`].
pub fn profit_kept(virtual_price: U256, xcp_profit: U256) -> (r: bool)
    ensures
        r == keeps_profit(virtual_price@, xcp_profit@),
{
    let w = U256::from(WAD);
    virtual_price > w && U256::from(2u64) * virtual_price - w > xcp_profit
}

/// The profit and the supply after the admin's share of the profit since the last claim has been
/// minted as pool tokens.
pub open spec fn claimed(
    xcp_profit: int,
    xcp_profit_a: int,
    virtual_price: int,
    total_supply: int,
    admin_fee: int,
) -> (int, int) {
    let fees = xcp_profit.minus(xcp_profit_a).times(admin_fee).over(
        2int.times(FEE_DENOMINATOR as int),
    );
    let frac = virtual_price.times(WAD as int).over(virtual_price.minus(fees)).minus(WAD as int);
    if xcp_profit > xcp_profit_a && fees != 0 && virtual_price > fees {
        (
            xcp_profit.minus(fees.times(2)),
            total_supply.plus(total_supply.times(frac).over(WAD as int)),
        )
    } else {
        (xcp_profit, total_supply)
    }
}

/// The value of [`claimed`].
pub fn claim(
    xcp_profit: U256,
    xcp_profit_a: U256,
    virtual_price: U256,
    total_supply: U256,
    admin_fee: U256,
) -> (r: (U256, U256))
    ensures
        (r.0@, r.1@) == claimed(
            xcp_profit@,
            xcp_profit_a@,
            virtual_price@,
            total_supply@,
            admin_fee@,
        ),
{
    let w = U256::from(WAD);
    let two = U256::from(2u64);
    if xcp_profit > xcp_profit_a {
        let below = two * U256::from(FEE_DENOMINATOR);
        proof {
            lemma_times(2, FEE_DENOMINATOR as int);
        }
        let fees = (xcp_profit - xcp_profit_a) * admin_fee / below;
        if !fees.is_zero() && virtual_price > fees {
            proof {
                lemma_word_range(fees);
                lemma_word_range(virtual_price);
                lemma_minus(virtual_price@, fees@);
            }
            let frac = virtual_price * w / (virtual_price - fees) - w;
            let minted = total_supply * frac / w;
            return (xcp_profit - fees * two, total_supply + minted);
        }
    }
    (xcp_profit, total_supply)
}

/// The balances of an even split with the invariant `d` at the prices `scale`.
pub open spec fn even_split_3(d: int, scale: (int, int)) -> Result<(int, int, int), Fault> {
    let a = 3int.times(scale.0);
    let b = 3int.times(scale.1);
    if a == 0 || b == 0 {
        Err(Fault)
    } else {
        Ok((d.over(3), d.times(WAD as int).over(a), d.times(WAD as int).over(b)))
    }
}

/// The value of [`even_split_3`].
pub fn split_evenly_3(d: U256, scale: [U256; 2]) -> (r: Result<[U256; 3], Fault>)
    ensures
        even_split_3(d@, pair(scale)) == match r {
            Ok(x) => Ok::<_, Fault>(triple(x)),
            Err(e) => Err(e),
        },
{
    let n = U256::from(3u64);
    let w = U256::from(WAD);
    Ok([d / n, (d * w).div_by(n * scale[0])?, (d * w).div_by(n * scale[1])?])
}

/// How far the oracle is from the price scale over both prices, in units of 10^18. Meant for prices
/// other than zero only.
pub open spec fn norm_3(oracle: (int, int), scale: (int, int)) -> Result<int, Fault> {
    let a = deviation(oracle.0, scale.0);
    let b = deviation(oracle.1, scale.1);
    let square = a.times(a).plus(b.times(b));
    if square == modulus() - 1 {
        Err(Fault)
    } else {
        Ok(isqrt_floor(square))
    }
}

/// The value of [`norm_3`].
pub fn norm_of_3(oracle: [U256; 2], scale: [U256; 2]) -> (r: Result<U256, Fault>)
    requires
        scale[0]@ != 0,
        scale[1]@ != 0,
    ensures
        quantity(r) == norm_3(pair(oracle), pair(scale)),
{
    let a = deviate(oracle[0], scale[0])?;
    let b = deviate(oracle[1], scale[1])?;
    try_isqrt(a * a + b * b)
}

/// A moving average lies between the price and the old average, for a weight of at most one, as long
/// as the weighted sum is a word.
pub proof fn law_average_between(price: U256, average: U256, alpha: U256)
    requires
        alpha@ <= WAD,
        price@ * (WAD - alpha@) + average@ * alpha@ < modulus(),
    ensures
        smaller(price@, average@) <= moved_average(price@, average@, alpha@) <= larger(
            price@,
            average@,
        ),
{
    lemma_word_range(price);
    lemma_word_range(average);
    lemma_word_range(alpha);
    lemma_between(price@, average@, WAD - alpha@, alpha@, WAD as int);
    lemma_minus(WAD as int, alpha@);
}

/// A price scale that moves lies between its old value and the oracle, as long as the weighted sum
/// is a word.
pub proof fn law_scale_between(scale: U256, oracle: U256, norm: U256, step: U256)
    requires
        step@ < norm@,
        scale@ * (norm@ - step@) + step@ * oracle@ < modulus(),
    ensures
        smaller(scale@, oracle@) <= moved_scale(scale@, oracle@, norm@, step@) <= larger(
            scale@,
            oracle@,
        ),
{
    lemma_word_range(scale);
    lemma_word_range(oracle);
    lemma_word_range(norm);
    lemma_word_range(step);
    assert(oracle@ * step@ == step@ * oracle@) by (nonlinear_arith);
    lemma_between(scale@, oracle@, norm@ - step@, step@, norm@);
    lemma_minus(norm@, step@);
    assert(0 <= step@ * oracle@ && 0 <= scale@ * (norm@ - step@)) by (nonlinear_arith)
        requires
            0 <= step@ < norm@,
            0 <= oracle@,
            0 <= scale@,
    ;
    lemma_times(step@, oracle@);
    lemma_times(oracle@, step@);
}

/// A weighted mean of two words lies between them.
pub proof fn lemma_between(a: int, b: int, wa: int, wb: int, w: int)
    requires
        0 <= a,
        0 <= b,
        0 <= wa,
        0 <= wb,
        wa + wb == w,
        0 < w,
        a * wa + b * wb < modulus(),
    ensures
        smaller(a, b) <= a.times(wa).plus(b.times(wb)).over(w) <= larger(a, b),
{
    let lo = smaller(a, b);
    let hi = larger(a, b);
    assert(0 <= a * wa <= hi * wa && lo * wa <= a * wa) by (nonlinear_arith)
        requires
            0 <= lo <= a <= hi,
            0 <= wa,
    ;
    assert(0 <= b * wb <= hi * wb && lo * wb <= b * wb) by (nonlinear_arith)
        requires
            0 <= lo <= b <= hi,
            0 <= wb,
    ;
    assert(hi * wa + hi * wb == hi * w && lo * wa + lo * wb == lo * w) by (nonlinear_arith)
        requires
            wa + wb == w,
    ;
    lemma_times(a, wa);
    lemma_times(b, wb);
    let sum = a * wa + b * wb;
    lemma_plus(a * wa, b * wb);
    lemma_over(sum, w);
    assert(lo <= sum / w <= hi) by (nonlinear_arith)
        requires
            lo * w <= sum <= hi * w,
            w > 0,
    ;
}

/// A moving average lies between the price and the old average, for any weight of at most one, as long
/// as ten to the eighteenth times either is a word.
pub proof fn lemma_average_between(price: int, average: int, alpha: int)
    requires
        0 <= price,
        0 <= average,
        0 <= alpha <= WAD,
        larger(price, average) * WAD < modulus(),
    ensures
        smaller(price, average) <= moved_average(price, average, alpha) <= larger(price, average),
{
    let hi = larger(price, average);
    let w = WAD as int;
    assert(price * (w - alpha) + average * alpha <= hi * w) by (nonlinear_arith)
        requires
            0 <= price <= hi,
            0 <= average <= hi,
            0 <= alpha <= w,
    ;
    lemma_between(price, average, w - alpha, alpha, w);
    lemma_minus(w, alpha);
}

/// A fee at a rate of at most one is at most the amount, as long as the product is a word.
pub proof fn law_fee_at_most(rate: U256, amount: U256)
    requires
        rate@ <= FEE_DENOMINATOR,
        rate@ * amount@ < modulus(),
    ensures
        0 <= fee_on(rate@, amount@) <= amount@,
{
    lemma_word_range(rate);
    lemma_word_range(amount);
    assert(0 <= rate@ * amount@ <= FEE_DENOMINATOR * amount@) by (nonlinear_arith)
        requires
            0 <= rate@ <= FEE_DENOMINATOR,
            0 <= amount@,
    ;
    lemma_times(rate@, amount@);
    lemma_over(rate@ * amount@, FEE_DENOMINATOR as int);
}

/// A claim takes from the profit, but never more than what was made since the last claim, for an admin's
/// share of at most one, as long as the product with it is a word. The supply does not fall, as long
/// as what is minted can be counted.
pub proof fn law_claimed(
    xcp_profit: U256,
    xcp_profit_a: U256,
    virtual_price: U256,
    total_supply: U256,
    admin_fee: U256,
)
    requires
        admin_fee@ <= FEE_DENOMINATOR,
        xcp_profit@ * admin_fee@ < modulus(),
        virtual_price@ * WAD < modulus(),
    ensures
        ({
            let (profit, supply) = claimed(
                xcp_profit@,
                xcp_profit_a@,
                virtual_price@,
                total_supply@,
                admin_fee@,
            );
            &&& profit <= xcp_profit@
            &&& profit >= smaller(xcp_profit@, xcp_profit_a@)
            &&& total_supply@ * (virtual_price@ * WAD) + total_supply@ < modulus() ==> supply
                >= total_supply@
        }),
{
    lemma_word_range(xcp_profit);
    lemma_word_range(xcp_profit_a);
    lemma_word_range(virtual_price);
    lemma_word_range(total_supply);
    lemma_word_range(admin_fee);
    if xcp_profit@ > xcp_profit_a@ {
        let w = WAD as int;
        let gain = xcp_profit@ - xcp_profit_a@;
        lemma_minus(xcp_profit@, xcp_profit_a@);
        assert(0 <= gain * admin_fee@ <= xcp_profit@ * admin_fee@ && gain * admin_fee@ <= gain
            * FEE_DENOMINATOR) by (nonlinear_arith)
            requires
                0 <= gain <= xcp_profit@,
                0 <= admin_fee@ <= FEE_DENOMINATOR,
        ;
        lemma_times(gain, admin_fee@);
        lemma_times(2, FEE_DENOMINATOR as int);
        lemma_over(gain * admin_fee@, 2 * FEE_DENOMINATOR);
        let fees = (gain * admin_fee@) / (2 * FEE_DENOMINATOR);
        assert(0 <= 2 * fees <= gain);
        if fees != 0 && virtual_price@ > fees {
            lemma_times(fees, 2);
            lemma_minus(xcp_profit@, fees * 2);
            lemma_minus(virtual_price@, fees);
            lemma_times(virtual_price@, w);
            let below = virtual_price@ - fees;
            lemma_over(virtual_price@ * w, below);
            let ratio = (virtual_price@ * w) / below;
            assert(w <= ratio <= virtual_price@ * w) by (nonlinear_arith)
                requires
                    ratio == (virtual_price@ * w) / below,
                    0 < below <= virtual_price@,
                    w > 0,
            ;
            lemma_minus(ratio, w);
            let frac = ratio - w;
            if total_supply@ * (virtual_price@ * WAD) + total_supply@ < modulus() {
                assert(0 <= total_supply@ * frac <= total_supply@ * (virtual_price@ * w))
                    by (nonlinear_arith)
                    requires
                        0 <= frac <= virtual_price@ * w,
                        0 <= total_supply@,
                ;
                lemma_times(total_supply@, frac);
                lemma_over(total_supply@ * frac, w);
                let minted = (total_supply@ * frac) / w;
                assert(0 <= minted <= total_supply@ * frac);
                lemma_plus(total_supply@, minted);
            }
        }
    }
}

} // verus!
