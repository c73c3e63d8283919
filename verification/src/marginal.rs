//! The price at which a pool trades at the margin, from the derivatives of its invariant.
use crate::fault::Fault;
use crate::newton::{quantity, A_MULTIPLIER, WAD};
use crate::uint::{Word, U256};
use vstd::prelude::*;

verus! {

/// The part of the derivatives that is the same for all coins, where `k0` is in units of 10^36.
pub open spec fn gk0_model(k0: int, gamma: int) -> int {
    let w = WAD as int;
    let unit = 1_000_000_000_000_000_000_000_000_000_000_000_000int;
    2int.times(k0).times(k0).over(unit).times(k0).over(unit).plus(
        gamma.plus(w).times(gamma.plus(w)),
    ).minus(k0.times(k0).over(unit).times(2int.times(gamma).plus(3int.times(w))).over(w))
}

/// The value of [`gk0_model`].
pub fn gk0_of(k0: U256, gamma: U256) -> (r: U256)
    ensures
        r@ == gk0_model(k0@, gamma@),
{
    let w = U256::from(WAD);
    let unit = U256::from(1_000_000_000_000_000_000_000_000_000_000_000_000u128);
    let reach = gamma + w;
    U256::from(2u64) * k0 * k0 / unit * k0 / unit + reach * reach - k0 * k0 / unit * (U256::from(
        2u64,
    ) * gamma + U256::from(3u64) * w) / w
}

/// `A * gamma^2` times `N^N`.
pub open spec fn nnag2_model(ann: int, gamma: int) -> int {
    ann.times(gamma).times(gamma).over(A_MULTIPLIER as int)
}

/// The value of [`nnag2_model`].
pub fn nnag2_of(ann: U256, gamma: U256) -> (r: U256)
    ensures
        r@ == nnag2_model(ann@, gamma@),
{
    ann * gamma * gamma / U256::from(A_MULTIPLIER)
}

/// The derivative with respect to a coin with the balance `x`, times that balance.
pub open spec fn slope_model(x: int, d: int, k0: int, gk0: int, nnag2: int) -> int {
    gk0.plus(
        nnag2.times(x).over(d).times(k0).over(
            1_000_000_000_000_000_000_000_000_000_000_000_000,
        ),
    )
}

/// The value of [`slope_model`].
pub fn slope(x: U256, d: U256, k0: U256, gk0: U256, nnag2: U256) -> (r: U256)
    requires
        d@ != 0,
    ensures
        r@ == slope_model(x@, d@, k0@, gk0@, nnag2@),
{
    gk0 + nnag2 * x / d * k0 / U256::from(1_000_000_000_000_000_000_000_000_000_000_000_000u128)
}

/// The price of a coin with the balance `x` in the first coin, with the balance `first`.
pub open spec fn marginal_price(
    first: int,
    x: int,
    d: int,
    k0: int,
    gk0: int,
    nnag2: int,
) -> Result<int, Fault> {
    let below = slope_model(first, d, k0, gk0, nnag2);
    if x == 0 || below == 0 {
        Err(Fault)
    } else {
        Ok(
            first.times(slope_model(x, d, k0, gk0, nnag2)).over(x).times(WAD as int).over(below),
        )
    }
}

/// The value of [`marginal_price`].
pub fn price_at_margin(first: U256, x: U256, d: U256, k0: U256, gk0: U256, nnag2: U256) -> (r: Result<
    U256,
    Fault,
>)
    requires
        d@ != 0,
    ensures
        quantity(r) == marginal_price(first@, x@, d@, k0@, gk0@, nnag2@),
{
    let below = slope(first, d, k0, gk0, nnag2);
    let above = slope(x, d, k0, gk0, nnag2);
    ((first * above).div_by(x)? * U256::from(WAD)).div_by(below)
}

} // verus!
