//! The prices at the margin of the pools of the second generation.
use super::lemma_share;
use crate::exchange_ng::get_p_model;
use crate::exchange_twocrypto_ng::get_p_2_model;
use crate::fault::Fault;
use crate::marginal::{gk0_model, marginal_price, nnag2_model, slope_model};
use crate::newton::WAD;
use crate::uint::{lemma_minus, lemma_plus, lemma_times, modulus, Word};
use vstd::prelude::*;

verus! {

/// Ten to the thirty-sixth.
pub open spec fn unit() -> int {
    1_000_000_000_000_000_000_000_000_000_000_000_000
}

/// A product of numbers that are not negative is not negative.
proof fn lemma_sign(a: int, b: int)
    requires
        0 <= a,
        0 <= b,
    ensures
        0 <= a * b,
{
    assert(0 <= a * b) by (nonlinear_arith)
        requires
            0 <= a,
            0 <= b,
    ;
}

/// The part of the slopes that all coins share: twice the cube of `K0` and the square of `gamma` and one, less
/// the square of `K0` times three and twice `gamma`.
pub proof fn law_shared_slope(k: int, gamma: int, a: int, b: int)
    requires
        0 <= k,
        0 <= gamma,
        2 * k < modulus(),
        2 * k * k < modulus(),
        k * k < modulus(),
        2 * k * k / unit() * k < modulus(),
        a == 2 * k * k / unit() * k / unit() + (gamma + WAD) * (gamma + WAD),
        a < modulus(),
        (gamma + WAD) * (gamma + WAD) < modulus(),
        2 * gamma + 3 * WAD < modulus(),
        k * k / unit() * (2 * gamma + 3 * WAD) < modulus(),
        b == k * k / unit() * (2 * gamma + 3 * WAD) / (WAD as int),
        b <= a,
    ensures
        gk0_model(k, gamma) == a - b,
{
    let w = WAD as int;
    lemma_times(2, k);
    lemma_share(2 * k, k, unit());
    lemma_share(2 * k * k / unit(), k, unit());
    lemma_plus(gamma, w);
    lemma_sign(gamma + w, gamma + w);
    lemma_times(gamma + w, gamma + w);
    lemma_plus(2 * k * k / unit() * k / unit(), (gamma + w) * (gamma + w));
    lemma_share(k, k, unit());
    lemma_times(2, gamma);
    lemma_times(3, w);
    lemma_plus(2 * gamma, 3 * w);
    lemma_share(k * k / unit(), 2 * gamma + 3 * w, w);
    lemma_minus(a, b);
}

/// The slope of a coin: the shared part and `ann * gamma^2 / 10 000`, times the balance per `D`, times `K0`.
pub proof fn law_slope(x: int, d: int, k: int, shared: int, ann: int, gamma: int, f: int)
    requires
        0 <= x,
        0 < d,
        0 <= k,
        0 <= shared,
        0 <= ann,
        0 <= gamma,
        ann * gamma < modulus(),
        ann * gamma * gamma < modulus(),
        f == ann * gamma * gamma / 10_000,
        f * x < modulus(),
        f * x / d * k < modulus(),
        shared + f * x / d * k / unit() < modulus(),
    ensures
        nnag2_model(ann, gamma) == f,
        slope_model(x, d, k, shared, nnag2_model(ann, gamma)) == shared + f * x / d * k / unit(),
{
    lemma_sign(ann, gamma);
    lemma_times(ann, gamma);
    lemma_share(ann * gamma, gamma, 10_000);
    lemma_share(f, x, d);
    lemma_share(f * x / d, k, unit());
    lemma_plus(shared, f * x / d * k / unit());
}

/// The price of a coin in the first one: the slope of the coin times the balance of the first coin, per the
/// balance of the coin, per the slope of the first coin.
pub proof fn law_marginal_price(
    first: int,
    x: int,
    d: int,
    k: int,
    shared: int,
    f: int,
    slope_first: int,
    slope_x: int,
)
    requires
        0 <= first,
        0 < x,
        slope_first == slope_model(first, d, k, shared, f),
        slope_x == slope_model(x, d, k, shared, f),
        0 < slope_first,
        0 <= slope_x,
        first * slope_x < modulus(),
        first * slope_x / x * WAD < modulus(),
    ensures
        marginal_price(first, x, d, k, shared, f) == Ok::<_, Fault>(first * slope_x / x * WAD / slope_first),
{
    lemma_share(first, slope_x, x);
    lemma_share(first * slope_x / x, WAD as int, slope_first);
}

/// The prices of a three-coin pool are those of the second and of the third coin in the first one, with `K0`
/// twenty-seven times the product of the balances per the cube of `D`.
pub proof fn law_prices_three(x: (int, int, int), d: int, ann: int, gamma: int, a: int, b: int, k: int)
    requires
        0 < x.0,
        0 < x.1,
        0 < x.2,
        0 < d,
        27 * x.0 < modulus(),
        27 * x.0 * x.1 < modulus(),
        a == 27 * x.0 * x.1 / d,
        a * x.2 < modulus(),
        b == a * x.2 / d,
        b * unit() < modulus(),
        k == b * unit() / d,
    ensures
        get_p_model(x, d, ann, gamma) == match marginal_price(
            x.0,
            x.1,
            d,
            k,
            gk0_model(k, gamma),
            nnag2_model(ann, gamma),
        ) {
            Err(e) => Err(e),
            Ok(p) => match marginal_price(
                x.0,
                x.2,
                d,
                k,
                gk0_model(k, gamma),
                nnag2_model(ann, gamma),
            ) {
                Err(e) => Err(e),
                Ok(q) => Ok((p, q)),
            },
        },
{
    lemma_times(27, x.0);
    lemma_share(27 * x.0, x.1, d);
    lemma_share(a, x.2, d);
    lemma_share(b, unit(), d);
}

/// The price of a two-coin pool is that of the second coin in the first one, with `K0` four times the product of
/// the balances per the square of `D`.
pub proof fn law_price_two(x: (int, int), d: int, ann: int, gamma: int, a: int, k: int)
    requires
        0 < x.0,
        0 < x.1,
        0 < d,
        4 * x.0 < modulus(),
        4 * x.0 * x.1 < modulus(),
        a == 4 * x.0 * x.1 / d,
        a * unit() < modulus(),
        k == a * unit() / d,
    ensures
        get_p_2_model(x, d, ann, gamma) == marginal_price(
            x.0,
            x.1,
            d,
            k,
            gk0_model(k, gamma),
            nnag2_model(ann, gamma),
        ),
{
    lemma_times(4, x.0);
    lemma_share(4 * x.0, x.1, d);
    lemma_share(a, unit(), d);
}

} // verus!
