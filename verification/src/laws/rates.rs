//! The fee rates of the pools.
use super::lemma_share;
use crate::bounds::lemma_quotient;
use crate::exchange::fee_model;
use crate::exchange_twocrypto_ng::fee_2_model;
use crate::fault::Fault;
use crate::fees::{
    crypto_fee_model, evenness, evenness_2, evenness_27, evenness_3, lemma_evenness_2, lemma_evenness_3,
    mixed_fee, steep_weight, total,
};
use crate::newton::WAD;
use crate::uint::{lemma_minus, lemma_over, lemma_plus, lemma_times, modulus, Word};
use vstd::prelude::*;

verus! {

/// The rate with the weight `f` on `mid_fee`, in units of 10^18.
pub open spec fn blend(mid_fee: int, out_fee: int, f: int) -> int {
    (mid_fee * f + out_fee * (WAD - f)) / (WAD as int)
}

/// The weight on `mid_fee` for the evenness `k`: the farther `k` is from one, the less, and the faster the
/// smaller `fee_gamma` is.
pub open spec fn weight_at(fee_gamma: int, k: int) -> int {
    fee_gamma * WAD / (fee_gamma + WAD - k)
}

/// Whether two rates and `fee_gamma` are small enough for the products.
pub open spec fn moderate(mid_fee: int, out_fee: int, fee_gamma: int) -> bool {
    &&& 0 <= mid_fee
    &&& 0 <= out_fee
    &&& 0 <= fee_gamma
    &&& mid_fee * WAD + out_fee * WAD < modulus()
    &&& fee_gamma * WAD + WAD < modulus()
}

/// How even two balances are: four times their product per the square of their sum, rounded down twice.
pub open spec fn even_2(x: (int, int)) -> int {
    4 * WAD * x.0 / (x.0 + x.1) * x.1 / (x.0 + x.1)
}

/// How even three balances are: twenty-seven times their product per the cube of their sum, rounded down
/// three times.
pub open spec fn even_27(x: (int, int, int)) -> int {
    let s = x.0 + x.1 + x.2;
    27 * WAD * x.0 / s * x.1 / s * x.2 / s
}

/// The same with a factor of three taken in at each step.
pub open spec fn even_3(x: (int, int, int)) -> int {
    let s = x.0 + x.1 + x.2;
    3 * WAD * x.0 / s * 3 * x.1 / s * 3 * x.2 / s
}

/// A part of a whole is no more than the whole.
proof fn lemma_part(a: int, x: int, s: int)
    requires
        0 <= a,
        0 <= x <= s,
        0 < s,
        a * s < modulus(),
    ensures
        a.times(x).over(s) == a * x / s,
        0 <= a * x / s <= a,
{
    assert(0 <= a * x <= a * s) by (nonlinear_arith)
        requires
            0 <= a,
            0 <= x <= s,
    ;
    lemma_share(a, x, s);
    assert(a * x / s <= a) by (nonlinear_arith)
        requires
            a * x <= a * s,
            0 < s,
    ;
}

proof fn lemma_even_2(x: (int, int))
    requires
        0 <= x.0,
        0 <= x.1,
        0 < x.0 + x.1,
        4_000_000_000_000_000_000 * (x.0 + x.1) < modulus(),
    ensures
        evenness_2(x) == even_2(x),
        0 <= even_2(x) <= WAD,
{
    let s = x.0 + x.1;
    let w = WAD as int;
    assert(4 * w * s == 4_000_000_000_000_000_000 * s) by (nonlinear_arith)
        requires
            w == 1_000_000_000_000_000_000,
    ;
    lemma_evenness_2(x);
    lemma_plus(x.0, x.1);
    lemma_times(w, 4);
    lemma_part(4 * w, x.0, s);
    let a = 4 * w * x.0 / s;
    assert(a * s <= 4 * w * s) by (nonlinear_arith)
        requires
            a <= 4 * w,
            0 < s,
    ;
    lemma_part(a, x.1, s);
}

proof fn lemma_even_27(x: (int, int, int))
    requires
        0 <= x.0,
        0 <= x.1,
        0 <= x.2,
        0 < x.0 + x.1 + x.2,
        27_000_000_000_000_000_000 * (x.0 + x.1 + x.2) < modulus(),
    ensures
        evenness_27(x) == even_27(x),
        0 <= even_27(x) <= WAD,
{
    let s = x.0 + x.1 + x.2;
    let w = WAD as int;
    assert(27 * w * s == 27_000_000_000_000_000_000 * s) by (nonlinear_arith)
        requires
            w == 1_000_000_000_000_000_000,
    ;
    lemma_evenness_3(x);
    lemma_plus(x.0, x.1);
    lemma_plus(x.0 + x.1, x.2);
    lemma_times(w, 27);
    lemma_part(27 * w, x.0, s);
    let a = 27 * w * x.0 / s;
    assert(a * s <= 27 * w * s) by (nonlinear_arith)
        requires
            a <= 27 * w,
            0 < s,
    ;
    lemma_part(a, x.1, s);
    let b = a * x.1 / s;
    assert(b * s <= 27 * w * s) by (nonlinear_arith)
        requires
            b <= 27 * w,
            0 < s,
    ;
    lemma_part(b, x.2, s);
}

proof fn lemma_even_3(x: (int, int, int))
    requires
        0 <= x.0,
        0 <= x.1,
        0 <= x.2,
        0 < x.0 + x.1 + x.2,
        27_000_000_000_000_000_000 * (x.0 + x.1 + x.2) < modulus(),
    ensures
        evenness_3(x) == even_3(x),
        0 <= even_3(x) <= WAD,
{
    let s = x.0 + x.1 + x.2;
    let w = WAD as int;
    assert(27 * w * s == 27_000_000_000_000_000_000 * s) by (nonlinear_arith)
        requires
            w == 1_000_000_000_000_000_000,
    ;
    lemma_evenness_3(x);
    lemma_plus(x.0, x.1);
    lemma_plus(x.0 + x.1, x.2);
    lemma_times(w, 3);
    assert(3 * w * s <= 27 * w * s) by (nonlinear_arith)
        requires
            0 < s,
            0 < w,
    ;
    lemma_part(3 * w, x.0, s);
    let a = 3 * w * x.0 / s;
    lemma_times(a, 3);
    assert(a * 3 * s <= 27 * w * s) by (nonlinear_arith)
        requires
            a <= 3 * w,
            0 < s,
            0 < w,
    ;
    lemma_part(a * 3, x.1, s);
    let b = a * 3 * x.1 / s;
    lemma_times(b, 3);
    assert(b * 3 * s <= 27 * w * s) by (nonlinear_arith)
        requires
            b <= a * 3,
            a <= 3 * w,
            0 < s,
            0 < w,
    ;
    lemma_part(b * 3, x.2, s);
}

proof fn lemma_weight_at(fee_gamma: int, k: int)
    requires
        0 < fee_gamma,
        fee_gamma * WAD + WAD < modulus(),
        0 <= k <= WAD,
    ensures
        steep_weight(fee_gamma, k) == Ok::<_, Fault>(weight_at(fee_gamma, k)),
        0 <= weight_at(fee_gamma, k) <= WAD,
{
    let w = WAD as int;
    let below = fee_gamma + w - k;
    lemma_plus(fee_gamma, w);
    lemma_minus(fee_gamma + w, k);
    lemma_share(fee_gamma, w, below);
    assert(fee_gamma * w / below <= w) by (nonlinear_arith)
        requires
            0 < fee_gamma <= below,
            0 < w,
    ;
}

proof fn lemma_blend(mid_fee: int, out_fee: int, f: int)
    requires
        0 <= mid_fee,
        0 <= out_fee,
        mid_fee * WAD + out_fee * WAD < modulus(),
        0 <= f <= WAD,
    ensures
        mixed_fee(mid_fee, out_fee, f) == blend(mid_fee, out_fee, f),
{
    let w = WAD as int;
    assert(0 <= mid_fee * f <= mid_fee * w && 0 <= out_fee * (w - f) <= out_fee * w) by (nonlinear_arith)
        requires
            0 <= mid_fee,
            0 <= out_fee,
            0 <= f <= w,
    ;
    lemma_times(mid_fee, f);
    lemma_minus(w, f);
    lemma_times(out_fee, w - f);
    lemma_plus(mid_fee * f, out_fee * (w - f));
    lemma_over(mid_fee * f + out_fee * (w - f), w);
}

/// The fee rate of a two-coin pool of the first generation blends the two rates by how even the balances
/// are.
pub proof fn law_fee_two_v1(x: (int, int), mid_fee: int, out_fee: int, fee_gamma: int)
    requires
        0 <= x.0,
        0 <= x.1,
        0 < x.0 + x.1,
        4_000_000_000_000_000_000 * (x.0 + x.1) < modulus(),
        moderate(mid_fee, out_fee, fee_gamma),
        0 < fee_gamma,
    ensures
        fee_model(x, mid_fee, out_fee, fee_gamma) == Ok::<_, Fault>(
            blend(mid_fee, out_fee, weight_at(fee_gamma, even_2(x))),
        ),
{
    lemma_plus(x.0, x.1);
    lemma_even_2(x);
    lemma_weight_at(fee_gamma, even_2(x));
    lemma_blend(mid_fee, out_fee, weight_at(fee_gamma, even_2(x)));
}

/// The fee rate of a two-coin pool of the second generation blends the two rates by how even the balances
/// are; in a stable pool the weight falls to zero with the evenness.
pub proof fn law_fee_two_ng(x: (int, int), mid_fee: int, out_fee: int, fee_gamma: int, stable: bool)
    requires
        0 <= x.0,
        0 <= x.1,
        0 < x.0 + x.1,
        4_000_000_000_000_000_000 * (x.0 + x.1) < modulus(),
        moderate(mid_fee, out_fee, fee_gamma),
        0 < fee_gamma,
    ensures
        ({
            let k = even_2(x);
            let f = if stable {
                fee_gamma * k / (fee_gamma * k / (WAD as int) + WAD - k)
            } else {
                weight_at(fee_gamma, k)
            };
            0 <= f <= WAD && fee_2_model(x, mid_fee, out_fee, fee_gamma, stable) == Ok::<_, Fault>(
                blend(mid_fee, out_fee, f),
            )
        }),
{
    let w = WAD as int;
    let k = even_2(x);
    lemma_plus(x.0, x.1);
    lemma_even_2(x);
    lemma_weight_at(fee_gamma, k);
    lemma_blend(mid_fee, out_fee, weight_at(fee_gamma, k));
    assert(0 <= fee_gamma * k <= fee_gamma * w) by (nonlinear_arith)
        requires
            0 < fee_gamma,
            0 <= k <= w,
    ;
    lemma_share(fee_gamma, k, w);
    let g = fee_gamma * k / w;
    assert(g <= fee_gamma) by (nonlinear_arith)
        requires
            g == fee_gamma * k / w,
            fee_gamma * k <= fee_gamma * w,
            0 < w,
    ;
    lemma_plus(g, w);
    lemma_minus(g + w, k);
    let below = g + w - k;
    if k == w {
        assert(g == fee_gamma) by (nonlinear_arith)
            requires
                g == fee_gamma * k / w,
                k == w,
                0 < w,
        ;
    }
    lemma_share(fee_gamma, k, below);
    let f = fee_gamma * k / below;
    assert(f <= w) by (nonlinear_arith)
        requires
            f * below <= fee_gamma * k,
            fee_gamma * k < (g + 1) * w,
            below == g + w - k,
            k == w ==> g == fee_gamma,
            0 < below,
            0 <= k <= w,
            0 < w,
    {
        if k == w {
            assert(f * below <= w * below);
        } else {
            assert((g + 1) * w <= below * w);
            assert(f * below < w * below);
        }
    }
    lemma_blend(mid_fee, out_fee, f);
}

/// The fee rate of a three-coin pool of the second generation blends the two rates by how even the balances
/// are; with no `fee_gamma` the evenness itself is the weight.
pub proof fn law_fee_tri_ng(x: (int, int, int), mid_fee: int, out_fee: int, fee_gamma: int)
    requires
        0 <= x.0,
        0 <= x.1,
        0 <= x.2,
        0 < x.0 + x.1 + x.2,
        27_000_000_000_000_000_000 * (x.0 + x.1 + x.2) < modulus(),
        moderate(mid_fee, out_fee, fee_gamma),
    ensures
        crate::exchange_ng::fee_3_model(x, mid_fee, out_fee, fee_gamma) == Ok::<_, Fault>(
            blend(
                mid_fee,
                out_fee,
                if fee_gamma > 0 {
                    weight_at(fee_gamma, even_3(x))
                } else {
                    even_3(x)
                },
            ),
        ),
{
    lemma_plus(x.0, x.1);
    lemma_plus(x.0 + x.1, x.2);
    lemma_even_3(x);
    lemma_blend(mid_fee, out_fee, even_3(x));
    if fee_gamma > 0 {
        lemma_weight_at(fee_gamma, even_3(x));
        lemma_blend(mid_fee, out_fee, weight_at(fee_gamma, even_3(x)));
    }
}

/// The fee rate of a three-coin pool of the first generation blends the two rates by how even the balances
/// are; with no `fee_gamma` the evenness itself is the weight.
pub proof fn law_fee_tri_v1(x: (int, int, int), mid_fee: int, out_fee: int, fee_gamma: int)
    requires
        0 <= x.0,
        0 <= x.1,
        0 <= x.2,
        0 < x.0 + x.1 + x.2,
        27_000_000_000_000_000_000 * (x.0 + x.1 + x.2) < modulus(),
        moderate(mid_fee, out_fee, fee_gamma),
    ensures
        crate::exchange_tricrypto_v1::fee_3_model(x, mid_fee, out_fee, fee_gamma) == Ok::<_, Fault>(
            blend(
                mid_fee,
                out_fee,
                if fee_gamma > 0 {
                    weight_at(fee_gamma, even_27(x))
                } else {
                    even_27(x)
                },
            ),
        ),
{
    lemma_plus(x.0, x.1);
    lemma_plus(x.0 + x.1, x.2);
    lemma_even_27(x);
    lemma_blend(mid_fee, out_fee, even_27(x));
    if fee_gamma > 0 {
        lemma_weight_at(fee_gamma, even_27(x));
        lemma_blend(mid_fee, out_fee, weight_at(fee_gamma, even_27(x)));
    }
}

/// The fee for three balances is the rate of a three-coin pool of the second generation.
pub proof fn law_crypto_fee_three(x: (int, int, int), mid_fee: int, out_fee: int, fee_gamma: int)
    requires
        0 <= x.0,
        0 <= x.1,
        0 <= x.2,
        0 < x.0 + x.1 + x.2,
        27_000_000_000_000_000_000 * (x.0 + x.1 + x.2) < modulus(),
        moderate(mid_fee, out_fee, fee_gamma),
    ensures
        crypto_fee_model(seq![x.0, x.1, x.2], mid_fee, out_fee, fee_gamma) == Ok::<_, Fault>(
            Some(
                blend(
                    mid_fee,
                    out_fee,
                    if fee_gamma > 0 {
                        weight_at(fee_gamma, even_3(x))
                    } else {
                        even_3(x)
                    },
                ),
            ),
        ),
{
    let xs = seq![x.0, x.1, x.2];
    reveal_with_fuel(total, 4);
    reveal_with_fuel(evenness, 4);
    assert(xs.drop_last() =~= seq![x.0, x.1]);
    assert(xs.drop_last().drop_last() =~= seq![x.0]);
    assert(xs.drop_last().drop_last().drop_last() =~= Seq::<int>::empty());
    assert(total(xs) == x.0 + x.1 + x.2);
    lemma_plus(x.0, x.1);
    lemma_plus(x.0 + x.1, x.2);
    assert(evenness(xs, 3, x.0 + x.1 + x.2) == evenness_3(x));
    law_fee_tri_ng(x, mid_fee, out_fee, fee_gamma);
}

/// How even two balances are, with a factor of two taken in at each step.
pub open spec fn even_22(x: (int, int)) -> int {
    let s = x.0 + x.1;
    2 * WAD * x.0 / s * 2 * x.1 / s
}

/// The fee for two balances blends the two rates by how even the balances are; with no `fee_gamma` the evenness
/// itself is the weight.
pub proof fn law_crypto_fee_two(x: (int, int), mid_fee: int, out_fee: int, fee_gamma: int)
    requires
        0 <= x.0,
        0 <= x.1,
        0 < x.0 + x.1,
        4_000_000_000_000_000_000 * (x.0 + x.1) < modulus(),
        moderate(mid_fee, out_fee, fee_gamma),
        even_22(x) <= WAD,
    ensures
        crypto_fee_model(seq![x.0, x.1], mid_fee, out_fee, fee_gamma) == Ok::<_, Fault>(
            Some(
                blend(
                    mid_fee,
                    out_fee,
                    if fee_gamma > 0 {
                        weight_at(fee_gamma, even_22(x))
                    } else {
                        even_22(x)
                    },
                ),
            ),
        ),
{
    let xs = seq![x.0, x.1];
    let w = WAD as int;
    let s = x.0 + x.1;
    reveal_with_fuel(total, 3);
    reveal_with_fuel(evenness, 3);
    assert(xs.drop_last() =~= seq![x.0]);
    assert(xs.drop_last().drop_last() =~= Seq::<int>::empty());
    assert(total(xs) == s);
    assert(4 * w * s == 4_000_000_000_000_000_000 * s) by (nonlinear_arith)
        requires
            w == 1_000_000_000_000_000_000,
    ;
    lemma_times(w, 2);
    assert(2 * w * s <= 4 * w * s) by (nonlinear_arith)
        requires
            0 < s,
            0 < w,
    ;
    lemma_part(2 * w, x.0, s);
    let a = 2 * w * x.0 / s;
    lemma_times(a, 2);
    assert(a * 2 * s <= 4 * w * s) by (nonlinear_arith)
        requires
            a <= 2 * w,
            0 < s,
    ;
    lemma_part(a * 2, x.1, s);
    assert(evenness(xs, 2, s) == even_22(x));
    lemma_blend(mid_fee, out_fee, even_22(x));
    if fee_gamma > 0 {
        lemma_weight_at(fee_gamma, even_22(x));
        lemma_blend(mid_fee, out_fee, weight_at(fee_gamma, even_22(x)));
    }
}

/// There is no fee for balances of which there is nothing, or more than a word can count.
pub proof fn law_crypto_fee_refused(x: (int, int, int), mid_fee: int, out_fee: int, fee_gamma: int)
    requires
        x.0 + x.1 + x.2 == 0 || x.0 + x.1 + x.2 >= modulus(),
    ensures
        crypto_fee_model(seq![x.0, x.1, x.2], mid_fee, out_fee, fee_gamma) == Ok::<_, Fault>(None::<int>),
{
    let xs = seq![x.0, x.1, x.2];
    reveal_with_fuel(total, 4);
    assert(xs.drop_last() =~= seq![x.0, x.1]);
    assert(xs.drop_last().drop_last() =~= seq![x.0]);
    assert(xs.drop_last().drop_last().drop_last() =~= Seq::<int>::empty());
}

/// A quotient does not change when both numbers are multiplied.
proof fn lemma_same_part(c: int, a: int, x: int, s: int)
    requires
        0 < c,
        0 < s,
        0 <= a,
        0 <= x,
    ensures
        a * (c * x) / (c * s) == a * x / s,
{
    assert(a * (c * x) == c * (a * x) && 0 <= a * x) by (nonlinear_arith)
        requires
            0 <= a,
            0 <= x,
    ;
    vstd::arithmetic::div_mod::lemma_div_multiples_vanish_quotient(c, a * x, s);
}

/// Only the proportion of the balances counts for how even they are.
pub proof fn law_even_scale(x: (int, int), y: (int, int, int), c: int)
    requires
        0 < c,
        0 <= x.0,
        0 <= x.1,
        0 < x.0 + x.1,
        0 <= y.0,
        0 <= y.1,
        0 <= y.2,
        0 < y.0 + y.1 + y.2,
    ensures
        even_2((c * x.0, c * x.1)) == even_2(x),
        even_27((c * y.0, c * y.1, c * y.2)) == even_27(y),
        even_3((c * y.0, c * y.1, c * y.2)) == even_3(y),
{
    let w = WAD as int;
    let s = x.0 + x.1;
    assert(c * x.0 + c * x.1 == c * s) by (nonlinear_arith)
        requires
            s == x.0 + x.1,
    ;
    lemma_same_part(c, 4 * w, x.0, s);
    lemma_nonnegative(4 * w, x.0, s);
    lemma_same_part(c, 4 * w * x.0 / s, x.1, s);
    let z = y.0 + y.1 + y.2;
    assert(c * y.0 + c * y.1 + c * y.2 == c * z) by (nonlinear_arith)
        requires
            z == y.0 + y.1 + y.2,
    ;
    let a = 27 * w * y.0 / z;
    let b = a * y.1 / z;
    lemma_same_part(c, 27 * w, y.0, z);
    lemma_nonnegative(27 * w, y.0, z);
    lemma_same_part(c, a, y.1, z);
    lemma_nonnegative(a, y.1, z);
    lemma_same_part(c, b, y.2, z);
    let e = 3 * w * y.0 / z;
    let f = e * 3 * y.1 / z;
    lemma_same_part(c, 3 * w, y.0, z);
    lemma_nonnegative(3 * w, y.0, z);
    lemma_same_part(c, e * 3, y.1, z);
    lemma_nonnegative(e * 3, y.1, z);
    lemma_same_part(c, f * 3, y.2, z);
}

proof fn lemma_nonnegative(a: int, x: int, s: int)
    requires
        0 <= a,
        0 <= x,
        0 < s,
    ensures
        0 <= a * x / s,
{
    assert(0 <= a * x) by (nonlinear_arith)
        requires
            0 <= a,
            0 <= x,
    ;
    lemma_quotient(a * x, s);
}

} // verus!
