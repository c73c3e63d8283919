//! The cubics behind the balances of the pools of the second generation.
use super::limits::{law_ladder_2, law_ladder_3};
use crate::bounds::lemma_quotient;
use crate::cubic::{signed_cbrt_model, ten, Cubic};
use crate::fault::Fault;
use crate::newton::WAD;
use crate::roots::cbrt_model;
use crate::signed::{fits, floor_div, half, magnitude, trunc_div, wrap, SignedWord};
use crate::solvers::tricrypto_ng::{
    c1_3, discriminant_3, divider_3, root_3, second_cbrt_3, settled_3,
};
use crate::solvers::twocrypto_ng::{
    c1_2, cubic_2, discriminant_2, divider_2, root_2, second_cbrt_2, settled_2,
};
use crate::uint::{lemma_over, lemma_times, modulus, smaller, Word};
use vstd::prelude::*;

verus! {

/// A number that is a signed word is not changed by wrapping.
proof fn lemma_wrap(v: int)
    requires
        fits(v),
    ensures
        wrap(v) == v,
{
    reveal(wrap);
    if v >= 0 {
        vstd::arithmetic::div_mod::lemma_small_mod(v as nat, modulus() as nat);
    } else {
        vstd::arithmetic::div_mod::lemma_mod_add_multiples_vanish(v, modulus());
        vstd::arithmetic::div_mod::lemma_small_mod((v + modulus()) as nat, modulus() as nat);
    }
}

/// Both quotients of numbers that are not negative are the plain one.
proof fn lemma_plain(a: int, b: int)
    requires
        0 <= a,
        0 < b,
    ensures
        trunc_div(a, b) == a / b,
        floor_div(a, b) == a / b,
        0 <= a / b <= a,
{
    reveal(trunc_div);
    reveal(floor_div);
    lemma_quotient(a, b);
}

/// A product of two numbers that are not negative, per a third.
proof fn lemma_product_over(a: int, b: int, c: int)
    requires
        0 <= a,
        0 <= b,
        0 < c,
        a * b < half(),
    ensures
        0 <= a * b,
        a.wtimes(b) == a * b,
        (a * b).wover(c) == a * b / c,
        (a * b).trunc(c) == a * b / c,
        (a * b).floor(c) == a * b / c,
        0 <= a * b / c <= a * b,
{
    assert(0 <= a * b) by (nonlinear_arith)
        requires
            0 <= a,
            0 <= b,
    ;
    lemma_wrap(a * b);
    lemma_plain(a * b, c);
    lemma_wrap(a * b / c);
}

/// The cube root of a signed number has its sign, and the same size as that of its opposite.
pub proof fn law_signed_cbrt_odd(v: int)
    requires
        0 < v < half(),
    ensures
        signed_cbrt_model(-v) == match signed_cbrt_model(v) {
            Ok(Some(r)) => Ok::<_, Fault>(Some(-r)),
            Ok(None) => Ok(None),
            Err(e) => Err(e),
        },
        cbrt_model(v) < half() ==> signed_cbrt_model(v) == Ok::<_, Fault>(Some(cbrt_model(v))),
{
}

/// The second cube root is that of half the sum of the sizes of `delta1` and the square root, with the sign of
/// `delta1`, in both kinds of pools.
pub proof fn law_second_cbrt(delta1: int, root: int)
    requires
        0 < delta1,
        0 <= root,
        delta1 + root < half(),
        cbrt_model((delta1 + root) / 2) < half(),
    ensures
        second_cbrt_2(delta1, root) == Some(cbrt_model((delta1 + root) / 2)),
        second_cbrt_2(-delta1, root) == Some(-cbrt_model((delta1 + root) / 2)),
        second_cbrt_3(delta1, root) == Ok::<_, Fault>(Some(cbrt_model((delta1 + root) / 2))),
        second_cbrt_3(-delta1, root) == Ok::<_, Fault>(Some(-cbrt_model((delta1 + root) / 2))),
{
    lemma_wrap(delta1 + root);
    lemma_over(delta1 + root, 2);
}

/// The coefficients of the cubic of a two-coin pool, in numbers.
pub proof fn law_cubic_2(ann: int, gamma: int, d: int, x: int, a: int, share: int)
    requires
        0 < ann,
        0 < gamma,
        0 < d,
        0 < x,
        gamma * gamma < half(),
        a == ann * (gamma * gamma),
        a < half(),
        d * a < half(),
        4 * a < half(),
        share == 4 * a / 400_000_000,
        share * x < half(),
        gamma * 400_000_000_000_000 < 1_000_000_000_000_000_000_000_000_000_000_000_000_000_000_000_000_000_000,
        share * x / d < 1_000_000_000_000_000_000_000_000_000_000_000_000_000_000_000_000_000_000,
        (WAD + gamma) * (WAD + gamma) < half(),
    ensures
        cubic_2(ann, gamma, d, x) == Ok::<_, Fault>(
            Cubic {
                a: 100_000_000_000_000_000_000_000_000_000_000,
                b: d * a / 400_000_000 / x - 300_000_000_000_000_000_000_000_000_000_000 - gamma
                    * 200_000_000_000_000,
                c: 300_000_000_000_000_000_000_000_000_000_000 + gamma * 400_000_000_000_000 + gamma * gamma
                    / 10_000 + share * x / d - share,
                d: -((WAD + gamma) * (WAD + gamma) / 10_000),
            },
        ),
{
    let unit = 100_000_000_000_000_000_000_000_000_000_000int;
    lemma_product_over(gamma, gamma, 10_000);
    lemma_product_over(ann, gamma * gamma, 1);
    lemma_product_over(d, a, 400_000_000);
    lemma_plain(d * a / 400_000_000, x);
    lemma_wrap(3 * unit);
    lemma_wrap(2 * gamma);
    lemma_wrap(2 * gamma * 100_000_000_000_000);
    lemma_wrap(4 * gamma);
    lemma_wrap(4 * gamma * 100_000_000_000_000);
    lemma_product_over(4, a, 400_000_000);
    lemma_product_over(share, x, d);
    lemma_product_over(WAD + gamma, WAD + gamma, 10_000);
}

/// The balance that belongs to the root of the cubic of a two-coin pool: the square of `D` per the other balance,
/// times the root, per four.
pub proof fn law_settled_2(d: int, x: int, root: int, lim: int, y: int)
    requires
        0 < d,
        0 < x,
        0 <= root,
        d * d < half(),
        d * d / x * root < half(),
        y == d * d / x * root / 4 / (WAD as int),
    ensures
        settled_2(d, x, root, lim) matches Some(r) ==> r == (y, root),
        0 < lim && y * WAD < modulus() && 500_000_000_000_000_000_000_000_000_000_000_000int / lim <= y * WAD / d
            <= lim / 2 ==> settled_2(d, x, root, lim) == Some((y, root)),
{
    lemma_product_over(d, d, x);
    lemma_product_over(d * d / x, root, 4);
    let q = d * d / x * root / 4;
    lemma_plain(q, WAD as int);
    lemma_wrap(y);
    lemma_over(1_000_000_000_000_000_000_000_000_000_000_000_000, 2);
    if 0 < lim && y * WAD < modulus() {
        lemma_times(y, WAD as int);
        lemma_over(y * WAD, d);
        lemma_over(500_000_000_000_000_000_000_000_000_000_000_000, lim);
        lemma_over(lim, 2);
    }
}

/// The balance that belongs to the root of the cubic of a three-coin pool, and the hint: the cube of `D` per the
/// product of the other balances and twenty-seven, times the root per the first coefficient.
pub proof fn law_settled_3(d: int, x_j: int, x_k: int, root: int, a: int, c: int, y: int)
    requires
        0 < d,
        0 < x_j,
        0 < x_k,
        0 < a,
        0 <= root,
        d * d < half(),
        c == d * d / 27 / x_k * d,
        c < half(),
        c / x_j * root < half(),
        y == c / x_j * root / a,
        WAD * root < half(),
    ensures
        settled_3(d, x_j, x_k, root, a) matches Ok(found) && match found {
            Some(r) => r == (y, WAD * root / a),
            None => true,
        },
        y * WAD < modulus() && 9_999_999_999_999_999 <= y * WAD / d <= 100_000_000_000_000_000_000
            ==> settled_3(d, x_j, x_k, root, a) == Ok::<_, Fault>(Some((y, WAD * root / a))),
{
    lemma_product_over(d, d, 27);
    lemma_plain(d * d / 27, x_k);
    let e = d * d / 27 / x_k;
    assert(0 <= e * d) by (nonlinear_arith)
        requires
            0 <= e,
            0 < d,
    ;
    lemma_plain(c, x_j);
    lemma_product_over(c / x_j, root, a);
    lemma_product_over(WAD as int, root, a);
    if y * WAD < modulus() {
        lemma_times(y, WAD as int);
        lemma_over(y * WAD, d);
    }
}

/// The coefficients of the cubic of a two-coin pool are divided only as far as the first coefficient and both
/// parts of the discriminant stay above 10^18.
pub proof fn law_divider_2(q: Cubic<int>, delta0: int, delta1: int)
    requires
        0 < q.a,
        q.b != 0,
        fits(3 * q.a),
        fits(3 * q.a * q.c),
        fits(27 * q.a),
        fits(27 * q.a * q.a),
        delta0 == floor_div(3 * q.a * q.c, q.b) - q.b,
        fits(floor_div(27 * q.a * q.a, q.b) * q.d),
        fits(3 * delta0),
        delta1 == 3 * delta0 + q.b - floor_div(floor_div(27 * q.a * q.a, q.b) * q.d, q.b),
    ensures
        divider_2(q) matches Ok(v) ==> {
            &&& 0 < v
            &&& v == 1 || (v * ten(18) < q.a && v * ten(18) < magnitude(delta0) && v * ten(18) < magnitude(
                delta1,
            ))
        },
{
    lemma_wrap(3 * q.a);
    lemma_wrap(3 * q.a * q.c);
    lemma_wrap(27 * q.a);
    lemma_wrap(27 * q.a * q.a);
    lemma_wrap(floor_div(27 * q.a * q.a, q.b) * q.d);
    lemma_wrap(3 * delta0);
    let t = smaller(smaller(magnitude(delta0), magnitude(delta1)), q.a);
    law_ladder_2(magnitude(t));
}

/// The coefficients of the cubic of a three-coin pool are divided only as far as the first part of the
/// discriminant stays above 10^18.
pub proof fn law_divider_3(q: Cubic<int>, delta0: int)
    requires
        q.b != 0,
        fits(3 * q.a),
        fits(3 * q.a * q.c),
        delta0 == trunc_div(3 * q.a * q.c, q.b) - q.b,
    ensures
        divider_3(q) matches Ok(v) ==> 0 < v && (v == 1 || v * ten(18) < magnitude(delta0)),
{
    lemma_wrap(3 * q.a);
    lemma_wrap(3 * q.a * q.c);
    law_ladder_3(magnitude(delta0));
}

/// The two parts of the discriminant of the cubic of a two-coin pool, and the number under the square root, as
/// long as every number on the way is a signed word.
pub proof fn law_discriminant_2(q: Cubic<int>, delta0: int, e: int, delta1: int, g: int)
    requires
        q.b != 0,
        fits(3 * q.a),
        fits(3 * q.a * q.c),
        fits(trunc_div(3 * q.a * q.c, q.b)),
        delta0 == trunc_div(3 * q.a * q.c, q.b) - q.b,
        fits(delta0),
        fits(3 * delta0),
        fits(3 * delta0 + q.b),
        fits(q.a * q.a),
        fits(27 * (q.a * q.a)),
        e == trunc_div(27 * (q.a * q.a), q.b),
        fits(e),
        fits(e * q.d),
        fits(trunc_div(e * q.d, q.b)),
        delta1 == 3 * delta0 + q.b - trunc_div(e * q.d, q.b),
        fits(delta1),
        fits(delta1 * delta1),
        fits(delta0 * delta0),
        fits(4 * (delta0 * delta0)),
        g == trunc_div(4 * (delta0 * delta0), q.b),
        fits(g),
        fits(g * delta0),
        fits(delta1 * delta1 + g * delta0),
    ensures
        discriminant_2(q) == Ok::<_, Fault>((delta0, delta1, delta1 * delta1 + g * delta0)),
{
    lemma_wrap(3 * q.a);
    lemma_wrap(3 * q.a * q.c);
    lemma_wrap(trunc_div(3 * q.a * q.c, q.b));
    lemma_wrap(3 * delta0);
    lemma_wrap(q.a * q.a);
    lemma_wrap(27 * (q.a * q.a));
    lemma_wrap(e);
    lemma_wrap(e * q.d);
    lemma_wrap(trunc_div(e * q.d, q.b));
    lemma_wrap(delta1 * delta1);
    lemma_wrap(delta0 * delta0);
    lemma_wrap(4 * (delta0 * delta0));
    lemma_wrap(g);
    lemma_wrap(g * delta0);
}

/// The same of the cubic of a three-coin pool.
pub proof fn law_discriminant_3(q: Cubic<int>, ac: int, delta0: int, e: int, delta1: int, g: int)
    requires
        q.b != 0,
        fits(3 * q.a),
        ac == 3 * q.a * q.c,
        fits(ac),
        fits(trunc_div(ac, q.b)),
        delta0 == trunc_div(ac, q.b) - q.b,
        fits(delta0),
        fits(3 * ac),
        fits(trunc_div(3 * ac, q.b)),
        fits(2 * q.b),
        fits(trunc_div(3 * ac, q.b) - 2 * q.b),
        fits(q.a * q.a),
        fits(27 * (q.a * q.a)),
        e == trunc_div(27 * (q.a * q.a), q.b),
        fits(e),
        fits(e * q.d),
        fits(trunc_div(e * q.d, q.b)),
        delta1 == trunc_div(3 * ac, q.b) - 2 * q.b - trunc_div(e * q.d, q.b),
        fits(delta1),
        fits(delta1 * delta1),
        fits(delta0 * delta0),
        fits(4 * (delta0 * delta0)),
        g == trunc_div(4 * (delta0 * delta0), q.b),
        fits(g),
        fits(g * delta0),
        fits(delta1 * delta1 + g * delta0),
    ensures
        discriminant_3(q) == Ok::<_, Fault>((delta0, delta1, delta1 * delta1 + g * delta0)),
{
    lemma_wrap(3 * q.a);
    lemma_wrap(ac);
    lemma_wrap(3 * ac);
    lemma_wrap(2 * q.b);
    lemma_wrap(q.a * q.a);
    lemma_wrap(27 * (q.a * q.a));
    lemma_wrap(delta1 * delta1);
    lemma_wrap(delta0 * delta0);
    lemma_wrap(4 * (delta0 * delta0));
}

/// The product of the two cube roots: the square of the first one times the second one, rounded toward zero after
/// each product.
pub proof fn law_c1(b: int, delta1: int, root: int, first: int, second: int, a: int)
    requires
        signed_cbrt_model(b) == Ok::<_, Fault>(Some(first)),
        second_cbrt_2(delta1, root) == Some(second),
        second_cbrt_3(delta1, root) == Ok::<_, Fault>(Some(second)),
        fits(first * first),
        a == trunc_div(first * first, WAD as int),
        fits(a),
        fits(a * second),
        fits(trunc_div(a * second, WAD as int)),
    ensures
        c1_2(b, delta1, root) == Ok::<_, Fault>(Some(trunc_div(a * second, WAD as int))),
        c1_3(b, delta1, root) == Ok::<_, Fault>(Some(trunc_div(a * second, WAD as int))),
{
    lemma_wrap(first * first);
    lemma_wrap(a);
    lemma_wrap(a * second);
    lemma_wrap(trunc_div(a * second, WAD as int));
}

/// The root of the cubic of a two-coin pool, in units of 10^18: `c1` less the second coefficient, less that
/// coefficient per `c1` times the first part of the discriminant, all per three times the first coefficient.
pub proof fn law_root_2(q: Cubic<int>, delta0: int, c1: int, n: int)
    requires
        c1 != 0,
        q.a != 0,
        fits(WAD * c1),
        fits(WAD * q.b),
        fits(WAD * c1 - WAD * q.b),
        fits(trunc_div(WAD * q.b, c1)),
        fits(trunc_div(WAD * q.b, c1) * delta0),
        n == WAD * c1 - WAD * q.b - trunc_div(WAD * q.b, c1) * delta0,
        fits(n),
        fits(3 * q.a),
        fits(trunc_div(n, 3 * q.a)),
    ensures
        root_2(q, delta0, c1) == Ok::<_, Fault>(floor_div(n, 3 * q.a)),
{
    lemma_wrap(WAD * c1);
    lemma_wrap(WAD * q.b);
    lemma_wrap(trunc_div(WAD * q.b, c1));
    lemma_wrap(trunc_div(WAD * q.b, c1) * delta0);
    lemma_wrap(3 * q.a);
}

/// The root of the cubic of a three-coin pool: the second coefficient, and that times the first part of the
/// discriminant per `c1`, less `c1`, all per three.
pub proof fn law_root_3(q: Cubic<int>, delta0: int, c1: int, n: int)
    requires
        c1 != 0,
        fits(q.b * delta0),
        fits(trunc_div(q.b * delta0, c1)),
        fits(q.b + trunc_div(q.b * delta0, c1)),
        n == q.b + trunc_div(q.b * delta0, c1) - c1,
        fits(n),
    ensures
        root_3(q, delta0, c1) == Ok::<_, Fault>(trunc_div(n, 3)),
{
}

} // verus!
