//! How the balance of one coin falls as the others grow, where it comes from the cubic.
//!
//! The root of the cubic is calculated from square and cube roots that are rounded. What the rounding
//! leaves in the cubic is small next to what a change of a balance by one part in ten to the seventh makes.
use crate::bounds::lemma_quotient;
use crate::coins::get3;
use crate::cubic::{lemma_ten, signed_cbrt_model, ten, Cubic};
use crate::fault::Fault;
use crate::fees::lemma_means_3;
use crate::newton::WAD;
use crate::roots::{
    cbrt_model, cbrt_scaled, cube, e36, isqrt_floor, law_cbrt_accuracy, lemma_cube_increases, lemma_isqrt_floor,
};
use crate::rounding::{lemma_product_of_roots, lemma_remainder, lemma_root_positive, lemma_under_root, remainder};
use crate::signed::{fits, half, magnitude, trunc_div, wrap};
use crate::solvers::tricrypto_ng::{
    c1_3, cubic_3, discriminant_3, divider_3, get_y_3_model, high_other, ladder_3, low_other, reduced_3, root_3,
    second_cbrt_3, settled_3,
};
use crate::uint::{law_word_of, lemma_over, lemma_times, modulus, Word, U256};
use vstd::arithmetic::power::{lemma_pow_adds, pow};
use vstd::prelude::*;

verus! {

/// Whether four numbers are the coefficients of the cubic up to `er`: `om` is the first one, `e1` and
/// `e2` hold the powers of `gamma`, `u1` and `u2` the balances, and `big` is the size of the last two.
pub open spec fn near(
    om: int,
    e1: int,
    e2: int,
    u1: int,
    u2: int,
    big: int,
    er: int,
    a: int,
    b: int,
    c: int,
    e: int,
) -> bool {
    &&& 1_000 * big <= om <= 10_000_000_000 * big
    &&& 0 <= e1 && 100 * e1 <= om
    &&& 0 <= e2 && 10 * e2 <= big
    &&& e1 * e1 == om * e2
    &&& 0 <= u1 <= 15 * big
    &&& magnitude(u2) <= big
    &&& 22 * big <= 100 * (u2 + 2 * u1)
    &&& 0 <= er && 1_000_000_000_000 * er <= big
    &&& magnitude(a - om) <= er
    &&& magnitude(b - (3 * om + 2 * e1 - u1)) <= er
    &&& magnitude(c - (3 * om + 4 * e1 + e2 + u2)) <= er
    &&& magnitude(e - (om + 2 * e1 + e2)) <= er
}

/// A product of two numbers is at most the product of two bounds.
proof fn lemma_size_product(x: int, y: int, p: int, q: int)
    requires
        magnitude(x) <= p,
        magnitude(y) <= q,
    ensures
        magnitude(x * y) <= p * q,
{
    let sx = magnitude(x);
    let sy = magnitude(y);
    assert(sx * sy <= p * q && 0 <= sx * sy) by (nonlinear_arith)
        requires
            0 <= sx <= p,
            0 <= sy <= q,
    ;
    assert(x * y == sx * sy || x * y == -(sx * sy)) by (nonlinear_arith)
        requires
            sx == x || sx == -x,
            sy == y || sy == -y,
    ;
}

/// Between which bounds `delta0` lies.
proof fn lemma_delta0(
    om: int,
    e1: int,
    e2: int,
    u1: int,
    u2: int,
    big: int,
    er: int,
    v: int,
    a: int,
    b: int,
    c: int,
    e: int,
    t: int,
)
    requires
        near(om, e1, e2, u1, u2, big, er, a, b, c, e),
        1 <= big,
        0 <= v,
        1_000_000_000_000 * v <= big,
        b * t <= 3 * (a * c) - b * b < b * t + b * v,
    ensures
        29 * om <= 10 * b <= 31 * om,
        10 * big <= 100 * t,
        t <= 33 * big,
{
    let be = 3 * om + 2 * e1 - u1;
    let ga = 3 * om + 4 * e1 + e2 + u2;
    let ra = a - om;
    let rb = b - be;
    let rc = c - ga;
    assert(29 * om <= 10 * b <= 31 * om);
    // what the rounding adds
    assert(a * c == om * ga + om * rc + ra * ga + ra * rc) by (nonlinear_arith)
        requires
            a == om + ra,
            c == ga + rc,
    ;
    assert(b * b == be * be + 2 * (be * rb) + rb * rb) by (nonlinear_arith)
        requires
            b == be + rb,
    ;
    let eo = om * er;
    lemma_size_product(om, rc, om, er);
    lemma_size_product(ra, ga, er, 4 * om);
    lemma_size_product(ra, rc, er, er);
    lemma_size_product(be, rb, 4 * om, er);
    lemma_size_product(rb, rb, er, er);
    assert(er * (4 * om) == 4 * eo && (4 * om) * er == 4 * eo) by (nonlinear_arith)
        requires
            eo == om * er,
    ;
    assert(er * er <= eo) by (nonlinear_arith)
        requires
            eo == om * er,
            0 <= er <= om,
    ;
    let whole = 3 * (a * c) - b * b;
    let exact = 3 * (om * ga) - be * be;
    assert(magnitude(whole - exact) <= 27 * eo);
    // the exact difference
    assert(om * ga == 3 * (om * om) + 4 * (om * e1) + om * e2 + om * u2) by (nonlinear_arith)
        requires
            ga == 3 * om + 4 * e1 + e2 + u2,
    ;
    assert(be * be == 9 * (om * om) + 4 * (e1 * e1) + u1 * u1 + 12 * (om * e1) - 6 * (om * u1) - 4 * (e1 * u1))
        by (nonlinear_arith)
        requires
            be == 3 * om + 2 * e1 - u1,
    ;
    let ob = om * big;
    assert(exact == 3 * (om * u2) + 6 * (om * u1) - om * e2 - u1 * u1 + 4 * (e1 * u1));
    assert(22 * ob <= 100 * (om * u2) + 200 * (om * u1)) by (nonlinear_arith)
        requires
            ob == om * big,
            22 * big <= 100 * (u2 + 2 * u1),
            0 <= om,
    {
        assert(om * (22 * big) <= om * (100 * (u2 + 2 * u1))) by (nonlinear_arith)
            requires
                22 * big <= 100 * (u2 + 2 * u1),
                0 <= om,
        ;
        assert(om * (100 * (u2 + 2 * u1)) == 100 * (om * u2) + 200 * (om * u1)) by (nonlinear_arith);
        assert(om * (22 * big) == 22 * (om * big)) by (nonlinear_arith);
    }
    assert(10 * (om * e2) <= ob && 0 <= om * e2) by (nonlinear_arith)
        requires
            ob == om * big,
            0 <= e2,
            10 * e2 <= big,
            0 <= om,
    ;
    assert(1_000 * (u1 * u1) <= 225 * ob && 0 <= u1 * u1) by (nonlinear_arith)
        requires
            ob == om * big,
            0 <= u1 <= 15 * big,
            1_000 * big <= om,
    {
        assert(u1 * u1 <= (15 * big) * (15 * big)) by (nonlinear_arith)
            requires
                0 <= u1 <= 15 * big,
        ;
        assert((15 * big) * (15 * big) == 225 * (big * big)) by (nonlinear_arith);
        assert(1_000 * (big * big) <= om * big) by (nonlinear_arith)
            requires
                1_000 * big <= om,
                0 <= big,
        ;
    }
    assert(om * u2 <= ob && om * u1 <= 15 * ob) by (nonlinear_arith)
        requires
            ob == om * big,
            u2 <= big,
            u1 <= 15 * big,
            0 <= om,
    ;
    assert(0 <= e1 * u1 && 100 * (e1 * u1) <= 15 * ob) by (nonlinear_arith)
        requires
            ob == om * big,
            0 <= u1 <= 15 * big,
            0 <= e1,
            100 * e1 <= om,
    {
        assert((100 * e1) * u1 <= om * (15 * big)) by (nonlinear_arith)
            requires
                0 <= 100 * e1 <= om,
                0 <= u1 <= 15 * big,
        ;
        assert((100 * e1) * u1 == 100 * (e1 * u1) && om * (15 * big) == 15 * (om * big)) by (nonlinear_arith);
    }
    assert(1_000_000_000_000 * eo <= ob) by (nonlinear_arith)
        requires
            eo == om * er,
            ob == om * big,
            1_000_000_000_000 * er <= big,
            0 <= om,
    ;
    assert(0 <= ob) by (nonlinear_arith)
        requires
            ob == om * big,
            0 <= om,
            0 <= big,
    ;
    assert(33 * ob <= 100 * whole && whole <= 95 * ob);
    // over b
    if 100 * t < 10 * big {
        let tv = t + v;
        assert(b * tv == b * t + b * v) by (nonlinear_arith)
            requires
                tv == t + v,
        ;
        assert(1_000 * tv <= 101 * big);
        if tv > 0 {
            assert(10_000 * (b * tv) <= 3_131 * ob) by (nonlinear_arith)
                requires
                    1_000 * tv <= 101 * big,
                    0 <= tv,
                    10 * b <= 31 * om,
                    0 <= b,
                    0 <= om,
                    ob == om * big,
            {
                assert((10 * b) * (1_000 * tv) <= (31 * om) * (101 * big)) by (nonlinear_arith)
                    requires
                        0 <= 1_000 * tv <= 101 * big,
                        0 <= 10 * b <= 31 * om,
                ;
                assert((10 * b) * (1_000 * tv) == 10_000 * (b * tv) && (31 * om) * (101 * big) == 3_131 * (om * big))
                    by (nonlinear_arith);
            }
        } else {
            assert(b * tv <= 0) by (nonlinear_arith)
                requires
                    tv <= 0,
                    b >= 0,
            ;
        }
        assert(33 * ob <= 100 * whole);
        assert(1 <= ob) by (nonlinear_arith)
            requires
                ob == om * big,
                om >= 1,
                big >= 1,
        ;
    }
    if t > 33 * big {
        assert(10 * (b * t) >= 957 * ob) by (nonlinear_arith)
            requires
                t >= 33 * big,
                29 * om <= 10 * b,
                0 <= om,
                0 <= big,
                ob == om * big,
        {
            assert((10 * b) * t >= (29 * om) * (33 * big)) by (nonlinear_arith)
                requires
                    t >= 33 * big >= 0,
                    10 * b >= 29 * om >= 0,
            ;
            assert((29 * om) * (33 * big) == 957 * (om * big) && (10 * b) * t == 10 * (b * t)) by (nonlinear_arith);
        }
        assert(1 <= ob) by (nonlinear_arith)
            requires
                ob == om * big,
                om >= 1,
                big >= 1,
        ;
    }
}

/// A bound on `delta1`.
proof fn lemma_delta1(
    om: int,
    e1: int,
    e2: int,
    u1: int,
    u2: int,
    big: int,
    er: int,
    v: int,
    a: int,
    b: int,
    c: int,
    e: int,
    t: int,
    t1: int,
)
    requires
        near(om, e1, e2, u1, u2, big, er, a, b, c, e),
        1 <= big,
        0 <= v,
        1_000_000_000_000 * v <= big,
        b * t <= 3 * (a * c) - b * b < b * t + b * v,
        magnitude(9 * ((a * c) * b) - 2 * (b * b * b) - 27 * (a * a * e) - b * b * t1) <= 2 * (b * b * v),
    ensures
        magnitude(t1) <= 151 * big,
{
    lemma_delta0(om, e1, e2, u1, u2, big, er, v, a, b, c, e, t);
    let be = 3 * om + 2 * e1 - u1;
    let de = om + 2 * e1 + e2;
    let ep = 2 * e1 - u1;
    let ra = a - om;
    let rb = b - be;
    let re = e - de;
    let bb = b * b;
    let b3 = b * b * b;
    let k = b3 - 27 * (a * a * e);
    // b * b * t1 from k
    let ac = a * c;
    let l0 = 3 * ac - bb;
    let bt = bb * t;
    let bv = bb * v;
    assert(bt <= b * l0 <= bt + bv) by (nonlinear_arith)
        requires
            b * t <= l0 < b * t + b * v,
            bt == bb * t,
            bv == bb * v,
            bb == b * b,
            b >= 0,
    {
        assert(b * (b * t) <= b * l0 <= b * (b * t + b * v)) by (nonlinear_arith)
            requires
                b * t <= l0 < b * t + b * v,
                b >= 0,
        ;
        assert(b * (b * t) == (b * b) * t && b * (b * t + b * v) == (b * b) * t + (b * b) * v) by (nonlinear_arith);
    }
    assert(b * l0 == 3 * (ac * b) - b3) by (nonlinear_arith)
        requires
            l0 == 3 * ac - bb,
            bb == b * b,
            b3 == b * b * b,
    ;
    let bt1 = bb * t1;
    assert(magnitude(bt1 - 3 * bt - k) <= 5 * bv);
    // k from its exact value
    let ep2 = ep * ep;
    let ep3 = ep2 * ep;
    let o2 = om * om;
    let exact = 9 * (om * ep2) + ep3 - 27 * (o2 * (u1 + e2));
    assert(be * be * be - 27 * (om * om * de) == exact) by {
        assert(be * be * be == 27 * (o2 * om) + 27 * (o2 * ep) + 9 * (om * ep2) + ep3) by (nonlinear_arith)
            requires
                be == 3 * om + ep,
                o2 == om * om,
                ep2 == ep * ep,
                ep3 == ep2 * ep,
        ;
        assert(om * om * de == o2 * om + o2 * (2 * e1 + e2)) by (nonlinear_arith)
            requires
                de == om + 2 * e1 + e2,
                o2 == om * om,
        ;
        assert(o2 * ep - o2 * (2 * e1 + e2) == -(o2 * (u1 + e2))) by (nonlinear_arith)
            requires
                ep == 2 * e1 - u1,
        ;
    }
    // what the rounding adds
    assert(b3 == be * be * be + rb * (b * b + b * be + be * be)) by (nonlinear_arith)
        requires
            b3 == b * b * b,
            b == be + rb,
    ;
    let sq = b * b + b * be + be * be;
    assert(0 <= sq <= 48 * o2) by (nonlinear_arith)
        requires
            sq == b * b + b * be + be * be,
            0 <= b <= 4 * om,
            0 <= be <= 4 * om,
            o2 == om * om,
    {
        assert(b * b <= (4 * om) * (4 * om) && b * be <= (4 * om) * (4 * om) && be * be <= (4 * om) * (4 * om))
            by (nonlinear_arith)
            requires
                0 <= b <= 4 * om,
                0 <= be <= 4 * om,
        ;
        assert((4 * om) * (4 * om) == 16 * (om * om)) by (nonlinear_arith);
        assert(0 <= b * b && 0 <= b * be && 0 <= be * be) by (nonlinear_arith)
            requires
                0 <= b,
                0 <= be,
        ;
    }
    let er2 = er * o2;
    lemma_size_product(rb, sq, er, 48 * o2);
    assert(a * a * e == om * om * de + ra * ((a + om) * e) + o2 * re) by (nonlinear_arith)
        requires
            a == om + ra,
            e == de + re,
            o2 == om * om,
    {
        assert(a * a - om * om == ra * (a + om)) by (nonlinear_arith)
            requires
                a == om + ra,
        ;
        assert(a * a * e - om * om * e == (ra * (a + om)) * e) by (nonlinear_arith)
            requires
                a * a - om * om == ra * (a + om),
        ;
        assert((ra * (a + om)) * e == ra * ((a + om) * e)) by (nonlinear_arith);
        assert(om * om * e == om * om * de + om * om * re) by (nonlinear_arith)
            requires
                e == de + re,
        ;
    }
    lemma_size_product(a + om, e, 3 * om, 2 * om);
    assert((3 * om) * (2 * om) == 6 * o2) by (nonlinear_arith)
        requires
            o2 == om * om,
    ;
    lemma_size_product(ra, (a + om) * e, er, 6 * o2);
    lemma_size_product(o2, re, o2, er);
    assert(er * (48 * o2) == 48 * er2 && er * (6 * o2) == 6 * er2 && o2 * er == er2) by (nonlinear_arith)
        requires
            er2 == er * o2,
    ;
    assert(magnitude(k - exact) <= 300 * er2);
    // the size of the exact value
    let ob = o2 * big;
    assert(0 <= o2 * (u1 + e2) && 100 * (o2 * (u1 + e2)) <= 1_510 * ob) by (nonlinear_arith)
        requires
            ob == o2 * big,
            0 <= u1 <= 15 * big,
            0 <= e2,
            10 * e2 <= big,
            0 <= o2,
    {
        let h = 100 * (u1 + e2);
        assert(o2 * h <= o2 * (1_510 * big) && 0 <= o2 * (u1 + e2)) by (nonlinear_arith)
            requires
                h <= 1_510 * big,
                0 <= u1 + e2,
                0 <= o2,
        ;
        assert(o2 * h == 100 * (o2 * (u1 + e2)) && o2 * (1_510 * big) == 1_510 * (o2 * big)) by (nonlinear_arith)
            requires
                h == 100 * (u1 + e2),
        ;
    }
    let oo = om * big;
    assert(100 * ep2 <= 125 * oo && 0 <= ep2) by {
        assert(ep2 <= 8 * (e1 * e1) + 2 * (u1 * u1) && 0 <= ep2) by (nonlinear_arith)
            requires
                ep2 == ep * ep,
                ep == 2 * e1 - u1,
        {
            let h = 2 * e1 + u1;
            assert(0 <= h * h && 0 <= ep * ep) by (nonlinear_arith);
            assert(ep * ep + h * h == 8 * (e1 * e1) + 2 * (u1 * u1)) by (nonlinear_arith)
                requires
                    ep == 2 * e1 - u1,
                    h == 2 * e1 + u1,
            ;
        }
        assert(10 * (om * e2) <= oo) by (nonlinear_arith)
            requires
                oo == om * big,
                10 * e2 <= big,
                0 <= om,
        ;
        assert(1_000 * (u1 * u1) <= 225 * oo) by (nonlinear_arith)
            requires
                oo == om * big,
                0 <= u1 <= 15 * big,
                1_000 * big <= om,
        {
            assert(u1 * u1 <= (15 * big) * (15 * big)) by (nonlinear_arith)
                requires
                    0 <= u1 <= 15 * big,
            ;
            assert((15 * big) * (15 * big) == 225 * (big * big)) by (nonlinear_arith);
            assert(1_000 * (big * big) <= om * big) by (nonlinear_arith)
                requires
                    1_000 * big <= om,
                    0 <= big,
            ;
        }
    }
    assert(om * oo == ob) by (nonlinear_arith)
        requires
            oo == om * big,
            o2 == om * om,
            ob == o2 * big,
    ;
    assert(100 * (om * ep2) <= 125 * ob && 0 <= om * ep2) by (nonlinear_arith)
        requires
            100 * ep2 <= 125 * oo,
            0 <= ep2,
            om * oo == ob,
            0 <= om,
    ;
    assert(magnitude(ep) <= om);
    lemma_size_product(ep2, ep, ep2, om);
    assert(ep2 * om == om * ep2) by (nonlinear_arith);
    assert(1_000_000_000_000 * er2 <= ob) by (nonlinear_arith)
        requires
            er2 == er * o2,
            ob == o2 * big,
            1_000_000_000_000 * er <= big,
            0 <= o2,
    ;
    assert(0 <= o2) by (nonlinear_arith)
        requires
            o2 == om * om,
    ;
    assert(1 <= ob) by (nonlinear_arith)
        requires
            ob == o2 * big,
            o2 == om * om,
            om >= 1,
            big >= 1,
    ;
    assert(magnitude(k) <= 421 * ob);
    // over b * b
    assert(100 * bb >= 841 * o2) by (nonlinear_arith)
        requires
            bb == b * b,
            o2 == om * om,
            10 * b >= 29 * om,
            om >= 0,
    {
        let g = 10 * b;
        let h = 29 * om;
        assert(g * g >= h * h) by (nonlinear_arith)
            requires
                g >= h >= 0,
        ;
        assert(g * g == 100 * (b * b) && h * h == 841 * (om * om)) by (nonlinear_arith)
            requires
                g == 10 * b,
                h == 29 * om,
        ;
    }
    assert(421 * ob <= bb * (51 * big)) by (nonlinear_arith)
        requires
            100 * bb >= 841 * o2,
            ob == o2 * big,
            big >= 0,
            o2 >= 0,
    ;
    let lim = 151 * big;
    assert(bb * lim >= bb * (51 * big) + 3 * bt + 5 * bv) by (nonlinear_arith)
        requires
            lim == 151 * big,
            bt == bb * t,
            bv == bb * v,
            t <= 33 * big,
            5 * v <= big,
            big >= 0,
            bb >= 0,
    {
        assert(bb * lim >= bb * (51 * big + 3 * t + 5 * v)) by (nonlinear_arith)
            requires
                lim >= 51 * big + 3 * t + 5 * v,
                bb >= 0,
        ;
        assert(bb * (51 * big + 3 * t + 5 * v) == bb * (51 * big) + 3 * (bb * t) + 5 * (bb * v)) by (nonlinear_arith);
    }
    assert(0 <= bt) by (nonlinear_arith)
        requires
            bt == bb * t,
            bb >= 0,
            t >= 0,
    ;
    assert(bb >= 1) by (nonlinear_arith)
        requires
            bb == b * b,
            b >= 1,
    ;
    if t1 > lim {
        assert(bb * t1 > bb * lim) by (nonlinear_arith)
            requires
                t1 > lim,
                bb >= 1,
        ;
    }
    if -t1 > lim {
        assert(bb * t1 < -(bb * lim)) by (nonlinear_arith)
            requires
                -t1 > lim,
                bb >= 1,
        ;
    }
}

/// A number that is a signed word is its own word.
proof fn lemma_wrap(v: int)
    requires
        fits(v),
    ensures
        wrap(v) == v,
{
    reveal(wrap);
    if v >= 0 {
        vstd::arithmetic::div_mod::lemma_small_mod(v as nat, modulus() as nat);
    } else {
        let m = modulus();
        assert((v + m) % m == v % m) by {
            vstd::arithmetic::div_mod::lemma_mod_add_multiples_vanish(v, m);
        }
        vstd::arithmetic::div_mod::lemma_small_mod((v + m) as nat, m as nat);
    }
}

/// The quotient rounded toward zero by a positive number.
proof fn lemma_trunc(a: int, b: int)
    requires
        1 <= b,
    ensures
        magnitude(trunc_div(a, b) * b - a) < b,
        0 <= a ==> trunc_div(a, b) == a / b && 0 <= trunc_div(a, b) <= a && trunc_div(a, b) * b <= a < trunc_div(a, b)
            * b + b,
        a < 0 ==> trunc_div(a, b) <= 0,
{
    reveal(trunc_div);
    if a >= 0 {
        lemma_quotient(a, b);
        let q = a / b;
        assert((q + 1) * b == q * b + b) by (nonlinear_arith);
    } else {
        lemma_quotient(-a, b);
        let q = (-a) / b;
        assert((q + 1) * b == q * b + b && (-q) * b == -(q * b)) by (nonlinear_arith);
    }
}

/// What `delta0` and `delta1` are up to rounding, and between which bounds they lie.
proof fn lemma_discriminant(
    q: Cubic<int>,
    v: int,
    om: int,
    e1: int,
    e2: int,
    u1: int,
    u2: int,
    big: int,
    er: int,
) -> (r: (int, int, int))
    requires
        near(om, e1, e2, u1, u2, big, er, v * q.a, v * q.b, v * q.c, v * q.d),
        1 <= v,
        7_000_000_000_000_000 * v <= big,
        1 <= q.a <= 200_000_000_000_000_000_000_000_000_000_000_000,
        1 <= q.b <= 200_000_000_000_000_000_000_000_000_000_000_000,
        1 <= q.c <= 200_000_000_000_000_000_000_000_000_000_000_000,
        1 <= q.d <= 200_000_000_000_000_000_000_000_000_000_000_000,
    ensures
        discriminant_3(q) == Ok::<(int, int, int), Fault>(r),
        ({
            let (t0, t1, square) = r;
            let t3 = (4 * (t0 * t0)) / q.b;
            &&& 10_000_000_000_000_000_000 <= q.b
            &&& 100_000_000_000_000 <= t0
            &&& 20 * t0 <= q.b <= 1_000_000_000_000 * t0
            &&& 10 * magnitude(t1) <= q.b
            &&& q.b * t0 <= 3 * (q.a * q.c) - q.b * q.b < q.b * t0 + q.b
            &&& magnitude(
                9 * ((q.a * q.c) * q.b) - 2 * (q.b * q.b * q.b) - 27 * (q.a * q.a * q.d) - q.b * q.b * t1,
            ) <= 2 * (q.b * q.b)
            &&& q.b * t3 <= 4 * (t0 * t0) < q.b * t3 + q.b
            &&& square == t1 * t1 + t3 * t0
            &&& 1 <= square < half()
            &&& v * t0 <= 33 * big
            &&& v * magnitude(t1) <= 151 * big
        }),
        29 * om <= 10 * (v * q.b) <= 31 * om,
{
    let a = q.a;
    let b = q.b;
    let c = q.c;
    let d = q.d;
    let ac = a * c;
    let aa = a * a;
    let big2 = 40_000_000_000_000_000_000_000_000_000_000_000_000_000_000_000_000_000_000_000_000_000_000_000int;
    assert(0 <= ac <= big2 && 0 <= aa <= big2) by (nonlinear_arith)
        requires
            ac == a * c,
            aa == a * a,
            1 <= a <= 200_000_000_000_000_000_000_000_000_000_000_000,
            1 <= c <= 200_000_000_000_000_000_000_000_000_000_000_000,
            big2 == 40_000_000_000_000_000_000_000_000_000_000_000_000_000_000_000_000_000_000_000_000_000_000_000int,
    ;
    lemma_wrap(3 * a);
    assert((3 * a) * c == 3 * ac) by (nonlinear_arith)
        requires
            ac == a * c,
    ;
    lemma_wrap(3 * ac);
    lemma_wrap(3 * (3 * ac));
    lemma_wrap(2 * b);
    lemma_wrap(aa);
    lemma_wrap(27 * aa);
    lemma_trunc(3 * ac, b);
    lemma_trunc(9 * ac, b);
    lemma_trunc(27 * aa, b);
    let p0 = (3 * ac) / b;
    let p = (9 * ac) / b;
    let r = (27 * aa) / b;
    let t0 = p0 - b;
    let rd = r * d;
    assert(0 <= rd) by (nonlinear_arith)
        requires
            rd == r * d,
            r >= 0,
            d >= 0,
    ;
    lemma_trunc(rd, b);
    let m = rd / b;
    let t1 = p - 2 * b - m;
    let bb = b * b;
    assert(b * t0 <= 3 * ac - bb < b * t0 + b) by (nonlinear_arith)
        requires
            p0 * b <= 3 * ac < p0 * b + b,
            t0 == p0 - b,
            bb == b * b,
    ;
    // delta0 in units of 1 / v
    let va = v * a;
    let vb = v * b;
    let vc = v * c;
    let vd = v * d;
    let v2 = v * v;
    assert(va * vc == v2 * ac && vb * vb == v2 * bb && vb * (v * t0) == v2 * (b * t0) && vb * v == v2 * b)
        by (nonlinear_arith)
        requires
            va == v * a,
            vb == v * b,
            vc == v * c,
            v2 == v * v,
            ac == a * c,
            bb == b * b,
    ;
    let l0 = 3 * ac - bb;
    assert(v2 * (b * t0) <= v2 * l0 < v2 * (b * t0) + v2 * b) by (nonlinear_arith)
        requires
            b * t0 <= l0 < b * t0 + b,
            v2 == v * v,
            v >= 1,
    {
        assert(v2 >= 1) by (nonlinear_arith)
            requires
                v2 == v * v,
                v >= 1,
        ;
        assert(v2 * (b * t0) <= v2 * l0 < v2 * (b * t0 + b)) by (nonlinear_arith)
            requires
                v2 >= 1,
                b * t0 <= l0 < b * t0 + b,
        ;
        assert(v2 * (b * t0 + b) == v2 * (b * t0) + v2 * b) by (nonlinear_arith);
    }
    assert(v2 * l0 == 3 * (v2 * ac) - v2 * bb) by (nonlinear_arith)
        requires
            l0 == 3 * ac - bb,
    ;
    lemma_delta0(om, e1, e2, u1, u2, big, er, v, va, vb, vc, vd, v * t0);
    let bounds_hold = d <= b && 10_000_000_000_000_000_000 <= b && 100_000_000_000_000 <= t0 && 20 * t0 <= b && b
        <= 1_000_000_000_000 * t0;
    assert(bounds_hold) by {
        assert(vd <= vb);
        assert(d <= b) by (nonlinear_arith)
            requires
                v * d <= v * b,
                v >= 1,
        ;
        assert(v * 10_000_000_000_000_000_000 <= vb);
        assert(10_000_000_000_000_000_000 <= b) by (nonlinear_arith)
            requires
                v * 10_000_000_000_000_000_000 <= v * b,
                v >= 1,
        ;
        assert(v * 100_000_000_000_000 <= v * t0);
        assert(100_000_000_000_000 <= t0) by (nonlinear_arith)
            requires
                v * 100_000_000_000_000 <= v * t0,
                v >= 1,
        ;
        assert(20 * (v * t0) <= vb);
        assert(20 * t0 <= b) by (nonlinear_arith)
            requires
                20 * (v * t0) <= v * b,
                v >= 1,
        ;
        assert(vb <= 1_000_000_000_000 * (v * t0));
        assert(b <= 1_000_000_000_000 * t0) by (nonlinear_arith)
            requires
                v * b <= 1_000_000_000_000 * (v * t0),
                v >= 1,
        ;
    }
    // delta1
    let aad = aa * d;
    let acb = ac * b;
    let b3 = bb * b;
    assert(bb * p <= 9 * acb && 9 * acb < bb * p + bb) by (nonlinear_arith)
        requires
            p * b <= 9 * ac < p * b + b,
            bb == b * b,
            acb == ac * b,
            b >= 1,
    {
        assert((p * b) * b <= (9 * ac) * b && (9 * ac) * b < (p * b + b) * b) by (nonlinear_arith)
            requires
                p * b <= 9 * ac < p * b + b,
                b >= 1,
        ;
        assert((p * b) * b == (b * b) * p && (p * b + b) * b == (b * b) * p + b * b && (9 * ac) * b == 9 * (ac * b))
            by (nonlinear_arith);
    }
    assert(bb * m <= b * rd && b * rd < bb * m + bb) by (nonlinear_arith)
        requires
            m * b <= rd < m * b + b,
            bb == b * b,
            b >= 1,
    {
        assert(b * (m * b) <= b * rd && b * rd < b * (m * b + b)) by (nonlinear_arith)
            requires
                m * b <= rd < m * b + b,
                b >= 1,
        ;
        assert(b * (m * b) == (b * b) * m && b * (m * b + b) == (b * b) * m + b * b) by (nonlinear_arith);
    }
    assert(b * rd <= 27 * aad && 27 * aad < b * rd + b * d) by (nonlinear_arith)
        requires
            r * b <= 27 * aa < r * b + b,
            rd == r * d,
            aad == aa * d,
            d >= 1,
    {
        assert((r * b) * d <= (27 * aa) * d && (27 * aa) * d < (r * b + b) * d) by (nonlinear_arith)
            requires
                r * b <= 27 * aa < r * b + b,
                d >= 1,
        ;
        assert((r * b) * d == b * (r * d) && (r * b + b) * d == b * (r * d) + b * d && (27 * aa) * d == 27 * (aa * d))
            by (nonlinear_arith);
    }
    assert(b * d <= bb) by (nonlinear_arith)
        requires
            bb == b * b,
            d <= b,
            b >= 0,
    ;
    assert(bb * t1 == bb * p - 2 * b3 - bb * m) by (nonlinear_arith)
        requires
            t1 == p - 2 * b - m,
            b3 == bb * b,
    ;
    let l1 = 9 * acb - 2 * b3 - 27 * aad;
    assert(magnitude(l1 - bb * t1) <= 2 * bb);
    // delta1 in units of 1 / v
    let v3 = v2 * v;
    assert((va * vc) * vb == v3 * acb && vb * vb * vb == v3 * b3 && va * va * vd == v3 * aad && vb * vb * (v * t1)
        == v3 * (bb * t1) && vb * vb * v == v3 * bb) by {
        assert(va * va == v2 * aa) by (nonlinear_arith)
            requires
                va == v * a,
                v2 == v * v,
                aa == a * a,
        ;
        assert((v2 * ac) * (v * b) == (v2 * v) * (ac * b)) by (nonlinear_arith);
        assert((v2 * bb) * (v * b) == (v2 * v) * (bb * b)) by (nonlinear_arith);
        assert((v2 * aa) * (v * d) == (v2 * v) * (aa * d)) by (nonlinear_arith);
        assert((v2 * bb) * (v * t1) == (v2 * v) * (bb * t1)) by (nonlinear_arith);
        assert((v2 * bb) * v == (v2 * v) * bb) by (nonlinear_arith);
    }
    let off = l1 - bb * t1;
    assert(v3 >= 1) by (nonlinear_arith)
        requires
            v3 == v2 * v,
            v2 == v * v,
            v >= 1,
    ;
    lemma_size_product(v3, off, v3, 2 * bb);
    assert(v3 * off == 9 * (v3 * acb) - 2 * (v3 * b3) - 27 * (v3 * aad) - v3 * (bb * t1)) by (nonlinear_arith)
        requires
            off == 9 * acb - 2 * b3 - 27 * aad - bb * t1,
    ;
    assert(v3 * (2 * bb) == 2 * (v3 * bb)) by (nonlinear_arith);
    lemma_delta1(om, e1, e2, u1, u2, big, er, v, va, vb, vc, vd, v * t0, v * t1);
    assert(v * magnitude(t1) == magnitude(v * t1)) by (nonlinear_arith)
        requires
            v >= 1,
            (t1 >= 0 && magnitude(t1) == t1) || (t1 < 0 && magnitude(t1) == -t1),
            (v * t1 >= 0 && magnitude(v * t1) == v * t1) || (v * t1 < 0 && magnitude(v * t1) == -(v * t1)),
    ;
    let st = magnitude(t1);
    assert(10 * st <= b) by {
        assert(10 * (v * st) <= vb);
        assert(10 * st <= b) by (nonlinear_arith)
            requires
                10 * (v * st) <= v * b,
                v >= 1,
        ;
    }
    // what stands under the root
    let t00 = t0 * t0;
    assert(0 <= t00 <= bb && bb <= big2) by (nonlinear_arith)
        requires
            t00 == t0 * t0,
            0 <= t0 <= b,
            bb == b * b,
            1 <= b <= 200_000_000_000_000_000_000_000_000_000_000_000,
            big2 == 40_000_000_000_000_000_000_000_000_000_000_000_000_000_000_000_000_000_000_000_000_000_000_000int,
    ;
    lemma_wrap(t00);
    lemma_wrap(4 * t00);
    lemma_trunc(4 * t00, b);
    let t3 = (4 * t00) / b;
    assert(b * t3 == t3 * b) by (nonlinear_arith);
    assert(0 <= t1 * t1 <= bb) by (nonlinear_arith)
        requires
            st <= b,
            st == t1 || st == -t1,
            0 <= st,
            bb == b * b,
    ;
    lemma_wrap(t1 * t1);
    assert(b <= t00) by (nonlinear_arith)
        requires
            b <= 1_000_000_000_000 * t0,
            1_000_000_000_000 <= t0,
            t00 == t0 * t0,
    ;
    lemma_root_positive(t0, b, t3);
    assert(1 <= t3 * t0) by (nonlinear_arith)
        requires
            t3 >= 1,
            t0 >= 1,
    ;
    assert(b * b * b == b3 && a * a * d == aad && b * b * t1 == bb * t1);
    // every part is a word
    assert(10 * a <= 4 * b) by {
        assert(10 * va <= 4 * vb);
        assert(10 * a <= 4 * b) by (nonlinear_arith)
            requires
                10 * (v * a) <= 4 * (v * b),
                v >= 1,
        ;
    }
    assert(r <= 11 * a) by (nonlinear_arith)
        requires
            r * b <= 27 * aa,
            10 * a <= 4 * b,
            aa == a * a,
            1 <= a,
    {
        if r > 11 * a {
            assert(r * b > (11 * a) * b) by (nonlinear_arith)
                requires
                    r > 11 * a,
                    b >= 1,
            ;
            assert((11 * a) * b == 11 * (a * b)) by (nonlinear_arith);
            assert(10 * (a * a) <= 4 * (a * b)) by (nonlinear_arith)
                requires
                    10 * a <= 4 * b,
                    1 <= a,
            ;
        }
    }
    assert(rd <= 11 * big2) by (nonlinear_arith)
        requires
            rd == r * d,
            0 <= r <= 11 * a,
            1 <= a <= 200_000_000_000_000_000_000_000_000_000_000_000,
            1 <= d <= 200_000_000_000_000_000_000_000_000_000_000_000,
            big2 == 40_000_000_000_000_000_000_000_000_000_000_000_000_000_000_000_000_000_000_000_000_000_000_000int,
    ;
    assert(t3 <= t0) by (nonlinear_arith)
        requires
            b * t3 <= 4 * t00,
            t00 == t0 * t0,
            20 * t0 <= b,
            1 <= t0,
    {
        if t3 > t0 {
            assert(b * t3 >= (20 * t0) * t0) by (nonlinear_arith)
                requires
                    b >= 20 * t0,
                    t3 > t0,
                    t0 >= 1,
            ;
            assert((20 * t0) * t0 == 20 * (t0 * t0) && 1 <= t0 * t0) by (nonlinear_arith)
                requires
                    t0 >= 1,
            ;
        }
    }
    assert(t3 * t0 <= t00) by (nonlinear_arith)
        requires
            t3 <= t0,
            t0 >= 1,
            t00 == t0 * t0,
    ;
    (t0, t1, t1 * t1 + t3 * t0)
}

/// What is left of a reduced cubic at the root that was calculated for it.
proof fn lemma_root(
    q: Cubic<int>,
    v: int,
    om: int,
    e1: int,
    e2: int,
    u1: int,
    u2: int,
    big: int,
    er: int,
    t0: int,
    t1: int,
    square: int,
) -> (r: (int, int))
    requires
        near(om, e1, e2, u1, u2, big, er, v * q.a, v * q.b, v * q.c, v * q.d),
        1 <= v,
        7_000_000_000_000_000 * v <= big,
        1 <= q.a <= 200_000_000_000_000_000_000_000_000_000_000_000,
        1 <= q.b <= 200_000_000_000_000_000_000_000_000_000_000_000,
        1 <= q.c <= 200_000_000_000_000_000_000_000_000_000_000_000,
        1 <= q.d <= 200_000_000_000_000_000_000_000_000_000_000_000,
        discriminant_3(q) == Ok::<(int, int, int), Fault>((t0, t1, square)),
    ensures
        c1_3(q.b, t1, isqrt_floor(square)) == Ok::<Option<int>, Fault>(Some(r.0)),
        root_3(q, t0, r.0) == Ok::<int, Fault>(r.1),
        27_000_000_000_000 * (v * magnitude(remainder(q.a, q.b, q.c, q.d, r.1))) <= q.b * q.b * (260 * big),
        10 * magnitude(3 * r.1 - q.b) <= 7 * q.b + 20,
{
    lemma_discriminant(q, v, om, e1, e2, u1, u2, big, er);
    let w = WAD as int;
    let big2 = 40_000_000_000_000_000_000_000_000_000_000_000_000_000_000_000_000_000_000_000_000_000_000_000int;
    let b = q.b;
    let tau = magnitude(t1);
    let t3 = (4 * (t0 * t0)) / b;
    lemma_isqrt_floor(square, 0);
    let s = isqrt_floor(square);
    let z = (tau + s) / 2;
    assert(t1 * t1 == tau * tau) by (nonlinear_arith)
        requires
            tau == t1 || tau == -t1,
    ;
    lemma_under_root(b, t0, tau, t3, s, z);
    // the two cube roots
    law_word_of(b);
    law_cbrt_accuracy(U256::of(b));
    let first = cbrt_model(b);
    law_word_of(z);
    law_cbrt_accuracy(U256::of(z));
    let m = cbrt_model(z);
    assert(cbrt_scaled(b).1 == 1 && cbrt_scaled(z).1 == 1);
    lemma_root_size(b, first);
    lemma_root_size(z, m);
    let f2 = first * first;
    let g = f2 / w;
    let gm = g * m;
    let u = gm / w;
    let e2k = 1_000_000_000_000_000_000_000_000int;
    assert(0 <= f2 <= e2k * e2k) by (nonlinear_arith)
        requires
            f2 == first * first,
            0 <= first <= e2k,
    ;
    assert(e2k * e2k == 1_000_000_000_000_000_000_000_000_000_000_000_000_000_000_000_000int) by (nonlinear_arith)
        requires
            e2k == 1_000_000_000_000_000_000_000_000int,
    ;
    lemma_quotient(f2, w);
    let gg = 1_000_000_000_000_000_000_000_000_000_000_000_000_000_000_000_000int;
    assert(0 <= gm <= gg * e2k) by (nonlinear_arith)
        requires
            gm == g * m,
            0 <= g <= gg,
            0 <= m <= e2k,
    ;
    assert(gg * e2k < half()) by (nonlinear_arith)
        requires
            gg == 1_000_000_000_000_000_000_000_000_000_000_000_000_000_000_000_000int,
            e2k == 1_000_000_000_000_000_000_000_000int,
            half() == 0x8000000000000000_0000000000000000_0000000000000000_0000000000000000int,
    ;
    lemma_quotient(gm, w);
    lemma_wrap(f2);
    lemma_trunc(f2, w);
    lemma_wrap(g);
    lemma_product_of_roots(b, z, first, m, u);
    let x = b * t0;
    assert(0 <= x) by (nonlinear_arith)
        requires
            x == b * t0,
            b >= 0,
            t0 >= 0,
    ;
    lemma_quotient(x, u);
    let vv = x / u;
    assert(vv * u == u * vv && (vv + 1) * u == u * vv + u) by (nonlinear_arith);
    lemma_over(tau + s, 2);
    assert(signed_cbrt_model(b) == Ok::<Option<int>, Fault>(Some(first)));
    assert(s <= 2 * z + 1 && z <= tau + t0);
    let c1 = if t1 > 0 {
        u
    } else {
        -u
    };
    let part = if t1 > 0 {
        vv
    } else {
        -vv
    };
    assert(x <= big2) by (nonlinear_arith)
        requires
            x == b * t0,
            0 <= t0 <= b,
            1 <= b <= 200_000_000_000_000_000_000_000_000_000_000_000,
            big2 == 40_000_000_000_000_000_000_000_000_000_000_000_000_000_000_000_000_000_000_000_000_000_000_000int,
    ;
    let root = trunc_div(b + part - c1, 3);
    if t1 > 0 {
        assert(second_cbrt_3(t1, s) == Ok::<Option<int>, Fault>(Some(m)));
        lemma_wrap(gm);
        lemma_trunc(gm, w);
        lemma_wrap(u);
        assert(c1_3(b, t1, s) == Ok::<Option<int>, Fault>(Some(c1)));
        lemma_trunc(x, u);
        lemma_trunc(b + vv - u, 3);
    } else {
        let n = -m;
        assert(-(t1 - s) == tau + s);
        assert(second_cbrt_3(t1, s) == Ok::<Option<int>, Fault>(Some(n)));
        assert(g * n == -gm) by (nonlinear_arith)
            requires
                gm == g * m,
                n == -m,
        ;
        lemma_wrap(-gm);
        reveal(trunc_div);
        assert(trunc_div(-gm, w) == -u);
        lemma_wrap(-u);
        assert(c1_3(b, t1, s) == Ok::<Option<int>, Fault>(Some(c1)));
        assert(trunc_div(x, -u) == -vv);
        lemma_trunc(b - vv + u, 3);
    }
    assert(magnitude(3 * root - (if t1 <= 0 {
        b - vv + u
    } else {
        b + vv - u
    })) <= 2);
    lemma_remainder(q.a, b, q.c, q.d, t0, t1, t3, s, z, u, vv, root);
    // in units of 1 / v
    let rem = magnitude(remainder(q.a, b, q.c, q.d, root));
    let bb = b * b;
    let k = 510_000_000_000_000_000 + tau + t0;
    assert(v * k <= 260 * big) by (nonlinear_arith)
        requires
            k == 510_000_000_000_000_000 + tau + t0,
            v * tau <= 151 * big,
            v * t0 <= 33 * big,
            7_000_000_000_000_000 * v <= big,
            v >= 1,
    ;
    let lim = 260 * big;
    assert(27_000_000_000_000 * (v * rem) <= bb * lim) by (nonlinear_arith)
        requires
            27_000_000_000_000 * rem <= bb * k,
            v * k <= lim,
            v >= 1,
            bb >= 0,
    {
        assert(v * (27_000_000_000_000 * rem) <= v * (bb * k)) by (nonlinear_arith)
            requires
                27_000_000_000_000 * rem <= bb * k,
                v >= 1,
        ;
        assert(v * (bb * k) == bb * (v * k)) by (nonlinear_arith);
        assert(bb * (v * k) <= bb * lim) by (nonlinear_arith)
            requires
                v * k <= lim,
                bb >= 0,
        ;
        assert(v * (27_000_000_000_000 * rem) == 27_000_000_000_000 * (v * rem)) by (nonlinear_arith);
    }
    assert(0 <= bb) by (nonlinear_arith)
        requires
            bb == b * b,
    ;
    (c1, root)
}

/// The cube root of a number below 10^36, in units of 10^-12, is at most 10^24.
proof fn lemma_root_size(x: int, r: int)
    requires
        0 <= x < e36(),
        cube(r - 1) <= x * e36() < cube(r + 1),
    ensures
        0 <= r <= 1_000_000_000_000_000_000_000_000,
{
    let k = 1_000_000_000_000_000_000_000_000int;
    if r > k {
        lemma_cube_increases(k, r - 1);
        assert(cube(k) == e36() * e36()) by (nonlinear_arith)
            requires
                cube(k) == k * k * k,
                k == 1_000_000_000_000_000_000_000_000int,
                e36() == 1_000_000_000_000_000_000_000_000_000_000_000_000,
        ;
        assert(x * e36() < e36() * e36()) by (nonlinear_arith)
            requires
                x < e36(),
                e36() == 1_000_000_000_000_000_000_000_000_000_000_000_000,
        ;
    }
    if r < 0 {
        assert(cube(r + 1) <= 0) by (nonlinear_arith)
            requires
                cube(r + 1) == (r + 1) * (r + 1) * (r + 1),
                r + 1 <= 0,
        ;
        assert(0 <= x * e36()) by (nonlinear_arith)
            requires
                0 <= x,
                e36() >= 0,
        ;
    }
}

/// One quotient after another is the quotient by the product.
proof fn lemma_twice(n: int, a: int, b: int)
    requires
        0 <= n,
        1 <= a,
        1 <= b,
    ensures
        0 <= (n / a) / b <= n,
        (a * b) * ((n / a) / b) <= n < (a * b) * ((n / a) / b) + a * b,
{
    lemma_quotient(n, a);
    let m = n / a;
    lemma_quotient(m, b);
    let r = m / b;
    let br = b * r;
    assert(r * b == br && (r + 1) * b == br + b && (m + 1) * a == m * a + a) by (nonlinear_arith)
        requires
            br == b * r,
    ;
    assert((a * b) * r == a * br) by (nonlinear_arith)
        requires
            br == b * r,
    ;
    assert(a * br <= m * a && m * a + a <= a * br + a * b) by (nonlinear_arith)
        requires
            br <= m,
            m + 1 <= br + b,
            a >= 1,
    ;
}

/// What 27 times the coefficients are multiplied by to be whole numbers.
pub open spec fn scale_of(d: int, x_j: int, x_k: int) -> int {
    270_000 * (d * (x_j * x_k))
}

/// The range of the parameters and of the balances in which the root of the cubic is accurate.
pub open spec fn well_scaled(ann: int, gamma: int, d: int, x_j: int, x_k: int) -> bool {
    &&& 100_000 <= ann
    &&& 10_000_000_000 <= gamma <= 10_000_000_000_000_000
    &&& 1_000_000_000_000_000_000_000_000_000_000 <= gamma * gamma * ann
        <= 10_000_000_000_000_000_000_000_000_000_000_000_000
    &&& 1_000_000_000_000_000_000 <= d <= 1_000_000_000_000_000_000_000_000_000_000_000
    &&& 100_000_000_000_000_000_000_000_000_000_000_000_000_000_000_000_000_000 <= (gamma * gamma * ann) * d
    &&& 1 <= x_j && 1 <= x_k && x_j + x_k <= 2 * d
    &&& d * d <= 400 * (x_j * x_k)
}

/// The size of the part of the coefficients that the balances make.
pub open spec fn size_of(ann: int, gamma: int, d: int, x_j: int, x_k: int) -> int {
    27 * ((d * (x_j * x_k)) * (gamma * gamma * ann))
}

/// Whether four numbers are the coefficients of the cubic up to `er`.
pub open spec fn coefficients(
    ann: int,
    gamma: int,
    d: int,
    x_j: int,
    x_k: int,
    er: int,
    a: int,
    b: int,
    c: int,
    e: int,
) -> bool {
    let w = WAD as int;
    let z = scale_of(d, x_j, x_k);
    let g = gamma * gamma * ann;
    near(
        z * (w * w),
        z * (w * gamma),
        z * (gamma * gamma),
        g * (d * d * d),
        27 * ((x_j * x_k) * (g * (x_j + x_k - d))),
        size_of(ann, gamma, d, x_j, x_k),
        er,
        a,
        b,
        c,
        e,
    )
}

/// `27 * x * y * (x + y - d) + 2 * d^3` is at least `6 * d * x * y`.
proof fn lemma_even_enough(d: int, x: int, y: int)
    requires
        0 <= d,
        0 <= x,
        0 <= y,
    ensures
        6 * (d * (x * y)) <= 27 * ((x * y) * (x + y - d)) + 2 * (d * d * d),
{
    let s = x + y;
    let p = x * y;
    let d2 = d * d;
    let d3 = d2 * d;
    let s2 = s * s;
    assert(4 * p <= s2 && 0 <= p) by (nonlinear_arith)
        requires
            p == x * y,
            s == x + y,
            s2 == s * s,
            0 <= x,
            0 <= y,
    {
        let h = x - y;
        assert(0 <= h * h && s * s == h * h + 4 * (x * y)) by (nonlinear_arith)
            requires
                h == x - y,
                s == x + y,
        ;
        assert(0 <= x * y) by (nonlinear_arith)
            requires
                0 <= x,
                0 <= y,
        ;
    }
    let k = 33 * d - 27 * s;
    let pk = p * k;
    assert(p * (s - d) == p * s - p * d && d * p == p * d && pk == 33 * (p * d) - 27 * (p * s)) by (nonlinear_arith)
        requires
            pk == p * k,
            k == 33 * d - 27 * s,
    ;
    assert(0 <= d3) by (nonlinear_arith)
        requires
            d3 == d2 * d,
            d2 == d * d,
            0 <= d,
    ;
    if k <= 0 {
        assert(pk <= 0) by (nonlinear_arith)
            requires
                pk == p * k,
                k <= 0,
                0 <= p,
        ;
    } else {
        assert(4 * pk <= s2 * k) by (nonlinear_arith)
            requires
                pk == p * k,
                4 * p <= s2,
                0 <= k,
        ;
        // 8 d^3 - 33 d s^2 + 27 s^3 is not negative
        let h = 6 * s - 5 * d;
        let f = 108 * s + 45 * d;
        assert(0 <= f * (h * h)) by (nonlinear_arith)
            requires
                0 <= f,
        ;
        let s3 = s2 * s;
        let ds = d * s2;
        assert(h * h == 36 * s2 - 60 * (s * d) + 25 * d2) by (nonlinear_arith)
            requires
                h == 6 * s - 5 * d,
                s2 == s * s,
                d2 == d * d,
        ;
        let sd = s * d;
        assert(f * (h * h) == 3_888 * s3 - 4_860 * ds + 1_125 * d3) by (nonlinear_arith)
            requires
                f == 108 * s + 45 * d,
                h * h == 36 * s2 - 60 * sd + 25 * d2,
                s3 == s2 * s,
                ds == d * s2,
                d3 == d2 * d,
                sd == s * d,
                s2 == s * s,
                d2 == d * d,
        {
            assert(f * (36 * s2 - 60 * sd + 25 * d2) == 3_888 * (s * s2) - 6_480 * (s * sd) + 2_700 * (s * d2) + 1_620 * (d
                * s2) - 2_700 * (d * sd) + 1_125 * (d * d2)) by (nonlinear_arith)
                requires
                    f == 108 * s + 45 * d,
            ;
            assert(s * sd == d * s2 && s * d2 == d * sd && s * s2 == s2 * s && d * d2 == d2 * d) by (nonlinear_arith)
                requires
                    sd == s * d,
                    s2 == s * s,
                    d2 == d * d,
            ;
        }
        assert(s2 * k == 33 * ds - 27 * s3) by (nonlinear_arith)
            requires
                k == 33 * d - 27 * s,
                s3 == s2 * s,
                ds == d * s2,
        ;
        assert(0 <= ds) by (nonlinear_arith)
            requires
                ds == d * s2,
                s2 == s * s,
                0 <= d,
        ;
    }
}

/// The shape of the coefficients, without their rounding.
proof fn lemma_shape(ann: int, gamma: int, d: int, x_j: int, x_k: int, er: int)
    requires
        well_scaled(ann, gamma, d, x_j, x_k),
        0 <= er,
        1_000_000_000_000 * er <= size_of(ann, gamma, d, x_j, x_k),
    ensures
        ({
            let w = WAD as int;
            let z = scale_of(d, x_j, x_k);
            let g = gamma * gamma * ann;
            let om = z * (w * w);
            let e1 = z * (w * gamma);
            let e2 = z * (gamma * gamma);
            let u1 = g * (d * d * d);
            let u2 = 27 * ((x_j * x_k) * (g * (x_j + x_k - d)));
            &&& coefficients(
                ann,
                gamma,
                d,
                x_j,
                x_k,
                er,
                om,
                3 * om + 2 * e1 - u1,
                3 * om + 4 * e1 + e2 + u2,
                om + 2 * e1 + e2,
            )
            &&& 1 <= z
            &&& 10_000 * size_of(ann, gamma, d, x_j, x_k) == z * g
            &&& 1 <= size_of(ann, gamma, d, x_j, x_k)
            &&& z <= om
        }),
{
    let w = WAD as int;
    let p = x_j * x_k;
    let dp = d * p;
    let z = 270_000 * dp;
    let gg = gamma * gamma;
    let g = gg * ann;
    let big = 27 * (dp * g);
    let om = z * (w * w);
    let e1 = z * (w * gamma);
    let e2 = z * gg;
    let d3 = d * d * d;
    let u1 = g * d3;
    let s = x_j + x_k - d;
    let u2 = 27 * (p * (g * s));
    assert(1 <= p) by (nonlinear_arith)
        requires
            p == x_j * x_k,
            1 <= x_j,
            1 <= x_k,
    ;
    assert(1 <= dp && d3 <= 400 * dp && 0 <= d3) by (nonlinear_arith)
        requires
            dp == d * p,
            1 <= p,
            d * d <= 400 * p,
            d3 == d * d * d,
            1 <= d,
    {
        assert((d * d) * d <= (400 * p) * d) by (nonlinear_arith)
            requires
                d * d <= 400 * p,
                1 <= d,
        ;
        assert((400 * p) * d == 400 * (d * p)) by (nonlinear_arith);
        assert(1 <= d * p && 0 <= (d * d) * d) by (nonlinear_arith)
            requires
                1 <= d,
                1 <= p,
        ;
    }
    let dg = dp * g;
    assert(z * g == 270_000 * dg) by (nonlinear_arith)
        requires
            z == 270_000 * dp,
            dg == dp * g,
    ;
    assert(1 <= dg) by (nonlinear_arith)
        requires
            dg == dp * g,
            1 <= dp,
            1 <= g,
    ;
    let ww = w * w;
    assert(ww == 1_000_000_000_000_000_000_000_000_000_000_000_000) by (nonlinear_arith)
        requires
            ww == w * w,
            w == 1_000_000_000_000_000_000,
    ;
    // om against big
    assert(z * 1_000_000_000_000_000_000_000_000_000_000 <= z * g
        <= z * 10_000_000_000_000_000_000_000_000_000_000_000_000) by (nonlinear_arith)
        requires
            1_000_000_000_000_000_000_000_000_000_000 <= g <= 10_000_000_000_000_000_000_000_000_000_000_000_000,
            1 <= z,
    ;
    assert(om == z * 1_000_000_000_000_000_000_000_000_000_000_000_000);
    assert(1_000 * big <= om <= 10_000_000_000 * big);
    // e1 and e2
    assert(0 <= w * gamma && 100 * (w * gamma) <= ww) by (nonlinear_arith)
        requires
            0 <= gamma,
            100 * gamma <= w,
            ww == w * w,
            w >= 0,
    ;
    let wg = w * gamma;
    assert(0 <= e1 && 100 * e1 <= om) by (nonlinear_arith)
        requires
            e1 == z * wg,
            om == z * ww,
            0 <= wg,
            100 * wg <= ww,
            1 <= z,
    ;
    assert(0 <= gg && 100_000 * gg <= g) by (nonlinear_arith)
        requires
            gg == gamma * gamma,
            g == gg * ann,
            100_000 <= ann,
    ;
    assert(0 <= e2 && 100_000 * e2 <= z * g) by (nonlinear_arith)
        requires
            e2 == z * gg,
            0 <= gg,
            100_000 * gg <= g,
            1 <= z,
    ;
    assert(e1 * e1 == om * e2) by (nonlinear_arith)
        requires
            e1 == z * (w * gamma),
            om == z * (w * w),
            e2 == z * (gamma * gamma),
    ;
    // u1 and u2
    assert(u1 <= 400 * dg && 0 <= u1) by (nonlinear_arith)
        requires
            u1 == g * d3,
            0 <= d3 <= 400 * dp,
            dg == dp * g,
            1 <= g,
    ;
    let pg = p * g;
    assert(p * (g * s) == pg * s && dg == pg * d) by (nonlinear_arith)
        requires
            pg == p * g,
            dg == dp * g,
            dp == d * p,
    ;
    assert(1 <= pg) by (nonlinear_arith)
        requires
            pg == p * g,
            1 <= p,
            1 <= g,
    ;
    assert(-d <= s <= d);
    assert(pg * s <= pg * d && -(pg * d) <= pg * s) by (nonlinear_arith)
        requires
            -d <= s <= d,
            1 <= pg,
    ;
    assert(magnitude(u2) <= big);
    lemma_even_enough(d, x_j, x_k);
    let ps = p * s;
    assert(6 * dp <= 27 * ps + 2 * d3);
    assert(6 * (g * dp) <= 27 * (g * ps) + 2 * (g * d3)) by (nonlinear_arith)
        requires
            6 * dp <= 27 * ps + 2 * d3,
            1 <= g,
    ;
    assert(g * ps == pg * s && g * dp == dg) by (nonlinear_arith)
        requires
            ps == p * s,
            pg == p * g,
            dg == dp * g,
    ;
    assert(z <= om) by (nonlinear_arith)
        requires
            om == z * 1_000_000_000_000_000_000_000_000_000_000_000_000,
            1 <= z,
    ;
}

/// What the rounding of the coefficients can add, times [`scale_of`] and 27.
pub open spec fn rounding_of(ann: int, gamma: int, d: int, x_j: int, x_k: int) -> int {
    60 * scale_of(d, x_j, x_k) + (gamma * gamma * ann) * (x_j * d) + 27 * ((x_j * x_k) * (ann * d))
}

/// The rounding is small next to the part that the balances make.
proof fn lemma_rounding(ann: int, gamma: int, d: int, x_j: int, x_k: int)
    requires
        well_scaled(ann, gamma, d, x_j, x_k),
    ensures
        0 <= rounding_of(ann, gamma, d, x_j, x_k),
        1_000_000_000_000_000 * rounding_of(ann, gamma, d, x_j, x_k) <= size_of(ann, gamma, d, x_j, x_k),
{
    let p = x_j * x_k;
    let dp = d * p;
    let gg = gamma * gamma;
    let g = gg * ann;
    let dg = dp * g;
    assert(1 <= p) by (nonlinear_arith)
        requires
            p == x_j * x_k,
            1 <= x_j,
            1 <= x_k,
    ;
    assert(1 <= dp) by (nonlinear_arith)
        requires
            dp == d * p,
            1 <= p,
            1 <= d,
    ;
    // the first part
    assert(dp * 1_000_000_000_000_000_000_000_000_000_000 <= dg) by (nonlinear_arith)
        requires
            dg == dp * g,
            g >= 1_000_000_000_000_000_000_000_000_000_000,
            1 <= dp,
    ;
    // the second part
    let jd = x_j * d;
    let m = g * jd;
    assert(dg == m * x_k) by (nonlinear_arith)
        requires
            dg == dp * g,
            dp == d * p,
            p == x_j * x_k,
            m == g * jd,
            jd == x_j * d,
    {
        assert((d * (x_j * x_k)) * g == (g * (x_j * d)) * x_k) by (nonlinear_arith);
    }
    assert(0 <= m) by (nonlinear_arith)
        requires
            m == g * jd,
            jd == x_j * d,
            g >= 0,
            x_j >= 0,
            d >= 0,
    {
        assert(0 <= x_j * d) by (nonlinear_arith)
            requires
                x_j >= 0,
                d >= 0,
        ;
    }
    lemma_not_small(d, x_j, x_k);
    assert(m * 500_000_000_000_000 <= dg) by (nonlinear_arith)
        requires
            dg == m * x_k,
            0 <= m,
            x_k >= 500_000_000_000_000,
    ;
    // the third part
    let ad = ann * d;
    let n = p * ad;
    assert(dg == n * gg) by (nonlinear_arith)
        requires
            dg == dp * g,
            dp == d * p,
            g == gg * ann,
            n == p * ad,
            ad == ann * d,
    {
        assert((d * p) * (gg * ann) == (p * (ann * d)) * gg) by (nonlinear_arith);
    }
    assert(gg >= 100_000_000_000_000_000_000) by (nonlinear_arith)
        requires
            gg == gamma * gamma,
            gamma >= 10_000_000_000,
    ;
    assert(0 <= n) by (nonlinear_arith)
        requires
            n == p * ad,
            ad == ann * d,
            p >= 0,
            ann >= 0,
            d >= 0,
    {
        assert(0 <= ann * d) by (nonlinear_arith)
            requires
                ann >= 0,
                d >= 0,
        ;
    }
    assert(n * 100_000_000_000_000_000_000 <= dg) by (nonlinear_arith)
        requires
            dg == n * gg,
            0 <= n,
            gg >= 100_000_000_000_000_000_000,
    ;
}

/// The coefficients as they are calculated are those of the cubic up to rounding.
proof fn lemma_coefficients(ann: int, gamma: int, d: int, x_j: int, x_k: int, q: Cubic<int>)
    requires
        well_scaled(ann, gamma, d, x_j, x_k),
        cubic_3(ann, gamma, d, x_j, x_k) == Ok::<Cubic<int>, Fault>(q),
    ensures
        ({
            let v = 27 * scale_of(d, x_j, x_k);
            coefficients(
                ann,
                gamma,
                d,
                x_j,
                x_k,
                rounding_of(ann, gamma, d, x_j, x_k),
                v * q.a,
                v * q.b,
                v * q.c,
                v * q.d,
            )
        }),
        1 <= q.a <= 200_000_000_000_000_000_000_000_000_000_000_000,
        1 <= q.b <= 200_000_000_000_000_000_000_000_000_000_000_000,
        1 <= q.c <= 200_000_000_000_000_000_000_000_000_000_000_000,
        1 <= q.d <= 200_000_000_000_000_000_000_000_000_000_000_000,
{
    let w = WAD as int;
    let unit = 1_000_000_000_000_000_000_000_000_000_000_000_000int;
    let er = rounding_of(ann, gamma, d, x_j, x_k);
    lemma_rounding(ann, gamma, d, x_j, x_k);
    lemma_shape(ann, gamma, d, x_j, x_k, er);
    let p = x_j * x_k;
    let dp = d * p;
    let z = 270_000 * dp;
    let gg = gamma * gamma;
    let g = gg * ann;
    let wg = w * gamma;
    assert(w * w == unit) by (nonlinear_arith)
        requires
            w == 1_000_000_000_000_000_000,
            unit == 1_000_000_000_000_000_000_000_000_000_000_000_000int,
    ;
    assert(0 <= gg <= 100_000_000_000_000_000_000_000_000_000_000 && 0 <= wg
        <= 10_000_000_000_000_000_000_000_000_000_000_000) by (nonlinear_arith)
        requires
            gg == gamma * gamma,
            wg == w * gamma,
            w == 1_000_000_000_000_000_000,
            0 <= gamma <= 10_000_000_000_000_000,
    ;
    let om = z * (w * w);
    let e1 = z * wg;
    let e2 = z * gg;
    let d3 = d * d * d;
    let u1 = g * d3;
    let s = x_j + x_k - d;
    let u2 = 27 * (p * (g * s));
    let v = 27 * z;
    // the constants
    lemma_trunc(unit, 9);
    lemma_trunc(unit, 27);
    let ninth = unit / 9;
    assert(27 * ninth == 3 * unit - 3);
    // the first coefficient
    let qa = q.a;
    assert(qa == unit / 27);
    assert(unit - 27 < 27 * qa <= unit);
    assert(v * qa == z * (27 * qa)) by (nonlinear_arith)
        requires
            v == 27 * z,
    ;
    lemma_close(z, 27 * qa, unit, 27);
    // the second one
    lemma_wrap(2 * w);
    assert((2 * w) * gamma == 2 * wg) by (nonlinear_arith)
        requires
            wg == w * gamma,
    ;
    lemma_wrap(2 * wg);
    lemma_trunc(2 * wg, 27);
    let h = (2 * wg) / 27;
    lemma_wrap(gg);
    let dd = d * d;
    assert(0 <= dd <= 1_000_000_000_000_000_000_000_000_000_000_000_000_000_000_000_000_000_000_000_000_000_000)
        by (nonlinear_arith)
        requires
            dd == d * d,
            0 <= d <= 1_000_000_000_000_000_000_000_000_000_000_000,
    ;
    lemma_wrap(dd);
    lemma_trunc(dd, x_j);
    let q1 = dd / x_j;
    let n2 = q1 * gg;
    let n3 = n2 * ann;
    assert(0 <= n2) by (nonlinear_arith)
        requires
            n2 == q1 * gg,
            q1 >= 0,
            gg >= 0,
    ;
    assert(0 <= n3) by (nonlinear_arith)
        requires
            n3 == n2 * ann,
            n2 >= 0,
            ann >= 0,
    ;
    lemma_trunc(n3, 729);
    lemma_twice(n3, 729, 10_000);
    lemma_trunc(n3 / 729, 10_000);
    let n4 = (n3 / 729) / 10_000;
    lemma_trunc(n4, x_k);
    let bt = n4 / x_k;
    assert(q.b == ninth + h - bt);
    let k = 7_290_000 * x_k;
    assert(k * bt <= n3 < k * bt + k) by (nonlinear_arith)
        requires
            bt * x_k <= n4 < bt * x_k + x_k,
            7_290_000 * n4 <= n3 < 7_290_000 * n4 + 7_290_000,
            k == 7_290_000 * x_k,
    ;
    assert(n3 == g * q1) by (nonlinear_arith)
        requires
            n3 == n2 * ann,
            n2 == q1 * gg,
            g == gg * ann,
    ;
    // 27 * z * bt is k * bt times x_j and d
    let jd = x_j * d;
    assert(v * bt == jd * (k * bt)) by (nonlinear_arith)
        requires
            v == 27 * z,
            z == 270_000 * dp,
            dp == d * p,
            p == x_j * x_k,
            k == 7_290_000 * x_k,
            jd == x_j * d,
    {
        assert((7_290_000 * (d * (x_j * x_k))) * bt == (x_j * d) * ((7_290_000 * x_k) * bt)) by (nonlinear_arith);
        assert(27 * (270_000 * (d * (x_j * x_k))) == 7_290_000 * (d * (x_j * x_k)));
    }
    assert(jd * k == v) by (nonlinear_arith)
        requires
            v == 27 * z,
            z == 270_000 * dp,
            dp == d * p,
            p == x_j * x_k,
            k == 7_290_000 * x_k,
            jd == x_j * d,
    {
        assert((x_j * d) * (7_290_000 * x_k) == 7_290_000 * (d * (x_j * x_k))) by (nonlinear_arith);
    }
    assert(jd >= 1) by (nonlinear_arith)
        requires
            jd == x_j * d,
            x_j >= 1,
            d >= 1,
    ;
    let jn = jd * n3;
    assert(v * bt <= jn < v * bt + v) by (nonlinear_arith)
        requires
            k * bt <= n3 < k * bt + k,
            jn == jd * n3,
            v * bt == jd * (k * bt),
            jd * k == v,
            jd >= 1,
    {
        assert(jd * (k * bt) <= jd * n3 < jd * (k * bt + k)) by (nonlinear_arith)
            requires
                k * bt <= n3 < k * bt + k,
                jd >= 1,
        ;
        assert(jd * (k * bt + k) == jd * (k * bt) + jd * k) by (nonlinear_arith);
    }
    let gj = g * jd;
    assert(jn <= u1 && u1 <= jn + gj) by (nonlinear_arith)
        requires
            jn == jd * n3,
            n3 == g * q1,
            jd == x_j * d,
            q1 * x_j <= dd < q1 * x_j + x_j,
            dd == d * d,
            d3 == d * d * d,
            u1 == g * d3,
            gj == g * jd,
            g >= 1,
            d >= 1,
    {
        let qj = q1 * x_j;
        let gd = g * d;
        assert(gd >= 1) by (nonlinear_arith)
            requires
                gd == g * d,
                g >= 1,
                d >= 1,
        ;
        assert((x_j * d) * (g * q1) == (g * d) * (q1 * x_j)) by (nonlinear_arith);
        assert(g * (d * d * d) == (g * d) * (d * d)) by (nonlinear_arith);
        assert(g * (x_j * d) == (g * d) * x_j) by (nonlinear_arith);
        assert(gd * qj <= gd * dd && gd * dd <= gd * (qj + x_j)) by (nonlinear_arith)
            requires
                qj <= dd < qj + x_j,
                gd >= 1,
        ;
        assert(gd * (qj + x_j) == gd * qj + gd * x_j) by (nonlinear_arith);
    }
    assert(v * q.b == z * (27 * ninth) + z * (27 * h) - v * bt) by (nonlinear_arith)
        requires
            v == 27 * z,
            q.b == ninth + h - bt,
    ;
    lemma_close(z, 27 * ninth, 3 * unit, 3);
    lemma_close(z, 27 * h, 2 * wg, 27);
    assert(z * (3 * unit) == 3 * om && z * (2 * wg) == 2 * e1) by (nonlinear_arith)
        requires
            om == z * unit,
            e1 == z * wg,
    ;
    // the third one
    lemma_wrap(4 * w);
    let c1 = gamma + 4 * w;
    assert(gamma * c1 == gg + 4 * wg) by (nonlinear_arith)
        requires
            c1 == gamma + 4 * w,
            gg == gamma * gamma,
            wg == w * gamma,
    ;
    lemma_wrap(gg + 4 * wg);
    lemma_trunc(gg + 4 * wg, 27);
    let f = (gg + 4 * wg) / 27;
    let c4 = gg * s;
    lemma_trunc(c4, d);
    let t = trunc_div(c4, d);
    let c5 = t * ann;
    lemma_trunc(c5, 27);
    let r1 = trunc_div(c5, 27);
    lemma_trunc(r1, 10_000);
    let c6 = trunc_div(r1, 10_000);
    assert(q.c == ninth + f + c6);
    assert(magnitude(270_000 * c6 - c5) <= 270_000);
    let pd = p * d;
    assert(pd == dp) by (nonlinear_arith)
        requires
            pd == p * d,
            dp == d * p,
    ;
    let off = 270_000 * c6 - c5;
    let rho = t * d - c4;
    assert(v * c6 == 27 * (pd * c5) + 27 * (pd * off)) by (nonlinear_arith)
        requires
            v == 27 * z,
            z == 270_000 * dp,
            pd == dp,
            off == 270_000 * c6 - c5,
    ;
    lemma_size_product(pd, off, pd, 270_000);
    assert(pd * c5 == p * (c4 * ann) + p * (rho * ann)) by (nonlinear_arith)
        requires
            pd == p * d,
            c5 == t * ann,
            rho == t * d - c4,
    {
        assert((p * d) * (t * ann) == p * ((t * d) * ann)) by (nonlinear_arith);
        assert((t * d) * ann == c4 * ann + rho * ann) by (nonlinear_arith)
            requires
                t * d == c4 + rho,
        ;
        assert(p * (c4 * ann + rho * ann) == p * (c4 * ann) + p * (rho * ann)) by (nonlinear_arith);
    }
    assert(c4 * ann == g * s) by (nonlinear_arith)
        requires
            c4 == gg * s,
            g == gg * ann,
    ;
    lemma_size_product(rho, ann, d, ann);
    lemma_size_product(p, rho * ann, p, d * ann);
    assert(d * ann == ann * d) by (nonlinear_arith);
    assert(v * q.c == z * (27 * ninth) + z * (27 * f) + v * c6) by (nonlinear_arith)
        requires
            v == 27 * z,
            q.c == ninth + f + c6,
    ;
    lemma_close(z, 27 * f, gg + 4 * wg, 27);
    assert(z * (gg + 4 * wg) == e2 + 4 * e1) by (nonlinear_arith)
        requires
            e1 == z * wg,
            e2 == z * gg,
    ;
    // the last one
    let edge = w + gamma;
    assert(edge * edge == unit + 2 * wg + gg) by (nonlinear_arith)
        requires
            edge == w + gamma,
            w * w == unit,
            wg == w * gamma,
            gg == gamma * gamma,
    ;
    let ee = unit + 2 * wg + gg;
    lemma_wrap(ee);
    lemma_trunc(ee, 27);
    assert(q.d == ee / 27);
    assert(v * q.d == z * (27 * q.d)) by (nonlinear_arith)
        requires
            v == 27 * z,
    ;
    lemma_close(z, 27 * q.d, ee, 27);
    assert(z * ee == om + 2 * e1 + e2) by (nonlinear_arith)
        requires
            ee == unit + 2 * wg + gg,
            om == z * unit,
            e1 == z * wg,
            e2 == z * gg,
    ;
    // together
    assert(magnitude(v * q.a - om) <= er);
    assert(magnitude(v * q.b - (3 * om + 2 * e1 - u1)) <= er);
    assert(magnitude(v * q.c - (3 * om + 4 * e1 + e2 + u2)) <= er);
    assert(magnitude(v * q.d - (om + 2 * e1 + e2)) <= er);
    assert(om == v * 37_037_037_037_037_037_037_037_037_037_037_037 + z) by (nonlinear_arith)
        requires
            om == z * unit,
            unit == 1_000_000_000_000_000_000_000_000_000_000_000_000int,
            v == 27 * z,
    ;
    lemma_coefficient_range(v, om, q.b);
    lemma_coefficient_range(v, om, q.c);
}

/// A coefficient of about three times the first one is in range.
proof fn lemma_coefficient_range(v: int, om: int, c: int)
    requires
        1 <= v,
        om <= v * 37_037_037_037_037_037_037_037_037_037_037_038,
        om <= v * c <= 4 * om,
        1 <= om,
    ensures
        1 <= c <= 200_000_000_000_000_000_000_000_000_000_000_000,
{
    assert(1 <= c) by (nonlinear_arith)
        requires
            1 <= v * c,
            1 <= v,
    ;
    assert(c <= 200_000_000_000_000_000_000_000_000_000_000_000) by (nonlinear_arith)
        requires
            v * c <= v * 148_148_148_148_148_148_148_148_148_148_148_152,
            1 <= v,
    ;
}

/// A number close to another one, times a third.
proof fn lemma_close(z: int, x: int, y: int, k: int)
    requires
        0 <= z,
        y - k <= x <= y,
    ensures
        z * y - k * z <= z * x <= z * y,
{
    assert(z * (y - k) <= z * x <= z * y) by (nonlinear_arith)
        requires
            0 <= z,
            y - k <= x <= y,
    ;
    assert(z * (y - k) == z * y - k * z) by (nonlinear_arith);
}

/// What the coefficients are divided by is at most one part in 10^18 of the size.
proof fn lemma_ladder(t: int)
    requires
        100_000_000_000_000_000_000 < t,
    ensures
        1 <= ladder_3(t),
        1_000_000_000_000_000_000 * ladder_3(t) <= t,
{
    assert(ten(18) == 1_000_000_000_000_000_000 && ten(20) == 100_000_000_000_000_000_000) by {
        reveal_with_fuel(pow, 21);
    }
    lemma_pow_adds(10, 18, 30);
    lemma_pow_adds(10, 18, 26);
    lemma_pow_adds(10, 18, 22);
    lemma_pow_adds(10, 18, 18);
    lemma_pow_adds(10, 18, 14);
    lemma_pow_adds(10, 18, 10);
    lemma_pow_adds(10, 18, 6);
    lemma_pow_adds(10, 18, 2);
    lemma_ten(30);
    lemma_ten(26);
    lemma_ten(22);
    lemma_ten(18);
    lemma_ten(14);
    lemma_ten(10);
    lemma_ten(6);
    lemma_ten(2);
}

/// One coefficient brought to size.
proof fn lemma_reduced_one(v0: int, n: int, down: int, dv: int)
    requires
        1 <= v0,
        0 <= n,
        1 <= down,
        1 <= dv,
    ensures
        ({
            let q = trunc_div(trunc_div(n, down), dv);
            let v = v0 * (down * dv);
            &&& 0 <= q <= n
            &&& v * q <= v0 * n <= v * q + v
        }),
{
    lemma_trunc(n, down);
    lemma_trunc(n / down, dv);
    lemma_twice(n, down, dv);
    let q = (n / down) / dv;
    let s = down * dv;
    let v = v0 * s;
    assert(v * q <= v0 * n <= v * q + v) by (nonlinear_arith)
        requires
            s * q <= n < s * q + s,
            v == v0 * s,
            1 <= v0,
    {
        assert(v0 * (s * q) <= v0 * n <= v0 * (s * q + s)) by (nonlinear_arith)
            requires
                s * q <= n < s * q + s,
                1 <= v0,
        ;
        assert(v0 * (s * q) == (v0 * s) * q && v0 * (s * q + s) == (v0 * s) * q + v0 * s) by (nonlinear_arith);
    }
}

/// The reduced coefficients are those of the cubic up to rounding, in units of what they were divided by.
proof fn lemma_reduced(
    ann: int,
    gamma: int,
    d: int,
    x_j: int,
    x_k: int,
    raw: Cubic<int>,
    dv: int,
    q: Cubic<int>,
) -> (v: int)
    requires
        well_scaled(ann, gamma, d, x_j, x_k),
        cubic_3(ann, gamma, d, x_j, x_k) == Ok::<Cubic<int>, Fault>(raw),
        divider_3(raw) == Ok::<int, Fault>(dv),
        reduced_3(raw, dv) == Ok::<Cubic<int>, Fault>(q),
    ensures
        1 <= v,
        7_000_000_000_000_000 * v <= size_of(ann, gamma, d, x_j, x_k),
        coefficients(
            ann,
            gamma,
            d,
            x_j,
            x_k,
            rounding_of(ann, gamma, d, x_j, x_k) + v,
            v * q.a,
            v * q.b,
            v * q.c,
            v * q.d,
        ),
        1 <= q.a <= 200_000_000_000_000_000_000_000_000_000_000_000,
        1 <= q.b <= 200_000_000_000_000_000_000_000_000_000_000_000,
        1 <= q.c <= 200_000_000_000_000_000_000_000_000_000_000_000,
        1 <= q.d <= 200_000_000_000_000_000_000_000_000_000_000_000,
{
    let w = WAD as int;
    lemma_coefficients(ann, gamma, d, x_j, x_k, raw);
    lemma_rounding(ann, gamma, d, x_j, x_k);
    let er = rounding_of(ann, gamma, d, x_j, x_k);
    lemma_shape(ann, gamma, d, x_j, x_k, er);
    let z = scale_of(d, x_j, x_k);
    let g = gamma * gamma * ann;
    let big = size_of(ann, gamma, d, x_j, x_k);
    let om = z * (w * w);
    let e1 = z * (w * gamma);
    let e2 = z * (gamma * gamma);
    let u1 = g * (d * d * d);
    let u2 = 27 * ((x_j * x_k) * (g * (x_j + x_k - d)));
    let v0 = 27 * z;
    let a = raw.a;
    let b = raw.b;
    let c = raw.c;
    assert(z * 1_000_000_000_000_000_000_000_000_000_000 <= z * g) by (nonlinear_arith)
        requires
            1_000_000_000_000_000_000_000_000_000_000 <= g,
            1 <= z,
    ;
    // the size of delta0
    let ac = a * c;
    let big2 = 40_000_000_000_000_000_000_000_000_000_000_000_000_000_000_000_000_000_000_000_000_000_000_000int;
    assert(0 <= ac <= big2) by (nonlinear_arith)
        requires
            ac == a * c,
            1 <= a <= 200_000_000_000_000_000_000_000_000_000_000_000,
            1 <= c <= 200_000_000_000_000_000_000_000_000_000_000_000,
            big2 == 40_000_000_000_000_000_000_000_000_000_000_000_000_000_000_000_000_000_000_000_000_000_000_000int,
    ;
    lemma_wrap(3 * a);
    assert((3 * a) * c == 3 * ac) by (nonlinear_arith)
        requires
            ac == a * c,
    ;
    lemma_wrap(3 * ac);
    lemma_trunc(3 * ac, b);
    let p0 = (3 * ac) / b;
    let t0 = p0 - b;
    let bb = b * b;
    assert(b * t0 <= 3 * ac - bb < b * t0 + b) by (nonlinear_arith)
        requires
            p0 * b <= 3 * ac < p0 * b + b,
            t0 == p0 - b,
            bb == b * b,
    ;
    let v2 = v0 * v0;
    let va = v0 * a;
    let vb = v0 * b;
    let vc = v0 * c;
    assert(va * vc == v2 * ac && vb * vb == v2 * bb && vb * (v0 * t0) == v2 * (b * t0) && vb * v0 == v2 * b)
        by (nonlinear_arith)
        requires
            va == v0 * a,
            vb == v0 * b,
            vc == v0 * c,
            v2 == v0 * v0,
            ac == a * c,
            bb == b * b,
    ;
    let l0 = 3 * ac - bb;
    assert(v2 >= 1) by (nonlinear_arith)
        requires
            v2 == v0 * v0,
            v0 >= 1,
    ;
    assert(v2 * (b * t0) <= v2 * l0 < v2 * (b * t0 + b)) by (nonlinear_arith)
        requires
            v2 >= 1,
            b * t0 <= l0 < b * t0 + b,
    ;
    assert(v2 * (b * t0 + b) == v2 * (b * t0) + v2 * b && v2 * l0 == 3 * (v2 * ac) - v2 * bb) by (nonlinear_arith)
        requires
            l0 == 3 * ac - bb,
    ;
    lemma_delta0(om, e1, e2, u1, u2, big, er, v0, va, vb, vc, v0 * raw.d, v0 * t0);
    let zt = z * t0;
    assert(v0 * t0 == 27 * zt) by (nonlinear_arith)
        requires
            v0 == 27 * z,
            zt == z * t0,
    ;
    assert(100_000_000_000_000_000_000 < t0) by (nonlinear_arith)
        requires
            z * 1_000_000_000_000_000_000_000 <= z * t0,
            1 <= z,
    ;
    lemma_ladder(t0);
    assert(dv == ladder_3(t0));
    // the quotient of the first two
    assert(a <= b) by (nonlinear_arith)
        requires
            v0 * a <= v0 * b,
            1 <= v0,
    ;
    assert(b <= 4 * a) by (nonlinear_arith)
        requires
            v0 * b <= 4 * (v0 * a),
            1 <= v0,
    ;
    lemma_trunc(b, a);
    let down = b / a;
    assert(1 <= down <= 4) by (nonlinear_arith)
        requires
            down * a <= b < down * a + a,
            a <= b <= 4 * a,
            1 <= a,
    ;
    let s = down * dv;
    let v = v0 * s;
    assert(1 <= s <= 4 * dv) by (nonlinear_arith)
        requires
            s == down * dv,
            1 <= down <= 4,
            1 <= dv,
    ;
    assert(1 <= v && v <= v0 * (4 * dv)) by (nonlinear_arith)
        requires
            v == v0 * s,
            1 <= s <= 4 * dv,
            1 <= v0,
    ;
    assert(v0 * (4 * dv) == 4 * (v0 * dv)) by (nonlinear_arith);
    assert(1_000_000_000_000_000_000 * (v0 * dv) <= v0 * t0) by (nonlinear_arith)
        requires
            1_000_000_000_000_000_000 * dv <= t0,
            1 <= v0,
    ;
    lemma_reduced_one(v0, a, down, dv);
    lemma_reduced_one(v0, b, down, dv);
    lemma_reduced_one(v0, c, down, dv);
    lemma_reduced_one(v0, raw.d, down, dv);
    assert(q.a == trunc_div(trunc_div(a, down), dv));
    assert(q.b == trunc_div(trunc_div(b, down), dv));
    assert(q.c == trunc_div(trunc_div(c, down), dv));
    assert(q.d == trunc_div(trunc_div(raw.d, down), dv));
    lemma_at_least_one(v, q.a);
    lemma_at_least_one(v, q.b);
    lemma_at_least_one(v, q.c);
    lemma_at_least_one(v, q.d);
    v
}

/// A factor of a positive product is positive.
proof fn lemma_at_least_one(v: int, q: int)
    requires
        1 <= v,
        1 <= v * q,
    ensures
        1 <= q,
{
    assert(1 <= q) by (nonlinear_arith)
        requires
            1 <= v,
            1 <= v * q,
    ;
}

/// The cubic in two numbers whose quotient is the root.
pub open spec fn cubic_at(om: int, e1: int, e2: int, u1: int, u2: int, x: int, y: int) -> int {
    om * (x * x * x) - (3 * om + 2 * e1 - u1) * (x * x * y) + (3 * om + 4 * e1 + e2 + u2) * (x * y * y) - (om + 2 * e1
        + e2) * (y * y * y)
}

/// The cubic is small at the root that was calculated.
proof fn lemma_small_at_root(
    q: Cubic<int>,
    v: int,
    om: int,
    e1: int,
    e2: int,
    u1: int,
    u2: int,
    big: int,
    er: int,
    root: int,
)
    requires
        near(om, e1, e2, u1, u2, big, er, v * q.a, v * q.b, v * q.c, v * q.d),
        1 <= v,
        1 <= big,
        1_000_000 <= q.a,
        1 <= q.b,
        29 * om <= 10 * (v * q.b) <= 31 * om,
        27_000_000_000_000 * (v * magnitude(remainder(q.a, q.b, q.c, q.d, root))) <= q.b * q.b * (260 * big),
        10 * magnitude(3 * root - q.b) <= 7 * q.b + 20,
    ensures
        1_000_000_000 * magnitude(cubic_at(om, e1, e2, u1, u2, root, q.a)) <= big * (q.a * q.a * q.a),
        q.a <= 4 * root <= 8 * q.a,
{
    let a = q.a;
    let b = q.b;
    let c = q.c;
    let d = q.d;
    assert(10 * b <= 32 * a && 28 * a <= 10 * b) by {
        assert(10 * (v * b) <= 32 * (v * a));
        assert(28 * (v * a) <= 10 * (v * b));
        assert(10 * b <= 32 * a && 28 * a <= 10 * b) by (nonlinear_arith)
            requires
                10 * (v * b) <= 32 * (v * a),
                28 * (v * a) <= 10 * (v * b),
                1 <= v,
        ;
    }
    assert(a <= 4 * root <= 8 * a);
    let a2 = a * a;
    let a3 = a * a * a;
    let k3 = root * root * root;
    let k2 = root * root * a;
    let k1 = root * a * a;
    assert(0 <= k3 <= 8 * a3 && 0 <= k2 <= 4 * a3 && 0 <= k1 <= 2 * a3 && 0 <= a3) by {
        let r2 = root * root;
        assert(0 <= r2 <= 4 * a2) by (nonlinear_arith)
            requires
                r2 == root * root,
                0 <= root <= 2 * a,
                a2 == a * a,
        ;
        assert(0 <= r2 * root <= (4 * a2) * (2 * a)) by (nonlinear_arith)
            requires
                0 <= r2 <= 4 * a2,
                0 <= root <= 2 * a,
        ;
        assert((4 * a2) * (2 * a) == 8 * (a2 * a)) by (nonlinear_arith);
        assert(0 <= r2 * a <= 4 * (a2 * a)) by (nonlinear_arith)
            requires
                0 <= r2 <= 4 * a2,
                1 <= a,
        ;
        assert(0 <= root * a <= 2 * a2) by (nonlinear_arith)
            requires
                0 <= root <= 2 * a,
                1 <= a,
                a2 == a * a,
        ;
        let ra = root * a;
        assert(0 <= ra * a <= 2 * (a2 * a)) by (nonlinear_arith)
            requires
                0 <= ra <= 2 * a2,
                1 <= a,
        ;
        assert(0 <= a2 * a) by (nonlinear_arith)
            requires
                1 <= a,
                a2 == a * a,
        ;
    }
    let be = 3 * om + 2 * e1 - u1;
    let ga = 3 * om + 4 * e1 + e2 + u2;
    let de = om + 2 * e1 + e2;
    let va = v * a;
    let vb = v * b;
    let vc = v * c;
    let vd = v * d;
    let rem = remainder(a, b, c, d, root);
    // with the calculated coefficients
    assert(va * k3 - vb * k2 + vc * k1 - vd * a3 == v * (a * rem)) by {
        assert(va * k3 == v * (a * k3) && vb * k2 == v * (b * k2) && vc * k1 == v * (c * k1) && vd * a3 == v * (d * a3))
            by (nonlinear_arith)
            requires
                va == v * a,
                vb == v * b,
                vc == v * c,
                vd == v * d,
        ;
        let r2 = root * root;
        let ac = a * c;
        let aad = a * a * d;
        assert(a * rem == a * k3 - a * (b * r2) + a * (ac * root) - a * aad) by (nonlinear_arith)
            requires
                rem == k3 - b * r2 + ac * root - aad,
        ;
        assert(a * (b * r2) == b * k2) by (nonlinear_arith)
            requires
                k2 == r2 * a,
        ;
        assert(a * (ac * root) == c * k1) by (nonlinear_arith)
            requires
                ac == a * c,
                k1 == root * a * a,
        ;
        assert(a * aad == d * a3) by (nonlinear_arith)
            requires
                aad == a * a * d,
                a3 == a * a * a,
        ;
        let f3 = a * k3;
        let f2 = b * k2;
        let f1 = c * k1;
        let f0 = d * a3;
        assert(v * (f3 - f2 + f1 - f0) == v * f3 - v * f2 + v * f1 - v * f0) by (nonlinear_arith);
    }
    // what the rounding of the coefficients adds
    lemma_size_product(om - va, k3, er, 8 * a3);
    lemma_size_product(be - vb, k2, er, 4 * a3);
    lemma_size_product(ga - vc, k1, er, 2 * a3);
    lemma_size_product(de - vd, a3, er, a3);
    assert((om - va) * k3 == om * k3 - va * k3 && (be - vb) * k2 == be * k2 - vb * k2 && (ga - vc) * k1 == ga * k1 - vc
        * k1 && (de - vd) * a3 == de * a3 - vd * a3) by (nonlinear_arith);
    let ea = er * a3;
    assert(er * (8 * a3) == 8 * ea && er * (4 * a3) == 4 * ea && er * (2 * a3) == 2 * ea) by (nonlinear_arith)
        requires
            ea == er * a3,
    ;
    let whole = cubic_at(om, e1, e2, u1, u2, root, a);
    let main = v * (a * rem);
    assert(magnitude(whole - main) <= 15 * ea);
    let ba = big * a3;
    assert(1_000_000_000_000 * ea <= ba) by (nonlinear_arith)
        requires
            ea == er * a3,
            ba == big * a3,
            1_000_000_000_000 * er <= big,
            0 <= a3,
    ;
    // the main part
    let sr = magnitude(rem);
    let vr = v * sr;
    assert(magnitude(main) == a * vr) by (nonlinear_arith)
        requires
            main == v * (a * rem),
            vr == v * sr,
            1 <= v,
            1 <= a,
            (rem >= 0 && sr == rem) || (rem < 0 && sr == -rem),
            (main >= 0 && magnitude(main) == main) || (main < 0 && magnitude(main) == -main),
    {
        assert(v * (a * rem) == a * (v * rem)) by (nonlinear_arith);
        if rem >= 0 {
            assert(0 <= a * (v * rem)) by (nonlinear_arith)
                requires
                    1 <= a,
                    1 <= v,
                    rem >= 0,
            ;
        } else {
            let n = -rem;
            assert(0 < a * (v * n)) by (nonlinear_arith)
                requires
                    1 <= a,
                    1 <= v,
                    n > 0,
            ;
            assert(a * (v * n) == -(a * (v * rem))) by (nonlinear_arith)
                requires
                    n == -rem,
            ;
        }
    }
    let bb = b * b;
    assert(100 * bb <= 1_024 * a2) by (nonlinear_arith)
        requires
            bb == b * b,
            a2 == a * a,
            0 <= 10 * b <= 32 * a,
    {
        let g = 10 * b;
        let h = 32 * a;
        assert(g * g <= h * h) by (nonlinear_arith)
            requires
                0 <= g <= h,
        ;
        assert(g * g == 100 * (b * b) && h * h == 1_024 * (a * a)) by (nonlinear_arith)
            requires
                g == 10 * b,
                h == 32 * a,
        ;
    }
    let lim = bb * (260 * big);
    assert(100 * (a * lim) <= 266_240 * ba) by (nonlinear_arith)
        requires
            lim == bb * (260 * big),
            100 * bb <= 1_024 * a2,
            a3 == a2 * a,
            ba == big * a3,
            1 <= a,
            1 <= big,
    {
        let ab = a * big;
        assert(a * (bb * (260 * big)) == 260 * (bb * ab)) by (nonlinear_arith)
            requires
                ab == a * big,
        ;
        assert(1 <= ab) by (nonlinear_arith)
            requires
                ab == a * big,
                1 <= a,
                1 <= big,
        ;
        assert((100 * bb) * ab <= (1_024 * a2) * ab) by (nonlinear_arith)
            requires
                100 * bb <= 1_024 * a2,
                1 <= ab,
        ;
        assert((100 * bb) * ab == 100 * (bb * ab) && (1_024 * a2) * ab == 1_024 * (a2 * ab)) by (nonlinear_arith);
        assert(a2 * ab == big * (a2 * a)) by (nonlinear_arith)
            requires
                ab == a * big,
        ;
    }
    assert(27_000_000_000_000 * (a * vr) <= a * lim) by (nonlinear_arith)
        requires
            27_000_000_000_000 * vr <= lim,
            1 <= a,
    ;
    assert(0 <= ba) by (nonlinear_arith)
        requires
            ba == big * a3,
            0 <= big,
            0 <= a3,
    ;
}

/// The cubic at a quotient close to another one.
proof fn lemma_shift(
    om: int,
    e1: int,
    e2: int,
    u1: int,
    u2: int,
    big: int,
    root: int,
    a: int,
    n: int,
    d: int,
)
    requires
        1 <= om,
        0 <= e1 && 100 * e1 <= om,
        0 <= e2 && 100 * e2 <= om,
        0 <= u1 && 10 * u1 <= om,
        magnitude(u2) <= om,
        1 <= a,
        0 <= root <= 2 * a,
        0 <= n,
        1 <= d,
        0 <= root * (d * d * d) - a * n <= 189 * (a * (d * d)),
        1 <= big,
        10_000_000_000_000 * om <= big * d,
        1_000_000_000 * magnitude(cubic_at(om, e1, e2, u1, u2, root, a)) <= big * (a * a * a),
    ensures
        500_000_000 * magnitude(cubic_at(om, e1, e2, u1, u2, n, d * d * d)) <= big * ((d * d * d) * (d * d * d) * (d * d * d)),
{
    let m = d * d * d;
    let d2 = d * d;
    let be = 3 * om + 2 * e1 - u1;
    let ga = 3 * om + 4 * e1 + e2 + u2;
    let de = om + 2 * e1 + e2;
    let x = a * n;
    let y = root * m;
    let q = a * m;
    assert(m == d2 * d);
    assert(1 <= d2 && 1 <= m) by (nonlinear_arith)
        requires
            d2 == d * d,
            m == d2 * d,
            1 <= d,
    ;
    assert(0 <= x && 0 <= y <= 2 * q && 1 <= q) by (nonlinear_arith)
        requires
            x == a * n,
            y == root * m,
            q == a * m,
            0 <= n,
            0 <= root <= 2 * a,
            1 <= a,
            1 <= m,
    ;
    lemma_homogeneous(om, be, ga, de, n, m, a);
    lemma_homogeneous(om, be, ga, de, root, a, m);
    assert(m * a == q && m * root == y) by (nonlinear_arith)
        requires
            q == a * m,
            y == root * m,
    ;
    let px = om * (x * x * x) - be * (x * x * q) + ga * (x * q * q) - de * (q * q * q);
    let py = om * (y * y * y) - be * (y * y * q) + ga * (y * q * q) - de * (q * q * q);
    let gap = y - x;
    let f = om * (x * x + x * y + y * y) - be * ((x + y) * q) + ga * (q * q);
    assert(py - px == gap * f) by {
        assert(y * y * y - x * x * x == gap * (x * x + x * y + y * y)) by (nonlinear_arith)
            requires
                gap == y - x,
        ;
        assert(y * y * q - x * x * q == gap * ((x + y) * q)) by (nonlinear_arith)
            requires
                gap == y - x,
        ;
        assert(y * q * q - x * q * q == gap * (q * q)) by (nonlinear_arith)
            requires
                gap == y - x,
        ;
        let f3 = x * x + x * y + y * y;
        let f2 = (x + y) * q;
        let f1 = q * q;
        assert(om * (y * y * y) - om * (x * x * x) == om * (gap * f3)) by (nonlinear_arith)
            requires
                y * y * y - x * x * x == gap * f3,
        ;
        assert(be * (y * y * q) - be * (x * x * q) == be * (gap * f2)) by (nonlinear_arith)
            requires
                y * y * q - x * x * q == gap * f2,
        ;
        assert(ga * (y * q * q) - ga * (x * q * q) == ga * (gap * f1)) by (nonlinear_arith)
            requires
                y * q * q - x * q * q == gap * f1,
        ;
        let g3 = om * f3;
        let g2 = be * f2;
        let g1 = ga * f1;
        assert(gap * (g3 - g2 + g1) == gap * g3 - gap * g2 + gap * g1) by (nonlinear_arith);
        assert(gap * (om * f3) == om * (gap * f3)) by (nonlinear_arith);
        assert(gap * (be * f2) == be * (gap * f2)) by (nonlinear_arith);
        assert(gap * (ga * f1) == ga * (gap * f1)) by (nonlinear_arith);
    }
    // the size of f
    let q2 = q * q;
    let f3 = x * x + x * y + y * y;
    let f2 = (x + y) * q;
    assert(0 <= f3 <= 12 * q2 && 0 <= f2 <= 4 * q2) by (nonlinear_arith)
        requires
            f3 == x * x + x * y + y * y,
            f2 == (x + y) * q,
            0 <= x <= 2 * q,
            0 <= y <= 2 * q,
            q2 == q * q,
            1 <= q,
    {
        assert(0 <= x * x <= 4 * (q * q) && 0 <= x * y <= 4 * (q * q) && 0 <= y * y <= 4 * (q * q)) by (nonlinear_arith)
            requires
                0 <= x <= 2 * q,
                0 <= y <= 2 * q,
        ;
        assert(0 <= (x + y) * q <= (4 * q) * q) by (nonlinear_arith)
            requires
                0 <= x + y <= 4 * q,
                1 <= q,
        ;
        assert((4 * q) * q == 4 * (q * q)) by (nonlinear_arith);
    }
    lemma_size_product(om, f3, om, 12 * q2);
    lemma_size_product(be, f2, 4 * om, 4 * q2);
    lemma_size_product(ga, q2, 5 * om, q2);
    let oq = om * q2;
    assert(om * (12 * q2) == 12 * oq && (4 * om) * (4 * q2) == 16 * oq && (5 * om) * q2 == 5 * oq) by (nonlinear_arith)
        requires
            oq == om * q2,
    ;
    assert(0 <= q2) by (nonlinear_arith)
        requires
            q2 == q * q,
    ;
    assert(magnitude(f) <= 33 * oq);
    let lim = 189 * (a * d2);
    lemma_size_product(gap, f, lim, 33 * oq);
    // in units of big
    let q3 = q2 * q;
    let lhs = lim * (33 * oq);
    assert(q == (a * d2) * d) by (nonlinear_arith)
        requires
            q == a * m,
            m == d2 * d,
    ;
    let bq = big * q3;
    assert(10_000_000_000_000 * lhs <= 6_237 * bq) by (nonlinear_arith)
        requires
            lhs == lim * (33 * oq),
            lim == 189 * (a * d2),
            oq == om * q2,
            q == (a * d2) * d,
            q3 == q2 * q,
            bq == big * q3,
            10_000_000_000_000 * om <= big * d,
            1 <= a,
            1 <= d2,
            0 <= q2,
    {
        let k = a * d2;
        assert(1 <= k) by (nonlinear_arith)
            requires
                k == a * d2,
                1 <= a,
                1 <= d2,
        ;
        let kq = k * q2;
        assert(0 <= kq) by (nonlinear_arith)
            requires
                kq == k * q2,
                1 <= k,
                0 <= q2,
        ;
        assert((189 * k) * (33 * (om * q2)) == 6_237 * (om * (k * q2))) by (nonlinear_arith);
        assert((10_000_000_000_000 * om) * kq <= (big * d) * kq) by (nonlinear_arith)
            requires
                10_000_000_000_000 * om <= big * d,
                0 <= kq,
        ;
        assert((big * d) * (k * q2) == big * (q2 * (k * d))) by (nonlinear_arith);
        assert((10_000_000_000_000 * om) * kq == 10_000_000_000_000 * (om * kq)) by (nonlinear_arith);
    }
    // the value at root and a
    let a3 = a * a * a;
    let m3 = m * m * m;
    let at = cubic_at(om, e1, e2, u1, u2, root, a);
    assert(py == m3 * at);
    let an = cubic_at(om, e1, e2, u1, u2, n, m);
    assert(px == a3 * an);
    assert(q3 == m3 * a3) by (nonlinear_arith)
        requires
            q3 == q2 * q,
            q2 == q * q,
            q == a * m,
            m3 == m * m * m,
            a3 == a * a * a,
    {
        assert((a * m) * (a * m) * (a * m) == (m * m * m) * (a * a * a)) by (nonlinear_arith);
    }
    assert(1 <= m3 && 1 <= a3) by (nonlinear_arith)
        requires
            m3 == m * m * m,
            a3 == a * a * a,
            1 <= m,
            1 <= a,
    {
        assert(1 <= m * m && 1 <= a * a) by (nonlinear_arith)
            requires
                1 <= m,
                1 <= a,
        ;
        assert(1 <= (m * m) * m && 1 <= (a * a) * a) by (nonlinear_arith)
            requires
                1 <= m,
                1 <= a,
                1 <= m * m,
                1 <= a * a,
        ;
    }
    let sat = magnitude(at);
    lemma_size_product(m3, at, m3, sat);
    assert(1_000_000_000 * (m3 * sat) <= bq) by (nonlinear_arith)
        requires
            1_000_000_000 * sat <= big * a3,
            bq == big * q3,
            q3 == m3 * a3,
            1 <= m3,
    {
        assert(m3 * (1_000_000_000 * sat) <= m3 * (big * a3)) by (nonlinear_arith)
            requires
                1_000_000_000 * sat <= big * a3,
                1 <= m3,
        ;
        assert(m3 * (big * a3) == big * (m3 * a3) && m3 * (1_000_000_000 * sat) == 1_000_000_000 * (m3 * sat))
            by (nonlinear_arith);
    }
    assert(0 <= bq) by (nonlinear_arith)
        requires
            bq == big * q3,
            q3 == m3 * a3,
            1 <= m3,
            1 <= a3,
            1 <= big,
    {
        assert(0 <= m3 * a3) by (nonlinear_arith)
            requires
                1 <= m3,
                1 <= a3,
        ;
    }
    assert(500_000_000 * magnitude(px) <= bq);
    let san = magnitude(an);
    assert(magnitude(px) == a3 * san) by (nonlinear_arith)
        requires
            px == a3 * an,
            1 <= a3,
            (an >= 0 && san == an) || (an < 0 && san == -an),
            (px >= 0 && magnitude(px) == px) || (px < 0 && magnitude(px) == -px),
    ;
    let bm = big * m3;
    assert(bq == a3 * bm) by (nonlinear_arith)
        requires
            bq == big * q3,
            q3 == m3 * a3,
            bm == big * m3,
    ;
    assert(500_000_000 * san <= bm) by (nonlinear_arith)
        requires
            500_000_000 * (a3 * san) <= a3 * bm,
            1 <= a3,
    ;
}

/// A cubic in two numbers, both times a third.
proof fn lemma_homogeneous(om: int, be: int, ga: int, de: int, x: int, y: int, k: int)
    ensures
        om * ((k * x) * (k * x) * (k * x)) - be * ((k * x) * (k * x) * (k * y)) + ga * ((k * x) * (k * y) * (k * y)) - de
            * ((k * y) * (k * y) * (k * y)) == (k * k * k) * (om * (x * x * x) - be * (x * x * y) + ga * (x * y * y) - de
            * (y * y * y)),
{
    let k3 = k * k * k;
    let x3 = x * x * x;
    let x2 = x * x * y;
    let x1 = x * y * y;
    let x0 = y * y * y;
    assert((k * x) * (k * x) * (k * x) == k3 * x3) by (nonlinear_arith)
        requires
            k3 == k * k * k,
            x3 == x * x * x,
    ;
    assert((k * x) * (k * x) * (k * y) == k3 * x2) by (nonlinear_arith)
        requires
            k3 == k * k * k,
            x2 == x * x * y,
    ;
    assert((k * x) * (k * y) * (k * y) == k3 * x1) by (nonlinear_arith)
        requires
            k3 == k * k * k,
            x1 == x * y * y,
    ;
    assert((k * y) * (k * y) * (k * y) == k3 * x0) by (nonlinear_arith)
        requires
            k3 == k * k * k,
            x0 == y * y * y,
    ;
    assert(om * (k3 * x3) == k3 * (om * x3) && be * (k3 * x2) == k3 * (be * x2) && ga * (k3 * x1) == k3 * (ga * x1) && de
        * (k3 * x0) == k3 * (de * x0)) by (nonlinear_arith);
    let f3 = om * x3;
    let f2 = be * x2;
    let f1 = ga * x1;
    let f0 = de * x0;
    assert(k3 * (f3 - f2 + f1 - f0) == k3 * f3 - k3 * f2 + k3 * f1 - k3 * f0) by (nonlinear_arith);
}

/// Whether a solved balance is within the bounds of the invariant.
pub open spec fn acceptable_3(d: int, y: int) -> bool {
    9_999_999_999_999_999 <= (y * WAD) / d < 100_000_000_000_000_000_001
}

/// The second of two balances is not small where their product is not.
proof fn lemma_not_small(d: int, x_j: int, x_k: int)
    requires
        1 <= d,
        1 <= x_j <= 2 * d,
        1 <= x_k,
        d * d <= 400 * (x_j * x_k),
    ensures
        d <= 800 * x_k,
{
    assert(x_j * x_k <= (2 * d) * x_k) by (nonlinear_arith)
        requires
            x_j <= 2 * d,
            1 <= x_k,
    ;
    assert((2 * d) * x_k == 2 * (d * x_k)) by (nonlinear_arith);
    assert(d * d <= d * (800 * x_k)) by (nonlinear_arith)
        requires
            d * d <= 800 * (d * x_k),
    ;
    assert(d <= 800 * x_k) by (nonlinear_arith)
        requires
            d * d <= d * (800 * x_k),
            1 <= d,
    ;
}

/// The balance that belongs to a root, against the root itself.
proof fn lemma_balance(d: int, x_j: int, x_k: int, root: int, a: int) -> (y: int)
    requires
        1 <= x_j,
        1 <= x_k,
        x_j + x_k <= 2 * d,
        d <= 1_000_000_000_000_000_000_000_000_000_000_000,
        d * d <= 400 * (x_j * x_k),
        1 <= a <= 200_000_000_000_000_000_000_000_000_000_000_000,
        0 <= root <= 2 * a,
    ensures
        0 <= y,
        settled_3(d, x_j, x_k, root, a) == (if acceptable_3(d, y) {
            Ok::<Option<(int, int)>, Fault>(Some((y, (WAD * root) / a)))
        } else {
            Ok(None)
        }),
        0 <= root * (d * d * d) - a * (27 * ((x_j * x_k) * y)) <= 189 * (a * (d * d)),
{
    let dd = d * d;
    assert(0 <= dd <= 1_000_000_000_000_000_000_000_000_000_000_000_000_000_000_000_000_000_000_000_000_000_000)
        by (nonlinear_arith)
        requires
            dd == d * d,
            0 <= d <= 1_000_000_000_000_000_000_000_000_000_000_000,
    ;
    lemma_wrap(dd);
    lemma_trunc(dd, 27);
    lemma_trunc(dd / 27, x_k);
    lemma_twice(dd, 27, x_k);
    let n2 = (dd / 27) / x_k;
    let first = n2 * d;
    assert(0 <= first) by (nonlinear_arith)
        requires
            first == n2 * d,
            n2 >= 0,
            d >= 0,
    ;
    lemma_trunc(first, x_j);
    let n3 = first / x_j;
    let second = n3 * root;
    assert(0 <= second) by (nonlinear_arith)
        requires
            second == n3 * root,
            n3 >= 0,
            root >= 0,
    ;
    lemma_trunc(second, a);
    let y = second / a;
    let p = x_j * x_k;
    let m = dd * d;
    // 27 * p * n3 against the cube of d
    let kk = 27 * x_k;
    let kf = kk * first;
    assert(kf <= m && m <= kf + kk * d) by (nonlinear_arith)
        requires
            kk * n2 <= dd < kk * n2 + kk,
            first == n2 * d,
            kf == kk * first,
            m == dd * d,
            1 <= d,
    {
        assert((kk * n2) * d <= dd * d && dd * d <= (kk * n2 + kk) * d) by (nonlinear_arith)
            requires
                kk * n2 <= dd < kk * n2 + kk,
                1 <= d,
        ;
        assert((kk * n2) * d == kk * (n2 * d) && (kk * n2 + kk) * d == kk * (n2 * d) + kk * d) by (nonlinear_arith);
    }
    let pn = 27 * (p * n3);
    assert(pn <= kf && kf <= pn + 27 * p) by (nonlinear_arith)
        requires
            n3 * x_j <= first < n3 * x_j + x_j,
            kf == kk * first,
            kk == 27 * x_k,
            p == x_j * x_k,
            pn == 27 * (p * n3),
            1 <= x_k,
    {
        let nj = n3 * x_j;
        assert(kk * nj <= kk * first && kk * first <= kk * (nj + x_j)) by (nonlinear_arith)
            requires
                nj <= first < nj + x_j,
                1 <= kk,
        ;
        assert((27 * x_k) * (n3 * x_j) == 27 * ((x_j * x_k) * n3)) by (nonlinear_arith);
        assert((27 * x_k) * (nj + x_j) == (27 * x_k) * nj + 27 * (x_j * x_k)) by (nonlinear_arith);
    }
    assert(0 <= p <= dd && kk * d <= 54 * dd) by {
        let s = x_j + x_k;
        let h = x_j - x_k;
        assert(s * s == h * h + 4 * p && 0 <= h * h) by (nonlinear_arith)
            requires
                s == x_j + x_k,
                h == x_j - x_k,
                p == x_j * x_k,
        ;
        assert(s * s <= 4 * dd) by (nonlinear_arith)
            requires
                0 <= s <= 2 * d,
                dd == d * d,
        ;
        assert(0 <= p) by (nonlinear_arith)
            requires
                p == x_j * x_k,
                1 <= x_j,
                1 <= x_k,
        ;
        assert(kk * d <= 54 * dd) by (nonlinear_arith)
            requires
                kk <= 54 * d,
                1 <= d,
                dd == d * d,
        ;
    }
    assert(m - 81 * dd <= pn <= m);
    // times the root
    let rp = root * pn;
    let rm = root * m;
    let ad = a * dd;
    assert(rp <= rm && rm <= rp + 162 * ad) by (nonlinear_arith)
        requires
            m - 81 * dd <= pn <= m,
            rp == root * pn,
            rm == root * m,
            ad == a * dd,
            0 <= root <= 2 * a,
            0 <= dd,
    {
        assert(root * (m - 81 * dd) <= root * pn && root * pn <= root * m) by (nonlinear_arith)
            requires
                m - 81 * dd <= pn <= m,
                0 <= root,
        ;
        assert(root * (m - 81 * dd) == root * m - 81 * (root * dd)) by (nonlinear_arith);
        assert(root * dd <= 2 * (a * dd)) by (nonlinear_arith)
            requires
                root <= 2 * a,
                0 <= dd,
        ;
    }
    let py = 27 * (p * y);
    let ay = a * py;
    assert(ay <= rp && rp <= ay + 27 * (p * a)) by (nonlinear_arith)
        requires
            y * a <= second < y * a + a,
            second == n3 * root,
            pn == 27 * (p * n3),
            rp == root * pn,
            py == 27 * (p * y),
            ay == a * py,
            0 <= p,
    {
        let ya = y * a;
        assert(p * ya <= p * second && p * second <= p * (ya + a)) by (nonlinear_arith)
            requires
                ya <= second < ya + a,
                0 <= p,
        ;
        assert(p * (ya + a) == p * ya + p * a) by (nonlinear_arith);
        assert(root * (27 * (p * n3)) == 27 * (p * (n3 * root))) by (nonlinear_arith);
        assert(a * (27 * (p * y)) == 27 * (p * (y * a))) by (nonlinear_arith);
    }
    assert(p * a <= ad) by (nonlinear_arith)
        requires
            ad == a * dd,
            p <= dd,
            1 <= a,
    ;
    // every part is a word
    assert(0 < p) by (nonlinear_arith)
        requires
            p == x_j * x_k,
            1 <= x_j,
            1 <= x_k,
    ;
    assert(d <= 800 * x_k) by {
        lemma_not_small(d, x_j, x_k);
    }
    assert(first <= 100 * dd) by {
        let xn = x_k * n2;
        assert(kk * n2 == 27 * xn) by (nonlinear_arith)
            requires
                kk == 27 * x_k,
                xn == x_k * n2,
        ;
        assert(d * n2 <= 800 * xn) by (nonlinear_arith)
            requires
                d <= 800 * x_k,
                xn == x_k * n2,
                n2 >= 0,
        ;
        assert(first == d * n2) by (nonlinear_arith)
            requires
                first == n2 * d,
        ;
    }
    assert(n3 <= 100 * d) by {
        let dn = dd * n3;
        assert(dn <= 400 * (p * n3)) by (nonlinear_arith)
            requires
                dn == dd * n3,
                dd <= 400 * p,
                n3 >= 0,
        ;
        assert(27 * dn <= 400 * m);
        if n3 > 100 * d {
            assert(dn > 100 * (dd * d)) by (nonlinear_arith)
                requires
                    dn == dd * n3,
                    n3 > 100 * d,
                    dd >= 1,
            ;
            assert(dd * d >= 0) by (nonlinear_arith)
                requires
                    dd >= 1,
                    d >= 1,
            ;
            assert(false);
        }
    }
    assert(second <= 50_000_000_000_000_000_000_000_000_000_000_000_000_000_000_000_000_000_000_000_000_000_000_000)
        by (nonlinear_arith)
        requires
            second == n3 * root,
            0 <= n3 <= 100_000_000_000_000_000_000_000_000_000_000_000,
            0 <= root <= 400_000_000_000_000_000_000_000_000_000_000_000,
    ;
    let w = WAD as int;
    let wr = w * root;
    assert(0 <= wr <= 400_000_000_000_000_000_000_000_000_000_000_000_000_000_000_000_000_000) by (nonlinear_arith)
        requires
            wr == w * root,
            w == 1_000_000_000_000_000_000,
            0 <= root <= 400_000_000_000_000_000_000_000_000_000_000_000,
    ;
    lemma_wrap(wr);
    lemma_trunc(wr, a);
    assert(y <= 1_000_000_000_000_000_000_000_000_000_000_000_000) by (nonlinear_arith)
        requires
            y * a <= n3 * root,
            0 <= n3 <= 100_000_000_000_000_000_000_000_000_000_000_000,
            0 <= root <= 2 * a,
            1 <= a,
    {
        if y > 1_000_000_000_000_000_000_000_000_000_000_000_000 {
            assert(y * a > 1_000_000_000_000_000_000_000_000_000_000_000_000 * a) by (nonlinear_arith)
                requires
                    y > 1_000_000_000_000_000_000_000_000_000_000_000_000,
                    1 <= a,
            ;
            assert(n3 * root <= 100_000_000_000_000_000_000_000_000_000_000_000 * (2 * a)) by (nonlinear_arith)
                requires
                    0 <= n3 <= 100_000_000_000_000_000_000_000_000_000_000_000,
                    0 <= root <= 2 * a,
            ;
        }
    }
    lemma_times(y, w);
    lemma_over(y * w, d);
    y
}

/// What is left of the invariant at a solved balance `y`, with the others `x_j` and `x_k`: the excess of
/// the sum over `d` against what the product of the balances asks for.
pub open spec fn settles(ann: int, gamma: int, d: int, x_j: int, x_k: int, y: int) -> bool {
    let w = WAD as int;
    let m = d * d * d;
    let n = 27 * ((x_j * x_k) * y);
    let g = (gamma * gamma * ann) * (m * m);
    let l = (w + gamma) * m - w * n;
    100_000_000 * magnitude(g * (n * (x_j + x_k + y - d)) - 10_000 * (d * ((m - n) * (l * l)))) <= g * (n * d)
}

/// The cubic at the products of the balances, as the invariant states it.
proof fn lemma_cubic_of_balances(ann: int, gamma: int, d: int, x_j: int, x_k: int, y: int)
    requires
        1 <= d,
        1 <= x_j * x_k,
        1 <= gamma * gamma * ann,
        ({
            let w = WAD as int;
            let z = scale_of(d, x_j, x_k);
            let g = gamma * gamma * ann;
            let m = d * d * d;
            let n = 27 * ((x_j * x_k) * y);
            &&& m <= 5 * n
            &&& 500_000_000 * magnitude(
                cubic_at(
                    z * (w * w),
                    z * (w * gamma),
                    z * (gamma * gamma),
                    g * (d * d * d),
                    27 * ((x_j * x_k) * (g * (x_j + x_k - d))),
                    n,
                    m,
                ),
            ) <= size_of(ann, gamma, d, x_j, x_k) * (m * m * m)
        }),
    ensures
        settles(ann, gamma, d, x_j, x_k, y),
{
    let w = WAD as int;
    let p = x_j * x_k;
    let g0 = gamma * gamma * ann;
    let m = d * d * d;
    let n = 27 * (p * y);
    let z = scale_of(d, x_j, x_k);
    let p27 = 27 * p;
    let om = z * (w * w);
    let e1 = z * (w * gamma);
    let e2 = z * (gamma * gamma);
    let s = x_j + x_k - d;
    let u1 = g0 * m;
    let u2 = 27 * (p * (g0 * s));
    let l = (w + gamma) * m - w * n;
    let mm = m * m;
    let g = g0 * mm;
    let at = cubic_at(om, e1, e2, u1, u2, n, m);
    let n3 = n * n * n;
    let n2 = n * n * m;
    let n1 = n * m * m;
    let n0 = m * m * m;
    // without the balances
    let h = (m - n) * (l * l);
    let ww = w * w;
    let wg = w * gamma;
    let gg = gamma * gamma;
    assert(h == -(ww * n3) + (3 * ww + 2 * wg) * n2 - (3 * ww + 4 * wg + gg) * n1 + (ww + 2 * wg + gg) * n0) by {
        let e = w + gamma;
        let em = e * m;
        let wn = w * n;
        assert(l * l == em * em - 2 * (em * wn) + wn * wn) by (nonlinear_arith)
            requires
                l == em - wn,
        ;
        assert((e * m) * (e * m) == (e * e) * (m * m)) by (nonlinear_arith);
        assert((e * m) * (w * n) == (e * w) * (m * n)) by (nonlinear_arith);
        assert((w * n) * (w * n) == (w * w) * (n * n)) by (nonlinear_arith);
        let ee = e * e;
        let ew = e * w;
        assert(ee == ww + 2 * wg + gg && ew == ww + wg) by (nonlinear_arith)
            requires
                ee == e * e,
                ew == e * w,
                e == w + gamma,
                ww == w * w,
                wg == w * gamma,
                gg == gamma * gamma,
        ;
        let f2 = m * m;
        let f1 = m * n;
        let f0 = n * n;
        assert(m * f2 == n0 && n * f2 == n1 && m * f1 == n1 && n * f1 == n2 && m * f0 == n2 && n * f0 == n3)
            by (nonlinear_arith)
            requires
                f2 == m * m,
                f1 == m * n,
                f0 == n * n,
                n3 == n * n * n,
                n2 == n * n * m,
                n1 == n * m * m,
                n0 == m * m * m,
        ;
        let ll = ee * f2 - 2 * (ew * f1) + ww * f0;
        assert(m * ll == ee * (m * f2) - 2 * (ew * (m * f1)) + ww * (m * f0)) by {
            lemma_three_terms(m, ee, ew, ww, f2, f1, f0);
        }
        assert(n * ll == ee * (n * f2) - 2 * (ew * (n * f1)) + ww * (n * f0)) by {
            lemma_three_terms(n, ee, ew, ww, f2, f1, f0);
        }
        assert((m - n) * ll == m * ll - n * ll) by (nonlinear_arith);
        assert(ee * n0 == (ww + 2 * wg + gg) * n0);
        assert(ee * n1 + 2 * (ew * n1) == (3 * ww + 4 * wg + gg) * n1) by (nonlinear_arith)
            requires
                ee == ww + 2 * wg + gg,
                ew == ww + wg,
        ;
        assert(ww * n2 + 2 * (ew * n2) == (3 * ww + 2 * wg) * n2) by (nonlinear_arith)
            requires
                ew == ww + wg,
        ;
    }
    // the whole cubic
    let zh = z * h;
    let part = u1 * n2 + u2 * n1;
    assert(at == part - zh) by {
        assert(om * n3 == z * (ww * n3)) by (nonlinear_arith)
            requires
                om == z * ww,
        ;
        let b0 = 3 * ww + 2 * wg;
        let c0 = 3 * ww + 4 * wg + gg;
        let d0 = ww + 2 * wg + gg;
        assert(3 * om + 2 * e1 == z * b0 && 3 * om + 4 * e1 + e2 == z * c0 && om + 2 * e1 + e2 == z * d0)
            by (nonlinear_arith)
            requires
                om == z * ww,
                e1 == z * wg,
                e2 == z * gg,
                b0 == 3 * ww + 2 * wg,
                c0 == 3 * ww + 4 * wg + gg,
                d0 == ww + 2 * wg + gg,
        ;
        let zb = z * b0;
        let zc = z * c0;
        assert((zb - u1) * n2 == zb * n2 - u1 * n2 && (zc + u2) * n1 == zc * n1 + u2 * n1) by (nonlinear_arith);
        assert(zb * n2 == z * (b0 * n2) && zc * n1 == z * (c0 * n1) && (z * d0) * n0 == z * (d0 * n0)) by (nonlinear_arith)
            requires
                zb == z * b0,
                zc == z * c0,
        ;
        let t3 = ww * n3;
        let t2 = b0 * n2;
        let t1 = c0 * n1;
        let t0 = d0 * n0;
        assert(z * (-t3 + t2 - t1 + t0) == -(z * t3) + z * t2 - z * t1 + z * t0) by (nonlinear_arith);
    }
    // the part that the balances make
    let ex = s + y;
    let gx = g * (n * ex);
    assert(part == p27 * gx) by {
        let gm = g0 * m;
        let nm = n * m;
        assert(u1 * n2 == gm * (n * nm)) by (nonlinear_arith)
            requires
                u1 == gm,
                n2 == n * n * m,
                nm == n * m,
        ;
        assert(n == p27 * y) by (nonlinear_arith)
            requires
                n == 27 * (p * y),
                p27 == 27 * p,
        ;
        let ny = n * y;
        assert(n * nm == p27 * (ny * m)) by (nonlinear_arith)
            requires
                n == p27 * y,
                nm == n * m,
                ny == n * y,
        {
            assert((p27 * y) * (n * m) == p27 * ((n * y) * m)) by (nonlinear_arith);
        }
        let nym = ny * m;
        assert(gm * (p27 * nym) == p27 * (gm * nym)) by (nonlinear_arith);
        assert((g0 * m) * (ny * m) == (g0 * (m * m)) * ny) by (nonlinear_arith);
        assert(u2 * n1 == p27 * (g * (n * s))) by (nonlinear_arith)
            requires
                u2 == 27 * (p * (g0 * s)),
                p27 == 27 * p,
                n1 == n * m * m,
                g == g0 * mm,
                mm == m * m,
        {
            assert((27 * (p * (g0 * s))) * (n * m * m) == (27 * p) * ((g0 * (m * m)) * (n * s))) by (nonlinear_arith);
        }
        let k1 = g * (n * y);
        let k2 = g * (n * s);
        assert(gx == k1 + k2) by (nonlinear_arith)
            requires
                gx == g * (n * ex),
                ex == s + y,
                k1 == g * (n * y),
                k2 == g * (n * s),
        ;
        assert(p27 * (k1 + k2) == p27 * k1 + p27 * k2) by (nonlinear_arith);
    }
    let dh = 10_000 * (d * h);
    assert(zh == p27 * dh) by (nonlinear_arith)
        requires
            zh == z * h,
            z == 270_000 * (d * p),
            p27 == 27 * p,
            dh == 10_000 * (d * h),
    {
        assert((270_000 * (d * p)) * h == (27 * p) * (10_000 * (d * h))) by (nonlinear_arith);
    }
    let off = gx - dh;
    assert(at == p27 * off) by (nonlinear_arith)
        requires
            at == p27 * gx - p27 * dh,
            off == gx - dh,
    ;
    let so = magnitude(off);
    assert(magnitude(at) == p27 * so) by (nonlinear_arith)
        requires
            at == p27 * off,
            1 <= p27,
            (off >= 0 && so == off) || (off < 0 && so == -off),
            (at >= 0 && magnitude(at) == at) || (at < 0 && magnitude(at) == -at),
    ;
    let gdm = g * (d * m);
    assert(size_of(ann, gamma, d, x_j, x_k) * n0 == p27 * gdm) by (nonlinear_arith)
        requires
            size_of(ann, gamma, d, x_j, x_k) == 27 * ((d * p) * g0),
            p27 == 27 * p,
            n0 == m * m * m,
            g == g0 * mm,
            mm == m * m,
            gdm == g * (d * m),
    {
        assert((27 * ((d * p) * g0)) * (m * m * m) == (27 * p) * ((g0 * (m * m)) * (d * m))) by (nonlinear_arith);
    }
    assert(500_000_000 * so <= gdm) by (nonlinear_arith)
        requires
            500_000_000 * (p27 * so) <= p27 * gdm,
            1 <= p27,
    ;
    assert(1 <= m) by (nonlinear_arith)
        requires
            m == d * d * d,
            1 <= d,
    {
        assert(1 <= d * d) by (nonlinear_arith)
            requires
                1 <= d,
        ;
        assert(1 <= (d * d) * d) by (nonlinear_arith)
            requires
                1 <= d * d,
                1 <= d,
        ;
    }
    assert(0 <= g) by (nonlinear_arith)
        requires
            g == g0 * mm,
            mm == m * m,
            1 <= g0,
    ;
    assert(gdm <= 5 * (g * (n * d))) by (nonlinear_arith)
        requires
            gdm == g * (d * m),
            m <= 5 * n,
            0 <= g,
            1 <= d,
    {
        let gd = g * d;
        assert(0 <= gd) by (nonlinear_arith)
            requires
                gd == g * d,
                0 <= g,
                1 <= d,
        ;
        assert(gd * m <= gd * (5 * n)) by (nonlinear_arith)
            requires
                m <= 5 * n,
                0 <= gd,
        ;
        assert(g * (d * m) == (g * d) * m && (g * d) * (5 * n) == 5 * (g * (n * d))) by (nonlinear_arith);
    }
    assert(x_j + x_k + y - d == ex);
}

/// Three terms, each times one factor.
proof fn lemma_three_terms(k: int, a: int, b: int, c: int, x: int, y: int, z: int)
    ensures
        k * (a * x - 2 * (b * y) + c * z) == a * (k * x) - 2 * (b * (k * y)) + c * (k * z),
{
    let f = a * x;
    let g = b * y;
    let h = c * z;
    assert(k * (f - 2 * g + h) == k * f - 2 * (k * g) + k * h) by (nonlinear_arith);
    assert(k * (a * x) == a * (k * x) && k * (b * y) == b * (k * y) && k * (c * z) == c * (k * z)) by (nonlinear_arith);
}

/// The coefficients are words.
#[verifier::rlimit(30)]
proof fn lemma_cubic_found(ann: int, gamma: int, d: int, x_j: int, x_k: int)
    requires
        well_scaled(ann, gamma, d, x_j, x_k),
    ensures
        cubic_3(ann, gamma, d, x_j, x_k) is Ok,
{
    let w = WAD as int;
    let unit = 1_000_000_000_000_000_000_000_000_000_000_000_000int;
    let gg = gamma * gamma;
    let g = gg * ann;
    let wg = w * gamma;
    assert(0 <= gg <= 100_000_000_000_000_000_000_000_000_000_000 && 0 <= wg
        <= 10_000_000_000_000_000_000_000_000_000_000_000) by (nonlinear_arith)
        requires
            gg == gamma * gamma,
            wg == w * gamma,
            w == 1_000_000_000_000_000_000,
            0 <= gamma <= 10_000_000_000_000_000,
    ;
    lemma_trunc(unit, 9);
    lemma_wrap(2 * w);
    assert((2 * w) * gamma == 2 * wg) by (nonlinear_arith)
        requires
            wg == w * gamma,
    ;
    lemma_wrap(2 * wg);
    lemma_trunc(2 * wg, 27);
    lemma_wrap(gg);
    let dd = d * d;
    assert(0 <= dd <= 1_000_000_000_000_000_000_000_000_000_000_000_000_000_000_000_000_000_000_000_000_000_000)
        by (nonlinear_arith)
        requires
            dd == d * d,
            0 <= d <= 1_000_000_000_000_000_000_000_000_000_000_000,
    ;
    lemma_wrap(dd);
    lemma_trunc(dd, x_j);
    let q1 = dd / x_j;
    assert(x_j * x_k == x_k * x_j) by (nonlinear_arith);
    lemma_not_small(d, x_k, x_j);
    assert(q1 <= 800 * d) by (nonlinear_arith)
        requires
            q1 * x_j <= dd,
            dd == d * d,
            d <= 800 * x_j,
            1 <= x_j,
            1 <= d,
    {
        if q1 > 800 * d {
            assert(q1 * x_j > (800 * d) * x_j) by (nonlinear_arith)
                requires
                    q1 > 800 * d,
                    1 <= x_j,
            ;
            assert((800 * d) * x_j >= d * d) by (nonlinear_arith)
                requires
                    d <= 800 * x_j,
                    1 <= d,
            ;
        }
    }
    let n2 = q1 * gg;
    let n3 = n2 * ann;
    let most = 8_000_000_000_000_000_000_000_000_000_000_000_000_000_000_000_000_000_000_000_000_000_000_000_000int;
    assert(n3 == q1 * g) by (nonlinear_arith)
        requires
            n3 == n2 * ann,
            n2 == q1 * gg,
            g == gg * ann,
    ;
    assert(0 <= n3 <= most) by (nonlinear_arith)
        requires
            n3 == q1 * g,
            0 <= q1 <= 800_000_000_000_000_000_000_000_000_000_000_000,
            0 <= g <= 10_000_000_000_000_000_000_000_000_000_000_000_000,
            most == 8_000_000_000_000_000_000_000_000_000_000_000_000_000_000_000_000_000_000_000_000_000_000_000_000int,
    ;
    assert(0 <= n2 <= n3) by (nonlinear_arith)
        requires
            n3 == n2 * ann,
            n2 == q1 * gg,
            0 <= q1,
            0 <= gg,
            1 <= ann,
    {
        assert(0 <= q1 * gg) by (nonlinear_arith)
            requires
                0 <= q1,
                0 <= gg,
        ;
        assert(n2 <= n2 * ann) by (nonlinear_arith)
            requires
                0 <= n2,
                1 <= ann,
        ;
    }
    lemma_trunc(n3, 729);
    lemma_trunc(n3 / 729, 10_000);
    lemma_trunc((n3 / 729) / 10_000, x_k);
    lemma_wrap(4 * w);
    let c1 = gamma + 4 * w;
    assert(gamma * c1 == gg + 4 * wg) by (nonlinear_arith)
        requires
            c1 == gamma + 4 * w,
            gg == gamma * gamma,
            wg == w * gamma,
    ;
    lemma_wrap(gg + 4 * wg);
    lemma_trunc(gg + 4 * wg, 27);
    let s = x_j + x_k - d;
    let c4 = gg * s;
    lemma_size_product(gg, s, gg, d);
    assert(gg * d <= 100_000_000_000_000_000_000_000_000_000_000 * 1_000_000_000_000_000_000_000_000_000_000_000)
        by (nonlinear_arith)
        requires
            0 <= gg <= 100_000_000_000_000_000_000_000_000_000_000,
            0 <= d <= 1_000_000_000_000_000_000_000_000_000_000_000,
    ;
    lemma_trunc(c4, d);
    let t = trunc_div(c4, d);
    assert(magnitude(t) <= gg + 1) by {
        let td = t * d;
        assert((gg + 1) * d == gg * d + d) by (nonlinear_arith);
        if t > gg + 1 {
            assert(td > (gg + 1) * d) by (nonlinear_arith)
                requires
                    td == t * d,
                    t > gg + 1,
                    d >= 1,
            ;
        }
        if -t > gg + 1 {
            assert(-td > (gg + 1) * d) by (nonlinear_arith)
                requires
                    td == t * d,
                    -t > gg + 1,
                    d >= 1,
            ;
        }
    }
    let c5 = t * ann;
    lemma_size_product(t, ann, gg + 1, ann);
    assert((gg + 1) * ann == g + ann) by (nonlinear_arith)
        requires
            g == gg * ann,
    ;
    assert(gg >= 1) by (nonlinear_arith)
        requires
            gg == gamma * gamma,
            gamma >= 1,
    ;
    assert(ann <= g) by (nonlinear_arith)
        requires
            g == gg * ann,
            gg >= 1,
            ann >= 0,
    ;
    lemma_trunc(c5, 27);
    lemma_trunc(trunc_div(c5, 27), 10_000);
    let b1 = trunc_div(unit, 9) + trunc_div(2 * wg, 27);
    let b = b1 - trunc_div(trunc_div(trunc_div(n3, 729), 10_000), x_k);
    let c2 = trunc_div(unit, 9) + trunc_div(gg + 4 * wg, 27);
    let c = c2 + trunc_div(trunc_div(c5, 27), 10_000);
    assert(fits(b1) && fits(b) && fits(n2) && fits(n3));
    assert(fits(c1) && fits(c2) && fits(s + d) && fits(s) && fits(c4) && fits(c5) && fits(c) && fits(w + gamma));
}

/// The coefficients can be brought to size.
proof fn lemma_reducible(ann: int, gamma: int, d: int, x_j: int, x_k: int, raw: Cubic<int>)
    requires
        well_scaled(ann, gamma, d, x_j, x_k),
        cubic_3(ann, gamma, d, x_j, x_k) == Ok::<Cubic<int>, Fault>(raw),
    ensures
        divider_3(raw) matches Ok(dv) && reduced_3(raw, dv) is Ok,
{
    lemma_coefficients(ann, gamma, d, x_j, x_k, raw);
    lemma_rounding(ann, gamma, d, x_j, x_k);
    lemma_shape(ann, gamma, d, x_j, x_k, rounding_of(ann, gamma, d, x_j, x_k));
    let v = 27 * scale_of(d, x_j, x_k);
    let a = raw.a;
    let b = raw.b;
    let c = raw.c;
    let ac = a * c;
    let big2 = 40_000_000_000_000_000_000_000_000_000_000_000_000_000_000_000_000_000_000_000_000_000_000_000int;
    assert(0 <= ac <= big2) by (nonlinear_arith)
        requires
            ac == a * c,
            1 <= a <= 200_000_000_000_000_000_000_000_000_000_000_000,
            1 <= c <= 200_000_000_000_000_000_000_000_000_000_000_000,
            big2 == 40_000_000_000_000_000_000_000_000_000_000_000_000_000_000_000_000_000_000_000_000_000_000_000int,
    ;
    lemma_wrap(3 * a);
    assert((3 * a) * c == 3 * ac) by (nonlinear_arith)
        requires
            ac == a * c,
    ;
    lemma_wrap(3 * ac);
    lemma_trunc(3 * ac, b);
    assert(a <= b) by (nonlinear_arith)
        requires
            v * a <= v * b,
            1 <= v,
    ;
    lemma_trunc(b, a);
    let down = b / a;
    assert(1 <= down) by (nonlinear_arith)
        requires
            b < down * a + a,
            a <= b,
            1 <= a,
    ;
}

/// The first coefficient is small next to the part that the balances make, times `d`.
proof fn lemma_first_small(z: int, g: int, d: int, big: int, om: int)
    requires
        1 <= z,
        10_000 * big == z * g,
        om == z * (WAD * WAD),
        100_000_000_000_000_000_000_000_000_000_000_000_000_000_000_000_000_000 <= g * d,
    ensures
        10_000_000_000_000 * om <= big * d,
{
    let w = WAD as int;
    let gd = g * d;
    assert(z * gd >= z * 100_000_000_000_000_000_000_000_000_000_000_000_000_000_000_000_000_000) by (nonlinear_arith)
        requires
            gd >= 100_000_000_000_000_000_000_000_000_000_000_000_000_000_000_000_000_000,
            1 <= z,
    ;
    assert(10_000 * (big * d) == z * gd) by (nonlinear_arith)
        requires
            10_000 * big == z * g,
            gd == g * d,
    ;
    assert(om == z * 1_000_000_000_000_000_000_000_000_000_000_000_000) by (nonlinear_arith)
        requires
            om == z * (w * w),
            w == 1_000_000_000_000_000_000,
    ;
}

/// The balance that the cubic gives settles the invariant up to one part in ten to the eighth of `d`. It is
/// the answer where it is within the bounds of the invariant.
pub proof fn lemma_settles(ann: int, gamma: int, x: (int, int, int), d: int, i: int) -> (y: int)
    requires
        0 <= i <= 2,
        well_scaled(ann, gamma, d, get3(x, low_other(i)), get3(x, high_other(i))),
    ensures
        settles(ann, gamma, d, get3(x, low_other(i)), get3(x, high_other(i)), y),
        1 <= y,
        d * d * d <= 135 * ((get3(x, low_other(i)) * get3(x, high_other(i))) * y) <= 10 * (d * d * d),
        get_y_3_model(ann, gamma, x, d, i) matches Ok(found) && match found {
            None => !acceptable_3(d, y),
            Some((y2, _)) => acceptable_3(d, y) && y2 == y,
        },
{
    let x_j = get3(x, low_other(i));
    let x_k = get3(x, high_other(i));
    lemma_cubic_found(ann, gamma, d, x_j, x_k);
    let raw = cubic_3(ann, gamma, d, x_j, x_k)->Ok_0;
    lemma_reducible(ann, gamma, d, x_j, x_k, raw);
    let dv = divider_3(raw)->Ok_0;
    let q = reduced_3(raw, dv)->Ok_0;
    let v = lemma_reduced(ann, gamma, d, x_j, x_k, raw, dv, q);
    lemma_rounding(ann, gamma, d, x_j, x_k);
    let er = rounding_of(ann, gamma, d, x_j, x_k) + v;
    lemma_shape(ann, gamma, d, x_j, x_k, er);
    let w = WAD as int;
    let z = scale_of(d, x_j, x_k);
    let g = gamma * gamma * ann;
    let big = size_of(ann, gamma, d, x_j, x_k);
    let om = z * (w * w);
    let e1 = z * (w * gamma);
    let e2 = z * (gamma * gamma);
    let u1 = g * (d * d * d);
    let u2 = 27 * ((x_j * x_k) * (g * (x_j + x_k - d)));
    let (t0, t1, square) = lemma_discriminant(q, v, om, e1, e2, u1, u2, big, er);
    let (_c1, root) = lemma_root(q, v, om, e1, e2, u1, u2, big, er, t0, t1, square);
    let a = q.a;
    assert(1_000_000 <= a) by {
        assert(v * 1_000_000 <= v * a);
        assert(1_000_000 <= a) by (nonlinear_arith)
            requires
                v * 1_000_000 <= v * a,
                1 <= v,
        ;
    }
    lemma_small_at_root(q, v, om, e1, e2, u1, u2, big, er, root);
    let y = lemma_balance(d, x_j, x_k, root, a);
    let p = x_j * x_k;
    let n = 27 * (p * y);
    assert(1 <= p) by (nonlinear_arith)
        requires
            p == x_j * x_k,
            1 <= x_j,
            1 <= x_k,
    ;
    assert(0 <= n) by (nonlinear_arith)
        requires
            n == 27 * (p * y),
            1 <= p,
            0 <= y,
    ;
    // the first coefficient is small next to the balances
    lemma_first_small(z, g, d, big, om);
    lemma_shift(om, e1, e2, u1, u2, big, root, a, n, d);
    // the product of the balances is not small
    let d2 = d * d;
    let m = d2 * d;
    assert(m <= 5 * n) by {
        assert(m >= 756 * d2 * 1_000) by (nonlinear_arith)
            requires
                m == d2 * d,
                d >= 756_000,
                d2 == d * d,
        ;
        let am = a * m;
        let ad = a * d2;
        assert(am <= 4 * (root * m)) by (nonlinear_arith)
            requires
                am == a * m,
                a <= 4 * root,
                0 <= m,
        ;
        assert(0 <= d2) by (nonlinear_arith)
            requires
                d2 == d * d,
        ;
        let short = m - 756 * d2;
        assert(a * short == am - 756 * ad) by (nonlinear_arith)
            requires
                am == a * m,
                ad == a * d2,
                short == m - 756 * d2,
        ;
        assert(short <= 4 * n) by (nonlinear_arith)
            requires
                a * short <= 4 * (a * n),
                1 <= a,
        ;
    }
    lemma_cubic_of_balances(ann, gamma, d, x_j, x_k, y);
    assert(1 <= y) by {
        if y == 0 {
            assert(p * y == 0) by (nonlinear_arith)
                requires
                    y == 0,
            ;
            assert(1 <= m) by (nonlinear_arith)
                requires
                    m == d2 * d,
                    d2 == d * d,
                    1 <= d,
            {
                assert(1 <= d * d) by (nonlinear_arith)
                    requires
                        1 <= d,
                ;
                assert(1 <= (d * d) * d) by (nonlinear_arith)
                    requires
                        1 <= d * d,
                        1 <= d,
                ;
            }
        }
    }
    assert(n <= 2 * m) by (nonlinear_arith)
        requires
            a * n <= root * m,
            root <= 2 * a,
            1 <= a,
            0 <= m,
    {
        assert(root * m <= (2 * a) * m) by (nonlinear_arith)
            requires
                root <= 2 * a,
                0 <= m,
        ;
        assert(a * n <= a * (2 * m)) by (nonlinear_arith)
            requires
                a * n <= (2 * a) * m,
        ;
        assert(n <= 2 * m) by (nonlinear_arith)
            requires
                a * n <= a * (2 * m),
                1 <= a,
        ;
    }
    assert(ann <= gamma * gamma * ann) by (nonlinear_arith)
        requires
            1 <= gamma,
            0 <= ann,
    {
        let gg = gamma * gamma;
        assert(1 <= gg) by (nonlinear_arith)
            requires
                gg == gamma * gamma,
                1 <= gamma,
        ;
        assert(ann <= gg * ann) by (nonlinear_arith)
            requires
                1 <= gg,
                0 <= ann,
        ;
    }
    y
}

/// Of two states that settle the invariant, the one with more of the other coins has less of this one.
pub proof fn lemma_falls(
    ann: int,
    gamma: int,
    d: int,
    x_j: int,
    x_k: int,
    y: int,
    more_j: int,
    more_k: int,
    y2: int,
)
    requires
        1 <= gamma * gamma * ann,
        0 <= gamma,
        1 <= d,
        1 <= x_j <= more_j,
        1 <= x_k <= more_k,
        1 <= y,
        d <= 10_000_000 * (more_j + more_k - x_j - x_k),
        settles(ann, gamma, d, x_j, x_k, y),
        settles(ann, gamma, d, more_j, more_k, y2),
    ensures
        y2 < y,
{
    if y2 >= y {
        let w = WAD as int;
        let m = d * d * d;
        let p = x_j * x_k;
        let p2 = more_j * more_k;
        let n = 27 * (p * y);
        let n2 = 27 * (p2 * y2);
        let g = (gamma * gamma * ann) * (m * m);
        let l = (w + gamma) * m - w * n;
        let l2 = (w + gamma) * m - w * n2;
        let h = (m - n) * (l * l);
        let h2 = (m - n2) * (l2 * l2);
        let ex = x_j + x_k + y - d;
        let ex2 = more_j + more_k + y2 - d;
        assert(1 <= p <= p2) by (nonlinear_arith)
            requires
                p == x_j * x_k,
                p2 == more_j * more_k,
                1 <= x_j <= more_j,
                1 <= x_k <= more_k,
        ;
        assert(1 <= p * y <= p2 * y2) by (nonlinear_arith)
            requires
                1 <= p <= p2,
                1 <= y <= y2,
        ;
        assert(1 <= m) by (nonlinear_arith)
            requires
                m == d * d * d,
                1 <= d,
        {
            assert(1 <= d * d) by (nonlinear_arith)
                requires
                    1 <= d,
            ;
            assert(1 <= (d * d) * d) by (nonlinear_arith)
                requires
                    1 <= d * d,
                    1 <= d,
            ;
        }
        let g0 = gamma * gamma * ann;
        let mm = m * m;
        assert(1 <= g) by (nonlinear_arith)
            requires
                g == g0 * mm,
                mm == m * m,
                1 <= g0,
                1 <= m,
        {
            assert(1 <= m * m) by (nonlinear_arith)
                requires
                    1 <= m,
            ;
            assert(1 <= g0 * (m * m)) by (nonlinear_arith)
                requires
                    1 <= g0,
                    1 <= m * m,
            ;
        }
        let gn = g * n;
        let gn2 = g * n2;
        assert(1 <= gn && 1 <= gn2) by (nonlinear_arith)
            requires
                gn == g * n,
                gn2 == g * n2,
                1 <= g,
                1 <= n,
                1 <= n2,
        ;
        assert(g * (n * ex) == gn * ex && g * (n2 * ex2) == gn2 * ex2 && g * (n * d) == gn * d && g * (n2 * d) == gn2 * d)
            by (nonlinear_arith)
            requires
                gn == g * n,
                gn2 == g * n2,
        ;
        let k = 10_000 * (d * h);
        let k2 = 10_000 * (d * h2);
        assert(0 <= l2 * l2 && 0 <= l * l) by (nonlinear_arith);
        if n2 <= m {
            assert(0 <= l2 <= l) by (nonlinear_arith)
                requires
                    l == (w + gamma) * m - w * n,
                    l2 == (w + gamma) * m - w * n2,
                    n <= n2 <= m,
                    0 <= gamma,
                    0 <= w,
                    1 <= m,
            {
                assert(w * n <= w * n2 && w * n2 <= w * m) by (nonlinear_arith)
                    requires
                        n <= n2 <= m,
                        0 <= w,
                ;
                assert((w + gamma) * m == w * m + gamma * m && 0 <= gamma * m) by (nonlinear_arith)
                    requires
                        0 <= gamma,
                        1 <= m,
                ;
            }
            assert(l2 * l2 <= l * l) by (nonlinear_arith)
                requires
                    0 <= l2 <= l,
            ;
            let ll = l * l;
            let ll2 = l2 * l2;
            assert(0 <= h2 <= h) by (nonlinear_arith)
                requires
                    h == (m - n) * ll,
                    h2 == (m - n2) * ll2,
                    0 <= ll2 <= ll,
                    n <= n2 <= m,
            ;
            assert(0 <= k2 <= k) by (nonlinear_arith)
                requires
                    k == 10_000 * (d * h),
                    k2 == 10_000 * (d * h2),
                    0 <= h2 <= h,
                    1 <= d,
            ;
            // both in the same units
            assert(n * k2 <= n2 * k) by (nonlinear_arith)
                requires
                    0 <= k2 <= k,
                    1 <= n <= n2,
            ;
            let c = gn * n2;
            assert(1 <= c) by (nonlinear_arith)
                requires
                    c == gn * n2,
                    1 <= gn,
                    1 <= n2,
            ;
            assert(n * gn2 == c) by (nonlinear_arith)
                requires
                    c == gn * n2,
                    gn == g * n,
                    gn2 == g * n2,
            ;
            let a2 = gn2 * ex2;
            let b2 = gn2 * d;
            assert(100_000_000 * a2 - b2 <= 100_000_000 * k2);
            assert(n * (100_000_000 * a2 - b2) <= n * (100_000_000 * k2)) by (nonlinear_arith)
                requires
                    100_000_000 * a2 - b2 <= 100_000_000 * k2,
                    1 <= n,
            ;
            assert(n * (100_000_000 * a2 - b2) == 100_000_000 * (n * a2) - n * b2 && n * (100_000_000 * k2) == 100_000_000
                * (n * k2)) by (nonlinear_arith);
            assert(n * a2 == c * ex2 && n * b2 == c * d) by (nonlinear_arith)
                requires
                    a2 == gn2 * ex2,
                    b2 == gn2 * d,
                    n * gn2 == c,
            ;
            let a1 = gn * ex;
            let b1 = gn * d;
            assert(100_000_000 * k <= 100_000_000 * a1 + b1);
            assert(n2 * (100_000_000 * k) <= n2 * (100_000_000 * a1 + b1)) by (nonlinear_arith)
                requires
                    100_000_000 * k <= 100_000_000 * a1 + b1,
                    1 <= n2,
            ;
            assert(n2 * (100_000_000 * a1 + b1) == 100_000_000 * (n2 * a1) + n2 * b1 && n2 * (100_000_000 * k)
                == 100_000_000 * (n2 * k)) by (nonlinear_arith);
            assert(n2 * a1 == c * ex && n2 * b1 == c * d) by (nonlinear_arith)
                requires
                    a1 == gn * ex,
                    b1 == gn * d,
                    c == gn * n2,
            ;
            let gap = ex2 - ex;
            assert(c * gap == c * ex2 - c * ex) by (nonlinear_arith)
                requires
                    gap == ex2 - ex,
            ;
            assert(100_000_000 * (c * gap) <= 2 * (c * d));
            assert(100_000_000 * gap <= 2 * d) by (nonlinear_arith)
                requires
                    100_000_000 * (c * gap) <= 2 * (c * d),
                    1 <= c,
            ;
            assert(false);
        } else {
            let ll2 = l2 * l2;
            assert(k2 <= 0) by (nonlinear_arith)
                requires
                    k2 == 10_000 * (d * h2),
                    h2 == (m - n2) * ll2,
                    0 <= ll2,
                    m < n2,
                    1 <= d,
            {
                assert((m - n2) * ll2 <= 0) by (nonlinear_arith)
                    requires
                        m < n2,
                        0 <= ll2,
                ;
                assert(d * h2 <= 0) by (nonlinear_arith)
                    requires
                        h2 <= 0,
                        1 <= d,
                ;
            }
            assert(100_000_000 * (gn2 * ex2) <= gn2 * d);
            assert(100_000_000 * ex2 <= d) by (nonlinear_arith)
                requires
                    100_000_000 * (gn2 * ex2) <= gn2 * d,
                    1 <= gn2,
            ;
            if n <= m {
                let ll = l * l;
                assert(0 <= k) by (nonlinear_arith)
                    requires
                        k == 10_000 * (d * h),
                        h == (m - n) * ll,
                        0 <= ll,
                        n <= m,
                        1 <= d,
                {
                    assert(0 <= (m - n) * ll) by (nonlinear_arith)
                        requires
                            n <= m,
                            0 <= ll,
                    ;
                    assert(0 <= d * h) by (nonlinear_arith)
                        requires
                            0 <= h,
                            1 <= d,
                    ;
                }
                assert(-(gn * d) <= 100_000_000 * (gn * ex));
                assert(-d <= 100_000_000 * ex) by (nonlinear_arith)
                    requires
                        -(gn * d) <= 100_000_000 * (gn * ex),
                        1 <= gn,
                ;
            } else {
                lemma_means_3(x_j, x_k, y);
                let s = x_j + x_k + y;
                assert(27 * (x_j * x_k * y) == n);
                if s <= d {
                    lemma_cube_increases(s, d);
                    assert(cube(s) == s * s * s && cube(d) == m);
                }
            }
            assert(false);
        }
    }
}

} // verus!
