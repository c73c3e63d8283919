//! The fee that a trade pays: between a lower rate at an even split and a higher one far from it.
use crate::bounds::lemma_quotient;
use crate::fault::Fault;
use crate::newton::{quantity, WAD};
use crate::pricing::lemma_between;
use crate::uint::{
    lemma_minus, lemma_over, lemma_plus, lemma_times, lemma_word_range, modulus, Word, U256,
};
use vstd::prelude::*;

verus! {

/// The mean of the two rates with the weight `f` on the first, in units of 10^18.
pub open spec fn mixed_fee(mid_fee: int, out_fee: int, f: int) -> int {
    mid_fee.times(f).plus(out_fee.times((WAD as int).minus(f))).over(WAD as int)
}

/// The value of [`mixed_fee`].
pub fn mix(mid_fee: U256, out_fee: U256, f: U256) -> (r: U256)
    ensures
        r@ == mixed_fee(mid_fee@, out_fee@, f@),
{
    (mid_fee * f + out_fee * (U256::from(WAD) - f)) / U256::from(WAD)
}

/// The weight `fee_gamma / (fee_gamma + 1 - k)`, where `k` is one at an even split.
pub open spec fn steep_weight(fee_gamma: int, k: int) -> Result<int, Fault> {
    let below = fee_gamma.plus(WAD as int).minus(k);
    if below == 0 {
        Err(Fault)
    } else {
        Ok(fee_gamma.times(WAD as int).over(below))
    }
}

/// The value of [`steep_weight`].
pub fn steep(fee_gamma: U256, k: U256) -> (r: Result<U256, Fault>)
    ensures
        quantity(r) == steep_weight(fee_gamma@, k@),
{
    (fee_gamma * U256::from(WAD)).div_by(fee_gamma + U256::from(WAD) - k)
}

/// The weight for `k`: `k` itself where `fee_gamma` is zero, [`steep_weight`] otherwise.
pub open spec fn weight(fee_gamma: int, k: int) -> Result<int, Fault> {
    if fee_gamma > 0 {
        steep_weight(fee_gamma, k)
    } else {
        Ok(k)
    }
}

/// The fee for `k`, with the weight that [`weight`] gives.
pub open spec fn weighted_fee(mid_fee: int, out_fee: int, fee_gamma: int, k: int) -> Result<
    int,
    Fault,
> {
    match weight(fee_gamma, k) {
        Ok(f) => Ok(mixed_fee(mid_fee, out_fee, f)),
        Err(e) => Err(e),
    }
}

/// The value of [`weighted_fee`].
pub fn weigh(mid_fee: U256, out_fee: U256, fee_gamma: U256, k: U256) -> (r: Result<U256, Fault>)
    ensures
        quantity(r) == weighted_fee(mid_fee@, out_fee@, fee_gamma@, k@),
{
    let f = if fee_gamma > U256::zero() {
        steep(fee_gamma, k)?
    } else {
        k
    };
    Ok(mix(mid_fee, out_fee, f))
}

/// The numbers behind a sequence of words.
pub open spec fn numbers(xs: Seq<U256>) -> Seq<int> {
    Seq::new(xs.len(), |i: int| xs[i]@)
}

/// The sum of numbers.
pub open spec fn total(xs: Seq<int>) -> int
    decreases xs.len(),
{
    if xs.len() == 0 {
        0
    } else {
        total(xs.drop_last()) + xs.last()
    }
}

/// How even the balances `xs` with the sum `s` are, in units of 10^18: the product of `n*x/s` over
/// all of them, rounded down after each factor.
pub open spec fn evenness(xs: Seq<int>, n: int, s: int) -> int
    decreases xs.len(),
{
    if xs.len() == 0 {
        WAD as int
    } else {
        evenness(xs.drop_last(), n, s).times(n).times(xs.last()).over(s)
    }
}

/// The fee for balances of any number of coins; nothing where their sum is zero or not a word.
pub open spec fn crypto_fee_model(
    xs: Seq<int>,
    mid_fee: int,
    out_fee: int,
    fee_gamma: int,
) -> Result<Option<int>, Fault> {
    let s = total(xs);
    if s == 0 || s >= modulus() {
        Ok(None)
    } else {
        match weighted_fee(mid_fee, out_fee, fee_gamma, evenness(xs, xs.len() as int, s)) {
            Ok(v) => Ok(Some(v)),
            Err(e) => Err(e),
        }
    }
}

proof fn lemma_total_grows(xs: Seq<int>, i: int)
    requires
        0 <= i <= xs.len(),
        forall|k: int| 0 <= k < xs.len() ==> xs[k] >= 0,
    ensures
        0 <= total(xs.take(i)) <= total(xs),
    decreases xs.len(),
{
    if xs.len() == 0 {
        assert(xs.take(i) =~= xs);
    } else if i == xs.len() {
        assert(xs.take(i) =~= xs);
        lemma_total_grows(xs.drop_last(), i - 1);
        assert(xs.drop_last().take(i - 1) =~= xs.drop_last());
    } else {
        lemma_total_grows(xs.drop_last(), i);
        assert(xs.drop_last().take(i) =~= xs.take(i));
    }
}

/// The sum of words, where it is a word.
fn checked_total(xp: &[U256]) -> (r: Option<U256>)
    ensures
        r is Some <==> total(numbers(xp@)) < modulus(),
        r matches Some(s) ==> s@ == total(numbers(xp@)),
{
    let ghost xs = numbers(xp@);
    let mut s: U256 = U256::zero();
    let mut i: usize = 0;
    assert(xs.take(0) =~= Seq::<int>::empty());
    while i < xp.len()
        invariant
            0 <= i <= xp.len(),
            xs == numbers(xp@),
            s@ == total(xs.take(i as int)),
        decreases xp.len() - i,
    {
        proof {
            assert(xs.take(i + 1).drop_last() =~= xs.take(i as int));
            assert(xs.take(i + 1).last() == xp@[i as int]@);
            assert forall|k: int| 0 <= k < xs.len() implies xs[k] >= 0 by {
                lemma_word_range(xp@[k]);
            }
            lemma_total_grows(xs, i + 1);
        }
        match s.checked_add(xp[i]) {
            Some(v) => {
                s = v;
            },
            None => {
                return None;
            },
        }
        i = i + 1;
    }
    proof {
        assert(xs.take(i as int) =~= xs);
        lemma_word_range(s);
    }
    Some(s)
}

/// The value of [`evenness`].
fn even_by(xp: &[U256], n: U256, s: U256) -> (r: U256)
    requires
        s@ != 0,
    ensures
        r@ == evenness(numbers(xp@), n@, s@),
{
    let ghost xs = numbers(xp@);
    let mut k: U256 = U256::from(WAD);
    let mut i: usize = 0;
    assert(xs.take(0) =~= Seq::<int>::empty());
    while i < xp.len()
        invariant
            0 <= i <= xp.len(),
            xs == numbers(xp@),
            s@ != 0,
            k@ == evenness(xs.take(i as int), n@, s@),
        decreases xp.len() - i,
    {
        proof {
            assert(xs.take(i + 1).drop_last() =~= xs.take(i as int));
            assert(xs.take(i + 1).last() == xp@[i as int]@);
        }
        k = k * n * xp[i] / s;
        i = i + 1;
    }
    assert(xs.take(i as int) =~= xs);
    k
}

/// The fee for balances of any number of coins, or a fault where [`crypto_fee`] is not defined.
pub fn try_crypto_fee(xp: &[U256], mid_fee: U256, out_fee: U256, fee_gamma: U256) -> (r: Result<
    Option<U256>,
    Fault,
>)
    ensures
        crate::newton::outcome(r) == crypto_fee_model(
            numbers(xp@),
            mid_fee@,
            out_fee@,
            fee_gamma@,
        ),
{
    match checked_total(xp) {
        None => Ok(None),
        Some(s) => {
            if s.is_zero() {
                return Ok(None);
            }
            proof {
                lemma_word_range(s);
            }
            let k = even_by(xp, U256::from(xp.len() as u64), s);
            Ok(Some(weigh(mid_fee, out_fee, fee_gamma, k)?))
        },
    }
}

/// The fee for balances of any number of coins: `None` where their sum is zero or not a word.
pub fn crypto_fee(xp: &[U256], mid_fee: U256, out_fee: U256, fee_gamma: U256) -> (r: Option<U256>)
    requires
        crypto_fee_model(numbers(xp@), mid_fee@, out_fee@, fee_gamma@) is Ok,
    ensures
        crate::newton::outcome(Ok(r)) == crypto_fee_model(
            numbers(xp@),
            mid_fee@,
            out_fee@,
            fee_gamma@,
        ),
{
    match try_crypto_fee(xp, mid_fee, out_fee, fee_gamma) {
        Ok(r) => r,
        Err(_) => None,
    }
}

proof fn lemma_steep(fee_gamma: int, k: int)
    requires
        0 <= k <= WAD,
        0 < fee_gamma,
        fee_gamma * WAD < modulus(),
    ensures
        steep_weight(fee_gamma, k) matches Ok(f) && 0 <= f <= WAD && (k == WAD ==> f == WAD),
{
    let w = WAD as int;
    lemma_plus(fee_gamma, w);
    lemma_minus(fee_gamma + w, k);
    let below = fee_gamma + w - k;
    lemma_times(fee_gamma, w);
    lemma_over(fee_gamma * w, below);
    assert(0 <= (fee_gamma * w) / below <= w) by (nonlinear_arith)
        requires
            0 < fee_gamma <= below,
            w > 0,
    ;
    if k == w {
        assert((fee_gamma * w) / fee_gamma == w) by (nonlinear_arith)
            requires
                fee_gamma > 0,
        ;
    }
}

/// The mean of two rates lies between them, and is the first one at full weight.
pub proof fn lemma_mixed(mid_fee: int, out_fee: int, f: int)
    requires
        0 <= mid_fee <= out_fee,
        out_fee * WAD < modulus(),
        0 <= f <= WAD,
    ensures
        mid_fee <= mixed_fee(mid_fee, out_fee, f) <= out_fee,
        f == WAD ==> mixed_fee(mid_fee, out_fee, f) == mid_fee,
{
    let w = WAD as int;
    lemma_minus(w, f);
    assert(mid_fee * f + out_fee * (w - f) <= out_fee * w) by (nonlinear_arith)
        requires
            mid_fee <= out_fee,
            0 <= f <= w,
    ;
    lemma_between(mid_fee, out_fee, f, w - f, w);
    if f == w {
        assert(0 <= mid_fee * w <= out_fee * w) by (nonlinear_arith)
            requires
                0 <= mid_fee <= out_fee,
                w > 0,
        ;
        lemma_times(mid_fee, w);
        lemma_times(out_fee, 0);
        lemma_plus(mid_fee * w, 0);
        lemma_over(mid_fee * w, w);
    }
}

/// A fee lies between the two rates, and is the first one at an even split, for `k` of at most one, as
/// long as the products with ten to the eighteenth are words.
pub proof fn lemma_weighted(mid_fee: int, out_fee: int, fee_gamma: int, k: int)
    requires
        0 <= mid_fee <= out_fee,
        out_fee * WAD < modulus(),
        0 <= fee_gamma,
        fee_gamma * WAD < modulus(),
        0 <= k <= WAD,
    ensures
        weighted_fee(mid_fee, out_fee, fee_gamma, k) matches Ok(v) && mid_fee <= v <= out_fee && (k
            == WAD ==> v == mid_fee),
        fee_gamma > 0 ==> (steep_weight(fee_gamma, k) matches Ok(f) && mid_fee <= mixed_fee(
            mid_fee,
            out_fee,
            f,
        ) <= out_fee && (k == WAD ==> mixed_fee(mid_fee, out_fee, f) == mid_fee)),
{
    if fee_gamma > 0 {
        lemma_steep(fee_gamma, k);
        let f = steep_weight(fee_gamma, k)->Ok_0;
        lemma_mixed(mid_fee, out_fee, f);
    } else {
        lemma_mixed(mid_fee, out_fee, k);
    }
}

/// The evenness of two balances, in units of 10^18.
pub open spec fn evenness_2(x: (int, int)) -> int {
    let s = x.0.plus(x.1);
    (WAD as int).times(4).times(x.0).over(s).times(x.1).over(s)
}

/// Rounded down, `a * b / s` is a number from zero to `a`, and its product with `s` is at most `a * b`.
proof fn lemma_part(a: int, b: int, s: int)
    requires
        0 <= a,
        0 <= b <= s,
        s > 0,
        a * s < modulus(),
    ensures
        a.times(b).over(s) == (a * b) / s,
        0 <= (a * b) / s <= a,
        ((a * b) / s) * s <= a * b,
{
    assert(0 <= a * b <= a * s) by (nonlinear_arith)
        requires
            0 <= a,
            0 <= b <= s,
    ;
    lemma_times(a, b);
    lemma_over(a * b, s);
    let q = (a * b) / s;
    assert(0 <= q <= a && q * s <= a * b) by (nonlinear_arith)
        requires
            q == (a * b) / s,
            0 <= a * b <= a * s,
            s > 0,
    ;
}

/// Two balances are at most as even as an even split, and an even split is at one.
pub proof fn lemma_evenness_2(x: (int, int))
    requires
        0 <= x.0,
        0 <= x.1,
        0 < x.0 + x.1,
        4_000_000_000_000_000_000 * (x.0 + x.1) < modulus(),
    ensures
        0 <= evenness_2(x) <= WAD,
        x.0 == x.1 ==> evenness_2(x) == WAD,
{
    let w = WAD as int;
    let s = x.0 + x.1;
    lemma_plus(x.0, x.1);
    lemma_times(w, 4);
    assert((4 * w) * s == 4_000_000_000_000_000_000 * s) by (nonlinear_arith)
        requires
            w == 1_000_000_000_000_000_000,
    ;
    lemma_part(4 * w, x.0, s);
    let k1 = (4 * w * x.0) / s;
    assert(k1 * s <= (4 * w) * s) by (nonlinear_arith)
        requires
            k1 <= 4 * w,
            s > 0,
    ;
    lemma_part(k1, x.1, s);
    let k = (k1 * x.1) / s;
    // k * s * s <= 4 * w * x.0 * x.1 <= w * s * s
    let a = x.0;
    let b = x.1;
    assert(k * s * s <= w * (s * s)) by (nonlinear_arith)
        requires
            k * s <= k1 * b,
            k1 * s <= 4 * w * a,
            s == a + b,
            0 <= a,
            0 <= b,
            0 < s,
            w > 0,
    {
        assert(k * s * s <= k1 * b * s);
        assert(k1 * b * s == (k1 * s) * b);
        assert((k1 * s) * b <= (4 * w * a) * b);
        assert((a - b) * (a - b) >= 0);
        assert(4 * (a * b) <= s * s);
        assert((4 * w * a) * b == w * (4 * (a * b)));
        assert(w * (4 * (a * b)) <= w * (s * s));
    }
    assert(k <= w) by (nonlinear_arith)
        requires
            k * s * s <= w * (s * s),
            s > 0,
    {
        if k > w {
            assert(k * (s * s) > w * (s * s));
            assert(k * s * s == k * (s * s));
        }
    }
    if a == b {
        assert((4 * w * a) / s == 2 * w) by (nonlinear_arith)
            requires
                s == 2 * a,
                a > 0,
        ;
        assert((2 * w * a) / s == w) by (nonlinear_arith)
            requires
                s == 2 * a,
                a > 0,
        ;
    }
}

/// The geometric mean of three numbers is at most the arithmetic one.
pub proof fn lemma_means_3(a: int, b: int, c: int)
    requires
        0 <= a,
        0 <= b,
        0 <= c,
    ensures
        27 * (a * b * c) <= (a + b + c) * (a + b + c) * (a + b + c),
{
    let s = a + b + c;
    // each mixed square is at most a pair of cubes, and three of them at least the product
    lemma_cubes_2(a, b);
    lemma_cubes_2(b, c);
    lemma_cubes_2(c, a);
    lemma_mixed_3(a, b, c);
    lemma_mixed_3(b, c, a);
    lemma_mixed_3(c, a, b);
    let t = s * s;
    assert(t == a * a + b * b + c * c + 2 * (a * b) + 2 * (b * c) + 2 * (c * a))
        by (nonlinear_arith)
        requires
            t == s * s,
            s == a + b + c,
    ;
    lemma_spread(a, b, c, t, a);
    lemma_spread(a, b, c, t, b);
    lemma_spread(a, b, c, t, c);
    assert(t * s == t * a + t * b + t * c) by (nonlinear_arith)
        requires
            s == a + b + c,
    ;
    lemma_orders(a, b, c);
}

proof fn lemma_cubes_2(a: int, b: int)
    requires
        0 <= a,
        0 <= b,
    ensures
        a * a * b + a * b * b <= a * a * a + b * b * b,
{
    let d = (a - b) * (a - b);
    assert(d >= 0) by (nonlinear_arith)
        requires
            d == (a - b) * (a - b),
    ;
    assert((a + b) * d >= 0) by (nonlinear_arith)
        requires
            d >= 0,
            0 <= a,
            0 <= b,
    ;
    assert((a + b) * d == a * a * a + b * b * b - a * a * b - a * b * b) by (nonlinear_arith)
        requires
            d == (a - b) * (a - b),
    ;
}

proof fn lemma_mixed_3(a: int, b: int, c: int)
    requires
        0 <= a,
    ensures
        2 * (a * b * c) <= a * b * b + a * c * c,
{
    let d = (b - c) * (b - c);
    assert(d >= 0) by (nonlinear_arith)
        requires
            d == (b - c) * (b - c),
    ;
    assert(a * d >= 0) by (nonlinear_arith)
        requires
            d >= 0,
            0 <= a,
    ;
    assert(a * d == a * b * b - 2 * (a * b * c) + a * c * c) by (nonlinear_arith)
        requires
            d == (b - c) * (b - c),
    ;
}

proof fn lemma_spread(a: int, b: int, c: int, t: int, f: int)
    requires
        t == a * a + b * b + c * c + 2 * (a * b) + 2 * (b * c) + 2 * (c * a),
    ensures
        t * f == a * a * f + b * b * f + c * c * f + 2 * (a * b * f) + 2 * (b * c * f) + 2 * (c * a
            * f),
{
    assert(t * f == a * a * f + b * b * f + c * c * f + 2 * (a * b * f) + 2 * (b * c * f) + 2 * (c
        * a * f)) by (nonlinear_arith)
        requires
            t == a * a + b * b + c * c + 2 * (a * b) + 2 * (b * c) + 2 * (c * a),
    ;
}

/// Products of three numbers in one order each.
proof fn lemma_orders(a: int, b: int, c: int)
    ensures
        a * b * a == a * a * b,
        b * b * a == a * b * b,
        c * a * a == a * a * c,
        c * c * a == a * c * c,
        b * a * a == a * a * b,
        a * b * b == b * b * a,
        b * c * b == b * b * c,
        c * c * b == b * c * c,
        c * a * c == a * c * c,
        c * b * b == b * b * c,
        b * c * c == c * c * b,
        a * c * c == c * c * a,
        b * c * a == a * b * c,
        c * a * b == a * b * c,
{
    assert(a * b * a == a * a * b) by (nonlinear_arith);
    assert(b * b * a == a * b * b) by (nonlinear_arith);
    assert(c * a * a == a * a * c) by (nonlinear_arith);
    assert(c * c * a == a * c * c) by (nonlinear_arith);
    assert(b * a * a == a * a * b) by (nonlinear_arith);
    assert(b * c * b == b * b * c) by (nonlinear_arith);
    assert(c * c * b == b * c * c) by (nonlinear_arith);
    assert(c * a * c == a * c * c) by (nonlinear_arith);
    assert(c * b * b == b * b * c) by (nonlinear_arith);
    assert(b * c * a == a * b * c) by (nonlinear_arith);
    assert(c * a * b == a * b * c) by (nonlinear_arith);
}

/// Three factors of at most one each keep a bound through their cubes.
proof fn lemma_cubes(k: int, k2: int, k1: int, a: int, b: int, c: int, s: int)
    requires
        0 <= a,
        0 <= b,
        0 <= c,
        s == a + b + c,
        s > 0,
        k * s <= k2 * c,
        k2 * s <= k1 * b,
        k1 * s <= 27 * WAD * a,
    ensures
        k <= WAD,
{
    let w = WAD as int;
    lemma_means_3(a, b, c);
    assert(k * (s * s * s) <= w * (s * s * s)) by (nonlinear_arith)
        requires
            0 <= b,
            0 <= c,
            s > 0,
            w > 0,
            k * s <= k2 * c,
            k2 * s <= k1 * b,
            k1 * s <= 27 * w * a,
            27 * (a * b * c) <= s * s * s,
    {
        assert(k * (s * s * s) == (k * s) * (s * s));
        assert((k * s) * (s * s) <= (k2 * c) * (s * s));
        assert((k2 * c) * (s * s) == (k2 * s) * (c * s));
        assert((k2 * s) * (c * s) <= (k1 * b) * (c * s)) by {
            assert(c * s >= 0);
        }
        assert((k1 * b) * (c * s) == (k1 * s) * (b * c));
        assert((k1 * s) * (b * c) <= (27 * w * a) * (b * c)) by {
            assert(b * c >= 0);
        }
        assert((27 * w * a) * (b * c) == w * (27 * (a * b * c)));
        assert(w * (27 * (a * b * c)) <= w * (s * s * s));
    }
    assert(k <= w) by (nonlinear_arith)
        requires
            k * (s * s * s) <= w * (s * s * s),
            s > 0,
    {
        if k > w {
            assert(s * s > 0);
            assert(s * s * s > 0);
            assert(k * (s * s * s) > w * (s * s * s));
        }
    }
}

/// The evenness of three balances with a factor of three taken in at each step, in units of 10^18.
pub open spec fn evenness_3(x: (int, int, int)) -> int {
    let s = x.0.plus(x.1).plus(x.2);
    (WAD as int).times(3).times(x.0).over(s).times(3).times(x.1).over(s).times(3).times(x.2).over(s)
}

/// The evenness of three balances with a factor of twenty-seven taken in at once, in units of 10^18.
pub open spec fn evenness_27(x: (int, int, int)) -> int {
    let s = x.0.plus(x.1).plus(x.2);
    (WAD as int).times(27).times(x.0).over(s).times(x.1).over(s).times(x.2).over(s)
}

/// Three balances are at most as even as an even split, and an even split is at one.
pub proof fn lemma_evenness_3(x: (int, int, int))
    requires
        0 <= x.0,
        0 <= x.1,
        0 <= x.2,
        0 < x.0 + x.1 + x.2,
        27_000_000_000_000_000_000 * (x.0 + x.1 + x.2) < modulus(),
    ensures
        0 <= evenness_3(x) <= WAD,
        x.0 == x.1 == x.2 ==> evenness_3(x) == WAD,
        0 <= evenness_27(x) <= WAD,
        x.0 == x.1 == x.2 ==> evenness_27(x) == WAD,
{
    let w = WAD as int;
    let (a, b, c) = x;
    let s = a + b + c;
    lemma_plus(a, b);
    lemma_plus(a + b, c);
    assert((27 * w) * s == 27_000_000_000_000_000_000 * s && (9 * w) * s == 9_000_000_000_000_000_000
        * s && (3 * w) * s == 3_000_000_000_000_000_000 * s) by (nonlinear_arith)
        requires
            w == 1_000_000_000_000_000_000,
    ;
    // a factor of three at each step
    lemma_times(w, 3);
    lemma_part(3 * w, a, s);
    let k1 = (3 * w * a) / s;
    lemma_times(k1, 3);
    assert((k1 * 3) * s <= 9 * w * s) by (nonlinear_arith)
        requires
            k1 <= 3 * w,
            s > 0,
    ;
    lemma_part(k1 * 3, b, s);
    let k2 = (k1 * 3 * b) / s;
    lemma_times(k2, 3);
    assert((k2 * 3) * s <= 27 * w * s) by (nonlinear_arith)
        requires
            k2 <= 9 * w,
            s > 0,
    ;
    lemma_part(k2 * 3, c, s);
    let k = (k2 * 3 * c) / s;
    assert(k <= w) by {
        assert(k * s <= (3 * k2) * c) by (nonlinear_arith)
            requires
                k * s <= k2 * 3 * c,
        ;
        assert((3 * k2) * s <= (9 * k1) * b) by (nonlinear_arith)
            requires
                k2 * s <= k1 * 3 * b,
        ;
        assert((9 * k1) * s <= 27 * w * a) by (nonlinear_arith)
            requires
                k1 * s <= 3 * w * a,
        ;
        lemma_cubes(k, 3 * k2, 9 * k1, a, b, c, s);
    }
    // all at once
    lemma_times(w, 27);
    lemma_part(27 * w, a, s);
    let m1 = (27 * w * a) / s;
    assert(m1 * s <= 27 * w * s) by (nonlinear_arith)
        requires
            m1 <= 27 * w,
            s > 0,
    ;
    lemma_part(m1, b, s);
    let m2 = (m1 * b) / s;
    assert(m2 * s <= 27 * w * s) by (nonlinear_arith)
        requires
            m2 <= 27 * w,
            s > 0,
    ;
    lemma_part(m2, c, s);
    let m = (m2 * c) / s;
    lemma_cubes(m, m2, m1, a, b, c, s);
    if a == b && b == c {
        assert((3 * w * a) / s == w) by (nonlinear_arith)
            requires
                s == 3 * a,
                a > 0,
        ;
        assert((27 * w * a) / s == 9 * w) by (nonlinear_arith)
            requires
                s == 3 * a,
                a > 0,
        ;
        assert((9 * w * a) / s == 3 * w) by (nonlinear_arith)
            requires
                s == 3 * a,
                a > 0,
        ;
    }
}

/// The fee for three balances lies between the two rates, and an even split pays the first one, as long
/// as the products are words.
pub proof fn law_crypto_fee(x: [U256; 3], mid_fee: U256, out_fee: U256, fee_gamma: U256)
    requires
        0 < x[0]@ + x[1]@ + x[2]@,
        27_000_000_000_000_000_000 * (x[0]@ + x[1]@ + x[2]@) < modulus(),
        mid_fee@ <= out_fee@,
        out_fee@ * WAD < modulus(),
        fee_gamma@ * WAD < modulus(),
    ensures
        crypto_fee_model(numbers(x@), mid_fee@, out_fee@, fee_gamma@) matches Ok(Some(v)) && mid_fee@
            <= v <= out_fee@ && (x[0]@ == x[1]@ == x[2]@ ==> v == mid_fee@),
{
    lemma_word_range(x[0]);
    lemma_word_range(x[1]);
    lemma_word_range(x[2]);
    lemma_word_range(mid_fee);
    lemma_word_range(fee_gamma);
    let t = (x[0]@, x[1]@, x[2]@);
    let xs = numbers(x@);
    assert(xs.drop_last().drop_last().drop_last() =~= Seq::<int>::empty());
    reveal_with_fuel(total, 4);
    reveal_with_fuel(evenness, 4);
    lemma_plus(t.0, t.1);
    lemma_plus(t.0 + t.1, t.2);
    assert(evenness(xs, 3, t.0 + t.1 + t.2) == evenness_3(t));
    lemma_evenness_3(t);
    lemma_weighted(mid_fee@, out_fee@, fee_gamma@, evenness_3(t));
}

/// The fee for one balance is the first rate, as long as the products are words.
pub proof fn law_crypto_fee_1(x: [U256; 1], mid_fee: U256, out_fee: U256, fee_gamma: U256)
    requires
        0 < x[0]@,
        x[0]@ * WAD < modulus(),
        mid_fee@ <= out_fee@,
        out_fee@ * WAD < modulus(),
        fee_gamma@ * WAD < modulus(),
    ensures
        crypto_fee_model(numbers(x@), mid_fee@, out_fee@, fee_gamma@) == Ok::<_, Fault>(Some(mid_fee@)),
{
    let w = WAD as int;
    let v = x[0]@;
    lemma_word_range(x[0]);
    lemma_word_range(mid_fee);
    lemma_word_range(fee_gamma);
    let xs = numbers(x@);
    assert(xs.drop_last() =~= Seq::<int>::empty());
    reveal_with_fuel(total, 2);
    reveal_with_fuel(evenness, 2);
    lemma_times(w, 1);
    assert(w * v == v * w) by (nonlinear_arith);
    lemma_times(w, v);
    lemma_over(w * v, v);
    assert((w * v) / v == w) by (nonlinear_arith)
        requires
            v > 0,
    ;
    assert(evenness(xs, 1, v) == w);
    lemma_weighted(mid_fee@, out_fee@, fee_gamma@, w);
}

/// The fee for two balances lies between the two rates, and an even split pays the first one, as long as
/// the products are words.
pub proof fn law_crypto_fee_2(x: [U256; 2], mid_fee: U256, out_fee: U256, fee_gamma: U256)
    requires
        0 < x[0]@ + x[1]@,
        4_000_000_000_000_000_000 * (x[0]@ + x[1]@) < modulus(),
        mid_fee@ <= out_fee@,
        out_fee@ * WAD < modulus(),
        fee_gamma@ * WAD < modulus(),
    ensures
        crypto_fee_model(numbers(x@), mid_fee@, out_fee@, fee_gamma@) matches Ok(Some(v)) && mid_fee@
            <= v <= out_fee@ && (x[0]@ == x[1]@ ==> v == mid_fee@),
{
    let w = WAD as int;
    let a = x[0]@;
    let b = x[1]@;
    let s = a + b;
    lemma_word_range(x[0]);
    lemma_word_range(x[1]);
    lemma_word_range(mid_fee);
    lemma_word_range(fee_gamma);
    let xs = numbers(x@);
    assert(xs.drop_last().drop_last() =~= Seq::<int>::empty());
    reveal_with_fuel(total, 3);
    reveal_with_fuel(evenness, 3);
    lemma_times(w, 2);
    lemma_times(2 * w, a);
    lemma_over(2 * w * a, s);
    lemma_quotient(2 * w * a, s);
    let k1 = (2 * w * a) / s;
    assert(0 <= k1 <= 2 * w) by (nonlinear_arith)
        requires
            0 <= k1,
            k1 * s <= 2 * w * a,
            0 <= a <= s,
            0 < s,
            0 <= w,
    ;
    lemma_times(k1, 2);
    assert(0 <= k1 * 2 * b <= 4 * w * s) by (nonlinear_arith)
        requires
            0 <= k1 <= 2 * w,
            0 <= b <= s,
    ;
    lemma_times(k1 * 2, b);
    lemma_over(k1 * 2 * b, s);
    lemma_quotient(k1 * 2 * b, s);
    let k = (k1 * 2 * b) / s;
    assert(evenness(xs, 2, s) == k);
    let s2 = s * s;
    assert(k * s2 <= (4 * (a * b)) * w) by (nonlinear_arith)
        requires
            k * s <= k1 * 2 * b,
            k1 * s <= 2 * w * a,
            s2 == s * s,
            0 <= b,
            0 < s,
    {
        assert((k * s) * s <= (k1 * 2 * b) * s) by (nonlinear_arith)
            requires
                k * s <= k1 * 2 * b,
                0 < s,
        ;
        assert((k1 * s) * (2 * b) <= (2 * w * a) * (2 * b)) by (nonlinear_arith)
            requires
                k1 * s <= 2 * w * a,
                0 <= b,
        ;
        assert((k1 * 2 * b) * s == (k1 * s) * (2 * b) && (k * s) * s == k * (s * s)) by (nonlinear_arith);
        assert((2 * w * a) * (2 * b) == (4 * (a * b)) * w) by (nonlinear_arith);
    }
    assert(4 * (a * b) <= s2 && 1 <= s2) by (nonlinear_arith)
        requires
            s2 == s * s,
            s == a + b,
            1 <= s,
    ;
    assert(k <= w) by (nonlinear_arith)
        requires
            k * s2 <= (4 * (a * b)) * w,
            4 * (a * b) <= s2,
            1 <= s2,
            0 <= w,
    {
        assert((4 * (a * b)) * w <= s2 * w) by (nonlinear_arith)
            requires
                4 * (a * b) <= s2,
                0 <= w,
        ;
        assert(k * s2 <= w * s2) by (nonlinear_arith)
            requires
                k * s2 <= s2 * w,
        ;
    }
    if a == b {
        assert((2 * w * a) / s == w) by (nonlinear_arith)
            requires
                s == 2 * a,
                a > 0,
        ;
        assert((w * 2 * b) / s == w) by (nonlinear_arith)
            requires
                s == 2 * b,
                b > 0,
        ;
    }
    lemma_weighted(mid_fee@, out_fee@, fee_gamma@, k);
}

} // verus!
