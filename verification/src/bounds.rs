//! Where the iteration toward `D` stays: no step goes above the sum of the balances, and none falls
//! noticeably below the `D` of an even split with the same product.
use crate::fault::Fault;
use crate::fees::lemma_means_3;
use crate::newton::{
    g1k0, k0_3_at, mul1_model, newton_d_3_run, newton_d_step, Step, A_MULTIPLIER, WAD,
};
use crate::uint::{lemma_minus, lemma_over, lemma_plus, lemma_times, modulus, word_add, Word};
use vstd::prelude::*;

verus! {

/// Whether a step of an iteration leads to `v`.
pub open spec fn leads_to(r: Result<Step<int>, Fault>, v: int) -> bool {
    r == Ok::<_, Fault>(Step::Done(v)) || r == Ok::<_, Fault>(Step::Next(v))
}

/// The slope of a step toward `D`, from `d`.
pub open spec fn slope_model(n: int, ann: int, gamma: int, s: int, k0: int, d: int) -> int {
    let w = WAD as int;
    let g = g1k0(gamma, k0);
    let m1 = mul1_model(ann, gamma, d, g);
    let m2 = 2int.times(w).times(n).times(k0).over(g);
    s.plus(s.times(m2).over(w)).plus(m1.times(n).over(k0)).minus(m2.times(d).over(w))
}

/// Where a step toward `D` from `d` leads: the two main terms, and the drift toward an even split where
/// `k0` is short of one. Where it is not, the drift up is left open.
pub open spec fn terms_of(n: int, ann: int, gamma: int, s: int, k0: int, d: int, v: int) -> bool {
    let w = WAD as int;
    let m1 = mul1_model(ann, gamma, d, g1k0(gamma, k0));
    let nf = slope_model(n, ann, gamma, s, k0, d);
    let main = (d * s) / nf - (d * d) / nf;
    &&& k0 < w ==> v == d + main - (((d * (m1 / nf)) / w) * (w - k0)) / k0
    &&& k0 >= w ==> v >= d + main
}

/// The defining inequalities of a quotient.
pub proof fn lemma_quotient(a: int, b: int)
    requires
        0 <= a,
        0 < b,
    ensures
        0 <= a / b <= a,
        (a / b) * b <= a < (a / b + 1) * b,
{
    assert((a / b) * b <= a < (a / b + 1) * b && 0 <= a / b <= a) by (nonlinear_arith)
        requires
            0 <= a,
            0 < b,
    ;
}

pub proof fn lemma_gap(gamma: int, k0: int)
    requires
        0 < gamma,
        gamma + 2 * WAD < modulus(),
        0 <= k0 <= WAD + gamma,
    ensures
        1 <= g1k0(gamma, k0) <= gamma + WAD + 1,
        k0 > WAD ==> g1k0(gamma, k0) <= gamma,
        k0 <= WAD ==> gamma < g1k0(gamma, k0),
        k0 < WAD + gamma ==> g1k0(gamma, k0) == gamma + WAD - k0 + 1,
{
    let w = WAD as int;
    lemma_plus(gamma, w);
    let base = gamma + w;
    if base > k0 {
        lemma_minus(base, k0);
        lemma_plus(base - k0, 1);
    } else {
        lemma_minus(k0, base);
        lemma_plus(0, 1);
    }
}

/// A number of at most `wd`, divided by `gamma` and multiplied by `g`, is at most `c` times `wd`.
pub proof fn lemma_rescale(v: int, wd: int, gamma: int, g: int, c: int)
    requires
        0 <= v <= wd,
        0 < gamma,
        0 <= g <= c * gamma,
        0 <= c,
    ensures
        0 <= (v / gamma) * g <= c * wd,
{
    lemma_quotient(v, gamma);
    let t = v / gamma;
    assert(0 <= t * g <= t * (c * gamma)) by (nonlinear_arith)
        requires
            0 <= t,
            0 <= g <= c * gamma,
    ;
    assert(t * (c * gamma) == c * (t * gamma)) by (nonlinear_arith);
    assert(c * (t * gamma) <= c * wd) by (nonlinear_arith)
        requires
            0 <= c,
            t * gamma <= wd,
    ;
}

pub proof fn lemma_mul1(ann: int, gamma: int, d: int, g: int, c: int)
    requires
        1 <= ann,
        0 < gamma,
        0 <= g <= c * gamma,
        1 <= c <= 100_000_002,
        0 <= d <= 31_000_000_000_000_000_000_000_000_000,
    ensures
        0 <= mul1_model(ann, gamma, d, g),
        mul1_model(ann, gamma, d, g) * ann <= 10_000 * (c * (c * (WAD * d))),
{
    let w = WAD as int;
    let a = A_MULTIPLIER as int;
    let wd = w * d;
    lemma_times(w, d);
    lemma_over(wd, gamma);
    let t1 = wd / gamma;
    lemma_rescale(wd, wd, gamma, g, c);
    let t2 = t1 * g;
    let most = 3_200_000_000_000_000_000_000_000_000_000_000_000_000_000_000_000_000_000int;
    assert(c * wd <= most) by (nonlinear_arith)
        requires
            1 <= c <= 100_000_002,
            0 <= wd <= 31_000_000_000_000_000_000_000_000_000_000_000_000_000_000_000,
            most == 3_200_000_000_000_000_000_000_000_000_000_000_000_000_000_000_000_000_000int,
    ;
    lemma_times(t1, g);
    lemma_over(t2, gamma);
    let t3 = t2 / gamma;
    lemma_rescale(t2, c * wd, gamma, g, c);
    let t4 = t3 * g;
    assert(c * (c * wd) <= 100_000_002 * most) by (nonlinear_arith)
        requires
            1 <= c <= 100_000_002,
            0 <= c * wd <= most,
    ;
    lemma_times(t3, g);
    lemma_times(t4, a);
    lemma_over(t4 * a, ann);
    lemma_quotient(t4 * a, ann);
}

/// How far the two main terms of a step lie apart, where the slope is at least `d`.
proof fn lemma_main_terms(d: int, s: int, nf: int)
    requires
        1 <= d <= s,
        d <= nf,
    ensures
        0 <= (d * d) / nf <= (d * s) / nf,
        (d * s) / nf - (d * d) / nf <= s - d,
        (d * (nf + s)) / nf == d + (d * s) / nf,
{
    let a = (d * s) / nf;
    let b = (d * d) / nf;
    assert(0 <= d * d <= d * s) by (nonlinear_arith)
        requires
            1 <= d <= s,
    ;
    lemma_quotient(d * s, nf);
    lemma_quotient(d * d, nf);
    vstd::arithmetic::div_mod::lemma_div_is_ordered(d * d, d * s, nf);
    if a - b > s - d {
        assert((a - b - 1) * nf >= (s - d) * d) by (nonlinear_arith)
            requires
                a - b - 1 >= s - d >= 0,
                nf >= d >= 1,
        ;
        assert((a - b - 1) * nf == a * nf - (b + 1) * nf) by (nonlinear_arith);
        assert((s - d) * d == d * s - d * d) by (nonlinear_arith);
    }
    assert(d * (nf + s) == d * s + nf * d) by (nonlinear_arith);
    vstd::arithmetic::div_mod::lemma_hoist_over_denominator(d * s, d, nf as nat);
    assert(nf * d == d * nf) by (nonlinear_arith);
}

/// The rate of the drift is less than an `n`th of `k0`.
proof fn lemma_rate(n: int, m1: int, k0: int, f: int, nf: int)
    requires
        1 <= n,
        0 <= m1,
        1 <= k0,
        f == (m1 * n) / k0,
        nf >= f + 1,
    ensures
        0 <= f,
        f * k0 <= m1 * n < (f + 1) * k0,
        0 <= m1 / nf,
        (m1 / nf) * nf <= m1,
        (m1 / nf) * n <= k0,
{
    assert(0 <= m1 * n) by (nonlinear_arith)
        requires
            0 <= m1,
            1 <= n,
    ;
    lemma_quotient(m1 * n, k0);
    lemma_quotient(m1, nf);
    let q = m1 / nf;
    assert((q * n) * (f + 1) <= m1 * n) by (nonlinear_arith)
        requires
            q * nf <= m1,
            nf >= f + 1,
            q >= 0,
            n >= 1,
    ;
    assert(q * n <= k0) by (nonlinear_arith)
        requires
            (q * n) * (f + 1) < (f + 1) * k0,
            f + 1 >= 1,
    ;
}

/// The drift toward an even split takes off at most an `n`th of what `k0` is short of one.
proof fn lemma_drift_down(n: int, d: int, q: int, k0: int)
    requires
        1 <= n,
        0 <= d,
        0 <= q,
        q * n <= k0,
        1 <= k0 <= WAD,
    ensures
        0 <= ((d * q) / (WAD as int)) * (WAD - k0) / k0,
        (((d * q) / (WAD as int)) * (WAD - k0) / k0) * n * WAD <= d * (WAD - k0),
{
    let w = WAD as int;
    assert(0 <= d * q) by (nonlinear_arith)
        requires
            0 <= d,
            0 <= q,
    ;
    lemma_quotient(d * q, w);
    let drift = (d * q) / w;
    let gap = w - k0;
    assert(0 <= drift * gap) by (nonlinear_arith)
        requires
            0 <= drift,
            0 <= gap,
    ;
    lemma_quotient(drift * gap, k0);
    let t = (drift * gap) / k0;
    assert((t * k0) * w <= (d * q) * gap) by (nonlinear_arith)
        requires
            t * k0 <= drift * gap,
            drift * w <= d * q,
            0 <= gap,
            0 <= w,
    ;
    assert(((d * q) * gap) * n <= (d * gap) * k0) by (nonlinear_arith)
        requires
            q * n <= k0,
            0 <= d,
            0 <= gap,
    ;
    assert(((t * k0) * w) * n <= ((d * q) * gap) * n) by (nonlinear_arith)
        requires
            (t * k0) * w <= (d * q) * gap,
            1 <= n,
    ;
    assert(((t * k0) * w) * n == (t * n * w) * k0) by (nonlinear_arith);
    assert(t * n * w <= d * gap) by (nonlinear_arith)
        requires
            (t * n * w) * k0 <= (d * gap) * k0,
            1 <= k0,
    ;
}

/// The drift up from below an even split is no more than `d` can lose to the square term.
proof fn lemma_drift_up(n: int, d: int, m1: int, k0: int, f: int, nf: int)
    requires
        1 <= n,
        1 <= d,
        0 <= m1 <= WAD * d,
        WAD <= k0,
        1 <= nf,
        0 <= f,
        m1 * n < (f + 1) * k0,
    ensures
        0 <= ((d * (m1 / nf)) / (WAD as int)) * (k0 - WAD) / k0 <= (d * d) / nf,
        (((d * (m1 / nf)) / (WAD as int)) * (k0 - WAD) / k0) * nf * n * WAD <= d * (f + 1) * (k0 - WAD),
{
    let w = WAD as int;
    let e = k0 - w;
    lemma_quotient(m1, nf);
    let q = m1 / nf;
    assert(0 <= d * q) by (nonlinear_arith)
        requires
            0 <= d,
            0 <= q,
    ;
    lemma_quotient(d * q, w);
    let drift = (d * q) / w;
    assert(0 <= drift * e) by (nonlinear_arith)
        requires
            0 <= drift,
            0 <= e,
    ;
    lemma_quotient(drift * e, k0);
    let y = (drift * e) / k0;
    assert((y * k0) * w <= (d * q) * e) by (nonlinear_arith)
        requires
            y * k0 <= drift * e,
            drift * w <= d * q,
            0 <= e,
            0 <= w,
    ;
    assert(((d * q) * e) * nf <= (d * e) * m1) by (nonlinear_arith)
        requires
            q * nf <= m1,
            0 <= d,
            0 <= e,
    ;
    assert(((y * k0) * w) * nf <= ((d * q) * e) * nf) by (nonlinear_arith)
        requires
            (y * k0) * w <= (d * q) * e,
            1 <= nf,
    ;
    assert(((y * k0) * w) * nf == (y * nf * w) * k0) by (nonlinear_arith);
    // against the square term
    assert((d * e) * m1 <= (d * (w * d)) * k0) by (nonlinear_arith)
        requires
            0 <= e <= k0,
            0 <= m1 <= w * d,
            1 <= d,
    ;
    assert(y * nf * w <= d * (w * d)) by (nonlinear_arith)
        requires
            (y * nf * w) * k0 <= (d * (w * d)) * k0,
            1 <= k0,
    ;
    assert(y * nf <= d * d) by (nonlinear_arith)
        requires
            y * nf * w <= d * (w * d),
            w == 1_000_000_000_000_000_000,
    ;
    assert(0 <= d * d) by (nonlinear_arith);
    lemma_quotient(d * d, nf);
    let b = (d * d) / nf;
    assert(y <= b) by (nonlinear_arith)
        requires
            y * nf < (b + 1) * nf,
            1 <= nf,
    ;
    // against the room that is left
    assert(((d * e) * m1) * n <= (d * e) * ((f + 1) * k0)) by (nonlinear_arith)
        requires
            m1 * n < (f + 1) * k0,
            0 <= d * e,
    {
        assert(((d * e) * m1) * n == (d * e) * (m1 * n)) by (nonlinear_arith);
    }
    assert(((y * nf * w) * k0) * n <= ((d * e) * m1) * n) by (nonlinear_arith)
        requires
            (y * nf * w) * k0 <= (d * e) * m1,
            1 <= n,
    ;
    assert(((y * nf * w) * k0) * n == (y * nf * n * w) * k0) by (nonlinear_arith);
    assert((d * e) * ((f + 1) * k0) == (d * (f + 1) * e) * k0) by (nonlinear_arith);
    assert(y * nf * n * w <= d * (f + 1) * e) by (nonlinear_arith)
        requires
            (y * nf * n * w) * k0 <= (d * (f + 1) * e) * k0,
            1 <= k0,
    ;
}

/// The drift up leaves a step at or below the sum.
proof fn lemma_room(n: int, h: int, d: int, s: int, k0: int, f: int, nf: int, y: int)
    requires
        1 <= n,
        1 <= h,
        1 <= d <= s,
        WAD < k0,
        0 <= f,
        h * (f + 1) <= d,
        s + f <= nf,
        0 <= y,
        y * nf * n * WAD <= d * (f + 1) * (k0 - WAD),
        2 * (k0 - WAD) * (d * d) <= n * WAD * (s - d) * (2 * d + h * (s - d)),
    ensures
        (d * s) / nf - (d * d) / nf + y <= s - d,
{
    let w = WAD as int;
    let e = k0 - w;
    let m = s - d;
    assert(2 * d * (y * nf * n * w) <= (f + 1) * (2 * e * (d * d))) by (nonlinear_arith)
        requires
            y * nf * n * w <= d * (f + 1) * e,
            1 <= d,
    ;
    assert((f + 1) * (2 * e * (d * d)) <= (f + 1) * (n * w * m * (2 * d + h * m))) by (nonlinear_arith)
        requires
            2 * e * (d * d) <= n * w * m * (2 * d + h * m),
            0 <= f,
    ;
    let nw = n * w;
    assert(nw >= 1) by (nonlinear_arith)
        requires
            nw == n * w,
            n >= 1,
            w >= 1,
    ;
    assert(2 * d * (y * nf * n * w) == (2 * d * (y * nf)) * nw) by (nonlinear_arith)
        requires
            nw == n * w,
    ;
    assert((f + 1) * (n * w * m * (2 * d + h * m)) == ((f + 1) * (m * (2 * d + h * m))) * nw)
        by (nonlinear_arith)
        requires
            nw == n * w,
    ;
    assert(2 * d * (y * nf) <= (f + 1) * (m * (2 * d + h * m))) by (nonlinear_arith)
        requires
            (2 * d * (y * nf)) * nw <= ((f + 1) * (m * (2 * d + h * m))) * nw,
            nw >= 1,
    ;
    assert((f + 1) * (m * (2 * d + h * m)) == 2 * d * (m * (f + 1)) + (m * m) * (h * (f + 1)))
        by (nonlinear_arith);
    assert((m * m) * (h * (f + 1)) <= (m * m) * d) by (nonlinear_arith)
        requires
            h * (f + 1) <= d,
    ;
    assert(2 * (y * nf) <= 2 * (m * (f + 1)) + m * m) by (nonlinear_arith)
        requires
            2 * d * (y * nf) <= 2 * d * (m * (f + 1)) + (m * m) * d,
            1 <= d,
    ;
    let a = (d * s) / nf;
    let b = (d * d) / nf;
    assert(0 <= d * s && 0 <= d * d) by (nonlinear_arith)
        requires
            1 <= d <= s,
    ;
    lemma_quotient(d * s, nf);
    lemma_quotient(d * d, nf);
    if a - b + y > m {
        assert((m - y) * nf <= (a - b - 1) * nf) by (nonlinear_arith)
            requires
                m - y <= a - b - 1,
                1 <= nf,
        ;
        assert((a - b - 1) * nf == a * nf - (b + 1) * nf) by (nonlinear_arith);
        assert(d * s - d * d == d * m) by (nonlinear_arith)
            requires
                m == s - d,
        ;
        assert((m - y) * nf == m * nf - y * nf) by (nonlinear_arith);
        assert(m * nf - d * m >= m * (m + f)) by (nonlinear_arith)
            requires
                nf >= d + m + f,
                m >= 0,
        ;
        assert(m * (m + f) == m * m + m * (f + 1) - m) by (nonlinear_arith);
        assert(m * m - 2 * m + 1 >= 0) by (nonlinear_arith);
    }
}

/// Whether the sum of the balances is small enough, and `k0` large enough, for the terms of a step to
/// be words.
pub open spec fn in_range(s: int, k0: int) -> bool {
    ||| s <= 30_000_000_000_000_000_000_000_000_000 && 190_000_000_000_000 <= k0
    ||| s <= 300_000_000_000_000_000_000_000_000 && 19_000_000_000 <= k0
}

/// The feedback term of the slope, and its product with `d`, are words.
proof fn lemma_feedback_size(n: int, ann: int, s: int, k0: int, d: int, m1: int)
    requires
        2 <= n <= 3,
        20_001 <= ann,
        in_range(s, k0),
        1 <= d <= s + 3,
        0 <= m1,
        m1 * ann <= 10_000 * (100_000_002 * (100_000_002 * (WAD * d))),
    ensures
        0 <= m1 * n < modulus(),
        0 <= (m1 * n) / k0 <= 240_000_000_000_000_000_000_000_000_000_000_000_000_000_000_000_000,
        0 <= d * ((m1 * n) / k0) <= 73_000_000_000_000_000_000_000_000_000_000_000_000_000_000_000_000_000_000_000_000_000_000_000_000_000,
{
    let m = 5_000_000_000_000_000_000_000_000_000_000_000 * d;
    assert(m1 <= m) by (nonlinear_arith)
        requires
            m1 * ann <= 100_000_004_000_000_040_000_000_000_000_000_000_000 * d,
            20_001 <= ann,
            0 <= m1,
            1 <= d,
            m == 5_000_000_000_000_000_000_000_000_000_000_000 * d,
    ;
    let k = m1 * n;
    assert(0 <= k <= 3 * m) by (nonlinear_arith)
        requires
            0 <= m1 <= m,
            2 <= n <= 3,
            k == m1 * n,
    ;
    lemma_quotient(k, k0);
    let f = k / k0;
    if s <= 300_000_000_000_000_000_000_000_000 {
        assert(f <= 240_000_000_000_000_000_000_000_000_000_000_000_000_000_000_000_000) by (nonlinear_arith)
            requires
                f * k0 <= 4_500_000_000_000_000_000_000_000_045_000_000_000_000_000_000_000_000_000_000_000,
                19_000_000_000 <= k0,
        ;
        assert(0 <= d * f <= 73_000_000_000_000_000_000_000_000_000_000_000_000_000_000_000_000_000_000_000_000_000_000_000_000_000) by (nonlinear_arith)
            requires
                0 <= f <= 240_000_000_000_000_000_000_000_000_000_000_000_000_000_000_000_000,
                1 <= d <= 300_000_000_000_000_000_000_000_003,
        ;
    } else {
        assert(f <= 2_400_000_000_000_000_000_000_000_000_000_000_000_000_000_000_000) by (nonlinear_arith)
            requires
                f * k0 <= 450_000_000_000_000_000_000_000_000_045_000_000_000_000_000_000_000_000_000_000_000,
                190_000_000_000_000 <= k0,
        ;
        assert(0 <= d * f <= 73_000_000_000_000_000_000_000_000_000_000_000_000_000_000_000_000_000_000_000_000_000_000_000_000_000) by (nonlinear_arith)
            requires
                0 <= f <= 2_400_000_000_000_000_000_000_000_000_000_000_000_000_000_000_000,
                1 <= d <= 30_000_000_000_000_000_000_000_000_003,
        ;
    }
}

/// The slope of a step toward `D`, together with the term that it begins from and the feedback term:
/// none of the terms leaves the words.
pub proof fn lemma_slope(n: int, ann: int, gamma: int, s: int, k0: int, d: int) -> (r: (int, int, int, int))
    requires
        2 <= n <= 3,
        20_001 <= ann,
        10_000_000_000 <= gamma,
        gamma + 2 * WAD < modulus(),
        10_000_000_000 <= s || d <= s,
        in_range(s, k0),
        1 <= d <= s + 3,
        k0 <= 2 * WAD,
        k0 <= WAD + gamma,
        d > s ==> k0 < WAD,
    ensures
        ({
            let (m1, f, nf, m2) = r;
            let w = WAD as int;
            let g = g1k0(gamma, k0);
            &&& m2 == 2int.times(w).times(n).times(k0).over(g)
            &&& 0 <= m2
            &&& m2 * g <= 2 * w * n * k0
            &&& d <= s ==> (nf - s - f - 1) * w <= m2 * (s - d)
            &&& d > s ==> nf <= s + f
            &&& nf == slope_model(n, ann, gamma, s, k0, d)
            &&& m1 == mul1_model(ann, gamma, d, g)
            &&& 0 <= m1
            &&& g != 0
            &&& k0 > WAD ==> m1 * ann <= 10_000 * (WAD * d)
            &&& f == (m1 * n) / k0
            &&& 0 <= f
            &&& nf == s.plus(s.times(m2).over(w)).plus(m1.times(n).over(k0)).minus(m2.times(d).over(w))
            &&& d <= s ==> s + f <= nf
            &&& d > s ==> s + f - 2_000_000_000 <= nf
            &&& 0 <= nf + s < modulus()
            &&& 0 <= d * (nf + s) < modulus()
        }),
{
    let w = WAD as int;
    let g = g1k0(gamma, k0);
    lemma_gap(gamma, k0);
    let m1 = mul1_model(ann, gamma, d, g);
    lemma_mul1(ann, gamma, d, g, 100_000_002);
    if k0 > w {
        lemma_mul1(ann, gamma, d, g, 1);
    }
    lemma_feedback_size(n, ann, s, k0, d, m1);
    lemma_times(2, w);
    lemma_times(2 * w, n);
    let x = 2 * w * n * k0;
    assert(0 <= x <= 12_000_000_000_000_000_000_000_000_000_000_000_000) by (nonlinear_arith)
        requires
            x == 2 * w * n * k0,
            w == 1_000_000_000_000_000_000,
            2 <= n <= 3,
            0 <= k0 <= 2_000_000_000_000_000_000,
    ;
    lemma_times(2 * w * n, k0);
    lemma_over(x, g);
    lemma_quotient(x, g);
    let m2 = x / g;
    assert(0 <= m2 * d && 0 <= s * m2 <= 360_000_000_000_000_000_000_000_000_000_000_000_000_000_000_000_000_000_000_000_000_000 && m2 * d <= s * m2 + 3 * m2) by (nonlinear_arith)
        requires
            0 <= m2 <= 12_000_000_000_000_000_000_000_000_000_000_000_000,
            1 <= d <= s + 3,
            0 <= s <= 30_000_000_000_000_000_000_000_000_000,
    ;
    assert(d <= s ==> m2 * d <= s * m2) by (nonlinear_arith)
        requires
            0 <= m2,
    ;
    lemma_times(s, m2);
    lemma_over(s * m2, w);
    lemma_times(m2, d);
    lemma_over(m2 * d, w);
    lemma_times(m1, n);
    lemma_over(m1 * n, k0);
    let a2 = (s * m2) / w;
    let b2 = (m2 * d) / w;
    let f = (m1 * n) / k0;
    lemma_quotient(m2 * d, w);
    lemma_quotient(s * m2, w);
    if d <= s {
        vstd::arithmetic::div_mod::lemma_div_is_ordered(m2 * d, s * m2, w);
        assert(s * m2 - m2 * d == m2 * (s - d)) by (nonlinear_arith);
    } else {
        assert(s * m2 <= m2 * d) by (nonlinear_arith)
            requires
                s < d,
                0 <= m2,
        ;
        vstd::arithmetic::div_mod::lemma_div_is_ordered(s * m2, m2 * d, w);
        // the gap is above gamma here, and so 3 * m2 is small
        assert(g >= 10_000_000_000);
        assert(x <= 6_000_000_000_000_000_000_000_000_000_000_000_000) by (nonlinear_arith)
            requires
                x == 2 * w * n * k0,
                w == 1_000_000_000_000_000_000,
                2 <= n <= 3,
                0 <= k0 < w,
        ;
        assert(m2 <= 600_000_000_000_000_000_000_000_000) by (nonlinear_arith)
            requires
                m2 * g <= 6_000_000_000_000_000_000_000_000_000_000_000_000,
                10_000_000_000 <= g,
        ;
        assert(b2 <= a2 + 2_000_000_000);
    }
    lemma_plus(s, a2);
    lemma_plus(s + a2, f);
    lemma_minus(s + a2 + f, b2);
    let nf = s + a2 + f - b2;
    assert(d * (nf + s) == d * (2 * s + a2 - b2) + d * f) by (nonlinear_arith)
        requires
            nf == s + a2 + f - b2,
    ;
    assert(-10_000_000_000_000_000_000_000_000_000_000_000_000_000 <= d * (2 * s + a2 - b2) <= 12_000_000_000_000_000_000_000_000_000_000_000_000_000_000_000_000_000_000_000_000_000_000_000_000_000) by (nonlinear_arith)
        requires
            1 <= d <= 30_000_000_000_000_000_000_000_000_003,
            -2_000_000_000 <= 2 * s + a2 - b2 <= 370_000_000_000_000_000_000_000_000_000_000_000_000_000_000_000,
    ;
    assert(0 <= d * (nf + s)) by (nonlinear_arith)
        requires
            1 <= d,
            0 <= nf + s,
    ;
    (m1, f, nf, m2)
}

/// A step toward `D` of `n` coins, from a number that is neither above the sum `s` of the balances nor
/// much below an even split with the same product, is again no higher than the sum. It falls by no
/// more than an `n`th of what `k0` is short of one, and where `k0` is not short it does not fall.
pub proof fn lemma_d_step(n: int, h: int, ann: int, gamma: int, s: int, k0: int, d: int) -> (v: int)
    requires
        (n == 2 && h == 1) || (n == 3 && h == 4),
        10_000 * n * h + 1 <= ann,
        10_000_000_000 <= gamma,
        gamma + 2 * WAD < modulus(),
        500_000 <= d <= s,
        in_range(s, k0),
        k0 <= 2 * WAD,
        k0 <= WAD + gamma,
        k0 > WAD ==> 2 * (k0 - WAD) * (d * d) <= n * WAD * (s - d) * (2 * d + h * (s - d)),
    ensures
        leads_to(newton_d_step(n, ann, gamma, s, k0, d), v),
        0 < v <= s,
        k0 >= WAD ==> d <= v,
        k0 < WAD ==> (d - v) * n * WAD <= d * (WAD - k0),
        terms_of(n, ann, gamma, s, k0, d, v),
{
    let w = WAD as int;
    let (m1, f, nf, _m2) = lemma_slope(n, ann, gamma, s, k0, d);
    assert(0 <= d * d <= d * (nf + s)) by (nonlinear_arith)
        requires
            1 <= d <= nf,
            0 <= s,
    ;
    lemma_plus(nf, s);
    lemma_times(d, nf + s);
    lemma_over(d * (nf + s), nf);
    lemma_times(d, d);
    lemma_over(d * d, nf);
    lemma_main_terms(d, s, nf);
    lemma_quotient(d * (nf + s), nf);
    lemma_rate(n, m1, k0, f, nf);
    lemma_over(m1, nf);
    let q = m1 / nf;
    lemma_drift(n, d, q, k0);
    let drift = (d * q) / w;
    let a = (d * s) / nf;
    let b = (d * d) / nf;
    let v = if w > k0 {
        let t = (drift * (w - k0)) / k0;
        lemma_drift_down(n, d, q, k0);
        lemma_fall(n, d, k0, t);
        lemma_plus(b, t);
        lemma_minus(d + a, b + t);
        let v = d + a - b - t;
        assert((d - v) * n * w <= d * (w - k0)) by (nonlinear_arith)
            requires
                d - v <= t,
                t * n * w <= d * (w - k0),
                1 <= n,
                1 <= w,
        ;
        v
    } else {
        let e = k0 - w;
        let y = (drift * e) / k0;
        if e == 0 {
            assert(drift * e == 0) by (nonlinear_arith)
                requires
                    e == 0,
            ;
            lemma_quotient(0, k0);
            assert(y == 0);
        } else {
            lemma_feedback(n, h, ann, d, k0, m1, f);
            lemma_drift_up(n, d, m1, k0, f, nf);
            lemma_room(n, h, d, s, k0, f, nf, y);
        }
        lemma_minus(b, y);
        lemma_minus(d + a, b - y);
        d + a - b + y
    };
    v
}

/// A step toward `D` from a number of at most three above the sum `s` of the balances does not rise. It
/// falls by no more than an `n`th of what `k0` is short of one, and five.
pub proof fn lemma_d_step_above(n: int, ann: int, gamma: int, s: int, k0: int, d: int) -> (v: int)
    requires
        2 <= n <= 3,
        20_001 <= ann,
        10_000_000_000 <= gamma,
        gamma + 2 * WAD < modulus(),
        100_000_000_000 <= s,
        in_range(s, k0),
        s < d <= s + 3,
        k0 < WAD,
    ensures
        leads_to(newton_d_step(n, ann, gamma, s, k0, d), v),
        0 < v <= d,
        (d - v - 5) * n * WAD <= d * (WAD - k0),
        terms_of(n, ann, gamma, s, k0, d, v),
{
    let w = WAD as int;
    let (m1, f, nf, _m2) = lemma_slope(n, ann, gamma, s, k0, d);
    let a = (d * s) / nf;
    let b = (d * d) / nf;
    assert(0 <= d * s <= d * d <= d * s + 3 * d) by (nonlinear_arith)
        requires
            0 <= s < d <= s + 3,
    ;
    assert(d * d <= d * (nf + s)) by (nonlinear_arith)
        requires
            1 <= d <= nf + s,
    ;
    lemma_plus(nf, s);
    lemma_times(d, nf + s);
    lemma_over(d * (nf + s), nf);
    lemma_times(d, d);
    lemma_over(d * d, nf);
    lemma_quotient(d * s, nf);
    lemma_quotient(d * d, nf);
    vstd::arithmetic::div_mod::lemma_div_is_ordered(d * s, d * d, nf);
    assert(d * (nf + s) == d * s + nf * d) by (nonlinear_arith);
    vstd::arithmetic::div_mod::lemma_hoist_over_denominator(d * s, d, nf as nat);
    assert(nf * d == d * nf) by (nonlinear_arith);
    lemma_quotient(d * (nf + s), nf);
    if b - a > 5 {
        assert((b - a - 1) * nf >= 5 * nf) by (nonlinear_arith)
            requires
                b - a > 5,
                nf >= 1,
        ;
        assert((b - a - 1) * nf == b * nf - (a + 1) * nf) by (nonlinear_arith);
    }
    lemma_rate(n, m1, k0, f, nf);
    lemma_over(m1, nf);
    let q = m1 / nf;
    lemma_drift(n, d, q, k0);
    let drift = (d * q) / w;
    let t = (drift * (w - k0)) / k0;
    lemma_drift_down(n, d, q, k0);
    lemma_fall(n, d, k0, t);
    lemma_plus(b, t);
    lemma_minus(d + a, b + t);
    let v = d + a - b - t;
    assert((d - v - 5) * n * w <= d * (w - k0)) by (nonlinear_arith)
        requires
            d - v - 5 <= t,
            t * n * w <= d * (w - k0),
            1 <= n,
            1 <= w,
    ;
    v
}

/// The drift is calculated within the words.
proof fn lemma_drift(n: int, d: int, q: int, k0: int)
    requires
        1 <= n,
        1 <= d <= 30_000_000_000_000_000_000_000_000_003,
        0 <= q,
        q * n <= k0,
        1 <= k0 <= 2 * WAD,
    ensures
        ({
            let w = WAD as int;
            let drift = (d * q) / w;
            &&& d.times(q).over(w) == drift
            &&& k0 < w ==> drift.times(w.minus(k0)).over(k0) == (drift * (w - k0)) / k0
            &&& k0 >= w ==> drift.times(k0.minus(w)).over(k0) == (drift * (k0 - w)) / k0
        }),
{
    let w = WAD as int;
    assert(0 <= q <= k0) by (nonlinear_arith)
        requires
            q * n <= k0,
            n >= 1,
            q >= 0,
    ;
    assert(0 <= d * q <= 60_000_000_000_000_001_000_000_000_000_000_000_000_000_000_000) by (nonlinear_arith)
        requires
            1 <= d <= 30_000_000_000_000_000_000_000_000_003,
            0 <= q <= 2_000_000_000_000_000_000,
    ;
    lemma_times(d, q);
    lemma_over(d * q, w);
    lemma_quotient(d * q, w);
    let drift = (d * q) / w;
    if k0 < w {
        lemma_minus(w, k0);
        assert(0 <= drift * (w - k0) <= drift * w) by (nonlinear_arith)
            requires
                0 <= drift,
                0 <= k0 < w,
        ;
        lemma_times(drift, w - k0);
        lemma_over(drift * (w - k0), k0);
    } else {
        lemma_minus(k0, w);
        assert(0 <= drift * (k0 - w) <= drift * w) by (nonlinear_arith)
            requires
                0 <= drift,
                w <= k0 <= 2 * w,
        ;
        lemma_times(drift, k0 - w);
        lemma_over(drift * (k0 - w), k0);
    }
}

/// The drift down is less than half of `d`.
proof fn lemma_fall(n: int, d: int, k0: int, t: int)
    requires
        2 <= n,
        1 <= d,
        1 <= k0 < WAD,
        0 <= t,
        t * n * WAD <= d * (WAD - k0),
    ensures
        2 * t < d,
{
    let w = WAD as int;
    assert(2 * t < d) by (nonlinear_arith)
        requires
            t * n * w <= d * (w - k0),
            2 <= n,
            0 <= t,
            1 <= k0 < w,
            1 <= d,
    ;
}

/// Below an even split the feedback term of the slope is at most an `h`th of `d`.
proof fn lemma_feedback(n: int, h: int, ann: int, d: int, k0: int, m1: int, f: int)
    requires
        (n == 2 && h == 1) || (n == 3 && h == 4),
        10_000 * n * h + 1 <= ann,
        500_000 <= d,
        WAD <= k0,
        0 <= m1,
        0 <= f,
        m1 * ann <= 10_000 * (WAD * d),
        f * k0 <= m1 * n,
    ensures
        m1 <= WAD * d,
        h * (f + 1) <= d,
{
    let w = WAD as int;
    let least = 10_000 * n * h + 1;
    assert(m1 * least <= m1 * ann) by (nonlinear_arith)
        requires
            0 <= m1,
            least <= ann,
    ;
    assert(m1 <= w * d) by (nonlinear_arith)
        requires
            m1 * least <= 10_000 * (w * d),
            20_001 <= least,
            0 <= m1,
            0 <= w * d,
    ;
    assert(f * w <= m1 * n) by (nonlinear_arith)
        requires
            f * k0 <= m1 * n,
            w <= k0,
            0 <= f,
    ;
    assert((f * w) * least <= (10_000 * n * d) * w) by (nonlinear_arith)
        requires
            f * w <= m1 * n,
            m1 * least <= 10_000 * (w * d),
            20_001 <= least,
            2 <= n <= 3,
    ;
    assert(f * least <= 10_000 * n * d) by (nonlinear_arith)
        requires
            (f * w) * least <= (10_000 * n * d) * w,
            1 <= w,
    ;
    if n == 2 {
        assert(f * 20_001 <= 20_000 * d);
        assert(h * (f + 1) == f + 1);
    } else {
        assert(f * 120_001 <= 30_000 * d);
        assert(h * (f + 1) == 4 * f + 4);
    }
}

/// Whether `d` is no more than three above the sum of the balances and no lower than their `D` at an
/// even split with the same product, up to one part in ten to the ninth of its cube.
pub open spec fn d_within_3(x: (int, int, int), d: int) -> bool {
    &&& 1_000_000_000_000 <= d <= x.0 + x.1 + x.2 + 3
    &&& 27 * (x.0 * x.1 * x.2) * 1_000_000_000 <= 1_000_000_001 * (d * d * d)
}

/// Whether sorted balances lie from 10^16 to 10^25, the largest at most 5000 times the smallest.
pub open spec fn ample_3(x: (int, int, int)) -> bool {
    &&& 10_000_000_000_000_000 <= x.2 <= x.1 <= x.0 <= 10_000_000_000_000_000_000_000_000
    &&& x.0 <= 5_000 * x.2
}

/// The quotients in `k0` of three coins lose less than six units together.
proof fn lemma_losses_3(w: int, x: (int, int, int), d: int, a: int, b: int, k: int)
    requires
        0 <= w,
        1 <= x.2 <= x.1 <= x.0,
        1 <= d <= 4 * x.0,
        27 * (x.0 * x.1 * x.2) <= 2 * (d * d * d),
        0 <= a,
        0 <= b,
        a * d <= 3 * w * x.0 < (a + 1) * d,
        b * d <= 3 * a * x.1 < (b + 1) * d,
        k * d <= 3 * b * x.2 < (k + 1) * d,
    ensures
        k * (d * d * d) <= 27 * (x.0 * x.1 * x.2) * w <= (k + 6) * (d * d * d),
{
    let p = x.0 * x.1 * x.2;
    let d2 = d * d;
    let d3 = d * d * d;
    let y = x.1 * x.2;
    assert(p == x.0 * y && 1 <= y) by (nonlinear_arith)
        requires
            p == x.0 * x.1 * x.2,
            y == x.1 * x.2,
            1 <= x.2 <= x.1,
    ;
    assert(d2 >= 1 && d3 == d2 * d && d3 <= 4 * (x.0 * d2)) by (nonlinear_arith)
        requires
            d2 == d * d,
            d3 == d * d * d,
            1 <= d <= 4 * x.0,
    ;
    assert(27 * y <= 8 * d2) by (nonlinear_arith)
        requires
            27 * (x.0 * y) <= 8 * (x.0 * d2),
            1 <= x.0,
    ;
    assert(x.2 * x.2 <= y) by (nonlinear_arith)
        requires
            1 <= x.2 <= x.1,
            y == x.1 * x.2,
    ;
    assert(3 * x.2 <= 2 * d) by (nonlinear_arith)
        requires
            27 * (x.2 * x.2) <= 8 * (d * d),
            1 <= d,
            1 <= x.2,
    ;
    // what each quotient is at most
    assert((b * x.2) * d <= (3 * a) * y) by (nonlinear_arith)
        requires
            b * d <= 3 * a * x.1,
            y == x.1 * x.2,
            1 <= x.2,
    ;
    assert((a * y) * d <= 3 * (w * p)) by (nonlinear_arith)
        requires
            a * d <= 3 * w * x.0,
            p == x.0 * y,
            1 <= y,
    ;
    assert(k * d3 <= (3 * (b * x.2)) * d2) by (nonlinear_arith)
        requires
            k * d <= 3 * b * x.2,
            d3 == d2 * d,
            1 <= d2,
    ;
    assert((3 * (b * x.2)) * d2 <= (9 * (a * y)) * d) by (nonlinear_arith)
        requires
            (b * x.2) * d <= (3 * a) * y,
            d2 == d * d,
            1 <= d,
    ;
    assert((9 * (a * y)) * d <= 27 * p * w) by (nonlinear_arith)
        requires
            (a * y) * d <= 3 * (w * p),
    ;
    // what each quotient is at least
    assert((k + 1) * d3 >= (3 * (b * x.2)) * d2) by (nonlinear_arith)
        requires
            (k + 1) * d > 3 * b * x.2,
            d3 == d2 * d,
            1 <= d2,
    ;
    assert((b * x.2) * d2 + x.2 * d2 >= 3 * ((a * y) * d)) by (nonlinear_arith)
        requires
            (b + 1) * d > 3 * a * x.1,
            d2 == d * d,
            y == x.1 * x.2,
            1 <= d,
            1 <= x.2,
    {
        assert((x.2 * d) * ((b + 1) * d) >= (x.2 * d) * (3 * a * x.1)) by (nonlinear_arith)
            requires
                (b + 1) * d > 3 * a * x.1,
                1 <= d,
                1 <= x.2,
        ;
        assert((x.2 * d) * ((b + 1) * d) == (b * x.2) * d2 + x.2 * d2) by (nonlinear_arith)
            requires
                d2 == d * d,
        ;
        assert((x.2 * d) * (3 * a * x.1) == 3 * ((a * y) * d)) by (nonlinear_arith)
            requires
                y == x.1 * x.2,
        ;
    }
    assert((a * y) * d + y * d >= 3 * (p * w)) by (nonlinear_arith)
        requires
            (a + 1) * d > 3 * w * x.0,
            p == x.0 * y,
            1 <= y,
    {
        assert(y * ((a + 1) * d) >= y * (3 * w * x.0)) by (nonlinear_arith)
            requires
                (a + 1) * d > 3 * w * x.0,
                1 <= y,
        ;
        assert(y * ((a + 1) * d) == (a * y) * d + y * d) by (nonlinear_arith);
        assert(y * (3 * w * x.0) == 3 * (p * w)) by (nonlinear_arith)
            requires
                p == x.0 * y,
        ;
    }
    assert(3 * (x.2 * d2) <= 2 * d3) by (nonlinear_arith)
        requires
            3 * x.2 <= 2 * d,
            d3 == d2 * d,
            1 <= d2,
    ;
    assert(9 * (y * d) <= 3 * d3) by (nonlinear_arith)
        requires
            27 * y <= 8 * d2,
            d3 == d2 * d,
            1 <= d,
            1 <= d2,
    ;
    assert((k + 6) * d3 == (k + 1) * d3 + 5 * d3) by (nonlinear_arith);
    assert((3 * (b * x.2)) * d2 == 3 * ((b * x.2) * d2)) by (nonlinear_arith);
    assert(27 * p * w == 9 * (3 * (p * w))) by (nonlinear_arith);
}

/// The mean of two parts of one cube and one part of another is at least as in an even split.
proof fn lemma_cube_means(a: int, p: int)
    requires
        0 <= a,
        0 <= p,
    ensures
        (2 * a + p) * (2 * a + p) * (2 * a + p) >= 27 * (a * a * p),
{
    let z = 2 * a + p;
    let y = p - a;
    assert(z * z * z - 27 * (a * a * p) == (y * y) * (p + 8 * a)) by (nonlinear_arith)
        requires
            z == 2 * a + p,
            y == p - a,
    ;
    assert((y * y) * (p + 8 * a) >= 0) by (nonlinear_arith)
        requires
            0 <= a,
            0 <= p,
    ;
}

/// A fall of at most a third of what `k` is short of one, and five, stays above an even split.
proof fn lemma_fall_3(p: int, k: int, d: int, v: int)
    requires
        27_000_000_000_000_000_000_000_000_000_000_000_000_000_000_000 <= p,
        1 <= d,
        0 < v,
        p * WAD <= (k + 6) * (d * d * d),
        (d - v - 5) * 3 * WAD <= d * (WAD - k),
    ensures
        p * 1_000_000_000 <= 1_000_000_001 * (v * v * v),
        1_000_000_000_000 <= v,
{
    let w = WAD as int;
    let u = v + 5;
    let d2 = d * d;
    let a = d * d * d;
    assert(1 <= d2 && 1 <= a && a == d2 * d) by (nonlinear_arith)
        requires
            1 <= d,
            d2 == d * d,
            a == d * d * d,
    ;
    assert(3 * w * (u * d2) >= 2 * (w * a) + k * a) by (nonlinear_arith)
        requires
            (d - u) * 3 * w <= d * (w - k),
            a == d2 * d,
            1 <= d2,
    {
        assert(d2 * ((d - u) * 3 * w) <= d2 * (d * (w - k))) by (nonlinear_arith)
            requires
                (d - u) * 3 * w <= d * (w - k),
                1 <= d2,
        ;
        assert(d2 * ((d - u) * 3 * w) == 3 * (w * a) - 3 * w * (u * d2)) by (nonlinear_arith)
            requires
                a == d2 * d,
        ;
        assert(d2 * (d * (w - k)) == w * a - k * a) by (nonlinear_arith)
            requires
                a == d2 * d,
        ;
    }
    let z = 2 * a + p;
    let l = 3 * w * (u * d2);
    let m = (w - 3) * z;
    assert((k + 6) * a == k * a + 6 * a) by (nonlinear_arith);
    assert(m == 2 * (w * a) + p * w - 6 * a - 3 * p) by (nonlinear_arith)
        requires
            m == (w - 3) * z,
            z == 2 * a + p,
    ;
    assert(l >= m);
    assert(0 <= m) by (nonlinear_arith)
        requires
            m == (w - 3) * z,
            w == 1_000_000_000_000_000_000,
            z >= 1,
    ;
    assert(l * l >= m * m >= 0) by (nonlinear_arith)
        requires
            l >= m >= 0,
    ;
    assert(l * l * l >= m * m * m) by (nonlinear_arith)
        requires
            l * l >= m * m >= 0,
            l >= m >= 0,
    ;
    lemma_cube_means(a, p);
    let c = (w - 3) * (w - 3) * (w - 3);
    let z3 = z * z * z;
    assert(c == 999_999_999_999_999_991_000_000_000_000_000_026_999_999_999_999_999_973) by (nonlinear_arith)
        requires
            c == (w - 3) * (w - 3) * (w - 3),
            w == 1_000_000_000_000_000_000,
    ;
    assert(m * m * m == c * z3) by (nonlinear_arith)
        requires
            m == (w - 3) * z,
            c == (w - 3) * (w - 3) * (w - 3),
            z3 == z * z * z,
    ;
    let u3 = u * u * u;
    let w3 = w * w * w;
    let aa = a * a;
    lemma_cubed_product(w, u, d);
    assert(a * a * p == aa * p);
    assert(c * z3 >= c * (27 * (aa * p))) by (nonlinear_arith)
        requires
            z3 >= 27 * (aa * p),
            c == 999_999_999_999_999_991_000_000_000_000_000_026_999_999_999_999_999_973,
    ;
    assert(c * (27 * (aa * p)) == (27 * (c * p)) * aa) by (nonlinear_arith);
    assert(1 <= aa) by (nonlinear_arith)
        requires
            1 <= a,
            aa == a * a,
    ;
    assert(w3 * u3 >= c * p) by (nonlinear_arith)
        requires
            (27 * (w3 * u3)) * aa >= (27 * (c * p)) * aa,
            1 <= aa,
    ;
    assert(w3 == 1_000_000_000_000_000_000_000_000_000_000_000_000_000_000_000_000_000_000) by (nonlinear_arith)
        requires
            w3 == w * w * w,
            w == 1_000_000_000_000_000_000,
    ;
    assert(p * 10_000_000_000 <= 10_000_000_001 * u3) by (nonlinear_arith)
        requires
            w3 * u3 >= c * p,
            w3 == 1_000_000_000_000_000_000_000_000_000_000_000_000_000_000_000_000_000_000,
            c == 999_999_999_999_999_991_000_000_000_000_000_026_999_999_999_999_999_973,
            p >= 1,
    ;
    if u < 1_000_000_000_000_000 {
        assert(u * u < 1_000_000_000_000_000_000_000_000_000_000) by (nonlinear_arith)
            requires
                0 < u < 1_000_000_000_000_000,
        ;
        assert(u * u * u < 1_000_000_000_000_000_000_000_000_000_000_000_000_000_000_000) by (nonlinear_arith)
            requires
                0 < u < 1_000_000_000_000_000,
                0 <= u * u < 1_000_000_000_000_000_000_000_000_000_000,
        ;
    }
    let v3 = v * v * v;
    let v2 = v * v;
    assert(u3 == v3 + 15 * v2 + 75 * v + 125) by (nonlinear_arith)
        requires
            u3 == u * u * u,
            v3 == v * v * v,
            v2 == v * v,
            u == v + 5,
    ;
    assert(v3 >= 999_999_999_999_995 * v2 && v2 >= v) by (nonlinear_arith)
        requires
            v3 == v * v * v,
            v2 == v * v,
            v >= 999_999_999_999_995,
    ;
}

proof fn lemma_cubed_product(w: int, u: int, d: int)
    ensures
        ({
            let l = 3 * w * (u * (d * d));
            let a = d * d * d;
            l * l * l == (27 * ((w * w * w) * (u * u * u))) * (a * a)
        }),
{
    let d2 = d * d;
    let a = d * d * d;
    let l = 3 * w * (u * d2);
    let wu = w * u;
    assert(d2 * d2 * d2 == a * a) by (nonlinear_arith)
        requires
            a == d * d * d,
            d2 == d * d,
    ;
    assert(l == 3 * wu * d2) by (nonlinear_arith)
        requires
            l == 3 * w * (u * d2),
            wu == w * u,
    ;
    assert(l * l * l == (27 * (wu * wu * wu)) * (d2 * d2 * d2)) by (nonlinear_arith)
        requires
            l == 3 * wu * d2,
    ;
    assert(wu * wu * wu == (w * w * w) * (u * u * u)) by (nonlinear_arith)
        requires
            wu == w * u,
    ;
}

pub proof fn lemma_k0_3(x: (int, int, int), d: int)
    requires
        ample_3(x),
        d_within_3(x, d),
    ensures
        19_000_000_000 <= k0_3_at(x, d) <= WAD + 1_000_000_000,
        k0_3_at(x, d) * (d * d * d) <= 27 * (x.0 * x.1 * x.2) * WAD <= (k0_3_at(x, d) + 6) * (d * d * d),
        d > x.0 + x.1 + x.2 ==> k0_3_at(x, d) < WAD,
{
    let w = WAD as int;
    let s = x.0 + x.1 + x.2;
    let p = x.0 * x.1 * x.2;
    lemma_times(w, x.0);
    lemma_times(w * x.0, 3);
    let u = w * x.0 * 3;
    lemma_over(u, d);
    lemma_quotient(u, d);
    let a = u / d;
    assert(0 <= a <= 100_000_000_000_000_000_000_000_000_000_000) by (nonlinear_arith)
        requires
            0 <= a,
            a * d <= 30_000_000_000_000_000_000_000_000_000_000_000_000_000_000,
            1_000_000_000_000 <= d,
    ;
    assert(0 <= a * x.1 <= 1_000_000_000_000_000_000_000_000_000_000_000_000_000_000_000_000_000_000_000) by (nonlinear_arith)
        requires
            0 <= a <= 100_000_000_000_000_000_000_000_000_000_000,
            0 <= x.1 <= 10_000_000_000_000_000_000_000_000,
    ;
    lemma_times(a, x.1);
    lemma_times(a * x.1, 3);
    lemma_over(a * x.1 * 3, d);
    lemma_quotient(a * x.1 * 3, d);
    let b = (a * x.1 * 3) / d;
    assert(0 <= b <= 10_000_000_000_000_000_000_000_000_000_000_000_000_000_000_000) by (nonlinear_arith)
        requires
            0 <= b,
            b * d <= 3_000_000_000_000_000_000_000_000_000_000_000_000_000_000_000_000_000_000_000,
            1_000_000_000_000 <= d,
    ;
    assert(0 <= b * x.2 <= 100_000_000_000_000_000_000_000_000_000_000_000_000_000_000_000_000_000_000_000_000_000_000_000) by (nonlinear_arith)
        requires
            0 <= b <= 10_000_000_000_000_000_000_000_000_000_000_000_000_000_000_000,
            0 <= x.2 <= 10_000_000_000_000_000_000_000_000,
    ;
    lemma_times(b, x.2);
    lemma_times(b * x.2, 3);
    lemma_over(b * x.2 * 3, d);
    lemma_quotient(b * x.2 * 3, d);
    let k = (b * x.2 * 3) / d;
    assert(k == k0_3_at(x, d));
    assert(3 * a * x.1 == a * x.1 * 3 && 3 * b * x.2 == b * x.2 * 3) by (nonlinear_arith);
    let d3 = d * d * d;
    assert(d3 >= 1) by (nonlinear_arith)
        requires
            d >= 1,
            d3 == d * d * d,
    ;
    lemma_losses_3(w, x, d, a, b, k);
    assert(k <= w + 1_000_000_000) by (nonlinear_arith)
        requires
            k * d3 <= 27 * p * w,
            27 * p * 1_000_000_000 <= 1_000_000_001 * d3,
            w == 1_000_000_000_000_000_000,
            1 <= d3,
    ;
    if d > s {
        lemma_means_3(x.0, x.1, x.2);
        assert(s * s * s < d3) by (nonlinear_arith)
            requires
                1 <= s < d,
                d3 == d * d * d,
        {
            assert(s * s < d * d) by (nonlinear_arith)
                requires
                    1 <= s < d,
            ;
            assert((s * s) * s < (d * d) * d) by (nonlinear_arith)
                requires
                    1 <= s < d,
                    0 <= s * s < d * d,
            ;
        }
        assert(k < w) by (nonlinear_arith)
            requires
                k * d3 <= 27 * p * w,
                27 * p < d3,
                1 <= d3,
                1 <= w,
        ;
    }
    // the cube of d is at most 7 * 10^8 times the product of the balances
    let c = x.0 * x.0 * x.0;
    assert(100 * d <= 301 * x.0);
    assert(d3 <= 28 * c) by (nonlinear_arith)
        requires
            1 <= d,
            100 * d <= 301 * x.0,
            d3 == d * d * d,
            c == x.0 * x.0 * x.0,
    {
        assert(10_000 * (d * d) <= 90_601 * (x.0 * x.0)) by (nonlinear_arith)
            requires
                1 <= d,
                100 * d <= 301 * x.0,
        ;
        assert((10_000 * (d * d)) * (100 * d) <= (90_601 * (x.0 * x.0)) * (301 * x.0))
            by (nonlinear_arith)
            requires
                0 <= 10_000 * (d * d) <= 90_601 * (x.0 * x.0),
                0 <= 100 * d <= 301 * x.0,
        ;
        assert((10_000 * (d * d)) * (100 * d) == 1_000_000 * (d * d * d)) by (nonlinear_arith);
        assert((90_601 * (x.0 * x.0)) * (301 * x.0) == 27_270_901 * (x.0 * x.0 * x.0))
            by (nonlinear_arith);
        assert(0 <= x.0 * x.0 * x.0) by (nonlinear_arith)
            requires
                0 <= x.0,
        ;
    }
    assert(c <= 25_000_000 * p) by (nonlinear_arith)
        requires
            c == x.0 * x.0 * x.0,
            p == x.0 * x.1 * x.2,
            0 <= x.2 <= x.1 <= x.0,
            x.0 <= 5_000 * x.2,
    {
        assert(x.0 * x.0 <= 25_000_000 * (x.1 * x.2)) by (nonlinear_arith)
            requires
                0 <= x.2 <= x.1 <= x.0,
                x.0 <= 5_000 * x.2,
        ;
        assert(x.0 * (x.0 * x.0) <= x.0 * (25_000_000 * (x.1 * x.2))) by (nonlinear_arith)
            requires
                x.0 * x.0 <= 25_000_000 * (x.1 * x.2),
                0 <= x.0,
        ;
        assert(x.0 * (x.0 * x.0) == x.0 * x.0 * x.0) by (nonlinear_arith);
        assert(x.0 * (25_000_000 * (x.1 * x.2)) == 25_000_000 * (x.0 * x.1 * x.2)) by (nonlinear_arith);
    }
    assert(k >= 19_000_000_000) by (nonlinear_arith)
        requires
            27 * p * w <= (k + 6) * d3,
            1 <= d3 <= 700_000_000 * p,
            w == 1_000_000_000_000_000_000,
    ;
}

/// Where `k` is above one, it is so by less than the room below the sum allows.
proof fn lemma_excess_3(w: int, s: int, p: int, k: int, d: int)
    requires
        1_000_000_000_000_000_000 <= w,
        1 <= d <= s,
        p <= s * s * s,
        k * (d * d * d) <= p * w,
        w < k <= w + 10_000_000_000,
    ensures
        2 * (k - w) * (d * d) <= 3 * w * (s - d) * (2 * d + 4 * (s - d)),
{
    let m = s - d;
    let e = k - w;
    let d2 = d * d;
    let r = w * m;
    assert(3 * w * m * (2 * d + 4 * m) == 6 * (r * d) + 12 * (r * m)) by (nonlinear_arith)
        requires
            r == w * m,
    ;
    assert(r >= 0) by (nonlinear_arith)
        requires
            r == w * m,
            w >= 0,
            m >= 0,
    ;
    if m > 3 * d {
        assert(2 * e * d2 <= 20_000_000_000 * d2) by (nonlinear_arith)
            requires
                0 <= e <= 10_000_000_000,
                0 <= d2,
        ;
        assert(6 * (r * d) >= 20_000_000_000 * d2) by (nonlinear_arith)
            requires
                r == w * m,
                w >= 1_000_000_000_000_000_000,
                m > 3 * d,
                d >= 1,
                d2 == d * d,
        ;
        assert(r * m >= 0) by (nonlinear_arith)
            requires
                r >= 0,
                m >= 0,
        ;
    } else {
        let d3 = d * d * d;
        assert(s * s * s == d3 + 3 * (m * d2) + 3 * (m * m * d) + m * m * m) by (nonlinear_arith)
            requires
                s == d + m,
                d2 == d * d,
                d3 == d * d * d,
        ;
        assert(p * w <= (s * s * s) * w) by (nonlinear_arith)
            requires
                p <= s * s * s,
                w >= 0,
        ;
        assert((s * s * s) * w == w * d3 + 3 * (r * d2) + 3 * (r * m * d) + r * m * m)
            by (nonlinear_arith)
            requires
                s * s * s == d3 + 3 * (m * d2) + 3 * (m * m * d) + m * m * m,
                r == w * m,
        ;
        assert(k * d3 == w * d3 + e * d3) by (nonlinear_arith)
            requires
                e == k - w,
        ;
        assert(r * m * m <= 3 * (r * m * d)) by (nonlinear_arith)
            requires
                0 <= m <= 3 * d,
                r >= 0,
        {
            assert((r * m) * m <= (r * m) * (3 * d)) by (nonlinear_arith)
                requires
                    0 <= m <= 3 * d,
                    0 <= r * m,
            ;
            assert(0 <= r * m) by (nonlinear_arith)
                requires
                    r >= 0,
                    m >= 0,
            ;
        }
        assert(e * d3 <= 3 * (r * d2) + 6 * (r * m * d));
        assert((2 * e * d2) * d <= (6 * (r * d) + 12 * (r * m)) * d) by (nonlinear_arith)
            requires
                e * d3 <= 3 * (r * d2) + 6 * (r * m * d),
                d2 == d * d,
                d3 == d * d * d,
        {
            assert((2 * e * d2) * d == 2 * (e * d3)) by (nonlinear_arith)
                requires
                    d2 == d * d,
                    d3 == d * d * d,
            ;
            assert((6 * (r * d) + 12 * (r * m)) * d == 6 * (r * d2) + 12 * (r * m * d)) by (nonlinear_arith)
                requires
                    d2 == d * d,
            ;
        }
        assert(2 * e * d2 <= 6 * (r * d) + 12 * (r * m)) by (nonlinear_arith)
            requires
                (2 * e * d2) * d <= (6 * (r * d) + 12 * (r * m)) * d,
                d >= 1,
        ;
    }
}

/// The product of ample balances.
pub proof fn lemma_product_3(x: (int, int, int))
    requires
        ample_3(x),
    ensures
        x.0 * x.1 * x.2 >= 1_000_000_000_000_000_000_000_000_000_000_000_000_000_000_000,
{
    let n = x.0 * x.1;
    assert(n >= 1_000_000_000_000_000_000_000_000_000_000) by (nonlinear_arith)
        requires
            1_000_000_000_000_000 <= x.1 <= x.0,
            n == x.0 * x.1,
    ;
    assert(n * x.2 >= 1_000_000_000_000_000_000_000_000_000_000_000_000_000_000_000) by (nonlinear_arith)
        requires
            1_000_000_000_000_000 <= x.2,
            n >= 1_000_000_000_000_000_000_000_000_000_000,
    ;
}

pub proof fn lemma_within_3(ann: int, gamma: int, x: (int, int, int), d: int) -> (v: int)
    requires
        120_001 <= ann,
        10_000_000_000 <= gamma,
        gamma + 2 * WAD < modulus(),
        ample_3(x),
        d_within_3(x, d),
    ensures
        leads_to(newton_d_step(3, ann, gamma, x.0 + x.1 + x.2, k0_3_at(x, d), d), v),
        terms_of(3, ann, gamma, x.0 + x.1 + x.2, k0_3_at(x, d), d, v),
        d_within_3(x, v),
        v <= d || v <= x.0 + x.1 + x.2,
        k0_3_at(x, d) >= WAD ==> d <= v,
        k0_3_at(x, d) < WAD ==> (d - v - 5) * 3 * WAD <= d * (WAD - k0_3_at(x, d)),
{
    let w = WAD as int;
    let k = k0_3_at(x, d);
    let s = x.0 + x.1 + x.2;
    let p = 27 * (x.0 * x.1 * x.2);
    lemma_k0_3(x, d);
    lemma_means_3(x.0, x.1, x.2);
    lemma_product_3(x);
    if d > s {
        let v = lemma_d_step_above(3, ann, gamma, s, k, d);
        lemma_fall_3(p, k, d, v);
        v
    } else {
        if k > w {
            lemma_excess_3(w, s, p, k, d);
        }
        let v = lemma_d_step(3, 4, ann, gamma, s, k, d);
        if k < w {
            lemma_fall_3(p, k, d, v);
        } else {
            assert(v * v * v >= d * d * d) by (nonlinear_arith)
                requires
                    v >= d >= 1,
            {
                assert(v * v >= d * d) by (nonlinear_arith)
                    requires
                        v >= d >= 1,
                ;
                assert((v * v) * v >= (d * d) * d) by (nonlinear_arith)
                    requires
                        v >= d >= 1,
                        v * v >= d * d >= 0,
                ;
                assert(d * d >= 0) by (nonlinear_arith);
            }
        }
        v
    }
}

/// The iteration toward `D` of three coins never leaves the bounds that it starts in, nor meets a fault.
pub proof fn lemma_run_within_3(ann: int, gamma: int, x: (int, int, int), d: int, fuel: nat)
    requires
        120_001 <= ann,
        10_000_000_000 <= gamma,
        gamma + 2 * WAD < modulus(),
        ample_3(x),
        d_within_3(x, d),
    ensures
        newton_d_3_run(ann, gamma, x, x.0 + x.1 + x.2, d, fuel) is Ok,
        newton_d_3_run(ann, gamma, x, x.0 + x.1 + x.2, d, fuel) matches Ok(Some(v)) ==> d_within_3(x, v),
    decreases fuel,
{
    if fuel > 0 {
        let v = lemma_within_3(ann, gamma, x, d);
        lemma_run_within_3(ann, gamma, x, v, (fuel - 1) as nat);
    }
}

pub proof fn lemma_mul1_even(ann: int, gamma: int, d: int, g: int)
    requires
        1 <= ann,
        1 <= gamma < modulus(),
        g == gamma + 1 || (g >= 1 && gamma > WAD * d),
        0 <= d <= 3_000_000_000_000_000_000_000_000_000_000_000,
    ensures
        0 <= mul1_model(ann, gamma, d, g) <= 40_000 * (WAD * d),
{
    let w = WAD as int;
    let a = A_MULTIPLIER as int;
    let t0 = w * d;
    lemma_times(w, d);
    let t1 = t0 / gamma;
    lemma_over(t0, gamma);
    assert(0 <= t1 * gamma <= t0 && 0 <= t1 <= t0) by (nonlinear_arith)
        requires
            t1 == t0 / gamma,
            t0 >= 0,
            gamma >= 1,
    ;
    let t2 = t1 * g;
    assert(t1 == 0 || g == gamma + 1) by (nonlinear_arith)
        requires
            0 <= t1 * gamma <= t0,
            0 <= t1,
            g == gamma + 1 || gamma > t0,
    ;
    assert(0 <= t2 <= 2 * t0) by (nonlinear_arith)
        requires
            t2 == t1 * g,
            t1 == 0 || g == gamma + 1,
            0 <= t1 * gamma <= t0,
            0 <= t1 <= t0,
    ;
    lemma_times(t1, g);
    let t3 = t2 / gamma;
    lemma_over(t2, gamma);
    assert(0 <= t3 * gamma <= t2 && 0 <= t3 <= t2) by (nonlinear_arith)
        requires
            t3 == t2 / gamma,
            t2 >= 0,
            gamma >= 1,
    ;
    let t4 = t3 * g;
    assert(t2 == 0 || g == gamma + 1) by (nonlinear_arith)
        requires
            t2 == t1 * g,
            t1 == 0 || g == gamma + 1,
    ;
    assert(0 <= t4 <= 2 * t2) by (nonlinear_arith)
        requires
            t4 == t3 * g,
            t2 == 0 || g == gamma + 1,
            0 <= t3 * gamma <= t2,
            0 <= t3 <= t2,
    ;
    lemma_times(t3, g);
    lemma_times(t4, a);
    let t5 = t4 * a;
    lemma_over(t5, ann);
    assert(0 <= t5 / ann <= t5) by (nonlinear_arith)
        requires
            t5 >= 0,
            ann >= 1,
    ;
}

/// At an even split the gap is `gamma + 1`, unless gamma is so large that the sum with one is no word.
pub proof fn lemma_gap_even(gamma: int, d: int)
    requires
        1 <= gamma < modulus(),
        0 <= d <= 3_000_000_000_000_000_000_000_000_000_000_000,
    ensures
        g1k0(gamma, WAD as int) >= 1,
        g1k0(gamma, WAD as int) == gamma + 1 || gamma > WAD * d,
{
    let w = WAD as int;
    if gamma + w < modulus() {
        lemma_plus(gamma, w);
        lemma_minus(gamma + w, w);
        lemma_plus(gamma, 1);
    } else {
        let base = gamma + w - modulus();
        assert(gamma.plus(w) == base) by {
            reveal(word_add);
            vstd::arithmetic::div_mod::lemma_fundamental_div_mod_converse(
                gamma + w,
                modulus(),
                1,
                base,
            );
        }
        lemma_minus(w, base);
        lemma_plus(w - base, 1);
        assert(gamma > w * d);
    }
}

/// A step toward `D` of `n` coins stays where it is at an even split.
pub proof fn lemma_step_even(n: int, ann: int, gamma: int, d: int)
    requires
        2 <= n <= 3,
        1 <= ann,
        1 <= gamma < modulus(),
        1 <= d <= 3_000_000_000_000_000_000_000_000_000_000_000,
    ensures
        newton_d_step(n, ann, gamma, d, WAD as int, d) == Ok::<_, Fault>(Step::Done(d)),
{
    let w = WAD as int;
    let g = g1k0(gamma, w);
    lemma_gap_even(gamma, d);
    let mul1 = mul1_model(ann, gamma, d, g);
    lemma_mul1_even(ann, gamma, d, g);
    lemma_times(2, w);
    lemma_times(2 * w, n);
    let x = 2 * w * n * w;
    assert(0 <= x <= 6_000_000_000_000_000_000_000_000_000_000_000_000) by (nonlinear_arith)
        requires
            x == 2 * w * n * w,
            w == 1_000_000_000_000_000_000,
            2 <= n <= 3,
    ;
    lemma_times(2 * w * n, w);
    lemma_over(x, g);
    lemma_quotient(x, g);
    let mul2 = x / g;
    assert(0 <= d * mul2 <= 18_000_000_000_000_000_000_000_000_000_000_000_000_000_000_000_000_000_000_000_000_000_000_000)
        by (nonlinear_arith)
        requires
            0 <= mul2 <= 6_000_000_000_000_000_000_000_000_000_000_000_000,
            0 <= d <= 3_000_000_000_000_000_000_000_000_000_000_000,
    ;
    lemma_times(d, mul2);
    assert(mul2 * d == d * mul2) by (nonlinear_arith);
    lemma_times(mul2, d);
    let part = (d * mul2) / w;
    lemma_over(d * mul2, w);
    assert(0 <= part <= d * mul2);
    lemma_plus(d, part);
    assert(0 <= mul1 * n <= (120_000 * d) * w) by (nonlinear_arith)
        requires
            0 <= mul1 <= 40_000 * (w * d),
            2 <= n <= 3,
            0 <= w * d,
    ;
    lemma_times(mul1, n);
    lemma_over(mul1 * n, w);
    let rest = (mul1 * n) / w;
    lemma_quotient(mul1 * n, w);
    assert(rest <= 120_000 * d) by (nonlinear_arith)
        requires
            rest * w <= (120_000 * d) * w,
            w >= 1,
    ;
    lemma_plus(d + part, rest);
    lemma_minus(d + part + rest, part);
    let nf = d + rest;
    // the two quotients by nf differ by exactly d
    lemma_plus(nf, d);
    assert(0 <= d * (nf + d) < modulus()) by (nonlinear_arith)
        requires
            0 <= d <= 3_000_000_000_000_000_000_000_000_000_000_000,
            0 <= nf <= 120_001 * d,
            modulus() == 0x1_0000000000000000_0000000000000000_0000000000000000_0000000000000000int,
    ;
    assert(0 <= d * d < modulus()) by (nonlinear_arith)
        requires
            0 <= d <= 3_000_000_000_000_000_000_000_000_000_000_000,
            modulus() == 0x1_0000000000000000_0000000000000000_0000000000000000_0000000000000000int,
    ;
    lemma_times(d, nf + d);
    lemma_times(d, d);
    lemma_over(d * (nf + d), nf);
    lemma_over(d * d, nf);
    let q = (d * d) / nf;
    assert((d * (nf + d)) / nf == d + q) by {
        assert(d * (nf + d) == d * d + nf * d) by (nonlinear_arith);
        vstd::arithmetic::div_mod::lemma_hoist_over_denominator(d * d, d, nf as nat);
        assert(nf * d == d * nf) by (nonlinear_arith);
    }
    assert(0 <= q <= d) by (nonlinear_arith)
        requires
            q == (d * d) / nf,
            0 < d <= nf,
    ;
    // no drift at an even split
    lemma_over(mul1, nf);
    assert(0 <= mul1 / nf <= mul1) by (nonlinear_arith)
        requires
            mul1 >= 0,
            nf >= 1,
    ;
    let drift = d.times(mul1.over(nf)).over(w);
    lemma_minus(w, w);
    lemma_times(drift, 0);
    lemma_over(0, w);
    lemma_minus(q, 0);
    lemma_minus(d + q, q);
    lemma_minus(d, d);
    lemma_times(0, 100_000_000_000_000);
}

} // verus!
