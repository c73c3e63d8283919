//! How `D` grows with the balances.
//!
//! A step that converges leaves an error in the equation of the invariant that is small next to the
//! slope. With larger balances the equation asks for a larger `D`, by more than such errors can hide.
use crate::bounds::{
    in_range, lemma_gap, lemma_mul1, lemma_quotient, lemma_rescale, lemma_slope, slope_model, terms_of,
};
use crate::newton::{g1k0, mul1_model, A_MULTIPLIER, WAD};
use crate::uint::{lemma_over, lemma_times, modulus, Word};
use vstd::prelude::*;

verus! {

/// The error in the equation of the invariant at `d`, times `WAD * k0`: what the sum exceeds `d` by, less
/// what an uneven split costs.
pub open spec fn residual(s: int, k0: int, d: int, m1: int) -> int {
    (s - d) * (WAD * k0) - m1 * (WAD - k0)
}

/// A step that hardly moves leaves a residual that is small next to the slope.
proof fn lemma_residual(s: int, k0: int, d: int, m1: int, nf: int, v: int)
    requires
        500_000_000_000_000 <= k0 < WAD,
        WAD <= d,
        0 <= s,
        1 <= nf,
        0 <= m1,
        v == d + (d * s) / nf - (d * d) / nf - (((d * (m1 / nf)) / (WAD as int)) * (WAD - k0)) / k0,
        90_000_000_000_000 * (d - v) <= d,
        90_000_000_000_000 * (v - d) <= d,
    ensures
        -(nf * (WAD * k0)) <= 50_000_000_000_000 * residual(s, k0, d, m1) <= nf * (WAD * k0),
{
    let w = WAD as int;
    let z = w - k0;
    let x = w * k0;
    let a = (d * s) / nf;
    let b = (d * d) / nf;
    let q = m1 / nf;
    let drift = (d * q) / w;
    let t = (drift * z) / k0;
    let r = residual(s, k0, d, m1);
    let ds = d * s;
    let dd = d * d;
    assert(0 <= ds && 0 <= dd) by (nonlinear_arith)
        requires
            ds == d * s,
            dd == d * d,
            0 <= d,
            0 <= s,
    ;
    lemma_quotient(ds, nf);
    lemma_quotient(dd, nf);
    lemma_quotient(m1, nf);
    let dq = d * q;
    assert(0 <= dq) by (nonlinear_arith)
        requires
            dq == d * q,
            0 <= d,
            0 <= q,
    ;
    lemma_quotient(dq, w);
    let e = drift * z;
    assert(0 <= e) by (nonlinear_arith)
        requires
            e == drift * z,
            0 <= drift,
            0 <= z,
    ;
    lemma_quotient(e, k0);
    let ab = (a - b) * nf;
    assert(ab == a * nf - b * nf && (a + 1) * nf == a * nf + nf && (b + 1) * nf == b * nf + nf)
        by (nonlinear_arith)
        requires
            ab == (a - b) * nf,
    ;
    assert(ds - dd - nf <= ab <= ds - dd + nf);
    let m = d * m1;
    // bounds on the drift
    let tk = t * k0;
    let u = tk * w;
    let mz = m * z;
    assert(u * nf <= mz) by (nonlinear_arith)
        requires
            u == tk * w,
            tk <= e,
            e == drift * z,
            drift * w <= dq,
            dq == d * q,
            q * nf <= m1,
            m == d * m1,
            mz == m * z,
            0 <= z,
            0 <= w,
            0 <= d,
            1 <= nf,
    {
        assert(tk * w <= (drift * w) * z) by (nonlinear_arith)
            requires
                tk <= drift * z,
                0 <= w,
        ;
        assert((drift * w) * z <= dq * z) by (nonlinear_arith)
            requires
                drift * w <= dq,
                0 <= z,
        ;
        assert((dq * z) * nf <= (d * m1) * z) by (nonlinear_arith)
            requires
                dq == d * q,
                q * nf <= m1,
                0 <= d,
                0 <= z,
        {
            assert((d * z) * (q * nf) <= (d * z) * m1) by (nonlinear_arith)
                requires
                    q * nf <= m1,
                    0 <= d * z,
            ;
            assert(0 <= d * z) by (nonlinear_arith)
                requires
                    0 <= d,
                    0 <= z,
            ;
            assert((dq * z) * nf == (d * z) * (q * nf)) by (nonlinear_arith)
                requires
                    dq == d * q,
            ;
            assert((d * m1) * z == (d * z) * m1) by (nonlinear_arith);
        }
        assert(u * nf <= (dq * z) * nf) by (nonlinear_arith)
            requires
                u <= dq * z,
                1 <= nf,
        ;
    }
    let slack = (d + w) * z + x;
    assert((t + 1) * k0 == tk + k0 && (q + 1) * nf == q * nf + nf) by (nonlinear_arith)
        requires
            tk == t * k0,
    ;
    assert(u * nf >= mz - nf * slack) by (nonlinear_arith)
        requires
            u == tk * w,
            e < tk + k0,
            e == drift * z,
            dq < drift * w + w,
            dq == d * q,
            m1 < q * nf + nf,
            m == d * m1,
            mz == m * z,
            x == w * k0,
            slack == (d + w) * z + x,
            0 <= z,
            1 <= w,
            0 <= d,
            1 <= nf,
    {
        let dz = d * z;
        assert(0 <= dz) by (nonlinear_arith)
            requires
                dz == d * z,
                0 <= d,
                0 <= z,
        ;
        assert(u + x >= (drift * w) * z) by (nonlinear_arith)
            requires
                drift * z <= tk + k0,
                u == tk * w,
                x == w * k0,
                0 <= w,
        ;
        assert((drift * w) * z >= dq * z - w * z) by (nonlinear_arith)
            requires
                dq <= drift * w + w,
                0 <= z,
        ;
        assert((dq * z) * nf >= mz - dz * nf) by (nonlinear_arith)
            requires
                dq == d * q,
                dz == d * z,
                m1 <= q * nf + nf,
                mz == (d * m1) * z,
                0 <= dz,
        {
            assert(dz * m1 <= dz * (q * nf + nf)) by (nonlinear_arith)
                requires
                    m1 <= q * nf + nf,
                    0 <= dz,
            ;
            assert(dz * (q * nf + nf) == (dq * z) * nf + dz * nf) by (nonlinear_arith)
                requires
                    dq == d * q,
                    dz == d * z,
            ;
            assert(mz == dz * m1) by (nonlinear_arith)
                requires
                    mz == (d * m1) * z,
                    dz == d * z,
            ;
        }
        assert((u + x) * nf >= (dq * z - w * z) * nf) by (nonlinear_arith)
            requires
                u + x >= dq * z - w * z,
                1 <= nf,
        ;
        assert((u + x) * nf == u * nf + x * nf) by (nonlinear_arith);
        assert((dq * z - w * z) * nf == (dq * z) * nf - (w * z) * nf) by (nonlinear_arith);
        assert(nf * slack == dz * nf + (w * z) * nf + x * nf) by (nonlinear_arith)
            requires
                slack == (d + w) * z + x,
                dz == d * z,
        ;
    }
    // the step, times x * nf
    let move_ = (v - d) * (nf * x);
    let nx = nf * x;
    assert(u == t * x) by (nonlinear_arith)
        requires
            u == (t * k0) * w,
            x == w * k0,
    ;
    assert(move_ == (a - b) * nx - t * nx) by (nonlinear_arith)
        requires
            move_ == (v - d) * nx,
            v - d == a - b - t,
    ;
    assert((a - b) * nx == ab * x && t * nx == u * nf) by (nonlinear_arith)
        requires
            nx == nf * x,
            ab == (a - b) * nf,
            u == t * x,
    ;
    let dr = d * r;
    assert(dr == (ds - dd) * x - mz) by (nonlinear_arith)
        requires
            dr == d * r,
            r == (s - d) * x - m1 * z,
            ds == d * s,
            dd == d * d,
            mz == (d * m1) * z,
    ;
    assert((ds - dd - nf) * x <= ab * x <= (ds - dd + nf) * x) by (nonlinear_arith)
        requires
            ds - dd - nf <= ab <= ds - dd + nf,
            0 <= x,
    ;
    assert((ds - dd - nf) * x == (ds - dd) * x - nx && (ds - dd + nf) * x == (ds - dd) * x + nx)
        by (nonlinear_arith)
        requires
            nx == nf * x,
    ;
    assert(dr - nx <= move_ <= dr + nx + nf * slack);
    // the step is small
    let dnx = d * nx;
    assert(1 <= nx) by (nonlinear_arith)
        requires
            nx == nf * x,
            x == w * k0,
            1 <= nf,
            1 <= w,
            1 <= k0,
    ;
    assert(-dnx <= 90_000_000_000_000 * move_ <= dnx) by (nonlinear_arith)
        requires
            move_ == (v - d) * nx,
            dnx == d * nx,
            90_000_000_000_000 * (d - v) <= d,
            90_000_000_000_000 * (v - d) <= d,
            1 <= nx,
    ;
    assert(5 * (90_000_000_000_000 * (nf * slack)) <= 3 * dnx) by (nonlinear_arith)
        requires
            slack == (d + w) * z + x,
            nx == nf * x,
            dnx == d * nx,
            x == w * k0,
            500_000_000_000_000 <= k0,
            0 <= z <= w,
            w == 1_000_000_000_000_000_000,
            w <= d,
            1 <= nf,
    {
        let dw = d * w;
        assert((d + w) * z <= 2 * dw) by (nonlinear_arith)
            requires
                0 <= z <= w,
                w <= d,
                dw == d * w,
                0 <= w,
        ;
        assert(d * x >= 500_000_000_000_000 * dw) by (nonlinear_arith)
            requires
                x == w * k0,
                500_000_000_000_000 <= k0,
                dw == d * w,
                0 <= dw,
        ;
        assert(d * x >= 1_000_000_000_000_000_000 * x) by (nonlinear_arith)
            requires
                d >= 1_000_000_000_000_000_000,
                x >= 0,
        ;
        assert(0 <= dw && 0 <= x) by (nonlinear_arith)
            requires
                dw == d * w,
                x == w * k0,
                0 <= d,
                0 <= w,
                0 <= k0,
        ;
        let y = 5 * (90_000_000_000_000 * slack);
        assert(y <= 3 * (d * x));
        assert(nf * y <= nf * (3 * (d * x))) by (nonlinear_arith)
            requires
                y <= 3 * (d * x),
                1 <= nf,
        ;
        assert(nf * y == 5 * (90_000_000_000_000 * (nf * slack))) by (nonlinear_arith)
            requires
                y == 5 * (90_000_000_000_000 * slack),
        ;
        assert(nf * (3 * (d * x)) == 3 * (d * (nf * x))) by (nonlinear_arith);
    }
    assert(90_000_000_000_000 * nx <= dnx) by (nonlinear_arith)
        requires
            dnx == d * nx,
            d >= 1_000_000_000_000_000_000,
            1 <= nx,
    ;
    assert(5 * (90_000_000_000_000 * nx) <= dnx) by (nonlinear_arith)
        requires
            dnx == d * nx,
            d >= 1_000_000_000_000_000_000,
            1 <= nx,
    ;
    // 90 * 10^12 * d * r is within 1.8 * d * nx
    assert(-9 * dnx <= 5 * (90_000_000_000_000 * dr) <= 9 * dnx);
    assert(-nx <= 50_000_000_000_000 * r <= nx) by (nonlinear_arith)
        requires
            -9 * dnx <= 5 * (90_000_000_000_000 * dr) <= 9 * dnx,
            dnx == d * nx,
            dr == d * r,
            1 <= d,
    ;
}

/// Where `k0` is short of one, the slope is at most the sum and a few times the feedback, up to what the
/// residual itself adds.
proof fn lemma_residual_bound(n: int, gamma: int, s: int, k0: int, d: int, m1: int, m2: int, f: int, nf: int)
    requires
        1 <= n <= 3,
        10_000_000_000 <= gamma,
        0 <= s,
        1 <= k0 < WAD,
        0 <= m1,
        0 <= m2,
        0 <= f,
        f * k0 <= m1 * n,
        m2 * (gamma + WAD - k0 + 1) <= 2 * WAD * n * k0,
        d <= s ==> (nf - s - f - 1) * WAD <= m2 * (s - d),
        d > s ==> nf <= s + f,
        -(nf * (WAD * k0)) <= 50_000_000_000_000 * residual(s, k0, d, m1) <= nf * (WAD * k0),
    ensures
        -(WAD * ((s + 1) * k0 + 9 * m1)) <= 40_000_000_000_000 * residual(s, k0, d, m1) <= WAD * ((s + 1) * k0
            + 9 * m1),
{
    let w = WAD as int;
    let z = w - k0;
    let g = gamma + z + 1;
    let x = w * k0;
    let r = residual(s, k0, d, m1);
    let y = (s + 1) * k0 + 9 * m1;
    let nk = nf * k0;
    let c = nf - s - f - 1;
    assert(nf * x == w * nk) by (nonlinear_arith)
        requires
            x == w * k0,
            nk == nf * k0,
    ;
    assert(nk == (s + 1) * k0 + f * k0 + c * k0) by (nonlinear_arith)
        requires
            nk == nf * k0,
            c == nf - s - f - 1,
    ;
    assert(f * k0 <= 3 * m1 && 0 <= f * k0) by (nonlinear_arith)
        requires
            f * k0 <= m1 * n,
            1 <= n <= 3,
            0 <= m1,
            0 <= f,
            1 <= k0,
    ;
    assert(0 <= (s + 1) * k0) by (nonlinear_arith)
        requires
            0 <= s,
            1 <= k0,
    ;
    if d > s {
        assert(c * k0 <= 0) by (nonlinear_arith)
            requires
                c <= 0,
                1 <= k0,
        ;
        assert(nk <= y);
    } else {
        let e = s - d;
        assert(2 * w * n * k0 <= 6 * x) by (nonlinear_arith)
            requires
                x == w * k0,
                1 <= n <= 3,
                0 <= x,
        {
            assert(2 * w * n * k0 == (2 * n) * (w * k0)) by (nonlinear_arith);
        }
        assert(m2 * z <= 6 * x && m2 * gamma <= 6 * x) by (nonlinear_arith)
            requires
                m2 * g <= 6 * x,
                g == gamma + z + 1,
                0 <= z,
                0 <= gamma,
                0 <= m2,
        ;
        let p = m2 * e;
        // p * x is m2 * (r + m1 * z)
        assert(p * x == m2 * r + (m2 * z) * m1) by (nonlinear_arith)
            requires
                p == m2 * e,
                r == e * x - m1 * z,
        ;
        assert((m2 * z) * m1 <= (6 * m1) * x) by (nonlinear_arith)
            requires
                m2 * z <= 6 * x,
                0 <= m1,
        ;
        if r < 0 {
            assert(m2 * r <= 0) by (nonlinear_arith)
                requires
                    r < 0,
                    0 <= m2,
            ;
            assert(p <= 6 * m1) by (nonlinear_arith)
                requires
                    p * x <= (6 * m1) * x,
                    1 <= x,
            ;
            assert(c * k0 <= 6 * m1) by (nonlinear_arith)
                requires
                    c * w <= 6 * m1,
                    1 <= k0 < w,
                    0 <= m1,
            ;
            assert(nk <= y);
        } else {
            assert((10_000_000_000 * m2) * r <= (6 * r) * x) by (nonlinear_arith)
                requires
                    m2 * gamma <= 6 * x,
                    10_000_000_000 <= gamma,
                    0 <= m2,
                    0 <= r,
            {
                assert(10_000_000_000 * m2 <= m2 * gamma) by (nonlinear_arith)
                    requires
                        10_000_000_000 <= gamma,
                        0 <= m2,
                ;
                assert((10_000_000_000 * m2) * r <= (6 * x) * r) by (nonlinear_arith)
                    requires
                        10_000_000_000 * m2 <= 6 * x,
                        0 <= r,
                ;
                assert((6 * x) * r == (6 * r) * x) by (nonlinear_arith);
            }
            assert((10_000_000_000 * m2) * r == 10_000_000_000 * (m2 * r)) by (nonlinear_arith);
            let bound = 6 * r + 60_000_000_000 * m1;
            assert((10_000_000_000 * p) * x <= bound * x) by (nonlinear_arith)
                requires
                    p * x == m2 * r + (m2 * z) * m1,
                    10_000_000_000 * (m2 * r) <= (6 * r) * x,
                    (m2 * z) * m1 <= (6 * m1) * x,
                    bound == 6 * r + 60_000_000_000 * m1,
            ;
            assert(10_000_000_000 * p <= bound) by (nonlinear_arith)
                requires
                    (10_000_000_000 * p) * x <= bound * x,
                    1 <= x,
            ;
            assert(10_000_000_000 * (c * k0) <= bound) by (nonlinear_arith)
                requires
                    10_000_000_000 * (c * w) <= bound,
                    1 <= k0 < w,
                    0 <= bound,
            ;
            assert(10_000_000_000 * nk <= 10_000_000_000 * y + 6 * r);
        }
    }
    assert(0 <= y);
    let wy = w * y;
    assert(0 <= wy) by (nonlinear_arith)
        requires
            wy == w * y,
            0 <= w,
            0 <= y,
    ;
    if nk <= y {
        assert(w * nk <= wy) by (nonlinear_arith)
            requires
                nk <= y,
                wy == w * y,
                0 <= w,
        ;
    } else {
        assert(10_000_000_000 * (w * nk) <= 10_000_000_000 * wy + 6 * (w * r)) by (nonlinear_arith)
            requires
                10_000_000_000 * nk <= 10_000_000_000 * y + 6 * r,
                wy == w * y,
                0 <= w,
        ;
        assert(w * r == 1_000_000_000_000_000_000 * r);
    }
}

/// What a converged step says of the residual, where `k0` is short of one.
proof fn lemma_short(n: int, ann: int, gamma: int, s: int, k0: int, d: int, v: int)
    requires
        2 <= n <= 3,
        20_001 <= ann,
        10_000_000_000 <= gamma,
        gamma + 2 * WAD < modulus(),
        in_range(s, k0),
        WAD <= d <= s + 3,
        500_000_000_000_000 <= k0 < WAD,
        terms_of(n, ann, gamma, s, k0, d, v),
        90_000_000_000_000 * (d - v) <= d,
        90_000_000_000_000 * (v - d) <= d,
    ensures
        ({
            let m1 = mul1_model(ann, gamma, d, g1k0(gamma, k0));
            &&& 0 <= m1
            &&& -(WAD * ((s + 1) * k0 + 9 * m1)) <= 40_000_000_000_000 * residual(s, k0, d, m1)
            &&& 40_000_000_000_000 * residual(s, k0, d, m1) <= WAD * ((s + 1) * k0 + 9 * m1)
        }),
{
    let (m1, f, nf, m2) = lemma_slope(n, ann, gamma, s, k0, d);
    lemma_gap(gamma, k0);
    lemma_residual(s, k0, d, m1, nf, v);
    assert(0 <= m1 * n) by (nonlinear_arith)
        requires
            0 <= m1,
            0 <= n,
    ;
    lemma_quotient(m1 * n, k0);
    lemma_residual_bound(n, gamma, s, k0, d, m1, m2, f, nf);
}

/// Where `k0` is not short of one, a converged step is close to the sum.
proof fn lemma_full(n: int, ann: int, gamma: int, s: int, k0: int, d: int, v: int)
    requires
        2 <= n <= 3,
        10_000 * n + 1 <= ann,
        10_000_000_000 <= gamma,
        gamma + 2 * WAD < modulus(),
        in_range(s, k0),
        WAD <= d <= s,
        WAD <= k0 <= WAD + 1_000_000_000,
        terms_of(n, ann, gamma, s, k0, d, v),
        90_000_000_000_000 * (v - d) <= d,
    ensures
        40_000_000_000_000 * (s - d) <= 6 * s,
{
    let w = WAD as int;
    let (m1, f, nf, m2) = lemma_slope(n, ann, gamma, s, k0, d);
    lemma_gap(gamma, k0);
    let g = g1k0(gamma, k0);
    lemma_mul1(ann, gamma, d, g, 2);
    let e = s - d;
    let a = (d * s) / nf;
    let b = (d * d) / nf;
    let ds = d * s;
    let dd = d * d;
    assert(0 <= ds && 0 <= dd) by (nonlinear_arith)
        requires
            ds == d * s,
            dd == d * d,
            0 <= d,
            0 <= s,
    ;
    lemma_quotient(ds, nf);
    lemma_quotient(dd, nf);
    assert((a + 1) * nf == a * nf + nf && (a - b) * nf == a * nf - b * nf) by (nonlinear_arith);
    assert(ds - dd == d * e) by (nonlinear_arith)
        requires
            ds == d * s,
            dd == d * d,
            e == s - d,
    ;
    assert((v - d) * nf >= (a - b) * nf) by (nonlinear_arith)
        requires
            v - d >= a - b,
            1 <= nf,
    ;
    assert((v - d + 1) * nf == (v - d) * nf + nf) by (nonlinear_arith);
    assert(d * e <= (v - d + 1) * nf);
    assert(50_000_000_000_000 * e <= nf) by (nonlinear_arith)
        requires
            d * e <= (v - d + 1) * nf,
            90_000_000_000_000 * (v - d) <= d,
            1_000_000_000_000_000_000 <= d,
            1 <= nf,
            0 <= e,
    {
        assert((90_000_000_000_000 * (v - d + 1)) * nf <= (d + 90_000_000_000_000) * nf) by (nonlinear_arith)
            requires
                90_000_000_000_000 * (v - d) <= d,
                1 <= nf,
        ;
        assert(5 * ((d + 90_000_000_000_000) * nf) <= 9 * (d * nf)) by (nonlinear_arith)
            requires
                1_000_000_000_000_000_000 <= d,
                1 <= nf,
        ;
        assert((90_000_000_000_000 * (v - d + 1)) * nf == 90_000_000_000_000 * ((v - d + 1) * nf)) by (nonlinear_arith);
        assert((450_000_000_000_000 * e) * d <= (9 * nf) * d) by (nonlinear_arith)
            requires
                450_000_000_000_000 * (d * e) <= 9 * (d * nf),
        ;
        assert(450_000_000_000_000 * e <= 9 * nf) by (nonlinear_arith)
            requires
                (450_000_000_000_000 * e) * d <= (9 * nf) * d,
                1 <= d,
        ;
    }
    // the slope is small
    assert(m2 <= 1_000_000_000 * w) by (nonlinear_arith)
        requires
            m2 * g <= 2 * w * n * k0,
            9_000_000_000 <= g,
            2 <= n <= 3,
            0 <= k0 <= 1_100_000_000_000_000_000,
            w == 1_000_000_000_000_000_000,
            0 <= m2,
    {
        assert(m2 * 9_000_000_000 <= m2 * g) by (nonlinear_arith)
            requires
                9_000_000_000 <= g,
                0 <= m2,
        ;
        assert(2 * w * n * k0 <= 6 * w * 1_100_000_000_000_000_000) by (nonlinear_arith)
            requires
                2 <= n <= 3,
                0 <= k0 <= 1_100_000_000_000_000_000,
                w == 1_000_000_000_000_000_000,
        ;
    }
    let c = nf - s - f - 1;
    assert(c <= 1_000_000_000 * e) by (nonlinear_arith)
        requires
            c * w <= m2 * e,
            m2 <= 1_000_000_000 * w,
            0 <= e,
            1 <= w,
    {
        assert(m2 * e <= (1_000_000_000 * e) * w) by (nonlinear_arith)
            requires
                m2 <= 1_000_000_000 * w,
                0 <= e,
        ;
        assert(c * w <= (1_000_000_000 * e) * w);
    }
    assert(0 <= m1 * n) by (nonlinear_arith)
        requires
            0 <= m1,
            0 <= n,
    ;
    lemma_quotient(m1 * n, k0);
    assert(f <= 4 * d) by (nonlinear_arith)
        requires
            f * k0 <= m1 * n,
            m1 * ann <= 40_000 * (w * d),
            10_000 * n + 1 <= ann,
            2 <= n <= 3,
            w <= k0,
            1 <= w,
            0 <= m1,
            0 <= f,
            0 <= d,
    {
        assert(f * w <= m1 * n) by (nonlinear_arith)
            requires
                f * k0 <= m1 * n,
                w <= k0,
                0 <= f,
        ;
        assert(m1 * (10_000 * n) <= m1 * ann) by (nonlinear_arith)
            requires
                10_000 * n + 1 <= ann,
                0 <= m1,
        ;
        assert(10_000 * (f * w) <= 10_000 * (m1 * n));
        assert(m1 * (10_000 * n) == 10_000 * (m1 * n)) by (nonlinear_arith);
        assert(f * w <= (4 * d) * w) by (nonlinear_arith)
            requires
                10_000 * (f * w) <= 40_000 * (w * d),
        ;
        assert(f <= 4 * d) by (nonlinear_arith)
            requires
                f * w <= (4 * d) * w,
                1 <= w,
        ;
    }
}

/// The feedback before the last two quotients, from below and from above.
proof fn lemma_mul1_real(ann: int, gamma: int, d: int, g: int)
    requires
        1 <= ann,
        0 < gamma <= g <= 100_000_002 * gamma,
        0 <= d <= 31_000_000_000_000_000_000_000_000_000,
    ensures
        ({
            let m1 = mul1_model(ann, gamma, d, g);
            &&& m1 * (ann * (gamma * gamma)) <= 10_000 * ((g * g) * (WAD * d))
            &&& (m1 + 1) * (ann * (gamma * gamma)) >= 10_000 * ((g * g) * (WAD * d - 2 * gamma))
        }),
{
    let w = WAD as int;
    let c = A_MULTIPLIER as int;
    let wd = w * d;
    lemma_mul1_words(ann, gamma, d, g);
    lemma_quotient(wd, gamma);
    let t1 = wd / gamma;
    let t2 = t1 * g;
    assert(0 <= t2) by (nonlinear_arith)
        requires
            t2 == t1 * g,
            0 <= t1,
            0 <= g,
    ;
    lemma_quotient(t2, gamma);
    let t3 = t2 / gamma;
    let t4 = t3 * g;
    assert(0 <= t4) by (nonlinear_arith)
        requires
            t4 == t3 * g,
            0 <= t3,
            0 <= g,
    ;
    lemma_quotient(t4 * c, ann);
    let m1 = (t4 * c) / ann;
    let g2 = g * g;
    let y2 = gamma * gamma;
    assert(t4 * y2 <= g2 * wd) by (nonlinear_arith)
        requires
            t4 == t3 * g,
            t3 * gamma <= t2,
            t2 == t1 * g,
            t1 * gamma <= wd,
            g2 == g * g,
            y2 == gamma * gamma,
            0 < gamma,
            0 < g,
    {
        assert((g * gamma) * (t3 * gamma) <= (g * gamma) * t2) by (nonlinear_arith)
            requires
                t3 * gamma <= t2,
                0 < gamma,
                0 < g,
        ;
        assert((g * gamma) * (t3 * gamma) == t4 * y2) by (nonlinear_arith)
            requires
                t4 == t3 * g,
                y2 == gamma * gamma,
        ;
        assert((g * gamma) * t2 == g2 * (t1 * gamma)) by (nonlinear_arith)
            requires
                t2 == t1 * g,
                g2 == g * g,
        ;
        assert(g2 * (t1 * gamma) <= g2 * wd) by (nonlinear_arith)
            requires
                t1 * gamma <= wd,
                g2 == g * g,
        ;
    }
    assert(t4 * y2 >= g2 * (wd - 2 * gamma)) by (nonlinear_arith)
        requires
            t4 == t3 * g,
            t2 < (t3 + 1) * gamma,
            t2 == t1 * g,
            wd < (t1 + 1) * gamma,
            g2 == g * g,
            y2 == gamma * gamma,
            0 < gamma <= g,
    {
        assert((g * gamma) * (t3 * gamma) >= (g * gamma) * (t2 - gamma)) by (nonlinear_arith)
            requires
                t3 * gamma >= t2 - gamma,
                0 < gamma,
                0 < g,
        ;
        assert(t3 * gamma >= t2 - gamma) by (nonlinear_arith)
            requires
                t2 < (t3 + 1) * gamma,
        ;
        assert((g * gamma) * (t3 * gamma) == t4 * y2) by (nonlinear_arith)
            requires
                t4 == t3 * g,
                y2 == gamma * gamma,
        ;
        assert((g * gamma) * (t2 - gamma) == g2 * (t1 * gamma) - (g * gamma) * gamma) by (nonlinear_arith)
            requires
                t2 == t1 * g,
                g2 == g * g,
        ;
        assert(g2 * (t1 * gamma) >= g2 * (wd - gamma)) by (nonlinear_arith)
            requires
                t1 * gamma >= wd - gamma,
                g2 == g * g,
        ;
        assert(t1 * gamma >= wd - gamma) by (nonlinear_arith)
            requires
                wd < (t1 + 1) * gamma,
        ;
        assert((g * gamma) * gamma <= g2 * gamma) by (nonlinear_arith)
            requires
                g2 == g * g,
                0 < gamma <= g,
        ;
        assert(g2 * (wd - gamma) - g2 * gamma == g2 * (wd - 2 * gamma)) by (nonlinear_arith);
    }
    assert(0 <= y2) by (nonlinear_arith)
        requires
            y2 == gamma * gamma,
    ;
    assert((m1 * ann) * y2 <= (t4 * c) * y2 <= ((m1 + 1) * ann) * y2) by (nonlinear_arith)
        requires
            m1 * ann <= t4 * c < (m1 + 1) * ann,
            0 <= y2,
    ;
    assert((m1 * ann) * y2 == m1 * (ann * y2) && ((m1 + 1) * ann) * y2 == (m1 + 1) * (ann * y2)) by (nonlinear_arith);
    assert((t4 * c) * y2 == 10_000 * (t4 * y2)) by (nonlinear_arith)
        requires
            c == 10_000,
    ;
}

/// None of the products in the feedback leaves the words.
proof fn lemma_mul1_words(ann: int, gamma: int, d: int, g: int)
    requires
        1 <= ann,
        0 < gamma <= g <= 100_000_002 * gamma,
        0 <= d <= 31_000_000_000_000_000_000_000_000_000,
    ensures
        mul1_model(ann, gamma, d, g) == ((((WAD * d) / gamma * g) / gamma * g) * A_MULTIPLIER) / ann,
{
    let w = WAD as int;
    let c = A_MULTIPLIER as int;
    let wd = w * d;
    let k = 100_000_002int;
    lemma_times(w, d);
    lemma_over(wd, gamma);
    let t1 = wd / gamma;
    lemma_rescale(wd, wd, gamma, g, k);
    lemma_times(t1, g);
    let t2 = t1 * g;
    lemma_over(t2, gamma);
    let t3 = t2 / gamma;
    lemma_rescale(t2, k * wd, gamma, g, k);
    lemma_times(t3, g);
    let t4 = t3 * g;
    lemma_times(t4, c);
    lemma_over(t4 * c, ann);
}

/// With a gap that is not larger and a `d` that is hardly larger, the feedback is hardly larger.
proof fn lemma_mul1_ratio(ann: int, gamma: int, d: int, g: int, d2: int, g2: int)
    requires
        1 <= ann,
        10_000_000_000 <= gamma <= WAD,
        gamma <= g2 <= g <= gamma + WAD + 1,
        WAD <= d <= 31_000_000_000_000_000_000_000_000_000,
        0 <= d2 <= 31_000_000_000_000_000_000_000_000_000,
        40_000_000_000_000 * (d2 - d) <= d,
    ensures
        30_000_000_000_000 * mul1_model(ann, gamma, d2, g2) <= 30_000_000_000_001 * (mul1_model(
            ann,
            gamma,
            d,
            g,
        ) + 1),
{
    let w = WAD as int;
    lemma_mul1_real(ann, gamma, d, g);
    lemma_mul1_real(ann, gamma, d2, g2);
    let a = mul1_model(ann, gamma, d, g);
    let b = mul1_model(ann, gamma, d2, g2);
    lemma_mul1(ann, gamma, d, g, 100_000_002);
    lemma_mul1(ann, gamma, d2, g2, 100_000_002);
    let y = ann * (gamma * gamma);
    assert(1 <= y) by (nonlinear_arith)
        requires
            y == ann * (gamma * gamma),
            1 <= ann,
            1 <= gamma,
    ;
    let q = g * g;
    let u = w * d - 2 * gamma;
    let wd2 = w * d2;
    assert(0 <= u && 0 <= wd2 && w * (d - 2) <= u);
    assert((g2 * g2) * wd2 <= q * wd2) by (nonlinear_arith)
        requires
            0 <= g2 <= g,
            q == g * g,
            0 <= wd2,
    {
        assert(g2 * g2 <= g * g) by (nonlinear_arith)
            requires
                0 <= g2 <= g,
        ;
    }
    let m = a + 1;
    assert((b * u) * y <= (m * wd2) * y) by (nonlinear_arith)
        requires
            b * y <= 10_000 * (q * wd2),
            m * y >= 10_000 * (q * u),
            0 <= u,
            0 <= wd2,
    {
        assert((b * y) * u <= (10_000 * (q * wd2)) * u) by (nonlinear_arith)
            requires
                b * y <= 10_000 * (q * wd2),
                0 <= u,
        ;
        assert((10_000 * (q * wd2)) * u == (10_000 * (q * u)) * wd2) by (nonlinear_arith);
        assert((10_000 * (q * u)) * wd2 <= (m * y) * wd2) by (nonlinear_arith)
            requires
                m * y >= 10_000 * (q * u),
                0 <= wd2,
        ;
        assert((b * y) * u == (b * u) * y && (m * y) * wd2 == (m * wd2) * y) by (nonlinear_arith);
    }
    assert(b * u <= m * wd2) by (nonlinear_arith)
        requires
            (b * u) * y <= (m * wd2) * y,
            1 <= y,
    ;
    assert(b * (d - 2) <= m * d2) by (nonlinear_arith)
        requires
            b * u <= m * wd2,
            w * (d - 2) <= u,
            wd2 == w * d2,
            0 <= b,
            1 <= w,
    {
        assert(b * (w * (d - 2)) <= b * u) by (nonlinear_arith)
            requires
                w * (d - 2) <= u,
                0 <= b,
        ;
        assert(b * (w * (d - 2)) == (b * (d - 2)) * w && m * (w * d2) == (m * d2) * w) by (nonlinear_arith);
        assert(b * (d - 2) <= m * d2) by (nonlinear_arith)
            requires
                (b * (d - 2)) * w <= (m * d2) * w,
                1 <= w,
        ;
    }
    if 30_000_000_000_000 * b > 30_000_000_000_001 * m {
        assert(false) by (nonlinear_arith)
            requires
                b * (d - 2) <= m * d2,
                40_000_000_000_000 * d2 <= 40_000_000_000_001 * d,
                30_000_000_000_000 * b > 30_000_000_000_001 * m,
                1_000_000_000_000_000_000 <= d,
                1 <= m,
        {
            let md = m * d;
            assert((30_000_000_000_000 * b) * (d - 2) >= (30_000_000_000_001 * m) * (d - 2)) by (nonlinear_arith)
                requires
                    30_000_000_000_000 * b > 30_000_000_000_001 * m,
                    1_000_000_000_000_000_000 <= d,
            ;
            assert((30_000_000_000_000 * b) * (d - 2) == 30_000_000_000_000 * (b * (d - 2))) by (nonlinear_arith);
            assert((30_000_000_000_001 * m) * (d - 2) == 30_000_000_000_001 * md - 60_000_000_000_002 * m) by (nonlinear_arith)
                requires
                    md == m * d,
            ;
            assert(40_000_000_000_000 * (m * d2) <= 40_000_000_000_001 * md) by (nonlinear_arith)
                requires
                    40_000_000_000_000 * d2 <= 40_000_000_000_001 * d,
                    md == m * d,
                    1 <= m,
            ;
            assert(md >= 1_000_000_000_000_000_000 * m) by (nonlinear_arith)
                requires
                    md == m * d,
                    1_000_000_000_000_000_000 <= d,
                    1 <= m,
            ;
        }
    }
}

/// With a product that is larger by one part in ten to the twelfth, and a `d` that is hardly larger, `k0`
/// is larger.
pub proof fn lemma_k0_ratio(p: int, p2: int, e: int, e2: int, k: int, k2: int)
    requires
        1 <= e,
        1 <= e2,
        0 <= p,
        1_000_000_000_000 * p <= 999_999_999_999 * p2,
        10_000_000_000_000 * e2 <= 10_000_000_000_001 * e,
        k * e <= p,
        p2 <= (k2 + 6) * e2,
        500_000_000_000_000 <= k2,
    ensures
        8 * k2 <= 10_000_000_000_000 * (k2 - k),
{
    let j = k2 + 6;
    assert(10_000_000_000_000 * (j * e2) <= 10_000_000_000_001 * (j * e)) by (nonlinear_arith)
        requires
            10_000_000_000_000 * e2 <= 10_000_000_000_001 * e,
            0 <= j,
    ;
    assert(10_000_000_000_000 * k <= 9_999_999_999_991 * j) by (nonlinear_arith)
        requires
            1_000_000_000_000 * (k * e) <= 999_999_999_999 * (j * e2),
            10_000_000_000_000 * (j * e2) <= 10_000_000_000_001 * (j * e),
            1 <= e,
            0 <= j,
    {
        let ke = k * e;
        let je = j * e;
        assert(10_000_000_000_000_000_000_000_000 * ke <= 999_999_999_999 * (10_000_000_000_001 * je));
        assert(0 <= je) by (nonlinear_arith)
            requires
                je == j * e,
                0 <= j,
                0 <= e,
        ;
        assert(10_000_000_000_000 * ke <= 9_999_999_999_991 * je);
        assert((10_000_000_000_000 * k) * e <= (9_999_999_999_991 * j) * e) by (nonlinear_arith)
            requires
                10_000_000_000_000 * (k * e) <= 9_999_999_999_991 * (j * e),
        ;
        assert(10_000_000_000_000 * k <= 9_999_999_999_991 * j) by (nonlinear_arith)
            requires
                (10_000_000_000_000 * k) * e <= (9_999_999_999_991 * j) * e,
                1 <= e,
        ;
    }
}

/// Where both residuals are small and `k0` has grown, the sum has hardly grown.
proof fn lemma_compare(s: int, k: int, d: int, a: int, s2: int, k2: int, d2: int, a2: int)
    requires
        500_000_000_000_000 <= k < WAD,
        500_000_000_000_000 <= k2 < WAD,
        0 <= s <= s2,
        0 <= a,
        0 <= a2,
        -(WAD * ((s + 1) * k + 9 * a)) <= 40_000_000_000_000 * residual(s, k, d, a),
        40_000_000_000_000 * residual(s2, k2, d2, a2) <= WAD * ((s2 + 1) * k2 + 9 * a2),
        8 * k2 <= 10_000_000_000_000 * (k2 - k),
        30_000_000_000_000 * a2 <= 30_000_000_000_001 * (a + 1),
    ensures
        40_000_000_000_000 * ((s2 - d2) - (s - d)) <= 2 * s2 + 3,
{
    let w = WAD as int;
    let kk = k * k2;
    let r = residual(s, k, d, a);
    let r2 = residual(s2, k2, d2, a2);
    let x = (s2 - d2) - (s - d);
    let z = w - k;
    let z2 = w - k2;
    let ak = a * k;
    let ak2 = a * k2;
    let bk = a2 * k;
    assert(0 <= ak && 0 <= ak2 && 0 <= bk && 1 <= kk) by (nonlinear_arith)
        requires
            ak == a * k,
            ak2 == a * k2,
            bk == a2 * k,
            kk == k * k2,
            0 <= a,
            0 <= a2,
            1 <= k,
            1 <= k2,
    ;
    assert(ak <= ak2) by (nonlinear_arith)
        requires
            ak == a * k,
            ak2 == a * k2,
            0 <= a,
            k <= k2,
    ;
    // both residuals over a common denominator
    let wkk = w * kk;
    lemma_scaled(s - d, w, k, a, z, k2);
    lemma_scaled(s2 - d2, w, k2, a2, z2, k);
    assert(k2 * k == kk) by (nonlinear_arith)
        requires
            kk == k * k2,
    ;
    assert((s2 - d2) * wkk - (s - d) * wkk == x * wkk) by (nonlinear_arith)
        requires
            x == (s2 - d2) - (s - d),
    ;
    assert(r2 * k - r * k2 == x * (w * kk) + ak2 * z - bk * z2);
    assert(40_000_000_000_000 * (r * k2) >= -(w * ((s + 1) * kk + 9 * ak2))) by (nonlinear_arith)
        requires
            -(w * ((s + 1) * k + 9 * a)) <= 40_000_000_000_000 * r,
            kk == k * k2,
            ak2 == a * k2,
            1 <= k2,
    {
        let c = w * ((s + 1) * k + 9 * a);
        assert((40_000_000_000_000 * r) * k2 >= (-c) * k2) by (nonlinear_arith)
            requires
                -c <= 40_000_000_000_000 * r,
                1 <= k2,
        ;
        assert((-c) * k2 == -(c * k2)) by (nonlinear_arith);
        assert(c * k2 == w * ((s + 1) * (k * k2) + 9 * (a * k2))) by (nonlinear_arith)
            requires
                c == w * ((s + 1) * k + 9 * a),
        ;
        assert((40_000_000_000_000 * r) * k2 == 40_000_000_000_000 * (r * k2)) by (nonlinear_arith);
    }
    assert(40_000_000_000_000 * (r2 * k) <= w * ((s2 + 1) * kk + 9 * bk)) by (nonlinear_arith)
        requires
            40_000_000_000_000 * r2 <= w * ((s2 + 1) * k2 + 9 * a2),
            kk == k * k2,
            bk == a2 * k,
            1 <= k,
    {
        let c = w * ((s2 + 1) * k2 + 9 * a2);
        assert((40_000_000_000_000 * r2) * k <= c * k) by (nonlinear_arith)
            requires
                40_000_000_000_000 * r2 <= c,
                1 <= k,
        ;
        assert(c * k == w * ((s2 + 1) * (k * k2) + 9 * (a2 * k))) by (nonlinear_arith)
            requires
                c == w * ((s2 + 1) * k2 + 9 * a2),
        ;
        assert((40_000_000_000_000 * r2) * k == 40_000_000_000_000 * (r2 * k)) by (nonlinear_arith);
    }
    // the gain from the larger k0
    assert(30_000_000_000_000 * bk <= 30_000_000_000_001 * (ak + k)) by (nonlinear_arith)
        requires
            30_000_000_000_000 * a2 <= 30_000_000_000_001 * (a + 1),
            bk == a2 * k,
            ak == a * k,
            1 <= k,
    ;
    let gain = a * (k2 - k);
    assert(ak2 * z - ak * z2 == gain * w) by (nonlinear_arith)
        requires
            ak2 == a * k2,
            ak == a * k,
            z == w - k,
            z2 == w - k2,
            gain == a * (k2 - k),
    {
        assert((a * k2) * (w - k) == (a * k2) * w - (a * k2) * k) by (nonlinear_arith);
        assert((a * k) * (w - k2) == (a * k) * w - (a * k) * k2) by (nonlinear_arith);
        assert((a * k2) * k == (a * k) * k2) by (nonlinear_arith);
        assert((a * k2) * w - (a * k) * w == (a * (k2 - k)) * w) by (nonlinear_arith);
    }
    assert(10_000_000_000_000 * gain >= 8 * ak2) by (nonlinear_arith)
        requires
            8 * k2 <= 10_000_000_000_000 * (k2 - k),
            gain == a * (k2 - k),
            ak2 == a * k2,
            0 <= a,
    ;
    assert((bk - ak) * z2 <= larger_of(bk - ak) * w) by (nonlinear_arith)
        requires
            0 <= z2 <= w,
            larger_of(bk - ak) >= bk - ak,
            larger_of(bk - ak) >= 0,
    ;
    let over = larger_of(bk - ak);
    assert(bk * z2 == ak * z2 + (bk - ak) * z2) by (nonlinear_arith);
    // 30 * 10^12 * over <= ak + 30_000_000_000_001 * k
    let total = 40_000_000_000_000 * x * kk + 40_000_000_000_000 * gain - 40_000_000_000_000 * over;
    assert(total * w <= ((s2 + 1) * kk + 9 * bk + (s + 1) * kk + 9 * ak2) * w) by (nonlinear_arith)
        requires
            total == 40_000_000_000_000 * x * kk + 40_000_000_000_000 * gain - 40_000_000_000_000 * over,
            40_000_000_000_000 * (x * (w * kk) + gain * w - over * w) <= w * ((s2 + 1) * kk + 9 * bk) + w * ((s
                + 1) * kk + 9 * ak2),
    ;
    assert(total <= (s2 + 1) * kk + 9 * bk + (s + 1) * kk + 9 * ak2) by (nonlinear_arith)
        requires
            total * w <= ((s2 + 1) * kk + 9 * bk + (s + 1) * kk + 9 * ak2) * w,
            1 <= w,
    ;
    assert((s2 + 1) * kk + (s + 1) * kk <= (2 * s2 + 2) * kk) by (nonlinear_arith)
        requires
            s <= s2,
            1 <= kk,
    ;
    // what is left of k is less than one of kk
    assert(100_000_000_000_000 * k <= kk) by (nonlinear_arith)
        requires
            kk == k * k2,
            100_000_000_000_000 <= k2,
            1 <= k,
    ;
    let xkk = x * kk;
    assert(40_000_000_000_000 * x * kk == 40_000_000_000_000 * xkk) by (nonlinear_arith)
        requires
            xkk == x * kk,
    ;
    assert(40_000_000_000_000 * xkk <= (2 * s2 + 3) * kk) by {
        assert((2 * s2 + 3) * kk == (2 * s2 + 2) * kk + kk) by (nonlinear_arith);
    }
    assert(40_000_000_000_000 * x <= 2 * s2 + 3) by (nonlinear_arith)
        requires
            40_000_000_000_000 * (x * kk) <= (2 * s2 + 3) * kk,
            1 <= kk,
    {
        assert((40_000_000_000_000 * x) * kk <= (2 * s2 + 3) * kk) by (nonlinear_arith)
            requires
                40_000_000_000_000 * (x * kk) <= (2 * s2 + 3) * kk,
        ;
    }
}

proof fn lemma_scaled(p: int, w: int, k: int, a: int, z: int, c: int)
    ensures
        (p * (w * k) - a * z) * c == p * (w * (k * c)) - (a * c) * z,
{
    let u = w * k;
    assert((p * u - a * z) * c == p * (u * c) - (a * c) * z) by (nonlinear_arith);
    assert(u * c == w * (k * c)) by (nonlinear_arith)
        requires
            u == w * k,
    ;
}

/// A number, or zero where it is negative.
spec fn larger_of(v: int) -> int {
    if v < 0 {
        0
    } else {
        v
    }
}

/// A product with a factor that is larger by one part in ten to the twelfth is larger by that part.
pub proof fn lemma_part_larger(a: int, a2: int, b: int, b2: int)
    requires
        1 <= a <= a2,
        1 <= b <= b2,
        a2 <= 1_000_000_000_000 * (a2 - a),
    ensures
        1_000_000_000_000 * (a * b) <= 999_999_999_999 * (a2 * b2),
{
    assert((1_000_000_000_000 * a) * b <= (999_999_999_999 * a2) * b2) by (nonlinear_arith)
        requires
            0 <= 1_000_000_000_000 * a <= 999_999_999_999 * a2,
            1 <= b <= b2,
    ;
    assert((1_000_000_000_000 * a) * b == 1_000_000_000_000 * (a * b)) by (nonlinear_arith);
    assert((999_999_999_999 * a2) * b2 == 999_999_999_999 * (a2 * b2)) by (nonlinear_arith);
}

/// What a step that has converged on `v` from `d` is known by, at `d`.
pub open spec fn converged_at(n: int, ann: int, gamma: int, s: int, k0: int, d: int, v: int) -> bool {
    &&& in_range(s, k0)
    &&& 500_000_000_000_000 <= k0 <= WAD + 1_000_000_000
    &&& WAD <= d <= s + 3
    &&& d > s ==> k0 < WAD
    &&& terms_of(n, ann, gamma, s, k0, d, v)
    &&& 90_000_000_000_000 * (d - v) <= d
    &&& 90_000_000_000_000 * (v - d) <= d
}

/// Of two steps that have converged, the one with the larger sum of balances, and the larger `k0` unless
/// its `d` is larger, leads to the larger invariant.
pub proof fn lemma_growth(
    n: int,
    ann: int,
    gamma: int,
    s: int,
    k: int,
    d: int,
    v: int,
    s2: int,
    k2: int,
    d2: int,
    v2: int,
)
    requires
        2 <= n <= 3,
        10_000 * n + 1 <= ann,
        10_000_000_000 <= gamma <= WAD,
        converged_at(n, ann, gamma, s, k, d, v),
        converged_at(n, ann, gamma, s2, k2, d2, v2),
        s <= s2,
        s2 <= 1_000_000_000_000 * (s2 - s),
        40_000_000_000_000 * (d2 - d) <= d ==> 8 * k2 <= 10_000_000_000_000 * (k2 - k),
    ensures
        v < v2,
{
    if v2 <= v {
        assert(40_000_000_000_000 * (d2 - d) <= d);
        if k2 >= WAD {
            lemma_full(n, ann, gamma, s2, k2, d2, v2);
        } else {
            lemma_short(n, ann, gamma, s, k, d, v);
            lemma_short(n, ann, gamma, s2, k2, d2, v2);
            lemma_gap(gamma, k);
            lemma_gap(gamma, k2);
            let g = g1k0(gamma, k);
            let g2 = g1k0(gamma, k2);
            lemma_mul1_ratio(ann, gamma, d, g, d2, g2);
            lemma_compare(
                s,
                k,
                d,
                mul1_model(ann, gamma, d, g),
                s2,
                k2,
                d2,
                mul1_model(ann, gamma, d2, g2),
            );
        }
    }
}

} // verus!
