//! What the rounding of its parts leaves of a cubic at the root that Cardano's formula gives.
//!
//! For the cubic `a*x^3 - b*x^2 + c*x - d` the parts are `delta0` and `delta1`, the square root, the two cube
//! roots, and the quotient that the root is put together from.
use crate::bounds::lemma_quotient;
use crate::newton::WAD;
use crate::roots::{cube, e36};
use crate::signed::magnitude;
use vstd::prelude::*;

verus! {

/// What two rounded cube roots make of `b * b * z`: with `first` and `m` the cube roots of `b` and `z` in
/// units of 10^-12, the cube of `u` is `b * b * z` up to one part in ten to the thirteenth.
pub proof fn lemma_product_of_roots(b: int, z: int, first: int, m: int, u: int)
    requires
        10_000_000_000_000_000_000 <= b,
        10_000_000 <= z,
        cube(first - 1) <= b * e36() < cube(first + 1),
        cube(m - 1) <= z * e36() < cube(m + 1),
        u == (((first * first) / (WAD as int)) * m) / (WAD as int),
        0 <= first,
        0 <= m,
    ensures
        10_000_000_000_000 * (cube(u) - b * b * z) <= b * b * z,
        10_000_000_000_000 * (b * b * z - cube(u)) <= b * b * z,
        1 <= u,
{
    let w = WAD as int;
    let e = e36();
    let bb = b * e;
    let zz = z * e;
    lemma_root_close(bb, first, 2_000_000_000_000_000_000, 500_000_000_000_000_000);
    lemma_root_close(zz, m, 200_000_000_000_000, 50_000_000_000_000);
    let f2 = first * first;
    let g = f2 / w;
    assert(0 <= f2) by (nonlinear_arith)
        requires
            f2 == first * first,
    ;
    lemma_quotient(f2, w);
    let gm = g * m;
    assert(0 <= gm) by (nonlinear_arith)
        requires
            gm == g * m,
            0 <= g,
            0 <= m,
    ;
    lemma_quotient(gm, w);
    let x = f2 * m;
    let y = u * e;
    // u * W^2 is x up to one part in ten to the fourteenth
    assert(y <= x) by (nonlinear_arith)
        requires
            u * w <= gm,
            gm == g * m,
            g * w <= f2,
            x == f2 * m,
            y == u * e,
            e == w * w,
            0 <= m,
            0 <= w,
    {
        assert((u * w) * w <= (g * m) * w) by (nonlinear_arith)
            requires
                u * w <= g * m,
                0 <= w,
        ;
        assert((g * w) * m <= f2 * m) by (nonlinear_arith)
            requires
                g * w <= f2,
                0 <= m,
        ;
        assert((u * w) * w == u * (w * w) && (g * m) * w == (g * w) * m) by (nonlinear_arith);
    }
    assert(x <= y + w * m + e) by (nonlinear_arith)
        requires
            gm < (u + 1) * w,
            gm == g * m,
            f2 < (g + 1) * w,
            x == f2 * m,
            y == u * e,
            e == w * w,
            0 <= m,
            0 <= w,
    {
        assert((g * m) * w <= ((u + 1) * w) * w) by (nonlinear_arith)
            requires
                g * m < (u + 1) * w,
                0 <= w,
        ;
        assert(f2 * m <= ((g + 1) * w) * m) by (nonlinear_arith)
            requires
                f2 < (g + 1) * w,
                0 <= m,
        ;
        assert(((u + 1) * w) * w == u * (w * w) + w * w && ((g + 1) * w) * m == (g * m) * w + w * m)
            by (nonlinear_arith);
    }
    assert(x >= 4_000_000_000_000_000_000_000_000_000_000_000_000 * m) by (nonlinear_arith)
        requires
            x == f2 * m,
            f2 == first * first,
            first >= 2_000_000_000_000_000_000,
            0 <= m,
    ;
    assert(100_000_000_000_000 * (x - y) <= x);
    let n14 = 100_000_000_000_000int;
    // cubes
    let x3 = cube(x);
    let y3 = cube(y);
    let f = (n14 - 1) * x;
    let h = n14 * y;
    assert(0 <= x && 0 <= y) by (nonlinear_arith)
        requires
            x == f2 * m,
            0 <= f2,
            0 <= m,
            y == u * e,
            0 <= u,
            0 <= e,
    ;
    lemma_cube_order(y, x);
    lemma_cube_order(f, h);
    assert(cube(f) == 999_999_999_999_970_000_000_000_000_299_999_999_999_999 * x3 && cube(h) == 1_000_000_000_000_000_000_000_000_000_000_000_000_000_000 * y3) by {
        lemma_cube_product(n14 - 1, x);
        lemma_cube_product(n14, y);
        assert(cube(99_999_999_999_999) == 999_999_999_999_970_000_000_000_000_299_999_999_999_999) by (nonlinear_arith);
        assert(cube(100_000_000_000_000) == 1_000_000_000_000_000_000_000_000_000_000_000_000_000_000) by (nonlinear_arith);
    }
    // x3 is (first^3)^2 * m^3
    let p = cube(first);
    let q = cube(m);
    assert(x3 == (p * p) * q) by {
        lemma_cube_product(f2, m);
        assert(cube(f2) == p * p) by (nonlinear_arith)
            requires
                cube(f2) == f2 * f2 * f2,
                f2 == first * first,
                p == first * first * first,
        ;
    }
    let t = (bb * bb) * zz;
    lemma_close_product(p, bb, q, zz);
    let v = b * b * z;
    let e3 = (e * e) * e;
    assert(t == v * e3) by (nonlinear_arith)
        requires
            t == (bb * bb) * zz,
            bb == b * e,
            zz == z * e,
            v == b * b * z,
            e3 == (e * e) * e,
    {
        assert((b * e) * (b * e) == (b * b) * (e * e)) by (nonlinear_arith);
        assert(((b * b) * (e * e)) * (z * e) == (b * b * z) * ((e * e) * e)) by (nonlinear_arith);
    }
    lemma_cube_product(u, e);
    let u3 = cube(u);
    assert(cube(e) == e3);
    assert(y3 == u3 * e3);
    assert(e3 == 1_000_000_000_000_000_000_000_000_000_000_000_000_000_000_000_000_000_000_000_000_000_000_000_000_000_000_000_000_000_000_000_000_000_000_000_000) by (nonlinear_arith)
        requires
            e3 == (e * e) * e,
            e == 1_000_000_000_000_000_000_000_000_000_000_000_000,
    ;
    assert(0 <= v) by (nonlinear_arith)
        requires
            v == b * b * z,
            0 <= b,
            0 <= z,
    ;
    assert(10_000_000_000_000 * (u3 * e3 - v * e3) <= v * e3 && 10_000_000_000_000 * (v * e3 - u3 * e3) <= v * e3);
    assert(10_000_000_000_000 * (u3 - v) <= v && 10_000_000_000_000 * (v - u3) <= v) by (nonlinear_arith)
        requires
            10_000_000_000_000 * (u3 * e3 - v * e3) <= v * e3,
            10_000_000_000_000 * (v * e3 - u3 * e3) <= v * e3,
            1 <= e3,
    ;
    if u < 1 {
        assert(u == 0);
        assert(cube(0) == 0);
        assert(v >= 1) by (nonlinear_arith)
            requires
                v == b * b * z,
                1 <= b,
                1 <= z,
        ;
    }
}

/// A rounded cube root of a large number is a cube root up to a small part.
proof fn lemma_root_close(v: int, r: int, least: int, part: int)
    requires
        cube(r - 1) <= v < cube(r + 1),
        0 <= r,
        cube(least + 2) <= v,
        1_000 <= least,
        4 * part <= least,
        1 <= part,
    ensures
        least <= r,
        part * cube(r) <= (part + 1) * v,
        part * cube(r) >= (part - 1) * v,
{
    if r < least + 1 {
        lemma_cube_order(r + 1, least + 2);
    }
    let r2 = r * r;
    let r3 = cube(r);
    assert(cube(r - 1) == r3 - 3 * r2 + 3 * r - 1 && cube(r + 1) == r3 + 3 * r2 + 3 * r + 1) by (nonlinear_arith)
        requires
            r2 == r * r,
            r3 == r * r * r,
            cube(r - 1) == (r - 1) * (r - 1) * (r - 1),
            cube(r + 1) == (r + 1) * (r + 1) * (r + 1),
    ;
    assert(r3 >= 4 * (part * r2) && r2 >= 1_000 * r) by (nonlinear_arith)
        requires
            r3 == r * r * r,
            r2 == r * r,
            r >= 4 * part,
            r >= 1_000,
            part >= 1,
    {
        assert(r * r2 >= (4 * part) * r2) by (nonlinear_arith)
            requires
                r >= 4 * part,
                r2 == r * r,
        ;
        assert(r * r2 == r * r * r) by (nonlinear_arith)
            requires
                r2 == r * r,
        ;
        assert((4 * part) * r2 == 4 * (part * r2)) by (nonlinear_arith);
    }
    // part * (3 r^2 + 3 r + 1) is at most v
    let a = part * r2;
    assert(part * (3 * r2 + 3 * r + 1) <= 3 * a + a / 100 && 0 <= a) by (nonlinear_arith)
        requires
            a == part * r2,
            r2 >= 1_000 * r,
            r >= 1_000,
            part >= 1,
    {
        assert(a >= (1_000 * part) * r) by (nonlinear_arith)
            requires
                a == part * r2,
                r2 >= 1_000 * r,
                part >= 1,
        ;
        assert((1_000 * part) * r == 1_000 * (part * r)) by (nonlinear_arith);
        assert(part * r >= 1_000 * part) by (nonlinear_arith)
            requires
                r >= 1_000,
                part >= 1,
        ;
        assert(part * (3 * r2 + 3 * r + 1) == 3 * (part * r2) + 3 * (part * r) + part) by (nonlinear_arith);
    }
    assert(part * r3 - part * v <= part * (3 * r2 + 3 * r + 1)) by (nonlinear_arith)
        requires
            r3 - v <= 3 * r2 + 3 * r + 1,
            part >= 1,
    ;
    assert(part * v - part * r3 <= part * (3 * r2 + 3 * r + 1)) by (nonlinear_arith)
        requires
            v - r3 <= 3 * r2 + 3 * r + 1,
            part >= 1,
    ;
    assert(r3 >= 1_000 * r2) by (nonlinear_arith)
        requires
            r3 == r * r * r,
            r2 == r * r,
            r >= 1_000,
    ;
    assert(v >= 3 * a + a / 100);
    assert((part + 1) * v == part * v + v && (part - 1) * v == part * v - v) by (nonlinear_arith);
}

/// The cubes of numbers that are not negative are ordered as the numbers are.
proof fn lemma_cube_order(a: int, b: int)
    requires
        0 <= a <= b,
    ensures
        0 <= cube(a) <= cube(b),
{
    assert(a * a <= b * b && 0 <= a * a) by (nonlinear_arith)
        requires
            0 <= a <= b,
    ;
    assert((a * a) * a <= (b * b) * b && 0 <= (a * a) * a) by (nonlinear_arith)
        requires
            0 <= a <= b,
            0 <= a * a <= b * b,
    ;
}

/// The cube of a product is the product of the cubes.
proof fn lemma_cube_product(a: int, b: int)
    ensures
        cube(a * b) == cube(a) * cube(b),
{
    assert((a * b) * (a * b) * (a * b) == (a * a * a) * (b * b * b)) by (nonlinear_arith);
}

/// The product of numbers that are close to others is close to their product.
proof fn lemma_close_product(p: int, b: int, q: int, z: int)
    requires
        0 <= p,
        0 <= b,
        0 <= q,
        0 <= z,
        500_000_000_000_000_000 * p <= 500_000_000_000_000_001 * b,
        500_000_000_000_000_000 * p >= 499_999_999_999_999_999 * b,
        50_000_000_000_000 * q <= 50_000_000_000_001 * z,
        50_000_000_000_000 * q >= 49_999_999_999_999 * z,
    ensures
        40_000_000_000_000 * ((p * p) * q) <= 40_000_000_000_001 * ((b * b) * z),
        40_000_000_000_000 * ((p * p) * q) >= 39_999_999_999_999 * ((b * b) * z),
{
    let n = 500_000_000_000_000_000int;
    let pp = p * p;
    let bb = b * b;
    assert((n * p) * (n * p) <= ((n + 1) * b) * ((n + 1) * b) && (n * p) * (n * p) >= ((n - 1) * b) * ((n - 1)
        * b)) by (nonlinear_arith)
        requires
            0 <= n * p <= (n + 1) * b,
            n * p >= (n - 1) * b >= 0,
    ;
    assert((n * p) * (n * p) == 250_000_000_000_000_000_000_000_000_000_000_000 * pp && ((n + 1) * b) * ((n + 1) * b) == 250_000_000_000_000_001_000_000_000_000_000_001 * bb && ((n - 1) * b) * ((n
        - 1) * b) == 249_999_999_999_999_999_000_000_000_000_000_001 * bb) by (nonlinear_arith)
        requires
            n == 500_000_000_000_000_000,
            pp == p * p,
            bb == b * b,
    ;
    assert(0 <= pp && 0 <= bb) by (nonlinear_arith)
        requires
            pp == p * p,
            bb == b * b,
    ;
    let c = 100_000_000_000_000_000int;
    assert(c * pp <= (c + 1) * bb && c * pp >= (c - 1) * bb);
    let k = 50_000_000_000_000int;
    assert((c * pp) * (k * q) <= ((c + 1) * bb) * ((k + 1) * z)) by (nonlinear_arith)
        requires
            0 <= c * pp <= (c + 1) * bb,
            0 <= k * q <= (k + 1) * z,
    ;
    assert((c * pp) * (k * q) >= ((c - 1) * bb) * ((k - 1) * z)) by (nonlinear_arith)
        requires
            c * pp >= (c - 1) * bb >= 0,
            k * q >= (k - 1) * z >= 0,
    ;
    let x = pp * q;
    let y = bb * z;
    assert((c * pp) * (k * q) == 5_000_000_000_000_000_000_000_000_000_000 * x && ((c + 1) * bb) * ((k + 1) * z) == 5_000_000_000_000_100_050_000_000_000_001 * y && ((c - 1) * bb) * ((k
        - 1) * z) == 4_999_999_999_999_899_950_000_000_000_001 * y) by (nonlinear_arith)
        requires
            c == 100_000_000_000_000_000,
            k == 50_000_000_000_000,
            x == pp * q,
            y == bb * z,
    ;
    assert(0 <= y) by (nonlinear_arith)
        requires
            y == bb * z,
            0 <= bb,
            0 <= z,
    ;
}

/// What is left of the cubic at the root, times `a * a`.
pub open spec fn remainder(a: int, b: int, c: int, d: int, root: int) -> int {
    root * root * root - b * (root * root) + (a * c) * root - a * a * d
}

/// The number under the first cube root solves its quadratic equation up to the rounding of the square
/// root, and is not small.
pub proof fn lemma_under_root(b: int, t0: int, tau: int, t3: int, s: int, z: int)
    requires
        100_000_000_000_000 <= t0,
        20 * t0 <= b <= 1_000_000_000_000 * t0,
        0 <= tau,
        b * t3 <= 4 * (t0 * t0) < b * t3 + b,
        0 <= s,
        s * s <= tau * tau + t3 * t0 < (s + 1) * (s + 1),
        z == (tau + s) / 2,
    ensures
        t3 * t0 - 4 * s <= 4 * (z * (z - tau)) <= t3 * t0,
        s <= 2 * z + 1,
        tau <= 2 * z + 1,
        z <= tau + t0,
        10_000_000 <= z,
        99 * (t0 * t0 * t0) <= 100 * (b * (z * z)),
        t0 <= 1_100_000 * z,
{
    let k = 2 * z - tau;
    assert(s - 1 <= k <= s);
    let tt = tau * tau;
    assert(4 * (z * (z - tau)) == k * k - tt) by (nonlinear_arith)
        requires
            k == 2 * z - tau,
            tt == tau * tau,
    ;
    assert((s + 1) * (s + 1) == s * s + 2 * s + 1) by (nonlinear_arith);
    let kk = k * k;
    assert(s * s - 2 * s <= kk <= s * s) by {
        if s == 0 {
            lemma_tau(t0, b, t3, tau, s);
            assert(k == 0 || k == -1);
            assert(tau == 0) by {
                assert(tau == 0 || tau == 1);
                if tau == 1 {
                    assert(b <= t0 * t0) by (nonlinear_arith)
                        requires
                            b <= 1_000_000_000_000 * t0,
                            1_000_000_000_000 <= t0,
                    ;
                    lemma_root_positive(t0, b, t3);
                    assert(0 <= t3 * t0) by (nonlinear_arith)
                        requires
                            0 <= t3,
                            0 <= t0,
                    ;
                }
            }
        } else if k == s {
        } else {
            assert(kk == s * s - 2 * s + 1) by (nonlinear_arith)
                requires
                    kk == k * k,
                    k == s - 1,
            ;
        }
    }
    assert(tau <= s + 1) by {
        lemma_tau(t0, b, t3, tau, s);
    }
    let t2 = t0 * t0;
    let t = t2 * t0;
    assert(t2 >= 100 * b && t == t0 * t0 * t0) by (nonlinear_arith)
        requires
            t2 == t0 * t0,
            t == t2 * t0,
            b <= 1_000_000_000_000 * t0,
            100_000_000_000_000 <= t0,
    ;
    assert(t >= 100 * (b * t0)) by (nonlinear_arith)
        requires
            t == t2 * t0,
            t2 >= 100 * b,
            t0 >= 0,
    ;
    let y = t3 * t0;
    assert(b * y >= 4 * t - b * t0 && b * y <= 4 * t) by (nonlinear_arith)
        requires
            b * t3 <= 4 * t2 < b * t3 + b,
            y == t3 * t0,
            t == t2 * t0,
            t0 >= 1,
    {
        assert((b * t3) * t0 <= (4 * t2) * t0 <= (b * t3 + b) * t0) by (nonlinear_arith)
            requires
                b * t3 <= 4 * t2 < b * t3 + b,
                t0 >= 1,
        ;
        assert((b * t3) * t0 == b * (t3 * t0) && (b * t3 + b) * t0 == b * (t3 * t0) + b * t0) by (nonlinear_arith);
    }
    let z1 = (z + 1) * (z + 1);
    let zz = z * z;
    assert(z1 == zz + 2 * z + 1 && 4 * (z * (z - tau)) <= 4 * zz) by (nonlinear_arith)
        requires
            z1 == (z + 1) * (z + 1),
            zz == z * z,
            0 <= z,
            0 <= tau,
    ;
    assert(y <= 4 * z1);
    assert(b * y <= 4 * (b * z1)) by (nonlinear_arith)
        requires
            y <= 4 * z1,
            0 <= b,
    ;
    assert(400 * (b * z1) >= 399 * t);
    assert(t >= 10_000_000_000_000_000 * b) by (nonlinear_arith)
        requires
            t == t2 * t0,
            t2 >= 100 * b,
            t0 >= 100_000_000_000_000,
            b >= 0,
    ;
    if z < 10_000_000 {
        assert(z1 <= 100_000_000_000_000) by (nonlinear_arith)
            requires
                z1 == (z + 1) * (z + 1),
                0 <= z < 10_000_000,
        ;
        assert(b * z1 <= 100_000_000_000_000 * b) by (nonlinear_arith)
            requires
                z1 <= 100_000_000_000_000,
                0 <= b,
        ;
    }
    assert(1_000_000 * z1 <= 1_000_001 * zz) by (nonlinear_arith)
        requires
            z1 == zz + 2 * z + 1,
            zz == z * z,
            z >= 10_000_000,
    ;
    assert(1_000_000 * (b * z1) <= 1_000_001 * (b * zz)) by (nonlinear_arith)
        requires
            1_000_000 * z1 <= 1_000_001 * zz,
            0 <= b,
    ;
    assert(99 * t <= 100 * (b * zz));
    if t0 > 1_100_000 * z {
        assert(t2 >= 1_210_000_000_000 * zz) by (nonlinear_arith)
            requires
                t0 >= 1_100_000 * z,
                t2 == t0 * t0,
                zz == z * z,
                z >= 0,
        ;
        assert(b * zz <= (1_000_000_000_000 * t0) * zz) by (nonlinear_arith)
            requires
                b <= 1_000_000_000_000 * t0,
                0 <= zz,
        ;
        assert(t >= (1_210_000_000_000 * zz) * t0) by (nonlinear_arith)
            requires
                t == t2 * t0,
                t2 >= 1_210_000_000_000 * zz,
                t0 >= 0,
        ;
        assert((1_000_000_000_000 * t0) * zz == 1_000_000_000_000 * (t0 * zz) && (1_210_000_000_000 * zz) * t0
            == 1_210_000_000_000 * (t0 * zz)) by (nonlinear_arith);
        assert(1 <= t0 * zz) by (nonlinear_arith)
            requires
                t0 >= 1,
                zz == z * z,
                z >= 1,
        ;
    }
    // z is at most tau + t0
    if s > tau + t0 {
        assert(s * s >= tt + 2 * (tau * t0) + t2) by (nonlinear_arith)
            requires
                s >= tau + t0,
                tt == tau * tau,
                t2 == t0 * t0,
                0 <= tau,
                0 <= t0,
        ;
        assert(0 <= tau * t0) by (nonlinear_arith)
            requires
                0 <= tau,
                0 <= t0,
        ;
        assert(b * y >= b * t2) by (nonlinear_arith)
            requires
                y >= t2,
                0 <= b,
        ;
        assert(b * t2 >= 20 * t) by (nonlinear_arith)
            requires
                b >= 20 * t0,
                t == t2 * t0,
                t2 >= 0,
        ;
    }
}

/// The quotient of four squares of `delta0` by `b` is at least three.
pub proof fn lemma_root_positive(t0: int, b: int, t3: int)
    requires
        1 <= b <= t0 * t0,
        4 * (t0 * t0) < b * t3 + b,
    ensures
        3 <= t3,
{
    assert(3 <= t3) by (nonlinear_arith)
        requires
            1 <= b <= t0 * t0,
            4 * (t0 * t0) < b * t3 + b,
    ;
}

/// The square root under the cube root is at least `tau`, up to one.
proof fn lemma_tau(t0: int, b: int, t3: int, tau: int, s: int)
    requires
        1 <= t0,
        1 <= b,
        4 * (t0 * t0) < b * t3 + b,
        0 <= tau,
        0 <= s,
        tau * tau + t3 * t0 < (s + 1) * (s + 1),
    ensures
        tau <= s + 1,
{
    assert(0 <= t3) by (nonlinear_arith)
        requires
            4 * (t0 * t0) < b * t3 + b,
            1 <= b,
    ;
    assert(0 <= t3 * t0) by (nonlinear_arith)
        requires
            0 <= t3,
            1 <= t0,
    ;
    if tau > s + 1 {
        assert(tau * tau >= (s + 1) * (s + 1)) by (nonlinear_arith)
            requires
                tau >= s + 1 >= 0,
        ;
    }
}

/// The cube of `u` less the cube of `v` is `b * b * tau` up to a small part.
proof fn lemma_cubes_apart(b: int, t0: int, tau: int, t3: int, s: int, z: int, u: int, v: int)
    requires
        100_000_000_000_000 <= t0,
        20 * t0 <= b <= 1_000_000_000_000 * t0,
        0 <= tau,
        10 * tau <= b,
        b * t3 <= 4 * (t0 * t0) < b * t3 + b,
        0 <= s,
        s * s <= tau * tau + t3 * t0 < (s + 1) * (s + 1),
        z == (tau + s) / 2,
        1 <= u,
        10_000_000_000_000 * (cube(u) - b * b * z) <= b * b * z,
        10_000_000_000_000 * (b * b * z - cube(u)) <= b * b * z,
        0 <= v,
        u * v <= b * t0 < u * v + u,
    ensures
        1_000_000_000_000 * magnitude(cube(u) - cube(v) - b * b * tau) <= b * b * (500_000_000_000_000_000 + tau + t0),
        10 * u <= 6 * b,
        10 * v <= 11 * u,
{
    lemma_under_root(b, t0, tau, t3, s, z);
    let bb = b * b;
    let q = bb * z;
    let c = cube(u);
    let e = c - q;
    let m = tau + t0;
    let x = b * t0;
    let x2 = x * x;
    let x3 = x2 * x;
    let y = u * v;
    let u2 = u * u;
    assert(bb >= 1 && q >= 1 && x >= 1) by (nonlinear_arith)
        requires
            bb == b * b,
            q == bb * z,
            x == b * t0,
            b >= 1,
            z >= 1,
            t0 >= 1,
    ;
    assert(b * b * z == q);
    // u is at most six tenths of b
    assert(q <= bb * m && 20 * (bb * m) <= 3 * (bb * b)) by (nonlinear_arith)
        requires
            q == bb * z,
            z <= m,
            20 * m <= 3 * b,
            bb >= 1,
    ;
    if 10 * u > 6 * b {
        let f = 6 * b;
        let g = 10 * u;
        lemma_cube_order(f, g);
        lemma_cube_product(6, b);
        lemma_cube_product(10, u);
        assert(cube(6) == 216 && cube(10) == 1_000) by (nonlinear_arith);
        assert(cube(b) == bb * b);
    }
    // x is at most eleven tenths of the square of u
    let qq = q * q;
    let cc = c * c;
    let zz = z * z;
    let t = t0 * t0 * t0;
    assert(x3 == (bb * b) * t) by (nonlinear_arith)
        requires
            x3 == x2 * x,
            x2 == x * x,
            x == b * t0,
            bb == b * b,
            t == t0 * t0 * t0,
    {
        assert(x2 == bb * (t0 * t0)) by (nonlinear_arith)
            requires
                x2 == (b * t0) * (b * t0),
                bb == b * b,
        ;
        assert((bb * (t0 * t0)) * (b * t0) == (bb * b) * (t0 * t0 * t0)) by (nonlinear_arith);
    }
    assert(qq == (bb * b) * (b * zz)) by (nonlinear_arith)
        requires
            qq == q * q,
            q == bb * z,
            bb == b * b,
            zz == z * z,
    {
        assert((bb * z) * (bb * z) == (bb * bb) * (z * z)) by (nonlinear_arith);
        assert(bb * bb == (bb * b) * b) by (nonlinear_arith)
            requires
                bb == b * b,
        ;
        assert(((bb * b) * b) * zz == (bb * b) * (b * zz)) by (nonlinear_arith);
    }
    assert(99 * x3 <= 100 * qq) by (nonlinear_arith)
        requires
            x3 == (bb * b) * t,
            qq == (bb * b) * (b * zz),
            99 * t <= 100 * (b * zz),
            0 <= bb * b,
    {
        assert((bb * b) * (99 * t) <= (bb * b) * (100 * (b * zz))) by (nonlinear_arith)
            requires
                99 * t <= 100 * (b * zz),
                0 <= bb * b,
        ;
        assert((bb * b) * (99 * t) == 99 * ((bb * b) * t)) by (nonlinear_arith);
        assert((bb * b) * (100 * (b * zz)) == 100 * ((bb * b) * (b * zz))) by (nonlinear_arith);
    }
    assert(0 <= bb * b) by (nonlinear_arith)
        requires
            bb >= 1,
            b >= 1,
    ;
    assert(1_000 * cc >= 999 * qq) by (nonlinear_arith)
        requires
            cc == c * c,
            qq == q * q,
            10_000 * c >= 9_999 * q,
            q >= 1,
    {
        let g = 10_000 * c;
        let h = 9_999 * q;
        assert(g * g >= h * h) by (nonlinear_arith)
            requires
                g >= h >= 0,
        ;
        assert(g * g == 100_000_000 * (c * c)) by (nonlinear_arith)
            requires
                g == 10_000 * c,
        ;
        assert(h * h == 99_980_001 * (q * q)) by (nonlinear_arith)
            requires
                h == 9_999 * q,
        ;
        assert(0 <= q * q) by (nonlinear_arith);
    }
    assert(cc == cube(u2)) by (nonlinear_arith)
        requires
            cc == c * c,
            c == u * u * u,
            u2 == u * u,
            cube(u2) == u2 * u2 * u2,
    ;
    assert(0 <= u2) by (nonlinear_arith)
        requires
            u2 == u * u,
    ;
    if 10 * x > 11 * u2 {
        lemma_cube_order(11 * u2, 10 * x);
        lemma_cube_product(11, u2);
        lemma_cube_product(10, x);
        assert(cube(11) == 1_331 && cube(10) == 1_000) by (nonlinear_arith);
        assert(cube(x) == x3);
        assert(1 <= x3) by (nonlinear_arith)
            requires
                x3 == x2 * x,
                x2 == x * x,
                x >= 1,
        ;
    }
    assert(10 * v <= 11 * u) by (nonlinear_arith)
        requires
            u * v <= x,
            10 * x <= 11 * u2,
            u2 == u * u,
            u >= 1,
    {
        assert((10 * v) * u <= (11 * u) * u) by (nonlinear_arith)
            requires
                10 * (u * v) <= 11 * (u * u),
        ;
        assert(10 * v <= 11 * u) by (nonlinear_arith)
            requires
                (10 * v) * u <= (11 * u) * u,
                u >= 1,
        ;
    }
    // the product of c with what is to be bounded
    let h = bb * tau;
    let big = c * (c - h) - cube(y);
    assert(cube(y) == c * cube(v)) by {
        lemma_cube_product(u, v);
    }
    let apart = c - cube(v) - h;
    assert(big == c * apart) by (nonlinear_arith)
        requires
            big == c * (c - h) - c * cube(v),
            apart == c - cube(v) - h,
    ;
    let p4 = bb * bb;
    let w = z * (z - tau);
    assert(q * (q - h) == p4 * w) by (nonlinear_arith)
        requires
            q == bb * z,
            h == bb * tau,
            p4 == bb * bb,
            w == z * (z - tau),
    ;
    // p4 * w against x3
    let tt = t3 * t0;
    assert(4 * (p4 * w) <= p4 * tt && p4 * tt - 4 * (p4 * s) <= 4 * (p4 * w)) by (nonlinear_arith)
        requires
            tt - 4 * s <= 4 * w <= tt,
            p4 >= 0,
    ;
    assert(p4 >= 1) by (nonlinear_arith)
        requires
            p4 == bb * bb,
            bb >= 1,
    ;
    let b3 = bb * b;
    let y4 = b * tt;
    assert(4 * t - b * t0 <= y4 <= 4 * t) by (nonlinear_arith)
        requires
            b * t3 <= 4 * (t0 * t0) < b * t3 + b,
            tt == t3 * t0,
            y4 == b * tt,
            t == t0 * t0 * t0,
            t0 >= 1,
    {
        assert((b * t3) * t0 <= (4 * (t0 * t0)) * t0 <= (b * t3 + b) * t0) by (nonlinear_arith)
            requires
                b * t3 <= 4 * (t0 * t0) < b * t3 + b,
                t0 >= 1,
        ;
        assert((b * t3) * t0 == b * (t3 * t0) && (b * t3 + b) * t0 == b * (t3 * t0) + b * t0) by (nonlinear_arith);
    }
    assert(p4 * tt == b3 * y4) by (nonlinear_arith)
        requires
            p4 == bb * bb,
            bb == b * b,
            b3 == bb * b,
            y4 == b * tt,
    {
        assert(bb * bb == (bb * b) * b) by (nonlinear_arith)
            requires
                bb == b * b,
        ;
        assert(((bb * b) * b) * tt == (bb * b) * (b * tt)) by (nonlinear_arith);
    }
    let p5 = b3 * (b * t0);
    assert(4 * x3 - p5 <= b3 * y4 <= 4 * x3) by (nonlinear_arith)
        requires
            4 * t - b * t0 <= y4 <= 4 * t,
            x3 == b3 * t,
            p5 == b3 * (b * t0),
            b3 >= 0,
    {
        assert(b3 * (4 * t - b * t0) <= b3 * y4 <= b3 * (4 * t)) by (nonlinear_arith)
            requires
                4 * t - b * t0 <= y4 <= 4 * t,
                b3 >= 0,
        ;
        assert(b3 * (4 * t - b * t0) == 4 * (b3 * t) - b3 * (b * t0) && b3 * (4 * t) == 4 * (b3 * t))
            by (nonlinear_arith);
    }
    assert(p5 == p4 * t0) by (nonlinear_arith)
        requires
            p5 == b3 * (b * t0),
            b3 == bb * b,
            bb == b * b,
            p4 == bb * bb,
    {
        assert((bb * b) * (b * t0) == (bb * (b * b)) * t0) by (nonlinear_arith);
    }
    // p4 * t0 and p4 * s in units of bb * q
    let bq = bb * q;
    assert(p4 * t0 <= 1_100_000 * bq && p4 * s <= 3 * bq) by (nonlinear_arith)
        requires
            p4 == bb * bb,
            bq == bb * q,
            q == bb * z,
            t0 <= 1_100_000 * z,
            s <= 2 * z + 1,
            z >= 1,
            p4 >= 1,
    {
        assert(bq == p4 * z) by (nonlinear_arith)
            requires
                bq == bb * (bb * z),
                p4 == bb * bb,
        ;
        assert(p4 * t0 <= p4 * (1_100_000 * z) && p4 * s <= p4 * (3 * z)) by (nonlinear_arith)
            requires
                t0 <= 1_100_000 * z,
                s <= 3 * z,
                p4 >= 1,
        ;
        assert(p4 * (1_100_000 * z) == 1_100_000 * (p4 * z) && p4 * (3 * z) == 3 * (p4 * z)) by (nonlinear_arith);
    }
    assert(x3 - 280_000 * bq <= q * (q - h) <= x3);
    // the cube of y against x3
    let y3 = cube(y);
    assert(x3 - y3 <= 3 * (x2 * u) && y3 <= x3) by (nonlinear_arith)
        requires
            y3 == y * y * y,
            x3 == x2 * x,
            x2 == x * x,
            0 <= y <= x,
            x <= y + u,
            0 <= u,
    {
        let g = x - y;
        assert(x3 - y3 == g * (x * x + x * y + y * y)) by (nonlinear_arith)
            requires
                y3 == y * y * y,
                x3 == (x * x) * x,
                g == x - y,
        ;
        assert(x * y <= x * x && y * y <= x * x && 0 <= x * y && 0 <= y * y) by (nonlinear_arith)
            requires
                0 <= y <= x,
        ;
        let k = x * x + x * y + y * y;
        assert(g * k <= u * (3 * (x * x))) by (nonlinear_arith)
            requires
                0 <= g <= u,
                0 <= k <= 3 * (x * x),
        ;
        assert(0 <= g * k) by (nonlinear_arith)
            requires
                0 <= g,
                0 <= k,
        ;
        assert(u * (3 * (x * x)) == 3 * ((x * x) * u)) by (nonlinear_arith);
    }
    assert(0 <= y) by (nonlinear_arith)
        requires
            y == u * v,
            u >= 0,
            v >= 0,
    ;
    assert(3 * (x2 * u) <= 4 * (u2 * c)) by (nonlinear_arith)
        requires
            x2 == x * x,
            10 * x <= 11 * u2,
            x >= 1,
            c == u2 * u,
            u >= 1,
            u2 >= 0,
    {
        let k = 10 * x;
        let l = 11 * u2;
        assert(k * k <= l * l) by (nonlinear_arith)
            requires
                0 <= k <= l,
        ;
        assert(k * k == 100 * (x * x) && l * l == 121 * (u2 * u2)) by (nonlinear_arith)
            requires
                k == 10 * x,
                l == 11 * u2,
        ;
        let r = u2 * u2;
        assert(100 * (x2 * u) <= 121 * (r * u)) by (nonlinear_arith)
            requires
                100 * x2 <= 121 * r,
                u >= 1,
        ;
        assert(r * u == u2 * (u2 * u)) by (nonlinear_arith)
            requires
                r == u2 * u2,
        ;
        assert(0 <= r * u) by (nonlinear_arith)
            requires
                r == u2 * u2,
                u >= 1,
        ;
    }
    assert(c == u2 * u);
    // the part of the rounding of u
    assert(c * (c - h) == q * (q - h) + e * (2 * q - h) + e * e) by (nonlinear_arith)
        requires
            c == q + e,
    ;
    let er = magnitude(e);
    assert(h <= 3 * q && 0 <= h) by (nonlinear_arith)
        requires
            h == bb * tau,
            q == bb * z,
            tau <= 2 * z + 1,
            z >= 1,
            tau >= 0,
            bb >= 1,
    ;
    let k = e * (2 * q - h) + e * e;
    assert(magnitude(k) <= 6 * (er * q)) by (nonlinear_arith)
        requires
            k == e * (2 * q - h) + e * e,
            er == magnitude(e),
            0 <= h <= 3 * q,
            er <= q,
            e == er || e == -er,
            0 <= er,
            magnitude(k) == k || magnitude(k) == -k,
    {
        assert(er * h <= 3 * (er * q) && 0 <= er * h && 0 <= er * q) by (nonlinear_arith)
            requires
                0 <= h <= 3 * q,
                0 <= er,
                0 <= q,
        ;
        assert(er * er <= er * q && 0 <= er * er) by (nonlinear_arith)
            requires
                0 <= er <= q,
        ;
        assert(e * (2 * q - h) == 2 * (e * q) - e * h) by (nonlinear_arith);
        if e == er {
        } else {
            assert(e * q == -(er * q) && e * h == -(er * h) && e * e == er * er) by (nonlinear_arith)
                requires
                    e == -er,
            ;
        }
    }
    let eq = er * q;
    assert(10_000_000_000_000 * eq <= q * q) by (nonlinear_arith)
        requires
            eq == er * q,
            10_000_000_000_000 * er <= q,
            q >= 1,
    ;
    // together
    assert(magnitude(big) <= 4 * (u2 * c) + 280_000 * bq + 6 * eq);
    assert(big == c * apart);
    let ap = magnitude(apart);
    assert(magnitude(big) == c * ap) by (nonlinear_arith)
        requires
            big == c * apart,
            c >= 0,
            ap == magnitude(apart),
            (apart >= 0 && ap == apart) || (apart < 0 && ap == -apart),
            (big >= 0 && magnitude(big) == big) || (big < 0 && magnitude(big) == -big),
    ;
    assert(c >= 1);
    let limit = bb * (500_000_000_000_000_000 + m);
    assert(100 * u2 <= 36 * bb) by (nonlinear_arith)
        requires
            u2 == u * u,
            bb == b * b,
            10 * u <= 6 * b,
            u >= 1,
    {
        let g = 10 * u;
        let f = 6 * b;
        assert(g * g <= f * f) by (nonlinear_arith)
            requires
                0 <= g <= f,
        ;
        assert(g * g == 100 * (u * u) && f * f == 36 * (b * b)) by (nonlinear_arith)
            requires
                g == 10 * u,
                f == 6 * b,
        ;
    }
    // every part over c
    assert(4 * (u2 * c) <= (2 * bb) * c) by (nonlinear_arith)
        requires
            100 * u2 <= 36 * bb,
            c >= 1,
            u2 >= 0,
    ;
    assert(280_000 * bq <= (290_000 * bb) * c) by (nonlinear_arith)
        requires
            bq == bb * q,
            1_000 * c >= 999 * q,
            bb >= 1,
            q >= 1,
    ;
    assert(1_000_000_000_000 * (6 * eq) <= (bb * m) * c) by (nonlinear_arith)
        requires
            10_000_000_000_000 * eq <= q * q,
            1_000 * c >= 999 * q,
            q <= bb * m,
            q >= 1,
    {
        assert(q * q <= (bb * m) * q) by (nonlinear_arith)
            requires
                q <= bb * m,
                q >= 1,
        ;
        assert(999 * ((bb * m) * q) <= 1_000 * ((bb * m) * c)) by (nonlinear_arith)
            requires
                1_000 * c >= 999 * q,
                bb * m >= 0,
        ;
        assert(0 <= (bb * m) * c) by (nonlinear_arith)
            requires
                bb * m >= 0,
                c >= 0,
        ;
        assert(c >= 0);
    }
    assert((1_000_000_000_000 * ap) * c <= limit * c) by (nonlinear_arith)
        requires
            c * ap <= 4 * (u2 * c) + 280_000 * bq + 6 * eq,
            4 * (u2 * c) <= (2 * bb) * c,
            280_000 * bq <= (290_000 * bb) * c,
            1_000_000_000_000 * (6 * eq) <= (bb * m) * c,
            limit == bb * (500_000_000_000_000_000 + m),
            bb >= 1,
            c >= 1,
    {
        let bc = bb * c;
        assert(limit * c == 500_000_000_000_000_000 * bc + (bb * m) * c) by (nonlinear_arith)
            requires
                limit == bb * (500_000_000_000_000_000 + m),
                bc == bb * c,
        ;
        assert((2 * bb) * c == 2 * bc && (290_000 * bb) * c == 290_000 * bc) by (nonlinear_arith)
            requires
                bc == bb * c,
        ;
        assert((1_000_000_000_000 * ap) * c == 1_000_000_000_000 * (c * ap)) by (nonlinear_arith);
        assert(bc >= 1) by (nonlinear_arith)
            requires
                bc == bb * c,
                bb >= 1,
                c >= 1,
        ;
    }
    assert(1_000_000_000_000 * ap <= limit) by (nonlinear_arith)
        requires
            (1_000_000_000_000 * ap) * c <= limit * c,
            c >= 1,
    ;
}

/// A bound on what is left of the cubic at a root that was calculated from rounded parts.
pub proof fn lemma_remainder(
    a: int,
    b: int,
    c: int,
    d: int,
    t0: int,
    t1: int,
    t3: int,
    s: int,
    z: int,
    u: int,
    v: int,
    root: int,
)
    requires
        100_000_000_000_000 <= t0,
        20 * t0 <= b <= 1_000_000_000_000 * t0,
        10 * magnitude(t1) <= b,
        b * t0 <= 3 * (a * c) - b * b < b * t0 + b,
        magnitude(9 * ((a * c) * b) - 2 * (b * b * b) - 27 * (a * a * d) - b * b * t1) <= 2 * (b * b),
        b * t3 <= 4 * (t0 * t0) < b * t3 + b,
        0 <= s,
        s * s <= t1 * t1 + t3 * t0 < (s + 1) * (s + 1),
        z == (magnitude(t1) + s) / 2,
        1 <= u,
        10_000_000_000_000 * (cube(u) - b * b * z) <= b * b * z,
        10_000_000_000_000 * (b * b * z - cube(u)) <= b * b * z,
        0 <= v,
        u * v <= b * t0 < u * v + u,
        magnitude(3 * root - (if t1 <= 0 {
            b - v + u
        } else {
            b + v - u
        })) <= 2,
    ensures
        27_000_000_000_000 * magnitude(remainder(a, b, c, d, root)) <= b * b * (510_000_000_000_000_000 + magnitude(t1) + t0),
        10 * magnitude(3 * root - b) <= 7 * b + 20,
{
    let tau = magnitude(t1);
    assert(t1 * t1 == tau * tau) by (nonlinear_arith)
        requires
            tau == t1 || tau == -t1,
    ;
    lemma_cubes_apart(b, t0, tau, t3, s, z, u, v);
    let ac = a * c;
    let aad = a * a * d;
    let bb = b * b;
    let om = 3 * root - b;
    let o0 = if t1 <= 0 {
        u - v
    } else {
        v - u
    };
    let rho = om - o0;
    let l0 = 3 * ac - bb;
    let l1 = 9 * (ac * b) - 2 * (b * b * b) - 27 * aad;
    let whole = remainder(a, b, c, d, root);
    // 27 times the remainder as a cubic in om
    let f = om * om * om + 3 * (l0 * om) + l1;
    assert(27 * whole == f) by {
        let t = 3 * root;
        assert(27 * (root * root * root) == t * t * t) by (nonlinear_arith)
            requires
                t == 3 * root,
        ;
        assert(27 * (b * (root * root)) == 3 * (b * (t * t))) by (nonlinear_arith)
            requires
                t == 3 * root,
        ;
        assert(27 * (ac * root) == 9 * (ac * t)) by (nonlinear_arith)
            requires
                t == 3 * root,
        ;
        assert(t == b + om);
        assert(t * t * t == om * om * om + 3 * (b * (om * om)) + 3 * (b * b * om) + b * b * b) by (nonlinear_arith)
            requires
                t == b + om,
        ;
        assert(b * (t * t) == b * (om * om) + 2 * (b * b * om) + b * b * b) by (nonlinear_arith)
            requires
                t == b + om,
        ;
        assert(ac * t == ac * b + ac * om) by (nonlinear_arith)
            requires
                t == b + om,
        ;
        assert(l0 * om == 3 * (ac * om) - b * b * om) by (nonlinear_arith)
            requires
                l0 == 3 * ac - bb,
                bb == b * b,
        ;
    }
    // the value at o0
    let y = u * v;
    let o3 = o0 * o0 * o0;
    let k = cube(u) - cube(v);
    assert(o3 + 3 * (y * o0) == (if t1 <= 0 {
        k
    } else {
        -k
    })) by (nonlinear_arith)
        requires
            o3 == o0 * o0 * o0,
            y == u * v,
            cube(u) == u * u * u,
            cube(v) == v * v * v,
            k == cube(u) - cube(v),
            (t1 <= 0 && o0 == u - v) || (t1 > 0 && o0 == v - u),
    ;
    let bt = bb * tau;
    assert(bb * t1 == (if t1 <= 0 {
        -bt
    } else {
        bt
    })) by (nonlinear_arith)
        requires
            bt == bb * tau,
            (t1 <= 0 && tau == -t1) || (t1 > 0 && tau == t1),
    ;
    let gap = l0 - y;
    assert(0 <= gap <= b + u);
    assert(l0 * o0 == y * o0 + gap * o0) by (nonlinear_arith)
        requires
            gap == l0 - y,
    ;
    let f0 = o3 + 3 * (l0 * o0) + l1;
    let go = gap * o0;
    assert(magnitude(f0) <= magnitude(k - bt) + 2 * bb + 3 * magnitude(go));
    let so = magnitude(o0);
    assert(10 * so <= 7 * b) by {
        assert(so <= u || so <= v);
    }
    assert(magnitude(go) <= gap * so) by (nonlinear_arith)
        requires
            go == gap * o0,
            gap >= 0,
            so == o0 || so == -o0,
            so >= 0,
            magnitude(go) == go || magnitude(go) == -go,
    ;
    assert(gap * so <= (b + u) * so) by (nonlinear_arith)
        requires
            gap <= b + u,
            so >= 0,
    ;
    assert(100 * ((b + u) * so) <= 112 * bb) by (nonlinear_arith)
        requires
            10 * u <= 6 * b,
            10 * so <= 7 * b,
            so >= 0,
            u >= 0,
            b >= 0,
            bb == b * b,
    {
        let g = 10 * (b + u);
        let h = 10 * so;
        assert(g * h <= (16 * b) * (7 * b)) by (nonlinear_arith)
            requires
                0 <= g <= 16 * b,
                0 <= h <= 7 * b,
        ;
        assert(g * h == 100 * ((b + u) * so)) by (nonlinear_arith)
            requires
                g == 10 * (b + u),
                h == 10 * so,
        ;
        assert((16 * b) * (7 * b) == 112 * (b * b)) by (nonlinear_arith);
    }
    // from o0 to om
    let slope = 3 * (o0 * o0) + 3 * (o0 * rho) + rho * rho + 3 * l0;
    assert(f - f0 == rho * slope) by {
        assert(om == o0 + rho);
        assert(om * om * om == o3 + rho * (3 * (o0 * o0) + 3 * (o0 * rho) + rho * rho)) by (nonlinear_arith)
            requires
                om == o0 + rho,
                o3 == o0 * o0 * o0,
        ;
        assert(l0 * om == l0 * o0 + l0 * rho) by (nonlinear_arith)
            requires
                om == o0 + rho,
        ;
        let w = 3 * (o0 * o0) + 3 * (o0 * rho) + rho * rho;
        assert(rho * slope == rho * w + 3 * (l0 * rho)) by (nonlinear_arith)
            requires
                slope == w + 3 * l0,
        ;
    }
    assert(100 * (o0 * o0) <= 49 * bb) by (nonlinear_arith)
        requires
            10 * so <= 7 * b,
            so == o0 || so == -o0,
            so >= 0,
            bb == b * b,
    {
        let g = 10 * so;
        let h = 7 * b;
        assert(g * g <= h * h) by (nonlinear_arith)
            requires
                0 <= g <= h,
        ;
        assert(g * g == 100 * (o0 * o0)) by (nonlinear_arith)
            requires
                g == 10 * so,
                so == o0 || so == -o0,
        ;
        assert(h * h == 49 * (b * b)) by (nonlinear_arith)
            requires
                h == 7 * b,
        ;
    }
    assert(0 <= o0 * o0) by (nonlinear_arith);
    assert(-2 <= rho <= 2);
    let ro = o0 * rho;
    assert(magnitude(ro) <= 2 * so) by (nonlinear_arith)
        requires
            ro == o0 * rho,
            -2 <= rho <= 2,
            so >= 0,
            so == o0 || so == -o0,
            magnitude(ro) == ro || magnitude(ro) == -ro,
    ;
    assert(0 <= rho * rho <= 4) by (nonlinear_arith)
        requires
            -2 <= rho <= 2,
    ;
    assert(magnitude(3 * ro + rho * rho) <= 6 * b + 4);
    let x = b * t0;
    assert(20 * x <= bb && bb >= 1_000_000 * b) by (nonlinear_arith)
        requires
            x == b * t0,
            20 * t0 <= b,
            bb == b * b,
            1_000_000 <= b,
    ;
    assert(0 <= x) by (nonlinear_arith)
        requires
            x == b * t0,
            t0 >= 0,
            b >= 0,
    ;
    assert(magnitude(slope) <= 2 * bb);
    let rs = rho * slope;
    let ss = magnitude(slope);
    assert(magnitude(rs) <= 2 * ss) by (nonlinear_arith)
        requires
            rs == rho * slope,
            -2 <= rho <= 2,
            ss >= 0,
            ss == slope || ss == -slope,
            magnitude(rs) == rs || magnitude(rs) == -rs,
    ;
    assert(magnitude(f) <= magnitude(k - bt) + 10 * bb);
    let m = tau + t0;
    assert(bb * (510_000_000_000_000_000 + m) == 510_000_000_000_000_000 * bb + bb * m && bb * (
    500_000_000_000_000_000 + m) == 500_000_000_000_000_000 * bb + bb * m) by (nonlinear_arith);
    assert(b * b * tau == bt);
    assert(510_000_000_000_000_000 + magnitude(t1) + t0 == 510_000_000_000_000_000 + m);
    assert(500_000_000_000_000_000 + tau + t0 == 500_000_000_000_000_000 + m);
}

} // verus!
