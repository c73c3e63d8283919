//! Integer square roots, binary logarithms and cube roots of words.
use crate::fault::Fault;
use crate::uint::{
    lemma_word_range, limbs_value, modulus, word_add, word_div, word_mul, Word, U256,
};
use vstd::arithmetic::div_mod::{lemma_div_denominator, lemma_fundamental_div_mod};
use vstd::arithmetic::power2::{
    lemma_pow2_adds, lemma_pow2_pos, lemma_pow2_strictly_increases, lemma2_to64, lemma2_to64_rest, pow2,
};
use vstd::prelude::*;

verus! {

/// Whether `r` is the square root of `x` rounded down.
pub open spec fn is_isqrt(x: int, r: int) -> bool {
    0 <= r && r * r <= x < (r + 1) * (r + 1)
}

/// The square root of `x` rounded down, for `x >= 0`.
pub closed spec fn isqrt_floor(x: int) -> int {
    choose|r: int| is_isqrt(x, r)
}

proof fn lemma_isqrt_exists(x: int)
    requires
        x >= 0,
    ensures
        exists|r: int| is_isqrt(x, r),
    decreases x,
{
    if x == 0 {
        assert(is_isqrt(0, 0));
    } else {
        let w = x - 1;
        lemma_isqrt_exists(w);
        let r = choose|r: int| is_isqrt(w, r);
        if x < (r + 1) * (r + 1) {
            assert(is_isqrt(x, r));
        } else {
            assert((r + 2) * (r + 2) == (r + 1) * (r + 1) + 2 * r + 3) by (nonlinear_arith);
            assert(is_isqrt(x, r + 1));
        }
    }
}

/// There is one square root rounded down, and [`isqrt_floor`] is it.
pub proof fn lemma_isqrt_floor(x: int, r: int)
    requires
        x >= 0,
    ensures
        is_isqrt(x, isqrt_floor(x)),
        is_isqrt(x, r) ==> r == isqrt_floor(x),
{
    lemma_isqrt_exists(x);
    let s = isqrt_floor(x);
    assert(is_isqrt(x, s));
    if is_isqrt(x, r) {
        if r < s {
            assert((r + 1) * (r + 1) <= s * s) by (nonlinear_arith)
                requires
                    0 <= r < s,
            ;
        } else if s < r {
            assert((s + 1) * (s + 1) <= r * r) by (nonlinear_arith)
                requires
                    0 <= s < r,
            ;
        }
    }
}

/// The average of `y` and `x / y` is never below the square root of `x`.
proof fn lemma_newton_sqrt_above(x: int, y: int)
    requires
        x >= 0,
        y >= 1,
    ensures
        x < ((x / y + y) / 2 + 1) * ((x / y + y) / 2 + 1),
{
    let q = x / y;
    let z = (q + y) / 2;
    lemma_fundamental_div_mod(x, y);
    assert(x < (q + 1) * y) by (nonlinear_arith)
        requires
            x == y * q + x % y,
            x % y < y,
    ;
    assert(4 * ((q + 1) * y) <= (q + 1 + y) * (q + 1 + y)) by (nonlinear_arith);
    assert((q + 1 + y) * (q + 1 + y) <= (2 * z + 2) * (2 * z + 2)) by (nonlinear_arith)
        requires
            0 <= q + 1 + y <= 2 * z + 2,
    ;
    assert((2 * z + 2) * (2 * z + 2) == 4 * ((z + 1) * (z + 1))) by (nonlinear_arith);
}

/// The square root of `x` rounded down.
///
/// The largest word of all is left out: the first step of the iteration would add one to it.
pub fn isqrt(x: U256) -> (r: U256)
    requires
        x@ != modulus() - 1,
    ensures
        r@ == isqrt_floor(x@),
        r@ * r@ <= x@ < (r@ + 1) * (r@ + 1),
{
    broadcast use lemma_word_range;

    if x.is_zero() {
        proof {
            lemma_isqrt_floor(0, 0);
        }
        return x;
    }
    proof {
        reveal(word_add);
        reveal(word_div);
        lemma2_to64();
        assert(x@ / x@ == 1) by (nonlinear_arith)
            requires
                x@ > 0,
        ;
        lemma_newton_sqrt_above(x@, x@);
        assert(x@ < (x@ + 1) * (x@ + 1)) by (nonlinear_arith)
            requires
                x@ > 0,
        ;
    }
    let mut z: U256 = (x + U256::from(1u64)).shr(1);
    let mut y: U256 = x;
    while z < y
        invariant
            1 <= x@ < modulus() - 1,
            1 <= y@ <= x@,
            x@ < (y@ + 1) * (y@ + 1),
            z@ == (x@ / y@ + y@) / 2,
            x@ < (z@ + 1) * (z@ + 1),
        decreases y@,
    {
        proof {
            assert(z@ >= 1) by (nonlinear_arith)
                requires
                    z@ >= 0,
                    x@ < (z@ + 1) * (z@ + 1),
                    1 <= x@,
            ;
        }
        y = z;
        proof {
            reveal(word_add);
            reveal(word_div);
            lemma2_to64();
            lemma_fundamental_div_mod(x@, z@);
            assert(x@ / z@ + z@ <= x@ + 1) by (nonlinear_arith)
                requires
                    x@ == z@ * (x@ / z@) + x@ % z@,
                    0 <= x@ % z@,
                    1 <= z@ <= x@,
                    x@ / z@ >= 0,
            ;
            lemma_newton_sqrt_above(x@, z@);
        }
        z = (x / z + z).shr(1);
    }
    proof {
        lemma_fundamental_div_mod(x@, y@);
        assert(x@ / y@ >= y@);
        assert(y@ * y@ <= x@) by (nonlinear_arith)
            requires
                x@ == y@ * (x@ / y@) + x@ % y@,
                0 <= x@ % y@,
                x@ / y@ >= y@,
                y@ >= 1,
        ;
        lemma_isqrt_floor(x@, y@);
    }
    y
}

/// [`isqrt`], or a fault for the word that it leaves out.
pub fn try_isqrt(x: U256) -> (r: Result<U256, Fault>)
    ensures
        r is Err <==> x@ == modulus() - 1,
        r matches Ok(v) ==> v@ == isqrt_floor(x@),
{
    let top = U256::from_limbs([u64::MAX, u64::MAX, u64::MAX, u64::MAX]);
    proof {
        reveal(limbs_value);
    }
    if x == top {
        Err(Fault)
    } else {
        Ok(isqrt(x))
    }
}

/// The powers of two at both ends of the words.
pub proof fn lemma_pow2_words()
    ensures
        pow2(0) == 1,
        pow2(1) == 2,
        pow2(256) == modulus(),
{
    lemma2_to64();
    lemma2_to64_rest();
    lemma_pow2_adds(64, 64);
    lemma_pow2_adds(128, 128);
    let a = pow2(64);
    let b = pow2(128);
    assert(b == 0x1_0000000000000000_0000000000000000nat) by (nonlinear_arith)
        requires
            b == a * a,
            a == 0x1_0000000000000000nat,
    ;
    assert(b * b == modulus()) by (nonlinear_arith)
        requires
            b == 0x1_0000000000000000_0000000000000000nat,
    ;
}

/// Whether `r` is the binary logarithm of `x` rounded down.
pub open spec fn is_log2(x: int, r: nat) -> bool {
    pow2(r) <= x < pow2(r + 1)
}

/// The binary logarithm of `x` rounded down, and zero for `x == 0`.
pub closed spec fn log2_floor(x: int) -> nat {
    if x <= 0 {
        0
    } else {
        choose|r: nat| is_log2(x, r)
    }
}

/// There is one logarithm rounded down, and [`log2_floor`] is it.
pub proof fn lemma_log2_floor(x: int, r: nat)
    requires
        x > 0,
        is_log2(x, r),
    ensures
        log2_floor(x) == r,
{
    let s = log2_floor(x);
    assert(is_log2(x, s));
    if r < s {
        if r + 1 < s {
            lemma_pow2_strictly_increases(r + 1, s);
        }
    } else if s < r {
        if s + 1 < r {
            lemma_pow2_strictly_increases(s + 1, r);
        }
    }
}

/// Looks at the upper half of a value of at most `2 * k` bits: what is left of the value, and how
/// many bits were taken off it.
fn log2_stage(value: U256, k: u32) -> (r: (U256, u32))
    requires
        1 <= k <= 128,
        1 <= value@ < pow2((2 * k) as nat),
    ensures
        r.1 == 0 || r.1 == k,
        r.0@ == value@ / (pow2(r.1 as nat) as int),
        1 <= r.0@ < pow2(k as nat),
{
    let ghost p = pow2(k as nat) as int;
    proof {
        reveal(word_div);
        lemma_pow2_pos(k as nat);
        lemma_pow2_adds(k as nat, k as nat);
        lemma_pow2_words();
        lemma_fundamental_div_mod(value@, p);
        assert(0 <= value@ / p < p) by (nonlinear_arith)
            requires
                0 <= value@ < p * p,
                value@ == p * (value@ / p) + value@ % p,
                0 <= value@ % p < p,
                p > 0,
        ;
        assert(value@ / p == 0 ==> value@ < p) by (nonlinear_arith)
            requires
                value@ == p * (value@ / p) + value@ % p,
                0 <= value@ % p < p,
        ;
        assert(value@ / 1 == value@);
    }
    if value.shr(k as usize) != U256::zero() {
        (value.shr(k as usize), k)
    } else {
        (value, 0)
    }
}

/// Taking off `a` bits and then `b` bits takes off `a + b`.
proof fn lemma_shift_twice(x: int, a: nat, b: nat)
    requires
        x >= 0,
    ensures
        x / (pow2(a) as int) / (pow2(b) as int) == x / (pow2(a + b) as int),
{
    lemma_pow2_pos(a);
    lemma_pow2_pos(b);
    lemma_pow2_adds(a, b);
    lemma_div_denominator(x, pow2(a) as int, pow2(b) as int);
}

/// The binary logarithm of `x` rounded down, and zero for zero.
pub fn snekmate_log_2(x: U256) -> (r: u32)
    ensures
        r == log2_floor(x@),
        x@ == 0 ==> r == 0,
        x@ > 0 ==> pow2(r as nat) <= x@ < pow2(r as nat + 1),
        r <= 255,
{
    if x.is_zero() {
        return 0;
    }
    proof {
        lemma_word_range(x);
        lemma_pow2_words();
    }
    let value: U256 = x;
    let result: u32 = 0;
    let (value, step) = log2_stage(value, 128);
    proof {
        lemma_shift_twice(x@, result as nat, step as nat);
    }
    let result: u32 = result + step;
    let (value, step) = log2_stage(value, 64);
    proof {
        lemma_shift_twice(x@, result as nat, step as nat);
    }
    let result: u32 = result + step;
    let (value, step) = log2_stage(value, 32);
    proof {
        lemma_shift_twice(x@, result as nat, step as nat);
    }
    let result: u32 = result + step;
    let (value, step) = log2_stage(value, 16);
    proof {
        lemma_shift_twice(x@, result as nat, step as nat);
    }
    let result: u32 = result + step;
    let (value, step) = log2_stage(value, 8);
    proof {
        lemma_shift_twice(x@, result as nat, step as nat);
    }
    let result: u32 = result + step;
    let (value, step) = log2_stage(value, 4);
    proof {
        lemma_shift_twice(x@, result as nat, step as nat);
    }
    let result: u32 = result + step;
    let (value, step) = log2_stage(value, 2);
    proof {
        lemma_shift_twice(x@, result as nat, step as nat);
    }
    let result: u32 = result + step;
    let (value, step) = log2_stage(value, 1);
    proof {
        lemma_shift_twice(x@, result as nat, step as nat);
    }
    let result: u32 = result + step;
    proof {
        let p = pow2(result as nat) as int;
        lemma_pow2_pos(result as nat);
        lemma_pow2_adds(result as nat, 1);
        lemma_fundamental_div_mod(x@, p);
        assert(value@ == 1);
        assert(p * 1 == p && p * 2 == p + p);
        lemma_log2_floor(x@, result as nat);
    }
    result
}

/// The bound below which a word can be scaled by 10^36: 2^256 / 10^36, rounded down.
pub open spec fn cbrt_threshold() -> int {
    115792089237316195423570985008687907853269int
}

pub open spec fn e18() -> int {
    1_000_000_000_000_000_000
}

pub open spec fn e36() -> int {
    1_000_000_000_000_000_000_000_000_000_000_000_000
}

/// What the cube root is drawn from, and the unit that the root is then counted in: as much of the
/// factor 10^36 as fits goes into the radicand, and the cube root of the rest is the unit.
pub open spec fn cbrt_scaled(x: int) -> (int, int) {
    if x >= cbrt_threshold() * e18() {
        (x, 1_000_000_000_000)
    } else if x >= cbrt_threshold() {
        (x * e18(), 1_000_000)
    } else {
        (x * e36(), 1)
    }
}

/// The first guess at the cube root of `c`: the power of two below, times a power of 1.26.
pub open spec fn cbrt_guess(c: int) -> int {
    let l = log2_floor(c);
    let t = pow2(l / 3) as int;
    if l % 3 == 0 {
        t
    } else if l % 3 == 1 {
        t * 1260 / 1000
    } else {
        t * 1587600 / 1000000
    }
}

/// One step of Newton's method toward the cube root of `c`.
pub open spec fn cbrt_step(c: int, a: int) -> int {
    (2 * a + c / (a * a)) / 3
}

/// `n` steps toward the cube root of `c`, or fewer where zero is reached.
pub open spec fn cbrt_iterate(c: int, a: int, n: nat) -> int
    decreases n,
{
    if n == 0 || a == 0 {
        a
    } else {
        cbrt_iterate(c, cbrt_step(c, a), (n - 1) as nat)
    }
}

/// The cube root of `x * 10^36` as [`cbrt`] calculates it: seven steps from the first guess.
pub open spec fn cbrt_model(x: int) -> int {
    let (c, unit) = cbrt_scaled(x);
    cbrt_iterate(c, cbrt_guess(c), 7) * unit
}

pub open spec fn cube(a: int) -> int {
    a * a * a
}

/// Whether `r` is the cube root of `c` rounded down.
pub open spec fn is_icbrt(c: int, r: int) -> bool {
    0 <= r && cube(r) <= c < cube(r + 1)
}

pub proof fn lemma_cube_increases(a: int, b: int)
    requires
        0 <= a <= b,
    ensures
        cube(a) <= cube(b),
        a < b ==> cube(a) < cube(b),
{
    assert(a * a <= b * b) by (nonlinear_arith)
        requires
            0 <= a <= b,
    ;
    assert(a * a * a <= b * b * b) by (nonlinear_arith)
        requires
            0 <= a <= b,
            0 <= a * a <= b * b,
    ;
    if a < b {
        assert(a * a * a < b * b * b) by (nonlinear_arith)
            requires
                0 <= a < b,
                0 <= a * a <= b * b,
        ;
    }
}

pub proof fn lemma_icbrt_exists(c: int) -> (r: int)
    requires
        c >= 0,
    ensures
        is_icbrt(c, r),
    decreases c,
{
    if c == 0 {
        assert(cube(0) == 0 && cube(1) == 1);
        0
    } else {
        let r = lemma_icbrt_exists(c - 1);
        if c < cube(r + 1) {
            r
        } else {
            lemma_cube_increases(r + 1, r + 2);
            r + 1
        }
    }
}

/// What one step does to a guess that is already near the root.
proof fn lemma_cbrt_step(c: int, r: int, a: int)
    requires
        is_icbrt(c, r),
        a >= 1,
    ensures
        cbrt_step(c, a) >= r,
        3 * (a * a) * (cbrt_step(c, a) - (r + 1)) <= (a - (r + 1)) * (a - (r + 1)) * (2 * a + (r + 1)),
{
    let s = a * a;
    let q = c / s;
    let n = cbrt_step(c, a);
    let t = r + 1;
    assert(s >= 1) by (nonlinear_arith)
        requires
            s == a * a,
            a >= 1,
    ;
    lemma_fundamental_div_mod(c, s);
    // Below: a^2 * (3 * r - 2 * a) <= r^3 <= c, so the quotient is at least 3 * r - 2 * a.
    assert(s * (3 * r - 2 * a) <= cube(r)) by (nonlinear_arith)
        requires
            s == a * a,
            cube(r) == r * r * r,
            a >= 1,
            r >= 0,
    {
        assert((a - r) * (a - r) * (2 * a + r) >= 0) by (nonlinear_arith)
            requires
                a >= 1,
                r >= 0,
        ;
        assert((a - r) * (a - r) * (2 * a + r) == 2 * (a * a * a) - 3 * (a * a) * r + r * r * r)
            by (nonlinear_arith);
        assert(a * a * (3 * r - 2 * a) == 3 * (a * a) * r - 2 * (a * a * a)) by (nonlinear_arith);
    }
    assert(q >= 3 * r - 2 * a) by (nonlinear_arith)
        requires
            s * (3 * r - 2 * a) <= c,
            c == s * q + c % s,
            0 <= c % s < s,
    ;
    // Above: 3 * n <= 2 * a + q and a^2 * q <= c < t^3.
    assert(3 * n <= 2 * a + q);
    assert(s * q <= c) by (nonlinear_arith)
        requires
            c == s * q + c % s,
            0 <= c % s,
    ;
    assert(s * (3 * n) <= s * (2 * a + q)) by (nonlinear_arith)
        requires
            3 * n <= 2 * a + q,
            s >= 1,
    ;
    assert(s * (2 * a + q) == 2 * (a * a * a) + s * q) by (nonlinear_arith)
        requires
            s == a * a,
    ;
    assert(3 * s * (n - t) == s * (3 * n) - 3 * (a * a) * t) by (nonlinear_arith)
        requires
            s == a * a,
    ;
    assert((a - t) * (a - t) * (2 * a + t) == 2 * (a * a * a) - 3 * (a * a) * t + t * t * t)
        by (nonlinear_arith);
}

/// Whether a guess is within reach of the root `t - 1`.
spec fn cbrt_in_reach(t: int, a: int) -> bool {
    79 * t <= 100 * a <= 110 * t
}

/// A step from within reach ends at most a sixteenth above the root, and within reach.
proof fn lemma_cbrt_first(c: int, r: int, a: int)
    requires
        is_icbrt(c, r),
        r >= 1000,
        cbrt_in_reach(r + 1, a),
    ensures
        r <= cbrt_step(c, a),
        16 * (cbrt_step(c, a) - (r + 1)) <= r + 1,
        cbrt_in_reach(r + 1, cbrt_step(c, a)),
{
    let t = r + 1;
    let n = cbrt_step(c, a);
    lemma_cbrt_step(c, r, a);
    let f = a - t;
    assert(16 * (f * f * (2 * a + t)) <= 3 * (a * a) * t) by (nonlinear_arith)
        requires
            f == a - t,
            t >= 1000,
            79 * t <= 100 * a <= 110 * t,
    {
        if a >= t {
            assert(10 * f <= t);
            assert(100 * (f * f) <= t * t) by (nonlinear_arith)
                requires
                    0 <= 10 * f <= t,
            ;
            assert(t * t <= a * t) by (nonlinear_arith)
                requires
                    0 <= t <= a,
            ;
            assert(16 * (f * f) <= a * t);
            assert(f * f * (2 * a + t) <= f * f * (3 * a)) by (nonlinear_arith)
                requires
                    2 * a + t <= 3 * a,
            ;
            assert(16 * (f * f * (3 * a)) == 3 * a * (16 * (f * f))) by (nonlinear_arith);
            assert(3 * a * (16 * (f * f)) <= 3 * a * (a * t)) by (nonlinear_arith)
                requires
                    16 * (f * f) <= a * t,
                    a >= 0,
            ;
            assert(3 * a * (a * t) == 3 * (a * a) * t) by (nonlinear_arith);
        } else {
            let g = t - a;
            assert(f * f == g * g) by (nonlinear_arith)
                requires
                    f == -g,
            ;
            assert(100 * g <= 21 * t);
            assert(10000 * (g * g) <= 441 * (t * t)) by (nonlinear_arith)
                requires
                    0 <= 100 * g <= 21 * t,
            ;
            assert(79 * (t * t) <= 100 * (a * t)) by (nonlinear_arith)
                requires
                    79 * t <= 100 * a,
                    t >= 0,
            ;
            // 79 * (2 * a + t) <= 258 * a
            assert(79 * (f * f * (2 * a + t)) <= f * f * (258 * a)) by (nonlinear_arith)
                requires
                    79 * (2 * a + t) <= 258 * a,
            ;
            // 16 * 258 * f^2 <= 79 * 3 * a * t
            assert(4128 * (f * f) <= 237 * (a * t));
            assert(a * (4128 * (f * f)) <= a * (237 * (a * t))) by (nonlinear_arith)
                requires
                    4128 * (f * f) <= 237 * (a * t),
                    a >= 0,
            ;
            assert(16 * (f * f * (258 * a)) == a * (4128 * (f * f))) by (nonlinear_arith);
            assert(a * (237 * (a * t)) == 79 * (3 * (a * a) * t)) by (nonlinear_arith);
        }
    }
    assert(16 * (n - t) <= t) by (nonlinear_arith)
        requires
            3 * (a * a) * (n - t) <= f * f * (2 * a + t),
            16 * (f * f * (2 * a + t)) <= 3 * (a * a) * t,
            a >= 1,
    {
        let k = 3 * (a * a);
        assert(k >= 1) by (nonlinear_arith)
            requires
                k == 3 * (a * a),
                a >= 1,
        ;
        assert(k * (16 * (n - t)) == 16 * (k * (n - t))) by (nonlinear_arith);
        if 16 * (n - t) > t {
            assert(k * (16 * (n - t)) > k * t) by (nonlinear_arith)
                requires
                    16 * (n - t) > t,
                    k >= 1,
            ;
        }
    }
}

/// A step squares how near the guess is.
proof fn lemma_cbrt_nearer(c: int, r: int, a: int, m: int)
    requires
        is_icbrt(c, r),
        r >= 1000,
        r <= a,
        m >= 1,
        m * (a - (r + 1)) <= r + 1,
    ensures
        r <= cbrt_step(c, a),
        m * m * (cbrt_step(c, a) - (r + 1)) <= r + 1,
{
    let t = r + 1;
    let n = cbrt_step(c, a);
    let e = a - t;
    let d = n - t;
    lemma_cbrt_step(c, r, a);
    if d <= 0 {
        assert(m * m * d <= 0) by (nonlinear_arith)
            requires
                d <= 0,
                m >= 1,
        ;
    } else if a >= t {
        assert(e * e * (2 * a + t) <= e * e * (3 * a)) by (nonlinear_arith)
            requires
                2 * a + t <= 3 * a,
        ;
        assert(a * d <= e * e) by (nonlinear_arith)
            requires
                3 * (a * a) * d <= e * e * (3 * a),
                a >= 1,
        {
            assert(3 * (a * a) * d == (3 * a) * (a * d)) by (nonlinear_arith);
            assert(e * e * (3 * a) == (3 * a) * (e * e)) by (nonlinear_arith);
            if a * d > e * e {
                assert((3 * a) * (a * d) > (3 * a) * (e * e)) by (nonlinear_arith)
                    requires
                        a * d > e * e,
                        a >= 1,
                ;
            }
        }
        assert(t * d <= a * d) by (nonlinear_arith)
            requires
                t <= a,
                d >= 0,
        ;
        assert((m * e) * (m * e) <= t * t) by (nonlinear_arith)
            requires
                0 <= m * e <= t,
        ;
        assert((m * e) * (m * e) == m * m * (e * e)) by (nonlinear_arith);
        assert(m * m * (t * d) <= m * m * (e * e)) by (nonlinear_arith)
            requires
                t * d <= e * e,
        ;
        assert(m * m * (t * d) == t * (m * m * d)) by (nonlinear_arith);
        if m * m * d > t {
            assert(t * (m * m * d) > t * t) by (nonlinear_arith)
                requires
                    m * m * d > t,
                    t >= 1,
            ;
        }
    } else {
        assert(e == -1);
        assert(e * e * (2 * a + t) == 2 * a + t) by (nonlinear_arith)
            requires
                e == -1,
        ;
        assert(3 * (a * a) * d >= 3 * (a * a)) by (nonlinear_arith)
            requires
                d >= 1,
        ;
        assert(3 * (a * a) > 2 * a + (a + 1)) by (nonlinear_arith)
            requires
                a >= 1000,
        ;
        assert(false);
    }
}

/// The first guess is within reach of the root.
proof fn lemma_cbrt_guess(c: int, r: int)
    requires
        is_icbrt(c, r),
        e18() <= c,
    ensures
        cbrt_in_reach(r + 1, cbrt_guess(c)),
        r >= 1000000,
{
    let l = log2_floor(c);
    let (q, m) = (l / 3, l % 3);
    let t = pow2(q) as int;
    let a = cbrt_guess(c);
    let s = r + 1;
    lemma_log2_exists(c);
    assert(is_log2(c, l));
    // t is at least 2^19.
    lemma2_to64();
    lemma2_to64_rest();
    if l < 59 {
        if l + 1 < 59 {
            lemma_pow2_strictly_increases(l + 1, 59);
        }
        assert(false);
    }
    if q > 19 {
        lemma_pow2_strictly_increases(19, q);
    }
    assert(t >= 524288);
    // 2^l is t^3 * 2^m.
    lemma_pow2_adds(q, q);
    lemma_pow2_adds(q + q, q);
    lemma_pow2_adds(q + q + q, m);
    lemma_pow2_adds(l, 1);
    assert(l == q + q + q + m);
    assert(pow2(q + q + q) == cube(t));
    if r < 1000000 {
        lemma_cube_increases(r + 1, 1000000);
        assert(cube(1000000) == e18()) by (nonlinear_arith);
    }
    let ct = cube(t);
    if m == 0 {
        assert(ct <= c < 2 * ct);
        if 100 * t < 79 * s {
            assert(790 * r > 999 * t);
            lemma_cube_scaled(790, r, 999, t);
            assert(493039000 * cube(r) > 997002999 * cube(t));
            assert(false);
        }
        if 100 * t > 110 * s {
            lemma_cube_scaled(100, t, 110, s);
            assert(1000000 * cube(t) > 1331000 * cube(s));
            assert(false);
        }
    } else if m == 1 {
        assert(2 * ct <= c < 4 * ct) by (nonlinear_arith)
            requires
                ct * 2 <= c < ct * 2 * 2,
        ;
        if 100 * a < 79 * s {
            assert(790 * r > 1258 * t);
            lemma_cube_scaled(790, r, 1258, t);
            assert(493039000 * cube(r) > 1990865512 * cube(t));
            assert(false);
        }
        if 100 * a > 110 * s {
            assert(126 * t > 110 * s);
            lemma_cube_scaled(126, t, 110, s);
            assert(2000376 * cube(t) > 1331000 * cube(s));
            assert(false);
        }
    } else {
        assert(4 * ct <= c < 8 * ct) by (nonlinear_arith)
            requires
                ct * 4 <= c < ct * 4 * 2,
        ;
        if 100 * a < 79 * s {
            assert(r >= 2 * t);
            lemma_cube_increases(2 * t, r);
            assert(cube(2 * t) == 8 * ct) by (nonlinear_arith)
                requires
                    ct == t * t * t,
                    cube(2 * t) == (2 * t) * (2 * t) * (2 * t),
            ;
        }
        if 100 * a > 110 * s {
            assert(159 * t > 110 * s);
            lemma_cube_scaled(159, t, 110, s);
            assert(4019679 * cube(t) > 1331000 * cube(s));
            assert(false);
        }
    }
}

proof fn lemma_cube_scaled(j: int, a: int, k: int, b: int)
    requires
        j > 0,
        k > 0,
        a >= 0,
        b >= 0,
        j * a > k * b,
    ensures
        cube(j) * cube(a) > cube(k) * cube(b),
{
    lemma_cube_increases(k * b, j * a);
    assert(cube(j * a) == cube(j) * cube(a)) by (nonlinear_arith)
        requires
            cube(j * a) == (j * a) * (j * a) * (j * a),
            cube(j) == j * j * j,
            cube(a) == a * a * a,
    ;
    assert(cube(k * b) == cube(k) * cube(b)) by (nonlinear_arith)
        requires
            cube(k * b) == (k * b) * (k * b) * (k * b),
            cube(k) == k * k * k,
            cube(b) == b * b * b,
    ;
}

proof fn lemma_log2_exists(x: int)
    requires
        x > 0,
    ensures
        is_log2(x, log2_floor(x)),
    decreases x,
{
    lemma_pow2_words();
    if x == 1 {
        assert(is_log2(1, 0));
    } else {
        let h = x / 2;
        lemma_log2_exists(h);
        let r = log2_floor(h);
        lemma_pow2_adds(r, 1);
        lemma_pow2_adds(r + 1, 1);
        assert(is_log2(x, r + 1));
    }
}

/// Seven steps from a guess within reach end at the root rounded down, or one above.
proof fn lemma_cbrt_converges(c: int, r: int, a: int)
    requires
        is_icbrt(c, r),
        1000 <= r < 0x400000_0000000000000000int,
        cbrt_in_reach(r + 1, a),
    ensures
        r <= cbrt_iterate(c, a, 7) <= r + 1,
{
    let t = r + 1;
    let a1 = cbrt_step(c, a);
    let a2 = cbrt_step(c, a1);
    let a3 = cbrt_step(c, a2);
    let a4 = cbrt_step(c, a3);
    let a5 = cbrt_step(c, a4);
    let a6 = cbrt_step(c, a5);
    let a7 = cbrt_step(c, a6);
    reveal_with_fuel(cbrt_iterate, 8);
    lemma_cbrt_first(c, r, a);
    lemma_cbrt_nearer(c, r, a1, 16);
    assert(256 * (a2 - t) <= t);
    lemma_cbrt_nearer(c, r, a2, 256);
    assert(65536 * (a3 - t) <= t);
    lemma_cbrt_nearer(c, r, a3, 65536);
    assert(0x1_0000_0000int * (a4 - t) <= t);
    lemma_cbrt_nearer(c, r, a4, 0x1_0000_0000);
    assert(0x1_0000000000000000int * (a5 - t) <= t);
    lemma_cbrt_nearer(c, r, a5, 0x1_0000000000000000);
    assert(0x1_0000000000000000_0000000000000000int * (a6 - t) <= t);
    assert(a6 <= t);
    assert(2 * t * (a6 - t) <= 0) by (nonlinear_arith)
        requires
            a6 <= t,
            t >= 1,
    ;
    lemma_cbrt_nearer(c, r, a6, 2 * t);
    assert(2 * t * (2 * t) * (a7 - t) <= t);
    assert(a7 <= t) by (nonlinear_arith)
        requires
            2 * t * (2 * t) * (a7 - t) <= t,
            t >= 1,
    ;
}

/// What holds of the radicand: it is zero or at least 10^18, it is a word, and the cube of the
/// unit makes up for the part of 10^36 that it lacks.
proof fn lemma_cbrt_scaled(x: int)
    requires
        0 <= x < modulus(),
    ensures
        ({
            let (c, unit) = cbrt_scaled(x);
            &&& 0 <= c < modulus()
            &&& c == 0 || c >= e18()
            &&& c == 0 <==> x == 0
            &&& c * cube(unit) == x * e36()
            &&& unit == 1 || unit == 1_000_000 || unit == 1_000_000_000_000
        }),
{
    let (c, unit) = cbrt_scaled(x);
    if unit == 1 {
        assert(cube(1) == 1);
    } else if unit == 1_000_000 {
        assert(cube(1_000_000) == e18()) by (nonlinear_arith);
        assert(x * e18() * e18() == x * e36()) by (nonlinear_arith);
    } else {
        assert(cube(1_000_000_000_000) == e36()) by (nonlinear_arith);
    }
}

/// The cube root of a word is far from the largest word.
proof fn lemma_icbrt_small(c: int, r: int)
    requires
        is_icbrt(c, r),
        c < modulus(),
    ensures
        r < 0x400000_0000000000000000int,
{
    let k = 0x400000_0000000000000000int;
    if r >= k {
        lemma_cube_increases(k, r);
        assert(cube(k) >= modulus()) by (nonlinear_arith)
            requires
                cube(k) == k * k * k,
                k == 0x400000_0000000000000000int,
        ;
    }
}

/// `cbrt(x)` is the cube root of `x * 10^36` to within one unit, where the unit is one for every
/// `x` up to 2^256 / 10^36, a million up to 2^256 / 10^18, and 10^12 above.
pub proof fn law_cbrt_accuracy(x: U256)
    ensures
        ({
            let v = cbrt_model(x@);
            let unit = cbrt_scaled(x@).1;
            cube(v - unit) <= x@ * e36() < cube(v + unit)
        }),
{
    lemma_word_range(x);
    lemma_cbrt_scaled(x@);
    let (c, unit) = cbrt_scaled(x@);
    let a = cbrt_iterate(c, cbrt_guess(c), 7);
    let v = a * unit;
    let r = lemma_icbrt_exists(c);
    if c == 0 {
        lemma_cbrt_zero();
        assert(cube(v - unit) < 0) by (nonlinear_arith)
            requires
                cube(v - unit) == (v - unit) * (v - unit) * (v - unit),
                v == 0,
                unit >= 1,
        ;
        assert(cube(v + unit) > 0) by (nonlinear_arith)
            requires
                cube(v + unit) == (v + unit) * (v + unit) * (v + unit),
                v == 0,
                unit >= 1,
        ;
    } else {
        lemma_icbrt_small(c, r);
        lemma_cbrt_guess(c, r);
        lemma_cbrt_converges(c, r, cbrt_guess(c));
        lemma_cube_increases(a - 1, r);
        lemma_cube_increases(r + 1, a + 1);
        let k = cube(unit);
        assert(k >= 1) by (nonlinear_arith)
            requires
                k == unit * unit * unit,
                unit >= 1,
        ;
        assert(v - unit == (a - 1) * unit) by (nonlinear_arith)
            requires
                v == a * unit,
        ;
        assert(v + unit == (a + 1) * unit) by (nonlinear_arith)
            requires
                v == a * unit,
        ;
        lemma_cube_product(a - 1, unit);
        lemma_cube_product(a + 1, unit);
        assert(cube(a - 1) * k <= c * k) by (nonlinear_arith)
            requires
                cube(a - 1) <= c,
                k >= 1,
        ;
        assert(c * k < cube(a + 1) * k) by (nonlinear_arith)
            requires
                c < cube(a + 1),
                k >= 1,
        ;
    }
}

proof fn lemma_cube_product(a: int, b: int)
    ensures
        cube(a * b) == cube(a) * cube(b),
{
    assert((a * b) * (a * b) * (a * b) == (a * a * a) * (b * b * b)) by (nonlinear_arith);
}

proof fn lemma_cbrt_zero()
    ensures
        cbrt_guess(0) == 1,
        cbrt_iterate(0, 1, 7) == 0,
        cbrt_step(0, 1) == 0,
{
    lemma_pow2_words();
    reveal_with_fuel(cbrt_iterate, 3);
}

proof fn lemma_cbrt_result_fits(c: int, unit: int, a: int)
    requires
        0 <= c < modulus(),
        c == 0 && 0 <= a <= 1 || c >= e18() && (exists|r: int|
            #[trigger] is_icbrt(c, r) && r >= 1000 && cbrt_in_reach(r + 1, a)),
        unit == 1 || unit == 1_000_000 || unit == 1_000_000_000_000,
    ensures
        0 <= a * unit < modulus(),
{
    if c != 0 {
        let r = choose|r: int| #[trigger] is_icbrt(c, r) && r >= 1000 && cbrt_in_reach(r + 1, a);
        lemma_icbrt_small(c, r);
    }
    assert(0 <= a * unit < modulus()) by (nonlinear_arith)
        requires
            0 <= a < 0x1000000_0000000000000000int,
            1 <= unit <= 1_000_000_000_000,
    ;
}

/// What the calculation of [`cbrt`] rests on: no step leaves the words.
proof fn lemma_cbrt_step_fits(c: int, a: int)
    requires
        0 <= c < modulus(),
        c == 0 && 0 <= a <= 1 || c >= e18() && (exists|r: int|
            #[trigger] is_icbrt(c, r) && r >= 1000 && cbrt_in_reach(r + 1, a)),
        a != 0,
    ensures
        0 < a < 0x1000000_0000000000000000int,
        0 < a * a < 0x1_0000000000000000_0000000000000000_0000000000000000int,
        0 <= 2 * a + c / (a * a) < modulus(),
        c == 0 && 0 <= cbrt_step(c, a) <= 1 || c >= e18() && (exists|r: int|
            #[trigger] is_icbrt(c, r) && r >= 1000 && cbrt_in_reach(r + 1, cbrt_step(c, a))),
{
    if c == 0 {
        lemma_cbrt_zero();
    } else {
        let r = choose|r: int| #[trigger] is_icbrt(c, r) && r >= 1000 && cbrt_in_reach(r + 1, a);
        lemma_icbrt_small(c, r);
        lemma_cbrt_first(c, r, a);
        assert(is_icbrt(c, r));
        assert(0 < a * a < 0x1_0000000000000000_0000000000000000_0000000000000000int)
            by (nonlinear_arith)
            requires
                0 < a < 0x1000000_0000000000000000int,
        ;
        let s = cbrt_step(c, a);
        assert(0 <= c / (a * a)) by (nonlinear_arith)
            requires
                c >= 0,
                a * a > 0,
        ;
    }
}

/// The first guess at the cube root of a number with the given logarithm.
fn cbrt_first_guess(log2x: u32) -> (a: U256)
    requires
        log2x <= 255,
    ensures
        a@ == ({
            let t = pow2(log2x as nat / 3) as int;
            if log2x % 3 == 0 {
                t
            } else if log2x % 3 == 1 {
                t * 1260 / 1000
            } else {
                t * 1587600 / 1000000
            }
        }),
{
    let t = U256::from(1u64).shl((log2x / 3) as usize);
    let ghost p = pow2(log2x as nat / 3) as int;
    proof {
        reveal(word_mul);
        reveal(word_div);
        lemma2_to64_rest();
        lemma_pow2_adds(64, 22);
        lemma2_to64();
        lemma_pow2_pos(log2x as nat / 3);
        if log2x / 3 < 86 {
            lemma_pow2_strictly_increases(log2x as nat / 3, 86);
        }
        assert(pow2(86) == 0x400000_0000000000000000nat) by (nonlinear_arith)
            requires
                pow2(86) == pow2(64) * pow2(22),
                pow2(64) == 0x1_0000000000000000nat,
                pow2(22) == 0x400000nat,
        ;
        assert(1 * p == p);
    }
    if log2x % 3 == 0 {
        t
    } else if log2x % 3 == 1 {
        t * U256::from(1260u64) / U256::from(1000u64)
    } else {
        t * U256::from(1587600u64) / U256::from(1000000u64)
    }
}

/// One step toward the cube root of `xx`.
fn cbrt_next(xx: U256, a: U256) -> (r: U256)
    requires
        a@ != 0,
        0 < a@ * a@ < modulus(),
        2 * a@ + xx@ / (a@ * a@) < modulus(),
    ensures
        r@ == cbrt_step(xx@, a@),
{
    let ghost s = a@ * a@;
    proof {
        lemma_word_range(a);
        lemma_word_range(xx);
        assert(0 <= xx@ / s) by (nonlinear_arith)
            requires
                xx@ >= 0,
                s > 0,
        ;
        reveal(word_add);
        reveal(word_mul);
        reveal(word_div);
    }
    let a_sq = a * a;
    assert(a_sq@ == s);
    let q = xx / a_sq;
    let b = U256::from(2u64) * a;
    assert(b@ == 2 * a@);
    (b + q) / U256::from(3u64)
}

/// The radicand and the unit of [`cbrt_scaled`].
fn cbrt_scale(x: U256) -> (r: (U256, U256))
    ensures
        (r.0@, r.1@) == cbrt_scaled(x@),
{
    let wad = U256::from(1_000_000_000_000_000_000u64);
    let threshold = U256::from_limbs([14562287877669245909, 5208750325433214395, 340, 0]);
    proof {
        lemma_word_range(x);
        reveal(limbs_value);
        assert(threshold@ == cbrt_threshold());
        reveal(word_mul);
    }
    if x >= threshold * wad {
        (x, U256::from(1_000_000_000_000u64))
    } else if x >= threshold {
        (x * wad, U256::from(1_000_000u64))
    } else {
        (x * U256::from(1_000_000_000_000_000_000_000_000_000_000_000_000u128), U256::from(1u64))
    }
}

/// A larger number has a larger cube root, up to one unit of [`law_cbrt_accuracy`] of either.
pub proof fn law_cbrt_monotonic(x: U256, y: U256)
    requires
        x@ <= y@,
    ensures
        cbrt_model(x@) - cbrt_scaled(x@).1 < cbrt_model(y@) + cbrt_scaled(y@).1,
{
    law_cbrt_accuracy(x);
    law_cbrt_accuracy(y);
    let low = cbrt_model(x@) - cbrt_scaled(x@).1;
    let high = cbrt_model(y@) + cbrt_scaled(y@).1;
    assert(x@ * e36() <= y@ * e36()) by (nonlinear_arith)
        requires
            x@ <= y@,
            e36() > 0,
    ;
    lemma_word_range(y);
    if low >= high {
        assert(high > 0) by {
            assert(0 <= y@ * e36()) by (nonlinear_arith)
                requires
                    0 <= y@,
                    e36() > 0,
            ;
            if high <= 0 {
                assert(cube(high) <= 0) by (nonlinear_arith)
                    requires
                        high <= 0,
                        cube(high) == high * high * high,
                ;
            }
        }
        lemma_cube_increases(high, low);
    }
}

/// The cube root of `x * 10^36`, to within one unit of [`law_cbrt_accuracy`].
pub fn cbrt(x: U256) -> (r: U256)
    ensures
        r@ == cbrt_model(x@),
{
    proof {
        lemma_word_range(x);
        lemma_cbrt_scaled(x@);
    }
    let (xx, unit) = cbrt_scale(x);
    let ghost c = xx@;
    let log2x = snekmate_log_2(xx);
    let mut a: U256 = cbrt_first_guess(log2x);
    assert(a@ == cbrt_guess(c));
    let mut k: u32 = 0;
    proof {
        if c == 0 {
            lemma_cbrt_zero();
        } else {
            let r = lemma_icbrt_exists(c);
            lemma_cbrt_guess(c, r);
            assert(is_icbrt(c, r));
        }
    }
    while k < 7
        invariant
            k <= 7,
            c == xx@,
            0 <= c < modulus(),
            c == 0 && 0 <= a@ <= 1 || c >= e18() && (exists|r: int|
                #[trigger] is_icbrt(c, r) && r >= 1000 && cbrt_in_reach(r + 1, a@)),
            cbrt_iterate(c, a@, (7 - k) as nat) == cbrt_iterate(c, cbrt_guess(c), 7),
        ensures
            a@ == cbrt_iterate(c, cbrt_guess(c), 7),
        decreases 7 - k,
    {
        if a.is_zero() {
            break ;
        }
        proof {
            lemma_cbrt_step_fits(c, a@);
        }
        a = cbrt_next(xx, a);
        k = k + 1;
    }
    proof {
        lemma_cbrt_result_fits(c, unit@, a@);
        reveal(word_mul);
    }
    a * unit
}

} // verus!
