//! What the cubic solvers for two and for three coins share.
use crate::fault::Fault;
use crate::roots::{cbrt, cbrt_model};
use crate::signed::{fits, floor_div, half, magnitude, trunc_div, SignedWord, I256};
use crate::uint::{lemma_word_range, modulus, U256};
use vstd::arithmetic::power::{lemma_pow_increases, pow};
use vstd::prelude::*;

verus! {

/// The coefficients of `a*x^3 + b*x^2 + c*x + d`.
#[derive(Debug)]
pub struct Cubic<T> {
    pub a: T,
    pub b: T,
    pub c: T,
    pub d: T,
}

impl View for Cubic<I256> {
    type V = Cubic<int>;

    open spec fn view(&self) -> Cubic<int> {
        Cubic { a: self.a@, b: self.b@, c: self.c@, d: self.d@ }
    }
}

/// The numbers behind calculated coefficients.
pub open spec fn cubic_outcome(r: Result<Cubic<I256>, Fault>) -> Result<Cubic<int>, Fault> {
    match r {
        Ok(q) => Ok(q@),
        Err(e) => Err(e),
    }
}

/// The number behind a calculated signed word.
pub open spec fn signed_outcome(r: Result<I256, Fault>) -> Result<int, Fault> {
    match r {
        Ok(v) => Ok(v@),
        Err(e) => Err(e),
    }
}

/// The number behind a calculated signed word that may be missing.
pub open spec fn signed_option(r: Result<Option<I256>, Fault>) -> Result<Option<int>, Fault> {
    match r {
        Ok(Some(v)) => Ok(Some(v@)),
        Ok(None) => Ok(None),
        Err(e) => Err(e),
    }
}

/// The numbers behind a solution: a balance and the hint that comes with it.
pub open spec fn solution(r: Result<Option<(U256, U256)>, Fault>) -> Result<
    Option<(int, int)>,
    Fault,
> {
    match r {
        Ok(Some((y, k))) => Ok(Some((y@, k@))),
        Ok(None) => Ok(None),
        Err(e) => Err(e),
    }
}

/// Rounding down and rounding toward zero differ by one, exactly where the signs differ and the
/// quotient is not whole.
pub proof fn lemma_floor_trunc(a: int, b: int)
    requires
        b != 0,
    ensures
        ({
            let rest = a - trunc_div(a, b) * b;
            floor_div(a, b) == if rest != 0 && (a < 0) != (b < 0) {
                trunc_div(a, b) - 1
            } else {
                trunc_div(a, b)
            }
        }),
{
    reveal(floor_div);
    reveal(trunc_div);
    let m = magnitude(a);
    let n = magnitude(b);
    let q = m / n;
    let r = m % n;
    vstd::arithmetic::div_mod::lemma_fundamental_div_mod(m, n);
    assert(m == n * q + r && 0 <= r < n);
    if (a < 0) == (b < 0) {
        if b < 0 {
            assert(-a == m && -b == n);
        }
        assert(q * b == if b > 0 { n * q } else { -(n * q) }) by (nonlinear_arith)
            requires
                n == if b < 0 { -b } else { b },
        ;
    } else {
        assert((-q) * b == if b > 0 { -(n * q) } else { n * q }) by (nonlinear_arith)
            requires
                n == if b < 0 { -b } else { b },
        ;
        // the dividend over the positive divisor is -m
        if r == 0 {
            assert(-m == (-q) * n + 0) by (nonlinear_arith)
                requires
                    m == n * q + r,
                    r == 0,
            ;
            vstd::arithmetic::div_mod::lemma_fundamental_div_mod_converse(-m, n, -q, 0);
        } else {
            assert(-m == (-q - 1) * n + (n - r)) by (nonlinear_arith)
                requires
                    m == n * q + r,
            ;
            vstd::arithmetic::div_mod::lemma_fundamental_div_mod_converse(-m, n, -q - 1, n - r);
        }
    }
}

/// The quotient rounded toward negative infinity.
pub fn fdiv(a: I256, b: I256) -> (r: Result<I256, Fault>)
    ensures
        r is Ok <==> b@ != 0 && fits(a@.trunc(b@)),
        r matches Ok(v) ==> v@ == a@.floor(b@),
        b@ > 0 ==> r is Ok,
{
    let d = a.try_div(b)?;
    let r = a.try_rem(b)?;
    proof {
        lemma_floor_trunc(a@, b@);
    }
    if r != I256::zero() && a.is_negative() != b.is_negative() {
        proof {
            assert(fits(d@ - 1)) by {
                reveal(trunc_div);
                let m = magnitude(a@);
                let n = magnitude(b@);
                crate::signed::lemma_signed_range(a);
                assert(n >= 2) by {
                    if n == 1 {
                        assert(m / n == m) by (nonlinear_arith)
                            requires
                                n == 1,
                        ;
                        assert(d@ * b@ == a@) by (nonlinear_arith)
                            requires
                                b@ == 1 || b@ == -1,
                                d@ == -m,
                                m == if a@ < 0 { -a@ } else { a@ },
                                (a@ < 0) != (b@ < 0),
                        ;
                    }
                }
                assert(m / n <= m / 2) by (nonlinear_arith)
                    requires
                        n >= 2,
                        m >= 0,
                ;
            }
        }
        d.try_sub(I256::from_u128(1))
    } else {
        Ok(d)
    }
}

/// The power of ten with exponent `k`.
pub open spec fn ten(k: nat) -> int {
    pow(10, k)
}

/// The first powers of ten are signed words above zero.
pub proof fn lemma_ten(k: nat)
    requires
        k <= 48,
    ensures
        0 < ten(k) < half(),
{
    assert(ten(48) < half()) by {
        reveal_with_fuel(pow, 49);
    }
    lemma_pow_increases(10, k, 48);
    vstd::arithmetic::power::lemma_pow_positive(10, k);
}

/// The value of [`ten`].
pub fn ten_to(k: u64) -> (r: I256)
    requires
        k <= 48,
    ensures
        r@ == ten(k as nat),
        r@ > 0,
{
    proof {
        lemma_ten(k as nat);
        vstd::arithmetic::div_mod::lemma_small_mod(ten(k as nat) as nat, modulus() as nat);
    }
    let v = U256::from(10u64).pow(U256::from(k));
    match I256::from_unsigned(v) {
        Some(x) => x,
        None => I256::zero(),
    }
}

/// The cube root of a signed number, as [`cbrt`] finds it for the magnitude, with the sign kept.
pub open spec fn signed_cbrt_model(v: int) -> Result<Option<int>, Fault> {
    if v >= 0 {
        if cbrt_model(v) >= half() {
            Ok(None)
        } else {
            Ok(Some(cbrt_model(v)))
        }
    } else if !fits(-v) {
        Err(Fault)
    } else if cbrt_model(-v) >= half() {
        Ok(None)
    } else {
        Ok(Some(-cbrt_model(-v)))
    }
}

/// The value of [`signed_cbrt_model`].
pub fn signed_cbrt(v: I256) -> (r: Result<Option<I256>, Fault>)
    ensures
        signed_option(r) == signed_cbrt_model(v@),
{
    broadcast use lemma_word_range;

    match v.to_unsigned() {
        Some(x) => Ok(I256::from_unsigned(cbrt(x))),
        None => {
            let m = v.try_neg()?;
            match m.to_unsigned() {
                Some(x) => match I256::from_unsigned(cbrt(x)) {
                    Some(c) => Ok(Some(c.try_neg()?)),
                    None => Ok(None),
                },
                None => Ok(None),
            }
        },
    }
}

} // verus!
