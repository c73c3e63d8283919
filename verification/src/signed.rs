//! Signed 256-bit words in two's complement.
//!
//! An [`I256`] is four 64-bit limbs, least significant first. Its view is the number between
//! -2^255 and 2^255 - 1 that the limbs stand for. The `wrapping_*` methods reduce modulo 2^256; the
//! `try_*` methods end in a [`Fault`] where the exact result is not a signed word, which is where
//! the arithmetic operators of `alloy_primitives::I256` overflow. Division rounds toward zero.
//! The arithmetic itself is done by `alloy_primitives::I256`.
use crate::fault::Fault;
use crate::uint::{limbs_value, lemma_view_injective, modulus, U256};
use core::cmp::Ordering;
use vstd::arithmetic::power2::pow2;
use vstd::prelude::*;

verus! {

/// 2^255, the first number above the signed words.
pub open spec fn half() -> int {
    0x8000000000000000_0000000000000000_0000000000000000_0000000000000000int
}

/// Whether a number is a signed word.
pub open spec fn fits(v: int) -> bool {
    -half() <= v < half()
}

/// The signed word that is congruent to `v` modulo 2^256.
#[verifier::opaque]
pub open spec fn wrap(v: int) -> int {
    if v % modulus() < half() {
        v % modulus()
    } else {
        v % modulus() - modulus()
    }
}

/// The magnitude of a number.
pub open spec fn magnitude(v: int) -> int {
    if v < 0 {
        -v
    } else {
        v
    }
}

/// The quotient rounded toward zero. Meant for `b != 0` only.
#[verifier::opaque]
pub open spec fn trunc_div(a: int, b: int) -> int {
    if (a < 0) == (b < 0) {
        magnitude(a) / magnitude(b)
    } else {
        -(magnitude(a) / magnitude(b))
    }
}

/// The quotient rounded toward negative infinity. Meant for `b != 0` only.
#[verifier::opaque]
pub open spec fn floor_div(a: int, b: int) -> int {
    if b > 0 {
        a / b
    } else {
        (-a) / (-b)
    }
}

/// Signed word arithmetic on the numbers that signed words stand for, in a form that chains from
/// left to right.
pub trait SignedWord: Sized {
    /// The sum modulo 2^256.
    spec fn wplus(self, other: int) -> int;

    /// The difference modulo 2^256.
    spec fn wminus(self, other: int) -> int;

    /// The product modulo 2^256.
    spec fn wtimes(self, other: int) -> int;

    /// The quotient rounded toward zero, modulo 2^256.
    spec fn wover(self, other: int) -> int;

    /// The quotient rounded toward zero.
    spec fn trunc(self, other: int) -> int;

    /// The quotient rounded toward negative infinity.
    spec fn floor(self, other: int) -> int;
}

impl SignedWord for int {
    #[verifier::inline]
    open spec fn wplus(self, other: int) -> int {
        wrap(self + other)
    }

    #[verifier::inline]
    open spec fn wminus(self, other: int) -> int {
        wrap(self - other)
    }

    #[verifier::inline]
    open spec fn wtimes(self, other: int) -> int {
        wrap(self * other)
    }

    #[verifier::inline]
    open spec fn wover(self, other: int) -> int {
        wrap(trunc_div(self, other))
    }

    #[verifier::inline]
    open spec fn trunc(self, other: int) -> int {
        trunc_div(self, other)
    }

    #[verifier::inline]
    open spec fn floor(self, other: int) -> int {
        floor_div(self, other)
    }
}

/// A signed 256-bit word: four limbs in two's complement, least significant first.
#[derive(Clone, Copy, Debug)]
pub struct I256 {
    pub limbs: [u64; 4],
}

impl View for I256 {
    type V = int;

    open spec fn view(&self) -> int {
        if limbs_value(self.limbs) < half() {
            limbs_value(self.limbs)
        } else {
            limbs_value(self.limbs) - modulus()
        }
    }
}

/// Every signed word stands for a number from -2^255 up to 2^255 - 1.
pub broadcast proof fn lemma_signed_range(x: I256)
    ensures
        fits(#[trigger] x@),
{
    reveal(limbs_value);
}

/// The limbs of a signed word, read as an unsigned word, stand for its value modulo 2^256.
pub proof fn lemma_signed_bits(x: I256)
    ensures
        limbs_value(x.limbs) == x@ % modulus(),
        0 <= limbs_value(x.limbs) < modulus(),
{
    reveal(limbs_value);
}

/// Two signed words that stand for the same number are the same.
pub proof fn lemma_signed_injective(a: I256, b: I256)
    requires
        a@ == b@,
    ensures
        a == b,
{
    lemma_signed_bits(a);
    lemma_signed_bits(b);
    lemma_view_injective(U256 { limbs: a.limbs }, U256 { limbs: b.limbs });
}

/// Calls `Signed::wrapping_add` of `alloy_primitives::I256`.
/// Claimed: the result is the sum modulo 2^256, as a signed word.
#[verifier::external_body]
fn alloy_wrapping_add(a: I256, b: I256) -> (r: I256)
    ensures
        r@ == wrap(a@ + b@),
{
    let x = alloy_primitives::I256::from_raw(alloy_primitives::U256::from_limbs(a.limbs));
    let y = alloy_primitives::I256::from_raw(alloy_primitives::U256::from_limbs(b.limbs));
    I256 { limbs: x.wrapping_add(y).into_raw().into_limbs() }
}

/// Calls `Signed::checked_add` of `alloy_primitives::I256`, which gives `None` exactly where its `+`
/// overflows. Claimed: the result is the sum, or `None` where that is not a signed word.
#[verifier::external_body]
fn alloy_checked_add(a: I256, b: I256) -> (r: Option<I256>)
    ensures
        r is Some <==> fits(a@ + b@),
        r matches Some(v) ==> v@ == a@ + b@,
{
    let x = alloy_primitives::I256::from_raw(alloy_primitives::U256::from_limbs(a.limbs));
    let y = alloy_primitives::I256::from_raw(alloy_primitives::U256::from_limbs(b.limbs));
    match x.checked_add(y) {
        Some(v) => Some(I256 { limbs: v.into_raw().into_limbs() }),
        None => None,
    }
}

/// Calls `Signed::wrapping_sub` of `alloy_primitives::I256`.
/// Claimed: the result is the difference modulo 2^256, as a signed word.
#[verifier::external_body]
fn alloy_wrapping_sub(a: I256, b: I256) -> (r: I256)
    ensures
        r@ == wrap(a@ - b@),
{
    let x = alloy_primitives::I256::from_raw(alloy_primitives::U256::from_limbs(a.limbs));
    let y = alloy_primitives::I256::from_raw(alloy_primitives::U256::from_limbs(b.limbs));
    I256 { limbs: x.wrapping_sub(y).into_raw().into_limbs() }
}

/// Calls `Signed::checked_sub` of `alloy_primitives::I256`, which gives `None` exactly where its `-`
/// overflows. Claimed: the result is the difference, or `None` where that is not a signed word.
#[verifier::external_body]
fn alloy_checked_sub(a: I256, b: I256) -> (r: Option<I256>)
    ensures
        r is Some <==> fits(a@ - b@),
        r matches Some(v) ==> v@ == a@ - b@,
{
    let x = alloy_primitives::I256::from_raw(alloy_primitives::U256::from_limbs(a.limbs));
    let y = alloy_primitives::I256::from_raw(alloy_primitives::U256::from_limbs(b.limbs));
    match x.checked_sub(y) {
        Some(v) => Some(I256 { limbs: v.into_raw().into_limbs() }),
        None => None,
    }
}

/// Calls `Signed::wrapping_mul` of `alloy_primitives::I256`.
/// Claimed: the result is the product modulo 2^256, as a signed word.
#[verifier::external_body]
fn alloy_wrapping_mul(a: I256, b: I256) -> (r: I256)
    ensures
        r@ == wrap(a@ * b@),
{
    let x = alloy_primitives::I256::from_raw(alloy_primitives::U256::from_limbs(a.limbs));
    let y = alloy_primitives::I256::from_raw(alloy_primitives::U256::from_limbs(b.limbs));
    I256 { limbs: x.wrapping_mul(y).into_raw().into_limbs() }
}

/// Calls `Signed::checked_mul` of `alloy_primitives::I256`, which gives `None` exactly where its `*`
/// overflows. Claimed: the result is the product, or `None` where that is not a signed word.
#[verifier::external_body]
fn alloy_checked_mul(a: I256, b: I256) -> (r: Option<I256>)
    ensures
        r is Some <==> fits(a@ * b@),
        r matches Some(v) ==> v@ == a@ * b@,
{
    let x = alloy_primitives::I256::from_raw(alloy_primitives::U256::from_limbs(a.limbs));
    let y = alloy_primitives::I256::from_raw(alloy_primitives::U256::from_limbs(b.limbs));
    match x.checked_mul(y) {
        Some(v) => Some(I256 { limbs: v.into_raw().into_limbs() }),
        None => None,
    }
}

/// Calls `Signed::wrapping_div` of `alloy_primitives::I256`, which panics on a zero divisor.
/// Claimed: the result is the quotient rounded toward zero, modulo 2^256 (which matters for -2^255 by
/// -1 alone).
#[verifier::external_body]
fn alloy_wrapping_div(a: I256, b: I256) -> (r: I256)
    requires
        b@ != 0,
    ensures
        r@ == wrap(trunc_div(a@, b@)),
{
    let x = alloy_primitives::I256::from_raw(alloy_primitives::U256::from_limbs(a.limbs));
    let y = alloy_primitives::I256::from_raw(alloy_primitives::U256::from_limbs(b.limbs));
    I256 { limbs: x.wrapping_div(y).into_raw().into_limbs() }
}

/// Calls `Signed::checked_div` of `alloy_primitives::I256`.
/// Claimed: the result is the quotient rounded toward zero, or `None` where the divisor is zero or the
/// quotient, that of -2^255 by -1, is not a signed word.
#[verifier::external_body]
fn alloy_checked_div(a: I256, b: I256) -> (r: Option<I256>)
    ensures
        (r is Some) == (b@ != 0 && fits(trunc_div(a@, b@))),
        r matches Some(v) ==> v@ == trunc_div(a@, b@),
{
    let x = alloy_primitives::I256::from_raw(alloy_primitives::U256::from_limbs(a.limbs));
    let y = alloy_primitives::I256::from_raw(alloy_primitives::U256::from_limbs(b.limbs));
    match x.checked_div(y) {
        Some(v) => Some(I256 { limbs: v.into_raw().into_limbs() }),
        None => None,
    }
}

/// Calls `Signed::checked_rem` of `alloy_primitives::I256`.
/// Claimed: the result is what the quotient rounded toward zero leaves over, or `None` where there is
/// no such quotient.
#[verifier::external_body]
fn alloy_checked_rem(a: I256, b: I256) -> (r: Option<I256>)
    ensures
        (r is Some) == (b@ != 0 && fits(trunc_div(a@, b@))),
        r matches Some(v) ==> v@ == a@ - trunc_div(a@, b@) * b@,
{
    let x = alloy_primitives::I256::from_raw(alloy_primitives::U256::from_limbs(a.limbs));
    let y = alloy_primitives::I256::from_raw(alloy_primitives::U256::from_limbs(b.limbs));
    match x.checked_rem(y) {
        Some(v) => Some(I256 { limbs: v.into_raw().into_limbs() }),
        None => None,
    }
}

/// Calls `Signed::checked_neg` of `alloy_primitives::I256`.
/// Claimed: the result is the negated number, or `None` where that is not a signed word.
#[verifier::external_body]
fn alloy_checked_neg(a: I256) -> (r: Option<I256>)
    ensures
        r is Some <==> fits(-a@),
        r matches Some(v) ==> v@ == -a@,
{
    let x = alloy_primitives::I256::from_raw(alloy_primitives::U256::from_limbs(a.limbs));
    match x.checked_neg() {
        Some(v) => Some(I256 { limbs: v.into_raw().into_limbs() }),
        None => None,
    }
}

/// Calls `Signed::checked_abs` of `alloy_primitives::I256`.
/// Claimed: the result is the magnitude, or `None` where that is not a signed word.
#[verifier::external_body]
fn alloy_checked_abs(a: I256) -> (r: Option<I256>)
    ensures
        r is Some <==> fits(magnitude(a@)),
        r matches Some(v) ==> v@ == magnitude(a@),
{
    let x = alloy_primitives::I256::from_raw(alloy_primitives::U256::from_limbs(a.limbs));
    match x.checked_abs() {
        Some(v) => Some(I256 { limbs: v.into_raw().into_limbs() }),
        None => None,
    }
}

/// Calls `Signed::wrapping_shl` of `alloy_primitives::I256`, the function behind its `<<`.
/// Claimed: the result is the number times a power of two, modulo 2^256.
#[verifier::external_body]
fn alloy_signed_shl(a: I256, n: usize) -> (r: I256)
    ensures
        r@ == wrap(a@ * pow2(n as nat)),
{
    let x = alloy_primitives::I256::from_raw(alloy_primitives::U256::from_limbs(a.limbs));
    I256 { limbs: x.wrapping_shl(n).into_raw().into_limbs() }
}

/// Calls `Signed::asr` of `alloy_primitives::I256`.
/// Claimed: the result is the number divided by a power of two, rounded toward negative infinity.
#[verifier::external_body]
fn alloy_asr(a: I256, n: usize) -> (r: I256)
    ensures
        r@ == a@ / (pow2(n as nat) as int),
{
    let x = alloy_primitives::I256::from_raw(alloy_primitives::U256::from_limbs(a.limbs));
    I256 { limbs: x.asr(n).into_raw().into_limbs() }
}

/// Calls `TryFrom<Uint>` of `alloy_primitives::I256`.
/// Claimed: the result is the same number, or `None` where it is not a signed word.
#[verifier::external_body]
fn alloy_to_signed(a: U256) -> (r: Option<I256>)
    ensures
        r is Some <==> a@ < half(),
        r matches Some(v) ==> v@ == a@,
{
    let x = alloy_primitives::U256::from_limbs(a.limbs);
    match alloy_primitives::I256::try_from(x) {
        Ok(v) => Some(I256 { limbs: v.into_raw().into_limbs() }),
        Err(_) => None,
    }
}

/// Calls `TryFrom<Signed>` of `alloy_primitives::U256`.
/// Claimed: the result is the same number, or `None` where it is negative.
#[verifier::external_body]
fn alloy_to_unsigned(a: I256) -> (r: Option<U256>)
    ensures
        r is Some <==> a@ >= 0,
        r matches Some(v) ==> v@ == a@,
{
    let x = alloy_primitives::I256::from_raw(alloy_primitives::U256::from_limbs(a.limbs));
    match alloy_primitives::U256::try_from(x) {
        Ok(v) => Some(U256 { limbs: v.into_limbs() }),
        Err(_) => None,
    }
}

/// Calls `Ord::cmp` of `alloy_primitives::I256`.
/// Claimed: the result is the order of the two numbers.
#[verifier::external_body]
fn alloy_signed_cmp(a: &I256, b: &I256) -> (r: Ordering)
    ensures
        a@ < b@ ==> r == Ordering::Less,
        a@ == b@ ==> r == Ordering::Equal,
        a@ > b@ ==> r == Ordering::Greater,
{
    let x = alloy_primitives::I256::from_raw(alloy_primitives::U256::from_limbs(a.limbs));
    let y = alloy_primitives::I256::from_raw(alloy_primitives::U256::from_limbs(b.limbs));
    x.cmp(&y)
}

impl PartialEq for I256 {
    fn eq(&self, other: &I256) -> (r: bool) {
        proof {
            if self@ == other@ {
                lemma_signed_injective(*self, *other);
            }
        }
        let a = self.limbs;
        let b = other.limbs;
        let r = a[0] == b[0] && a[1] == b[1] && a[2] == b[2] && a[3] == b[3];
        proof {
            if r {
                assert(a =~= b);
            }
        }
        r
    }
}

impl vstd::std_specs::cmp::PartialEqSpecImpl for I256 {
    open spec fn obeys_eq_spec() -> bool {
        true
    }

    open spec fn eq_spec(&self, other: &I256) -> bool {
        self@ == other@
    }
}

impl Eq for I256 {

}

impl PartialOrd for I256 {
    fn partial_cmp(&self, other: &I256) -> (r: Option<Ordering>) {
        Some(alloy_signed_cmp(self, other))
    }
}

impl vstd::std_specs::cmp::PartialOrdSpecImpl for I256 {
    open spec fn obeys_partial_cmp_spec() -> bool {
        true
    }

    open spec fn partial_cmp_spec(&self, other: &I256) -> Option<Ordering> {
        Some(
            if self@ < other@ {
                Ordering::Less
            } else if self@ == other@ {
                Ordering::Equal
            } else {
                Ordering::Greater
            },
        )
    }
}

/// The calculated value, or a fault where there is none.
fn or_fault(v: Option<I256>) -> (r: Result<I256, Fault>)
    ensures
        r is Ok <==> v is Some,
        r matches Ok(x) ==> v == Some(x),
{
    match v {
        Some(x) => Ok(x),
        None => Err(Fault),
    }
}

/// A signed word divided by a positive number is a signed word.
pub proof fn lemma_trunc_fits(a: I256, b: int)
    requires
        b > 0,
    ensures
        fits(trunc_div(a@, b)),
{
    reveal(trunc_div);
    lemma_signed_range(a);
    let m = magnitude(a@);
    assert(0 <= m / b <= m) by (nonlinear_arith)
        requires
            m >= 0,
            b > 0,
    ;
}

impl I256 {
    /// The signed word that stands for `v`.
    pub fn from_u128(v: u128) -> (r: I256)
        ensures
            r@ == v,
    {
        let lo = (v % 0x1_0000000000000000u128) as u64;
        let hi = (v / 0x1_0000000000000000u128) as u64;
        proof {
            reveal(limbs_value);
        }
        I256 { limbs: [lo, hi, 0, 0] }
    }

    /// Zero.
    pub fn zero() -> (r: I256)
        ensures
            r@ == 0,
    {
        I256::from_u128(0)
    }

    /// The same number, or `None` where it is not a signed word.
    pub fn from_unsigned(v: U256) -> (r: Option<I256>)
        ensures
            r is Some <==> v@ < half(),
            r matches Some(x) ==> x@ == v@,
    {
        alloy_to_signed(v)
    }

    /// The same number, or `None` where it is negative.
    pub fn to_unsigned(self) -> (r: Option<U256>)
        ensures
            r is Some <==> self@ >= 0,
            r matches Some(x) ==> x@ == self@,
    {
        alloy_to_unsigned(self)
    }

    /// The bits read as an unsigned word.
    pub fn to_bits(self) -> (r: U256)
        ensures
            r.limbs == self.limbs,
            r@ == self@ % modulus(),
    {
        proof {
            lemma_signed_bits(self);
        }
        U256 { limbs: self.limbs }
    }

    /// The sum modulo 2^256.
    pub fn wrapping_add(self, rhs: I256) -> (r: I256)
        ensures
            r@ == self@.wplus(rhs@),
    {
        alloy_wrapping_add(self, rhs)
    }

    /// The sum.
    pub fn try_add(self, rhs: I256) -> (r: Result<I256, Fault>)
        ensures
            r is Ok <==> fits(self@ + rhs@),
            r matches Ok(v) ==> v@ == self@ + rhs@,
    {
        or_fault(alloy_checked_add(self, rhs))
    }

    /// The difference modulo 2^256.
    pub fn wrapping_sub(self, rhs: I256) -> (r: I256)
        ensures
            r@ == self@.wminus(rhs@),
    {
        alloy_wrapping_sub(self, rhs)
    }

    /// The difference.
    pub fn try_sub(self, rhs: I256) -> (r: Result<I256, Fault>)
        ensures
            r is Ok <==> fits(self@ - rhs@),
            r matches Ok(v) ==> v@ == self@ - rhs@,
    {
        or_fault(alloy_checked_sub(self, rhs))
    }

    /// The product modulo 2^256.
    pub fn wrapping_mul(self, rhs: I256) -> (r: I256)
        ensures
            r@ == self@.wtimes(rhs@),
    {
        alloy_wrapping_mul(self, rhs)
    }

    /// The product.
    pub fn try_mul(self, rhs: I256) -> (r: Result<I256, Fault>)
        ensures
            r is Ok <==> fits(self@ * rhs@),
            r matches Ok(v) ==> v@ == self@ * rhs@,
    {
        or_fault(alloy_checked_mul(self, rhs))
    }

    /// The quotient rounded toward zero, modulo 2^256.
    pub fn wrapping_div(self, rhs: I256) -> (r: Result<I256, Fault>)
        ensures
            r is Ok <==> rhs@ != 0,
            r matches Ok(v) ==> v@ == self@.wover(rhs@),
    {
        if rhs == I256::zero() {
            Err(Fault)
        } else {
            Ok(alloy_wrapping_div(self, rhs))
        }
    }

    /// The quotient rounded toward zero.
    pub fn try_div(self, rhs: I256) -> (r: Result<I256, Fault>)
        ensures
            r is Ok <==> rhs@ != 0 && fits(self@.trunc(rhs@)),
            r matches Ok(v) ==> v@ == self@.trunc(rhs@),
            rhs@ > 0 ==> r is Ok,
    {
        proof {
            if rhs@ > 0 {
                lemma_trunc_fits(self, rhs@);
            }
        }
        or_fault(alloy_checked_div(self, rhs))
    }

    /// What the quotient rounded toward zero leaves over.
    pub fn try_rem(self, rhs: I256) -> (r: Result<I256, Fault>)
        ensures
            r is Ok <==> rhs@ != 0 && fits(self@.trunc(rhs@)),
            r matches Ok(v) ==> v@ == self@ - self@.trunc(rhs@) * rhs@,
    {
        or_fault(alloy_checked_rem(self, rhs))
    }

    /// The negated number.
    pub fn try_neg(self) -> (r: Result<I256, Fault>)
        ensures
            r is Ok <==> fits(-self@),
            r matches Ok(v) ==> v@ == -self@,
    {
        or_fault(alloy_checked_neg(self))
    }

    /// The magnitude.
    pub fn try_abs(self) -> (r: Result<I256, Fault>)
        ensures
            r is Ok <==> fits(magnitude(self@)),
            r matches Ok(v) ==> v@ == magnitude(self@),
    {
        or_fault(alloy_checked_abs(self))
    }

    /// The number shifted left by `n` bits, modulo 2^256.
    pub fn shl(self, n: usize) -> (r: I256)
        ensures
            r@ == self@.wtimes(pow2(n as nat) as int),
    {
        alloy_signed_shl(self, n)
    }

    /// The number shifted right by `n` bits, with the sign kept.
    pub fn asr(self, n: usize) -> (r: I256)
        ensures
            r@ == self@ / (pow2(n as nat) as int),
    {
        alloy_asr(self, n)
    }

    /// Whether the number is below zero.
    pub fn is_negative(self) -> (r: bool)
        ensures
            r == (self@ < 0),
    {
        self < I256::zero()
    }

    /// The smaller of two numbers.
    pub fn min(self, other: I256) -> (r: I256)
        ensures
            r@ == (if other@ < self@ { other@ } else { self@ }),
    {
        if other < self {
            other
        } else {
            self
        }
    }
}

} // verus!
