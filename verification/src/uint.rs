//! Unsigned 256-bit words.
//!
//! A [`U256`] is four 64-bit limbs, least significant first. Its view is the number that the limbs
//! stand for. Sums, differences and products are taken modulo 2^256; the quotient rounds down.
//! The arithmetic itself is done by `alloy_primitives::U256`.
use crate::fault::Fault;
use core::cmp::Ordering;
use vstd::arithmetic::power::pow;
use vstd::arithmetic::power2::pow2;
use vstd::prelude::*;

verus! {

/// 2^256, the number of different words.
pub open spec fn modulus() -> int {
    0x1_0000000000000000_0000000000000000_0000000000000000_0000000000000000int
}

/// The number that four limbs stand for.
#[verifier::opaque]
pub open spec fn limbs_value(l: [u64; 4]) -> int {
    l[0] + 0x1_0000000000000000int * (l[1] + 0x1_0000000000000000int * (l[2] + 0x1_0000000000000000int * l[3]))
}

/// The sum of two words, modulo 2^256.
#[verifier::opaque]
pub open spec fn word_add(a: int, b: int) -> int {
    (a + b) % modulus()
}

/// The difference of two words, modulo 2^256.
#[verifier::opaque]
pub open spec fn word_sub(a: int, b: int) -> int {
    (a - b) % modulus()
}

/// The product of two words, modulo 2^256.
#[verifier::opaque]
pub open spec fn word_mul(a: int, b: int) -> int {
    (a * b) % modulus()
}

/// The quotient of two words, rounded down. Meant for `b != 0` only.
#[verifier::opaque]
pub open spec fn word_div(a: int, b: int) -> int {
    a / b
}

/// Word arithmetic on the numbers that words stand for, in a form that chains from left to right.
pub trait Word: Sized {
    spec fn plus(self, other: int) -> int;

    spec fn minus(self, other: int) -> int;

    spec fn times(self, other: int) -> int;

    spec fn over(self, other: int) -> int;
}

impl Word for int {
    #[verifier::inline]
    open spec fn plus(self, other: int) -> int {
        word_add(self, other)
    }

    #[verifier::inline]
    open spec fn minus(self, other: int) -> int {
        word_sub(self, other)
    }

    #[verifier::inline]
    open spec fn times(self, other: int) -> int {
        word_mul(self, other)
    }

    #[verifier::inline]
    open spec fn over(self, other: int) -> int {
        word_div(self, other)
    }
}

/// The larger of two numbers.
pub open spec fn larger(a: int, b: int) -> int {
    if a < b {
        b
    } else {
        a
    }
}

/// The smaller of two numbers.
pub open spec fn smaller(a: int, b: int) -> int {
    if b < a {
        b
    } else {
        a
    }
}

/// The distance between two words.
pub open spec fn distance(a: int, b: int) -> int {
    if a > b {
        a.minus(b)
    } else {
        b.minus(a)
    }
}

/// An unsigned 256-bit word: four limbs, least significant first.
#[derive(Clone, Copy, Debug)]
pub struct U256 {
    pub limbs: [u64; 4],
}

impl View for U256 {
    type V = int;

    open spec fn view(&self) -> int {
        limbs_value(self.limbs)
    }
}

impl U256 {
    /// The word that stands for `v`, for `0 <= v < 2^256`.
    #[verifier::opaque]
    pub open spec fn of(v: int) -> U256 {
        U256 {
            limbs: [
                (v % 0x1_0000000000000000int) as u64,
                (v / 0x1_0000000000000000int % 0x1_0000000000000000int) as u64,
                (v / 0x1_0000000000000000int / 0x1_0000000000000000int % 0x1_0000000000000000int) as u64,
                (v / 0x1_0000000000000000int / 0x1_0000000000000000int / 0x1_0000000000000000int) as u64,
            ],
        }
    }
}

/// Every word stands for a number from 0 up to 2^256 - 1.
pub broadcast proof fn lemma_word_range(x: U256)
    ensures
        0 <= #[trigger] x@ < modulus(),
{
    reveal(limbs_value);
}

/// A word is determined by the number that it stands for.
pub broadcast proof fn lemma_of_view(x: U256)
    ensures
        #[trigger] U256::of(x@) == x,
{
    reveal(limbs_value);
    reveal(U256::of);
    let l = x.limbs;
    let v = x@;
    let h2 = l[2] + 0x1_0000000000000000int * l[3];
    let h1 = l[1] + 0x1_0000000000000000int * h2;
    assert(v == l[0] + 0x1_0000000000000000int * h1);
    assert(v % 0x1_0000000000000000int == l[0] && v / 0x1_0000000000000000int == h1);
    assert(h1 % 0x1_0000000000000000int == l[1] && h1 / 0x1_0000000000000000int == h2);
    assert(h2 % 0x1_0000000000000000int == l[2] && h2 / 0x1_0000000000000000int == l[3]);
    assert(U256::of(v).limbs =~= l);
}

/// Every number from 0 up to 2^256 - 1 is the value of a word.
pub proof fn law_word_of(v: int)
    requires
        0 <= v < modulus(),
    ensures
        U256::of(v)@ == v,
{
    reveal(limbs_value);
    reveal(U256::of);
    let h1 = v / 0x1_0000000000000000int;
    let h2 = h1 / 0x1_0000000000000000int;
    let h3 = h2 / 0x1_0000000000000000int;
    assert(0 <= h3 < 0x1_0000000000000000int);
}

/// Two words that stand for the same number are the same.
pub proof fn lemma_view_injective(a: U256, b: U256)
    requires
        a@ == b@,
    ensures
        a == b,
{
    lemma_of_view(a);
    lemma_of_view(b);
}

/// A sum that is a word is exact.
pub proof fn lemma_plus(a: int, b: int)
    requires
        0 <= a + b < modulus(),
    ensures
        a.plus(b) == a + b,
{
    reveal(word_add);
    vstd::arithmetic::div_mod::lemma_small_mod((a + b) as nat, modulus() as nat);
}

/// A difference that is a word is exact.
pub proof fn lemma_minus(a: int, b: int)
    requires
        0 <= a - b < modulus(),
    ensures
        a.minus(b) == a - b,
{
    reveal(word_sub);
    vstd::arithmetic::div_mod::lemma_small_mod((a - b) as nat, modulus() as nat);
}

/// A product that is a word is exact.
pub proof fn lemma_times(a: int, b: int)
    requires
        0 <= a * b < modulus(),
    ensures
        a.times(b) == a * b,
{
    reveal(word_mul);
    vstd::arithmetic::div_mod::lemma_small_mod((a * b) as nat, modulus() as nat);
}

/// The quotient is always exact.
pub proof fn lemma_over(a: int, b: int)
    ensures
        a.over(b) == a / b,
{
    reveal(word_div);
}

/// Calls `Uint::wrapping_add` of `alloy_primitives::U256`, the function behind its `+`.
/// Claimed: the result is the sum of the two words modulo 2^256.
#[verifier::external_body]
fn alloy_add(a: U256, b: U256) -> (r: U256)
    ensures
        r@ == (a@ + b@) % modulus(),
{
    let x = alloy_primitives::U256::from_limbs(a.limbs);
    let y = alloy_primitives::U256::from_limbs(b.limbs);
    U256 { limbs: x.wrapping_add(y).into_limbs() }
}

/// Calls `Uint::wrapping_sub` of `alloy_primitives::U256`, the function behind its `-`.
/// Claimed: the result is the difference of the two words modulo 2^256.
#[verifier::external_body]
fn alloy_sub(a: U256, b: U256) -> (r: U256)
    ensures
        r@ == (a@ - b@) % modulus(),
{
    let x = alloy_primitives::U256::from_limbs(a.limbs);
    let y = alloy_primitives::U256::from_limbs(b.limbs);
    U256 { limbs: x.wrapping_sub(y).into_limbs() }
}

/// Calls `Uint::wrapping_mul` of `alloy_primitives::U256`, the function behind its `*`.
/// Claimed: the result is the product of the two words modulo 2^256.
#[verifier::external_body]
fn alloy_mul(a: U256, b: U256) -> (r: U256)
    ensures
        r@ == (a@ * b@) % modulus(),
{
    let x = alloy_primitives::U256::from_limbs(a.limbs);
    let y = alloy_primitives::U256::from_limbs(b.limbs);
    U256 { limbs: x.wrapping_mul(y).into_limbs() }
}

/// Calls `Uint::wrapping_div` of `alloy_primitives::U256`, the function behind its `/`, which
/// panics on a zero divisor.
/// Claimed: the result is the quotient rounded down.
#[verifier::external_body]
fn alloy_div(a: U256, b: U256) -> (r: U256)
    requires
        b@ != 0,
    ensures
        r@ == a@ / b@,
{
    let x = alloy_primitives::U256::from_limbs(a.limbs);
    let y = alloy_primitives::U256::from_limbs(b.limbs);
    U256 { limbs: x.wrapping_div(y).into_limbs() }
}

/// Calls `Uint::checked_add` of `alloy_primitives::U256`.
/// Claimed: the result is the sum, or `None` where the sum is not a word.
#[verifier::external_body]
fn alloy_checked_add(a: U256, b: U256) -> (r: Option<U256>)
    ensures
        r is Some <==> a@ + b@ < modulus(),
        r matches Some(v) ==> v@ == a@ + b@,
{
    let x = alloy_primitives::U256::from_limbs(a.limbs);
    let y = alloy_primitives::U256::from_limbs(b.limbs);
    match x.checked_add(y) {
        Some(v) => Some(U256 { limbs: v.into_limbs() }),
        None => None,
    }
}

/// Calls `Uint::wrapping_shl` of `alloy_primitives::U256`, the function behind its `<<`.
/// Claimed: the result is the word times a power of two, modulo 2^256.
#[verifier::external_body]
fn alloy_shl(a: U256, n: usize) -> (r: U256)
    ensures
        r@ == (a@ * pow2(n as nat)) % modulus(),
{
    let x = alloy_primitives::U256::from_limbs(a.limbs);
    U256 { limbs: x.wrapping_shl(n).into_limbs() }
}

/// Calls `Uint::wrapping_shr` of `alloy_primitives::U256`, the function behind its `>>`.
/// Claimed: the result is the word divided by a power of two, rounded down.
#[verifier::external_body]
fn alloy_shr(a: U256, n: usize) -> (r: U256)
    ensures
        r@ == a@ / (pow2(n as nat) as int),
{
    let x = alloy_primitives::U256::from_limbs(a.limbs);
    U256 { limbs: x.wrapping_shr(n).into_limbs() }
}

/// Calls `Uint::pow` of `alloy_primitives::U256`.
/// Claimed: the result is the power, modulo 2^256; the power with exponent zero is one.
#[verifier::external_body]
fn alloy_pow(a: U256, n: U256) -> (r: U256)
    ensures
        r@ == pow(a@, n@ as nat) % modulus(),
{
    let x = alloy_primitives::U256::from_limbs(a.limbs);
    let y = alloy_primitives::U256::from_limbs(n.limbs);
    U256 { limbs: x.pow(y).into_limbs() }
}

/// Calls `Ord::cmp` of `alloy_primitives::U256`.
/// Claimed: the result is the order of the two numbers.
#[verifier::external_body]
fn alloy_cmp(a: &U256, b: &U256) -> (r: Ordering)
    ensures
        a@ < b@ ==> r == Ordering::Less,
        a@ == b@ ==> r == Ordering::Equal,
        a@ > b@ ==> r == Ordering::Greater,
{
    let x = alloy_primitives::U256::from_limbs(a.limbs);
    let y = alloy_primitives::U256::from_limbs(b.limbs);
    x.cmp(&y)
}

impl PartialEq for U256 {
    fn eq(&self, other: &U256) -> (r: bool) {
        proof {
            if self@ == other@ {
                lemma_view_injective(*self, *other);
            }
        }
        let a = self.limbs;
        let b = other.limbs;
        let r = a[0] == b[0] && a[1] == b[1] && a[2] == b[2] && a[3] == b[3];
        proof {
            if r {
                assert(a =~= b);
            }
        }
        r
    }
}

impl vstd::std_specs::cmp::PartialEqSpecImpl for U256 {
    open spec fn obeys_eq_spec() -> bool {
        true
    }

    open spec fn eq_spec(&self, other: &U256) -> bool {
        self@ == other@
    }
}

impl Eq for U256 {

}

impl PartialOrd for U256 {
    fn partial_cmp(&self, other: &U256) -> (r: Option<Ordering>) {
        Some(alloy_cmp(self, other))
    }
}

impl vstd::std_specs::cmp::PartialOrdSpecImpl for U256 {
    open spec fn obeys_partial_cmp_spec() -> bool {
        true
    }

    open spec fn partial_cmp_spec(&self, other: &U256) -> Option<Ordering> {
        Some(
            if self@ < other@ {
                Ordering::Less
            } else if self@ == other@ {
                Ordering::Equal
            } else {
                Ordering::Greater
            },
        )
    }
}

impl core::ops::Add for U256 {
    type Output = U256;

    fn add(self, rhs: U256) -> (r: U256)
        ensures
            r@ == self@.plus(rhs@),
    {
        let r = alloy_add(self, rhs);
        proof {
            reveal(word_add);
            lemma_of_view(r);
        }
        r
    }
}

impl vstd::std_specs::ops::AddSpecImpl for U256 {
    open spec fn obeys_add_spec() -> bool {
        true
    }

    open spec fn add_req(self, rhs: U256) -> bool {
        true
    }

    open spec fn add_spec(self, rhs: U256) -> U256 {
        U256::of(self@.plus(rhs@))
    }
}

impl core::ops::Sub for U256 {
    type Output = U256;

    fn sub(self, rhs: U256) -> (r: U256)
        ensures
            r@ == self@.minus(rhs@),
    {
        let r = alloy_sub(self, rhs);
        proof {
            reveal(word_sub);
            lemma_of_view(r);
        }
        r
    }
}

impl vstd::std_specs::ops::SubSpecImpl for U256 {
    open spec fn obeys_sub_spec() -> bool {
        true
    }

    open spec fn sub_req(self, rhs: U256) -> bool {
        true
    }

    open spec fn sub_spec(self, rhs: U256) -> U256 {
        U256::of(self@.minus(rhs@))
    }
}

impl core::ops::Mul for U256 {
    type Output = U256;

    fn mul(self, rhs: U256) -> (r: U256)
        ensures
            r@ == self@.times(rhs@),
    {
        let r = alloy_mul(self, rhs);
        proof {
            reveal(word_mul);
            lemma_of_view(r);
        }
        r
    }
}

impl vstd::std_specs::ops::MulSpecImpl for U256 {
    open spec fn obeys_mul_spec() -> bool {
        true
    }

    open spec fn mul_req(self, rhs: U256) -> bool {
        true
    }

    open spec fn mul_spec(self, rhs: U256) -> U256 {
        U256::of(self@.times(rhs@))
    }
}

impl core::ops::Div for U256 {
    type Output = U256;

    fn div(self, rhs: U256) -> (r: U256)
        ensures
            r@ == self@.over(rhs@),
    {
        let r = alloy_div(self, rhs);
        proof {
            reveal(word_div);
            lemma_of_view(r);
        }
        r
    }
}

impl vstd::std_specs::ops::DivSpecImpl for U256 {
    open spec fn obeys_div_spec() -> bool {
        true
    }

    open spec fn div_req(self, rhs: U256) -> bool {
        rhs@ != 0
    }

    open spec fn div_spec(self, rhs: U256) -> U256 {
        U256::of(self@.over(rhs@))
    }
}

impl From<u64> for U256 {
    fn from(v: u64) -> (r: U256)
        ensures
            r@ == v,
    {
        let r = U256 { limbs: [v, 0, 0, 0] };
        proof {
            reveal(limbs_value);
            lemma_of_view(r);
        }
        r
    }
}

impl vstd::std_specs::convert::FromSpecImpl<u64> for U256 {
    open spec fn obeys_from_spec() -> bool {
        true
    }

    open spec fn from_spec(v: u64) -> U256 {
        U256::of(v as int)
    }
}

impl From<u128> for U256 {
    fn from(v: u128) -> (r: U256)
        ensures
            r@ == v,
    {
        let lo = (v % 0x1_0000000000000000u128) as u64;
        let hi = (v / 0x1_0000000000000000u128) as u64;
        let r = U256 { limbs: [lo, hi, 0, 0] };
        proof {
            reveal(limbs_value);
            lemma_of_view(r);
        }
        r
    }
}

impl vstd::std_specs::convert::FromSpecImpl<u128> for U256 {
    open spec fn obeys_from_spec() -> bool {
        true
    }

    open spec fn from_spec(v: u128) -> U256 {
        U256::of(v as int)
    }
}

impl U256 {
    /// The word with the given limbs, least significant first.
    pub fn from_limbs(limbs: [u64; 4]) -> (r: U256)
        ensures
            r.limbs == limbs,
            r@ == limbs_value(limbs),
    {
        U256 { limbs }
    }

    /// Zero.
    pub fn zero() -> (r: U256)
        ensures
            r@ == 0,
    {
        U256::from(0u64)
    }

    /// Whether the word is zero.
    pub fn is_zero(self) -> (r: bool)
        ensures
            r == (self@ == 0),
    {
        self == U256::zero()
    }

    /// The lowest limb.
    pub fn low(self) -> (r: u64)
        ensures
            r == self@ % 0x1_0000000000000000int,
    {
        proof {
            reveal(limbs_value);
            let high = self.limbs[1] + 0x1_0000000000000000int * (self.limbs[2]
                + 0x1_0000000000000000int * self.limbs[3]);
            vstd::arithmetic::div_mod::lemma_fundamental_div_mod_converse(
                self@,
                0x1_0000000000000000int,
                high,
                self.limbs[0] as int,
            );
        }
        self.limbs[0]
    }

    /// The sum, or `None` where it is not a word.
    pub fn checked_add(self, rhs: U256) -> (r: Option<U256>)
        ensures
            r is Some <==> self@ + rhs@ < modulus(),
            r matches Some(v) ==> v@ == self@ + rhs@,
    {
        alloy_checked_add(self, rhs)
    }

    /// The quotient rounded down, or a fault where the divisor is zero.
    pub fn div_by(self, rhs: U256) -> (r: Result<U256, Fault>)
        ensures
            r is Err <==> rhs@ == 0,
            r matches Ok(v) ==> v@ == self@.over(rhs@),
    {
        if rhs.is_zero() {
            Err(Fault)
        } else {
            Ok(self / rhs)
        }
    }

    /// The word shifted left by `n` bits; what leaves at the top is lost.
    pub fn shl(self, n: usize) -> (r: U256)
        ensures
            r@ == self@.times(pow2(n as nat) as int),
    {
        proof {
            reveal(word_mul);
        }
        alloy_shl(self, n)
    }

    /// The word shifted right by `n` bits.
    pub fn shr(self, n: usize) -> (r: U256)
        ensures
            r@ == self@.over(pow2(n as nat) as int),
    {
        proof {
            reveal(word_div);
        }
        alloy_shr(self, n)
    }

    /// The word raised to the power `n`, modulo 2^256.
    pub fn pow(self, n: U256) -> (r: U256)
        ensures
            r@ == pow(self@, n@ as nat) % modulus(),
    {
        alloy_pow(self, n)
    }

    /// The larger of two words.
    pub fn max(self, other: U256) -> (r: U256)
        ensures
            r@ == larger(self@, other@),
    {
        if self < other {
            other
        } else {
            self
        }
    }

    /// The smaller of two words.
    pub fn min(self, other: U256) -> (r: U256)
        ensures
            r@ == smaller(self@, other@),
    {
        if other < self {
            other
        } else {
            self
        }
    }

    /// The distance between two words.
    pub fn abs_diff(self, other: U256) -> (r: U256)
        ensures
            r@ == distance(self@, other@),
    {
        if self > other {
            self - other
        } else {
            other - self
        }
    }
}

} // verus!
