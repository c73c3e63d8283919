//! Words, signed words and roots.
use curve_math::coins::sort3_desc;
use curve_math::cubic::{fdiv, signed_cbrt, ten_to};
use curve_math::fault::Fault;
use curve_math::pricing::{claim, fee_at, move_average, move_scale};
use curve_math::roots::{cbrt, isqrt, snekmate_log_2, try_isqrt};
use curve_math::signed::I256;
use curve_math::uint::U256;

fn top() -> U256 {
    U256::from_limbs([u64::MAX, u64::MAX, u64::MAX, u64::MAX])
}

fn n(v: u64) -> U256 {
    U256::from(v)
}

fn i(v: i64) -> I256 {
    let m = I256::from_u128(v.unsigned_abs() as u128);
    if v < 0 {
        m.try_neg().unwrap()
    } else {
        m
    }
}

/// -2^255.
fn least() -> I256 {
    I256 { limbs: [0, 0, 0, 1 << 63] }
}

/// 2^255 - 1.
fn greatest() -> I256 {
    I256 { limbs: [u64::MAX, u64::MAX, u64::MAX, u64::MAX >> 1] }
}

#[test]
fn words_wrap_around() {
    assert_eq!(top() + n(1), n(0));
    assert_eq!(top() + top(), top() - n(1));
    assert_eq!(n(0) - n(1), top());
    assert_eq!(n(3) - n(5), top() - n(1));
    assert_eq!(top() * top(), n(1));
    assert_eq!(top() * n(2), top() - n(1));
    assert_eq!(U256::from(u128::MAX) + n(1), U256::from_limbs([0, 0, 1, 0]));
    assert_eq!(U256::from(u128::MAX) * U256::from(u128::MAX), U256::from_limbs([1, 0, u64::MAX - 1, u64::MAX]));
}

#[test]
fn words_divide_rounding_down() {
    assert_eq!(n(17) / n(5), n(3));
    assert_eq!(top() / n(2), U256::from_limbs([u64::MAX, u64::MAX, u64::MAX, u64::MAX >> 1]));
    assert_eq!(top() / top(), n(1));
    assert_eq!(n(4) / n(5), n(0));
    assert_eq!(n(17).div_by(n(5)), Ok(n(3)));
    assert_eq!(n(17).div_by(n(0)), Err(Fault));
}

#[test]
fn words_compare_by_value() {
    assert!(U256::from_limbs([0, 0, 0, 1]) > U256::from_limbs([u64::MAX, u64::MAX, u64::MAX, 0]));
    assert!(n(3) < n(4));
    assert!(n(4) <= n(4));
    assert!(n(4) >= n(4));
    assert!(n(4) != n(5));
    assert_eq!(n(4).max(n(5)), n(5));
    assert_eq!(n(4).min(n(5)), n(4));
    assert_eq!(n(4).abs_diff(n(9)), n(5));
    assert_eq!(n(9).abs_diff(n(4)), n(5));
    assert!(n(0).is_zero());
    assert!(!n(1).is_zero());
}

#[test]
fn words_shift_and_grow() {
    assert_eq!(n(1).shl(64), U256::from_limbs([0, 1, 0, 0]));
    assert_eq!(n(3).shl(255), U256::from_limbs([0, 0, 0, 1 << 63]));
    assert_eq!(n(3).shl(256), n(0));
    assert_eq!(top().shr(192), n(u64::MAX));
    assert_eq!(top().shr(256), n(0));
    assert_eq!(n(10).pow(n(18)), n(1_000_000_000_000_000_000));
    assert_eq!(n(10).pow(n(0)), n(1));
    assert_eq!(n(2).pow(n(256)), n(0));
    assert_eq!(top().pow(n(3)), top());
    assert_eq!(U256::from_limbs([7, 8, 9, 10]).low(), 7);
    assert_eq!(n(5).checked_add(n(6)), Some(n(11)));
    assert_eq!(top().checked_add(n(0)), Some(top()));
    assert_eq!(top().checked_add(n(1)), None);
}

#[test]
fn signed_words_wrap_around() {
    assert_eq!(greatest().wrapping_add(i(1)), least());
    assert_eq!(least().wrapping_sub(i(1)), greatest());
    assert_eq!(least().wrapping_mul(i(-1)), least());
    assert_eq!(greatest().wrapping_mul(i(2)), i(-2));
    assert_eq!(i(-7).wrapping_mul(i(6)), i(-42));
    assert_eq!(least().wrapping_div(i(-1)), Ok(least()));
    assert_eq!(i(-7).wrapping_div(i(2)), Ok(i(-3)));
    assert_eq!(i(-7).wrapping_div(i(0)), Err(Fault));
    assert_eq!(i(3).shl(254), I256 { limbs: [0, 0, 0, 3 << 62] });
    assert_eq!(i(-1).shl(8), i(-256));
}

#[test]
fn signed_words_overflow_into_faults() {
    assert_eq!(i(5).try_add(i(-9)), Ok(i(-4)));
    assert_eq!(greatest().try_add(i(1)), Err(Fault));
    assert_eq!(i(5).try_sub(i(9)), Ok(i(-4)));
    assert_eq!(least().try_sub(i(1)), Err(Fault));
    assert_eq!(i(-5).try_mul(i(9)), Ok(i(-45)));
    assert_eq!(greatest().try_mul(i(2)), Err(Fault));
    assert_eq!(i(-45).try_div(i(9)), Ok(i(-5)));
    assert_eq!(i(-7).try_div(i(2)), Ok(i(-3)));
    assert_eq!(least().try_div(i(-1)), Err(Fault));
    assert_eq!(i(1).try_div(i(0)), Err(Fault));
    assert_eq!(i(-7).try_rem(i(2)), Ok(i(-1)));
    assert_eq!(i(7).try_rem(i(-2)), Ok(i(1)));
    assert_eq!(i(1).try_rem(i(0)), Err(Fault));
    assert_eq!(i(7).try_neg(), Ok(i(-7)));
    assert_eq!(least().try_neg(), Err(Fault));
    assert_eq!(i(-7).try_abs(), Ok(i(7)));
    assert_eq!(i(7).try_abs(), Ok(i(7)));
    assert_eq!(least().try_abs(), Err(Fault));
}

#[test]
fn signed_words_convert_and_compare() {
    assert_eq!(I256::from_unsigned(n(9)), Some(i(9)));
    assert_eq!(I256::from_unsigned(top()), None);
    assert_eq!(i(9).to_unsigned(), Some(n(9)));
    assert_eq!(i(-9).to_unsigned(), None);
    assert_eq!(i(-1).to_bits(), top());
    assert!(i(-1) < i(0));
    assert!(least() < greatest());
    assert!(i(-2).is_negative());
    assert!(!i(0).is_negative());
    assert_eq!(i(-2).min(i(1)), i(-2));
    assert_eq!(i(5).min(i(1)), i(1));
    assert_eq!(i(-1).asr(96), i(-1));
    assert_eq!(i(-257).asr(8), i(-2));
    assert_eq!(i(257).asr(8), i(1));
}

#[test]
fn floor_division_rounds_down() {
    assert_eq!(fdiv(i(7), i(2)), Ok(i(3)));
    assert_eq!(fdiv(i(-7), i(2)), Ok(i(-4)));
    assert_eq!(fdiv(i(7), i(-2)), Ok(i(-4)));
    assert_eq!(fdiv(i(-7), i(-2)), Ok(i(3)));
    assert_eq!(fdiv(i(-8), i(2)), Ok(i(-4)));
    assert_eq!(fdiv(i(0), i(-2)), Ok(i(0)));
    assert_eq!(fdiv(least(), i(2)), Ok(I256 { limbs: [0, 0, 0, 3 << 62] }));
    assert_eq!(fdiv(least(), i(-1)), Err(Fault));
    assert_eq!(fdiv(i(1), i(0)), Err(Fault));
}

#[test]
fn powers_of_ten() {
    assert_eq!(ten_to(0), i(1));
    assert_eq!(ten_to(18), i(1_000_000_000_000_000_000));
    assert_eq!(ten_to(36), I256::from_u128(1_000_000_000_000_000_000_000_000_000_000_000_000));
    assert_eq!(
        ten_to(48).to_unsigned().unwrap(),
        U256::from(1_000_000_000_000_000_000_000_000u128) * U256::from(1_000_000_000_000_000_000_000_000u128)
    );
}

#[test]
fn square_roots_round_down() {
    assert_eq!(isqrt(top() - n(1)), U256::from(u128::MAX));
    assert_eq!(isqrt(U256::from(u128::MAX)), n(u64::MAX));
    assert_eq!(isqrt(n(2)), n(1));
    assert_eq!(isqrt(n(3)), n(1));
    assert_eq!(try_isqrt(top()), Err(Fault));
    assert_eq!(try_isqrt(n(49)), Ok(n(7)));
    for k in 1u64..200 {
        let r = isqrt(n(k));
        assert!(r * r <= n(k));
        assert!((r + n(1)) * (r + n(1)) > n(k));
    }
}

#[test]
fn logarithms_round_down() {
    for k in 0usize..256 {
        assert_eq!(snekmate_log_2(n(1).shl(k)), k as u32);
        assert_eq!(snekmate_log_2(n(1).shl(k) + (n(1).shl(k) - n(1))), k as u32);
    }
    assert_eq!(snekmate_log_2(top()), 255);
}

#[test]
fn cube_roots_are_close() {
    let e18 = 1_000_000_000_000_000_000u64;
    let e12 = n(1_000_000_000_000);
    assert_eq!(cbrt(n(0)), n(0));
    // the root of 1 * 10^-18 is 10^-6
    assert_eq!(cbrt(n(1)), e12);
    assert_eq!(cbrt(n(e18)), n(e18));
    assert_eq!(cbrt(n(e18) * n(27)), n(e18) * n(3));
    assert_eq!(cbrt(n(e18) * n(1_000_000_000)), n(e18) * n(1000));
    // within one unit of 10^-18 of the exact root
    for k in [2u64, 3, 5, 7, 1_000_003, 123_456_789_012_345_678] {
        let v = cbrt(n(k));
        let x = n(k) * n(e18) * n(e18);
        let (lo, hi) = (v - n(1), v + n(1));
        assert!(lo * lo * lo <= x);
        assert!(hi * hi * hi > x);
    }
    // the largest words go through the coarser scales
    assert_eq!(cbrt(top()), U256::from(48_740_834_812_604_276_470_692_694u128) * e12);
    assert!(cbrt(top()) > cbrt(top() / n(3)));
    assert!(cbrt(top().shr(70)) > cbrt(top().shr(80)));
    assert_eq!(signed_cbrt(i(-8).wrapping_mul(i(1_000_000_000_000_000_000))), Ok(Some(i(-2_000_000_000_000_000_000))));
    assert_eq!(signed_cbrt(least()), Err(Fault));
}

#[test]
fn three_words_are_sorted() {
    let sorted = [n(9), n(5), n(2)];
    for x in [
        [n(2), n(5), n(9)],
        [n(2), n(9), n(5)],
        [n(5), n(2), n(9)],
        [n(5), n(9), n(2)],
        [n(9), n(2), n(5)],
        [n(9), n(5), n(2)],
    ] {
        assert_eq!(sort3_desc(x), sorted);
    }
    assert_eq!(sort3_desc([n(4), n(4), n(7)]), [n(7), n(4), n(4)]);
}

#[test]
fn averages_and_scales_stay_between() {
    let wad = n(1_000_000_000_000_000_000);
    let half = n(500_000_000_000_000_000);
    assert_eq!(move_average(n(100), n(200), half), n(150));
    assert_eq!(move_average(n(100), n(200), wad), n(200));
    assert_eq!(move_average(n(100), n(200), n(0)), n(100));
    assert_eq!(move_scale(n(100), n(200), n(10), n(3)), n(130));
    assert_eq!(move_scale(n(200), n(100), n(10), n(3)), n(170));
    assert_eq!(fee_at(n(26_000_000), n(1_000_000)), n(2600));
}

#[test]
fn claims_take_part_of_the_gain() {
    let wad = n(1_000_000_000_000_000_000);
    let gain = n(1_000_000_000_000_000);
    let admin_fee = n(5_000_000_000);
    let (profit, supply) = claim(wad + gain, wad, wad + gain / n(2), n(1_000_000_000_000_000), admin_fee);
    assert_eq!(profit, wad + gain / n(2));
    assert_eq!(supply, n(1_000_249_937_515_621));
    // no gain, no claim
    assert_eq!(claim(wad, wad, wad, n(77), admin_fee), (wad, n(77)));
    // a fee of nothing
    assert_eq!(claim(wad + gain, wad, wad, n(77), n(0)), (wad + gain, n(77)));
    // a share above the virtual price
    assert_eq!(claim(wad * n(9), n(0), n(1), n(77), admin_fee), (wad * n(9), n(77)));
}
