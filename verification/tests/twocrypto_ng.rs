//! The two-coin solver.
use curve_math::solvers::twocrypto_ng::{
    cbrt, get_y_2_ng, isqrt, newton_d, snekmate_log_2, A_MULTIPLIER, WAD,
};
use curve_math::uint::U256;

fn wad() -> U256 {
    U256::from(WAD)
}

fn ann() -> U256 {
    U256::from(540_000u64) * U256::from(A_MULTIPLIER)
}

fn gamma() -> U256 {
    U256::from(11_809_167_828_997u64)
}

#[test]
fn twocrypto_ng_isqrt_known_values() {
    assert_eq!(isqrt(U256::zero()), U256::zero());
    assert_eq!(isqrt(U256::from(1u64)), U256::from(1u64));
    assert_eq!(isqrt(U256::from(4u64)), U256::from(2u64));
    assert_eq!(isqrt(U256::from(9u64)), U256::from(3u64));
    assert_eq!(isqrt(U256::from(100u64)), U256::from(10u64));
    // Non-perfect square: floor
    assert_eq!(isqrt(U256::from(8u64)), U256::from(2u64));
    assert_eq!(isqrt(U256::from(99u64)), U256::from(9u64));
}

#[test]
fn isqrt_large() {
    let x = wad() * wad();
    let s = isqrt(x);
    assert_eq!(s, wad());
}

#[test]
fn snekmate_log_2_known_values() {
    assert_eq!(snekmate_log_2(U256::zero()), 0);
    assert_eq!(snekmate_log_2(U256::from(1u64)), 0);
    assert_eq!(snekmate_log_2(U256::from(2u64)), 1);
    assert_eq!(snekmate_log_2(U256::from(4u64)), 2);
    assert_eq!(snekmate_log_2(U256::from(255u64)), 7);
    assert_eq!(snekmate_log_2(U256::from(256u64)), 8);
}

#[test]
fn cbrt_basic() {
    let result = cbrt(wad());
    assert!(result > U256::zero());
}

#[test]
fn twocrypto_ng_cbrt_monotonic() {
    let a = U256::from(1_000_000_000_000_000_000u128);
    let b = U256::from(8_000_000_000_000_000_000u128);
    let ca = cbrt(a);
    let cb = cbrt(b);
    assert!(cb > ca);
}

#[test]
fn cbrt_perfect_cube() {
    let x = U256::from(8_000_000_000_000_000_000u128);
    let result = cbrt(x);
    assert!(result > U256::zero());
    // the root of 8, in units of 10^18
    assert_eq!(result, U256::from(2_000_000_000_000_000_000u128));
}

#[test]
fn newton_d_balanced() {
    let x0 = U256::from(5000u64) * wad();
    let x1 = U256::from(5000u64) * wad();
    let d = newton_d(ann(), gamma(), [x0, x1], U256::zero()).expect("should converge");
    assert!(d > U256::zero());
    assert!(d <= x0 + x1 + wad());
    assert!(d >= x0 + x1 - wad());
    // an even split: the sum exactly
    assert_eq!(d, x0 + x1);
}

#[test]
fn newton_d_imbalanced() {
    let x0 = U256::from(8000u64) * wad();
    let x1 = U256::from(3000u64) * wad();
    let d = newton_d(ann(), gamma(), [x0, x1], U256::zero()).expect("should converge");
    assert!(d > U256::zero());
    let s = x0 + x1;
    assert!(d <= s);
}

#[test]
fn newton_d_idempotent() {
    let x0 = U256::from(5000u64) * wad();
    let x1 = U256::from(5000u64) * wad();
    let d1 = newton_d(ann(), gamma(), [x0, x1], U256::zero()).expect("converge");
    let d2 = newton_d(ann(), gamma(), [x0, x1], U256::zero()).expect("converge");
    assert_eq!(d1, d2);
}

#[test]
fn newton_d_monotonic_with_balance() {
    let d1 = newton_d(
        ann(),
        gamma(),
        [U256::from(5000u64) * wad(), U256::from(5000u64) * wad()],
        U256::zero(),
    )
    .unwrap();
    let d2 = newton_d(
        ann(),
        gamma(),
        [U256::from(6000u64) * wad(), U256::from(5000u64) * wad()],
        U256::zero(),
    )
    .unwrap();
    assert!(d2 > d1, "D should increase when balance increases");
}

#[test]
fn newton_d_matches_onchain_base_pool() {
    // The invariant that a deployed pool reports for these balances.
    let ann = U256::from(400_000u64);
    let gamma = U256::from(145_000_000_000_000u64);
    let xp0 = U256::from(13468613186144972495445u128);
    let xp1 = U256::from(12989547685308386938490u128);
    let expected_d = U256::from(26457022398539583448691u128);

    let d = newton_d(ann, gamma, [xp0, xp1], U256::zero()).expect("should converge");
    assert_eq!(d, expected_d, "must match on-chain MATH.newton_D exactly");
}

#[test]
fn get_y_2_ng_convergence() {
    let x0 = U256::from(5000u64) * wad();
    let x1 = U256::from(5000u64) * wad();
    let d = U256::from(10000u64) * wad();
    let result = get_y_2_ng(ann(), gamma(), [x0, x1], d, 1);
    assert!(result.is_some());
    let (y, _k0) = result.expect("converge");
    assert!(y > U256::zero());
    assert!(y < d);
}
