//! The three-coin solver.
use curve_math::solvers::tricrypto_ng::{
    cbrt, crypto_fee, get_y_3_ng, isqrt, newton_d, newton_y_3, A_MULTIPLIER, WAD,
};
use curve_math::uint::U256;

fn wad() -> U256 {
    U256::from(WAD)
}

fn ann() -> U256 {
    U256::from(1707629u64) * U256::from(A_MULTIPLIER)
}

fn gamma() -> U256 {
    U256::from(11_809_167_828_997u64)
}

fn realistic_params() -> (U256, U256, [U256; 3], U256) {
    let balance = U256::from(10_000u64) * wad();
    let x = [balance, balance, balance];
    let d = U256::from(30_000u64) * wad();
    (ann(), gamma(), x, d)
}

#[test]
fn tricrypto_ng_isqrt_known_values() {
    assert_eq!(isqrt(U256::from(16u64)), U256::from(4u64));
    assert_eq!(isqrt(U256::from(25u64)), U256::from(5u64));
    assert_eq!(isqrt(U256::from(26u64)), U256::from(5u64));
}

#[test]
fn tricrypto_ng_cbrt_monotonic() {
    let a = U256::from(1_000_000_000_000_000_000u128);
    let b = U256::from(27_000_000_000_000_000_000u128);
    let ca = cbrt(a);
    let cb = cbrt(b);
    assert!(cb > ca);
}

#[test]
fn newton_d_3_balanced() {
    let balance = U256::from(10_000u64) * wad();
    let d = newton_d(ann(), gamma(), [balance, balance, balance], U256::zero()).expect("converge");
    assert!(d > U256::zero());
    let s = balance * U256::from(3u64);
    assert!(d <= s + wad());
}

#[test]
fn newton_d_3_idempotent() {
    let x = [
        U256::from(10_000u64) * wad(),
        U256::from(10_000u64) * wad(),
        U256::from(10_000u64) * wad(),
    ];
    let d1 = newton_d(ann(), gamma(), x, U256::zero()).expect("converge");
    let d2 = newton_d(ann(), gamma(), x, U256::zero()).expect("converge");
    assert_eq!(d1, d2);
}

#[test]
fn newton_d_3_monotonic() {
    let d1 = newton_d(
        ann(),
        gamma(),
        [
            U256::from(10_000u64) * wad(),
            U256::from(10_000u64) * wad(),
            U256::from(10_000u64) * wad(),
        ],
        U256::zero(),
    )
    .unwrap();
    let d2 = newton_d(
        ann(),
        gamma(),
        [
            U256::from(12_000u64) * wad(),
            U256::from(10_000u64) * wad(),
            U256::from(10_000u64) * wad(),
        ],
        U256::zero(),
    )
    .unwrap();
    assert!(d2 > d1);
}

#[test]
fn newton_d_3_matches_onchain_base_pool() {
    // The invariant that a deployed pool reports for these balances.
    let ann = U256::from(2_700_000u64);
    let gamma = U256::from(1_300_000_000_000u64);
    let xp = [
        U256::from(1564325938278762767729778u128),
        U256::from(1674558251010830450444325u128),
        U256::from(1814103230935323407441172u128),
    ];
    let expected_d = U256::from(5043877571863252725139907u128);

    let d = newton_d(ann, gamma, xp, U256::zero()).expect("should converge");
    assert_eq!(d, expected_d, "must match on-chain MATH.newton_D exactly");
}

#[test]
fn newton_y_3_convergence() {
    let (ann, gamma, x, d) = realistic_params();
    let y = newton_y_3(ann, gamma, x, d, 0).expect("converge");
    assert!(y > U256::zero());
    assert!(y < d);
}

#[test]
fn get_y_3_ng_convergence() {
    let (ann, gamma, x, d) = realistic_params();
    let result = get_y_3_ng(ann, gamma, x, d, 2);
    assert!(result.is_some());
    let (y, _k0) = result.expect("converge");
    assert!(y > U256::zero());
    assert!(y < d);
}

#[test]
fn crypto_fee_three_coins_balanced() {
    let mid_fee = U256::from(3_000_000u64);
    let out_fee = U256::from(30_000_000u64);
    let fee_gamma = U256::from(230_000_000_000_000u64);
    let xp = [
        U256::from(100_000u64) * wad(),
        U256::from(100_000u64) * wad(),
        U256::from(100_000u64) * wad(),
    ];
    let fee = crypto_fee(&xp, mid_fee, out_fee, fee_gamma).expect("fee");
    assert!(fee >= mid_fee);
    assert!(fee < out_fee);
}

#[test]
fn get_y_3_ng_swap_reduces() {
    let (ann, gamma, x, d) = realistic_params();
    let dx = U256::from(10u64) * wad();
    let (y_before, _) = get_y_3_ng(ann, gamma, x, d, 2).expect("before");
    let (y_after, _) = get_y_3_ng(ann, gamma, [x[0] + dx, x[1], x[2]], d, 2).expect("after");
    assert!(y_after < y_before);
}
