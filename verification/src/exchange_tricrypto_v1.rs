//! Three-coin pools of the first generation: the simulated exchange with every update of the state.
pub use crate::pricing::ExchangeResult;
use crate::bounds::{
    ample_3, d_within_3, lemma_product_3, lemma_quotient, lemma_run_within_3, lemma_step_even,
};
use crate::callbacks::{ask_y3, pure_y3, y3_of, SolveY3};
use crate::coins::{get2, get3, pair, put3, set3, sort3_desc, sorted3, triple};
use crate::exchange::{halfpow, halfpow_model, lemma_half_life};
use crate::fault::Fault;
use crate::fees::{
    evenness_27, lemma_evenness_3, lemma_means_3, lemma_weighted, weigh, weighted_fee,
};
use crate::newton::{
    k0_3_at, lemma_newton_d_3_run, newton_d_3_loop, newton_d_3_run, outcome, quantity, settled_d_3,
    MAX_ITERATIONS, WAD,
};
use crate::pricing::{
    claim, claimed, even_split_3, fee_at, fee_on, gross, gross_out, in_units, keeps_profit,
    lemma_average_between, move_average, move_scale, moved_average, moved_scale, norm_3, norm_of_3, payout,
    payout_outcome, price_of_trade, profit_allows, profit_kept, profit_permits, scale_of,
    split_evenly_3, step_for, step_size, to_units, trade_price,
};
use crate::roots::{cube, is_icbrt, lemma_cube_increases, lemma_icbrt_exists};
use crate::uint::{
    distance, larger, lemma_minus, lemma_over, lemma_plus, lemma_times, lemma_word_range, modulus, smaller,
    Word, U256,
};
use vstd::arithmetic::power2::{
    lemma2_to64, lemma2_to64_rest, lemma_pow2_adds, lemma_pow2_unfold, pow2,
};
use vstd::prelude::*;

verus! {

/// The state of a three-coin pool of the first generation.
#[derive(Clone, Copy, Debug)]
pub struct TriCryptoV1State {
    /// What the pool holds of each coin, in the coin's own units.
    pub balances: [U256; 3],
    /// The prices of the second and third coin in the first around which the liquidity is concentrated.
    pub price_scale: [U256; 2],
    /// The moving averages of the prices.
    pub price_oracle: [U256; 2],
    /// The prices after the last change.
    pub last_prices: [U256; 2],
    /// When the moving averages were last brought up to date.
    pub last_prices_timestamp: u64,
    /// The invariant.
    pub d: U256,
    /// The worth of a pool token.
    pub virtual_price: U256,
    /// The profit so far, as a factor.
    pub xcp_profit: U256,
    /// The profit at the last claim of the admin's share.
    pub xcp_profit_a: U256,
    /// The admin's share of the profit, in units of 10^10.
    pub admin_fee: U256,
    /// The amplification coefficient times `N^N`, scaled.
    pub ann: U256,
    /// How far the liquidity is concentrated.
    pub gamma: U256,
    /// The fee rate at an even split, in units of 10^10.
    pub mid_fee: U256,
    /// The fee rate far from an even split, in units of 10^10.
    pub out_fee: U256,
    /// How fast the fee rate changes between the two.
    pub fee_gamma: U256,
    /// What brings each coin to 18 decimals.
    pub precisions: [U256; 3],
    /// The number of pool tokens.
    pub total_supply: U256,
    /// The extra profit that has to be there before the price scale moves.
    pub allowed_extra_profit: U256,
    /// The least step by which the price scale moves.
    pub adjustment_step: U256,
    /// The half-life of the moving averages, in seconds.
    pub ma_half_time: U256,
    /// Whether a move of the price scale is still due.
    pub not_adjusted: bool,
    /// When a change of `ann` and `gamma` ends; zero where there is none, one where it has ended.
    pub future_a_gamma_time: U256,
}

/// The numbers in the state of a three-coin pool of the first generation.
pub struct TriV1 {
    pub balances: (int, int, int),
    pub price_scale: (int, int),
    pub price_oracle: (int, int),
    pub last_prices: (int, int),
    pub last_prices_timestamp: int,
    pub d: int,
    pub virtual_price: int,
    pub xcp_profit: int,
    pub xcp_profit_a: int,
    pub admin_fee: int,
    pub ann: int,
    pub gamma: int,
    pub mid_fee: int,
    pub out_fee: int,
    pub fee_gamma: int,
    pub precisions: (int, int, int),
    pub total_supply: int,
    pub allowed_extra_profit: int,
    pub adjustment_step: int,
    pub ma_half_time: int,
    pub not_adjusted: bool,
    pub future_a_gamma_time: int,
}

impl View for TriCryptoV1State {
    type V = TriV1;

    open spec fn view(&self) -> TriV1 {
        TriV1 {
            balances: triple(self.balances),
            price_scale: pair(self.price_scale),
            price_oracle: pair(self.price_oracle),
            last_prices: pair(self.last_prices),
            last_prices_timestamp: self.last_prices_timestamp as int,
            d: self.d@,
            virtual_price: self.virtual_price@,
            xcp_profit: self.xcp_profit@,
            xcp_profit_a: self.xcp_profit_a@,
            admin_fee: self.admin_fee@,
            ann: self.ann@,
            gamma: self.gamma@,
            mid_fee: self.mid_fee@,
            out_fee: self.out_fee@,
            fee_gamma: self.fee_gamma@,
            precisions: triple(self.precisions),
            total_supply: self.total_supply@,
            allowed_extra_profit: self.allowed_extra_profit@,
            adjustment_step: self.adjustment_step@,
            ma_half_time: self.ma_half_time@,
            not_adjusted: self.not_adjusted,
            future_a_gamma_time: self.future_a_gamma_time@,
        }
    }
}

/// The numbers behind a calculated state.
pub open spec fn state_outcome(r: Result<TriCryptoV1State, Fault>) -> Result<TriV1, Fault> {
    match r {
        Ok(s) => Ok(s@),
        Err(e) => Err(e),
    }
}

/// The fee rate for the balances `x`.
pub open spec fn fee_3_model(x: (int, int, int), mid_fee: int, out_fee: int, fee_gamma: int) -> Result<
    int,
    Fault,
> {
    if x.0.plus(x.1).plus(x.2) == 0 {
        Err(Fault)
    } else {
        weighted_fee(mid_fee, out_fee, fee_gamma, evenness_27(x))
    }
}

/// The fee rate for the balances `xp`, or a fault where a divisor is zero.
pub fn fee_3(xp: &[U256; 3], mid_fee: U256, out_fee: U256, fee_gamma: U256) -> (r: Result<
    U256,
    Fault,
>)
    ensures
        quantity(r) == fee_3_model(triple(*xp), mid_fee@, out_fee@, fee_gamma@),
{
    let s = xp[0] + xp[1] + xp[2];
    if s.is_zero() {
        return Err(Fault);
    }
    let k = U256::from(WAD) * U256::from(27u64) * xp[0] / s * xp[1] / s * xp[2] / s;
    weigh(mid_fee, out_fee, fee_gamma, k)
}

/// Up to `fuel` steps of Newton's method toward the cube root of the product of three numbers, from
/// `d`.
pub open spec fn mean_run_3(x: (int, int, int), d: int, fuel: nat) -> Result<int, Fault>
    decreases fuel,
{
    let next = 2int.times(d).plus(x.0.times(x.1).over(d).times(x.2).over(d)).over(3);
    let diff = distance(next, d);
    if fuel == 0 {
        Ok(d)
    } else if d == 0 {
        Err(Fault)
    } else if diff <= 1 || diff.times(WAD as int) < next {
        Ok(next)
    } else {
        mean_run_3(x, next, (fuel - 1) as nat)
    }
}

/// The geometric mean of three numbers, by Newton's method from the largest of them.
pub open spec fn geometric_mean_3_model(x: (int, int, int)) -> Result<int, Fault> {
    mean_run_3(sorted3(x), sorted3(x).0, MAX_ITERATIONS as nat)
}

/// The geometric mean of three numbers, or a fault where [`geometric_mean_3`] is not defined.
pub fn try_geometric_mean_3(x: [U256; 3]) -> (r: Result<U256, Fault>)
    ensures
        quantity(r) == geometric_mean_3_model(triple(x)),
{
    let y = sort3_desc(x);
    let a = y[0];
    let b = y[1];
    let c = y[2];
    let mut d: U256 = a;
    let mut left: u32 = MAX_ITERATIONS;
    while left > 0
        invariant
            sorted3(triple(x)) == (a@, b@, c@),
            mean_run_3((a@, b@, c@), d@, left as nat) == geometric_mean_3_model(triple(x)),
        decreases left,
    {
        let next = (U256::from(2u64) * d + ((a * b).div_by(d)? * c).div_by(d)?) / U256::from(3u64);
        let diff = next.abs_diff(d);
        d = next;
        if diff <= U256::from(1u64) || diff * U256::from(WAD) < d {
            return Ok(d);
        }
        left = left - 1;
    }
    Ok(d)
}

/// The geometric mean of three numbers by Newton's method.
pub fn geometric_mean_3(x: [U256; 3]) -> (r: U256)
    requires
        geometric_mean_3_model(triple(x)) is Ok,
    ensures
        Ok::<int, Fault>(r@) == geometric_mean_3_model(triple(x)),
{
    match try_geometric_mean_3(x) {
        Ok(r) => r,
        Err(_) => U256::zero(),
    }
}

/// The invariant `D` of the balances `x`.
pub open spec fn newton_d_3_v1_model(ann: int, gamma: int, x: (int, int, int)) -> Result<
    Option<int>,
    Fault,
> {
    let y = sorted3(x);
    if y.0 == 0 {
        Ok(None)
    } else {
        match geometric_mean_3_model(y) {
            Err(e) => Err(e),
            Ok(mean) => newton_d_3_run(
                ann,
                gamma,
                y,
                y.0.plus(y.1).plus(y.2),
                3int.times(mean),
                MAX_ITERATIONS as nat,
            ),
        }
    }
}

/// The invariant `D` of the balances by Newton's method from their geometric mean, or a fault where a
/// divisor is zero. `None` where there are no balances or where the iteration does not converge.
pub fn newton_d_3_v1(ann: U256, gamma: U256, x_unsorted: [U256; 3]) -> (r: Result<
    Option<U256>,
    Fault,
>)
    ensures
        outcome(r) == newton_d_3_v1_model(ann@, gamma@, triple(x_unsorted)),
{
    let x = sort3_desc(x_unsorted);
    if x[0].is_zero() {
        return Ok(None);
    }
    let s = x[0] + x[1] + x[2];
    let first = U256::from(3u64) * try_geometric_mean_3(x)?;
    newton_d_3_loop(ann, gamma, x, s, first)
}

/// An invariant that is found is what a step of the iteration makes of a number that differs from it by
/// less than the tolerance.
pub proof fn law_newton_d_converged(ann: U256, gamma: U256, x: [U256; 3])
    ensures
        newton_d_3_v1_model(ann@, gamma@, triple(x)) matches Ok(Some(d)) ==> settled_d_3(
            ann@,
            gamma@,
            sorted3(triple(x)),
            d,
        ),
{
    let y = sorted3(triple(x));
    if let Ok(mean) = geometric_mean_3_model(y) {
        lemma_newton_d_3_run(ann@, gamma@, y, 3int.times(mean), MAX_ITERATIONS as nat);
    }
}

/// How far above the cube root the iteration toward a geometric mean may stand with `fuel` steps left
/// and still come within one of it.
pub open spec fn mean_reach(fuel: nat) -> int
    decreases fuel,
{
    if fuel == 0 {
        1
    } else {
        (3 * mean_reach((fuel - 1) as nat) + 2) / 2
    }
}

proof fn lemma_mean_reach_positive(fuel: nat)
    ensures
        1 <= mean_reach(fuel),
    decreases fuel,
{
    if fuel > 0 {
        lemma_mean_reach_positive((fuel - 1) as nat);
    }
}

/// The reach doubles at least with every two steps.
proof fn lemma_mean_reach(k: nat)
    ensures
        mean_reach(2 * k) >= pow2(k),
        mean_reach((2 * k + 1) as nat) >= pow2(k),
    decreases k,
{
    if k == 0 {
        lemma2_to64();
    } else {
        lemma_mean_reach((k - 1) as nat);
        lemma_pow2_unfold(k);
        let n = (2 * k) as nat;
        assert(mean_reach((n - 1) as nat) == (3 * mean_reach((n - 2) as nat) + 2) / 2);
        assert(mean_reach(n) == (3 * mean_reach((n - 1) as nat) + 2) / 2);
        assert(mean_reach((n + 1) as nat) == (3 * mean_reach(n) + 2) / 2);
    }
}

/// A step toward a geometric mean does not fall two below the cube root.
proof fn lemma_mean_low(x: (int, int, int), d: int, a: int, q: int, next: int)
    requires
        1 <= x.2 <= x.1 <= x.0,
        1 <= d,
        x.2 <= 2 * d,
        0 <= a,
        a * d <= x.0 * x.1 < (a + 1) * d,
        q * d <= a * x.2 < (q + 1) * d,
        3 * next <= 2 * d + q < 3 * (next + 1),
    ensures
        x.0 * x.1 * x.2 < cube(next + 2),
        q * (d * d) <= x.0 * x.1 * x.2,
{
    let p = x.0 * x.1 * x.2;
    let n = x.0 * x.1;
    let d2 = d * d;
    assert(p == n * x.2);
    assert((a * x.2) * d <= p <= (a * x.2) * d + d * x.2) by (nonlinear_arith)
        requires
            a * d <= n < (a + 1) * d,
            p == n * x.2,
            1 <= x.2,
    {
        assert((a * d) * x.2 <= n * x.2 <= ((a + 1) * d) * x.2) by (nonlinear_arith)
            requires
                a * d <= n < (a + 1) * d,
                1 <= x.2,
        ;
        assert((a * d) * x.2 == (a * x.2) * d && ((a + 1) * d) * x.2 == (a * x.2) * d + d * x.2)
            by (nonlinear_arith);
    }
    assert(q * d2 <= (a * x.2) * d <= (q + 1) * d2) by (nonlinear_arith)
        requires
            q * d <= a * x.2 < (q + 1) * d,
            d2 == d * d,
            1 <= d,
    ;
    assert(d * x.2 <= 2 * d2) by (nonlinear_arith)
        requires
            x.2 <= 2 * d,
            d2 == d * d,
            1 <= d,
    ;
    assert((q + 3) * d2 >= p) by (nonlinear_arith)
        requires
            p <= (q + 1) * d2 + 2 * d2,
    ;
    let z = next + 2;
    if cube(z) <= p {
        assert(0 <= a * x.2) by (nonlinear_arith)
            requires
                0 <= a,
                1 <= x.2,
        ;
        assert(0 <= q) by (nonlinear_arith)
            requires
                0 <= a * x.2 < (q + 1) * d,
                1 <= d,
        ;
        let y = z - d;
        assert((3 * z - 1 - 2 * d) * d2 >= (q + 3) * d2) by (nonlinear_arith)
            requires
                3 * z - 1 - 2 * d >= q + 3,
                d2 >= 0,
        ;
        assert(cube(z) - (3 * z - 2 * d) * d2 == (y * y) * (z + 2 * d)) by (nonlinear_arith)
            requires
                cube(z) == z * z * z,
                y == z - d,
                d2 == d * d,
        ;
        assert((y * y) * (z + 2 * d) >= 0) by (nonlinear_arith)
            requires
                z >= 0,
                d >= 0,
        ;
        assert((3 * z - 1 - 2 * d) * d2 == (3 * z - 2 * d) * d2 - d2) by (nonlinear_arith);
        assert(d2 >= 1) by (nonlinear_arith)
            requires
                d2 == d * d,
                d >= 1,
        ;
    }
}

/// A step from above the cube root `c` takes off a third of the distance; one from below stays within
/// one of it.
proof fn lemma_mean_high(p: int, c: int, d: int, q: int, next: int)
    requires
        6 <= c,
        p < cube(c + 1),
        c - 1 <= d,
        q * (d * d) <= p,
        3 * next <= 2 * d + q,
    ensures
        d > c ==> 3 * (next - c) <= 2 * (d - c),
        d <= c ==> next <= c + 1,
{
    let d2 = d * d;
    let e = c + 1;
    if d > c {
        if q > c {
            assert(q * d2 >= e * (e * e)) by (nonlinear_arith)
                requires
                    q >= e >= 1,
                    d >= e,
                    d2 == d * d,
            {
                assert(d2 >= e * e) by (nonlinear_arith)
                    requires
                        d >= e >= 1,
                        d2 == d * d,
                ;
                assert(q * d2 >= e * d2) by (nonlinear_arith)
                    requires
                        q >= e,
                        d2 >= 0,
                ;
                assert(e * d2 >= e * (e * e)) by (nonlinear_arith)
                    requires
                        d2 >= e * e,
                        e >= 1,
                ;
                assert(e * e >= 0) by (nonlinear_arith);
            }
            assert(e * (e * e) == cube(e)) by (nonlinear_arith)
                requires
                    cube(e) == e * e * e,
            ;
        }
    } else if next > c + 1 {
        let c2 = c * c;
        assert(cube(c + 1) == c2 * c + 3 * c2 + 3 * c + 1) by (nonlinear_arith)
            requires
                cube(c + 1) == (c + 1) * (c + 1) * (c + 1),
                c2 == c * c,
        ;
        assert(c2 >= 6 * c) by (nonlinear_arith)
            requires
                c2 == c * c,
                c >= 6,
        ;
        if d == c {
            assert(q * d2 >= (c + 6) * c2) by (nonlinear_arith)
                requires
                    q >= c + 6,
                    d2 == c2,
                    c2 >= 0,
            ;
            assert((c + 6) * c2 == c2 * c + 6 * c2) by (nonlinear_arith);
        } else {
            let f = (c - 1) * (c - 1);
            assert(f >= 0) by (nonlinear_arith)
                requires
                    f == (c - 1) * (c - 1),
            ;
            assert(q * d2 >= (c + 8) * f) by (nonlinear_arith)
                requires
                    q >= c + 8,
                    d2 == f,
                    f >= 0,
            ;
            assert((c + 8) * f == c2 * c + 6 * c2 - 15 * c + 8) by (nonlinear_arith)
                requires
                    f == (c - 1) * (c - 1),
                    c2 == c * c,
            ;
        }
    }
}

/// A step that counts as converged leads to within one of the cube root `c`.
proof fn lemma_mean_exit(p: int, c: int, d: int, q: int, next: int)
    requires
        6 <= c <= 10_000_000_000_000_000_000_000_000_000_000_000,
        p < cube(c + 1),
        c < d,
        q * (d * d) <= p,
        2 * d + q >= 3 * next,
        3 * (next - c) <= 2 * (d - c),
        d - next <= 1 || (d - next) * WAD < next,
    ensures
        next <= c + 1,
{
    let j = next - c;
    let b = d - c;
    let c2 = c * c;
    let d2 = d * d;
    assert(cube(c + 1) == c2 * c + 3 * c2 + 3 * c + 1) by (nonlinear_arith)
        requires
            cube(c + 1) == (c + 1) * (c + 1) * (c + 1),
            c2 == c * c,
    ;
    assert(c2 >= 6 * c) by (nonlinear_arith)
        requires
            c2 == c * c,
            c >= 6,
    ;
    if j >= 2 {
        let e = 3 * j - 2 * b;
        let b2 = b * b;
        assert(q * d2 >= (c + e) * d2) by (nonlinear_arith)
            requires
                q >= c + e,
                d2 == d * d,
        ;
        if b - j <= 1 {
            assert(d2 == c2 + 6 * c + 9) by (nonlinear_arith)
                requires
                    d2 == d * d,
                    d == c + 3,
                    c2 == c * c,
            ;
            assert(c * d2 == c2 * c + 6 * c2 + 9 * c) by (nonlinear_arith)
                requires
                    d2 == c2 + 6 * c + 9,
                    c2 == c * c,
            ;
        } else {
            assert(310_000_000_000_000_000 * b <= c);
            assert(b <= 31_000_000_000_000_000);
            assert(10 * b2 <= c) by (nonlinear_arith)
                requires
                    b2 == b * b,
                    3 <= b <= 31_000_000_000_000_000,
                    310_000_000_000_000_000 * b <= c,
            ;
            let bc = b * c;
            assert(d2 == c2 + 2 * bc + b2) by (nonlinear_arith)
                requires
                    d2 == d * d,
                    d == c + b,
                    c2 == c * c,
                    b2 == b * b,
                    bc == b * c,
            ;
            assert((c + e) * d2 == c * c2 + 2 * (c * bc) + c * b2 + e * c2 + 2 * (e * bc) + e * b2)
                by (nonlinear_arith)
                requires
                    d2 == c2 + 2 * bc + b2,
            ;
            assert(c * c2 == c2 * c && c * bc == b * c2) by (nonlinear_arith)
                requires
                    c2 == c * c,
                    bc == b * c,
            ;
            assert(e * c2 == 3 * (j * c2) - 2 * (b * c2)) by (nonlinear_arith)
                requires
                    e == 3 * j - 2 * b,
            ;
            assert(2 * (e * bc) + c * b2 == (6 * (b * j) - 3 * b2) * c) by (nonlinear_arith)
                requires
                    e == 3 * j - 2 * b,
                    bc == b * c,
                    b2 == b * b,
            ;
            assert(j * c2 >= 2 * c2) by (nonlinear_arith)
                requires
                    j >= 2,
                    c2 >= 0,
            ;
            assert((6 * (b * j) - 3 * b2) * c >= -c2) by (nonlinear_arith)
                requires
                    10 * b2 <= c,
                    b >= 0,
                    j >= 0,
                    c >= 0,
                    c2 == c * c,
            {
                assert(b * j >= 0) by (nonlinear_arith)
                    requires
                        b >= 0,
                        j >= 0,
                ;
                assert((6 * (b * j) - 3 * b2) * c >= (-c) * c) by (nonlinear_arith)
                    requires
                        6 * (b * j) - 3 * b2 >= -c,
                        c >= 0,
                ;
                assert((-c) * c == -(c * c)) by (nonlinear_arith);
            }
            assert(e * b2 >= -c2) by (nonlinear_arith)
                requires
                    -2 * b <= e,
                    2 * b <= c,
                    0 <= b2 <= c,
                    c2 == c * c,
            ;
        }
    }
}

proof fn lemma_mean_run_3(x: (int, int, int), c: int, d: int, fuel: nat)
    requires
        10 <= x.2 <= x.1 <= x.0 <= 10_000_000_000_000_000_000_000_000_000_000_000,
        is_icbrt(x.0 * x.1 * x.2, c),
        x.2 <= c <= x.0,
        c - 1 <= d <= c + mean_reach(fuel),
        d <= 2 * x.0,
    ensures
        mean_run_3(x, d, fuel) matches Ok(r) && c - 1 <= r <= c + 1,
    decreases fuel,
{
    if fuel > 0 {
        let w = WAD as int;
        let p = x.0 * x.1 * x.2;
        let n = x.0 * x.1;
        assert(0 <= n <= 100_000_000_000_000_000_000_000_000_000_000_000_000_000_000_000_000_000_000_000_000_000_000)
            by (nonlinear_arith)
            requires
                10 <= x.1 <= x.0 <= 10_000_000_000_000_000_000_000_000_000_000_000,
                n == x.0 * x.1,
        ;
        lemma_times(x.0, x.1);
        lemma_over(n, d);
        lemma_quotient(n, d);
        let a = n / d;
        // the second product is at most p / d, and so a word
        assert((a * x.2) * d <= p) by (nonlinear_arith)
            requires
                a * d <= n,
                p == n * x.2,
                0 <= x.2,
        ;
        let e = c + 1;
        let e2 = e * e;
        assert(e2 <= 400_000_000_000_000_000_000_000_000_000_000_000_000_000_000_000_000_000_000_000_000_000_000) by (nonlinear_arith)
            requires
                1 <= e <= 20_000_000_000_000_000_000_000_000_000_000_000,
                e2 == e * e,
        ;
        assert(a * x.2 <= 2 * e2) by (nonlinear_arith)
            requires
                (a * x.2) * d < e2 * e,
                e <= 2 * d,
                1 <= d,
                0 <= e2,
        {
            assert(e2 * e <= e2 * (2 * d)) by (nonlinear_arith)
                requires
                    e <= 2 * d,
                    0 <= e2,
            ;
            assert(e2 * (2 * d) == (2 * e2) * d) by (nonlinear_arith);
        }
        assert(0 <= a * x.2) by (nonlinear_arith)
            requires
                0 <= a,
                0 <= x.2,
        ;
        lemma_times(a, x.2);
        lemma_over(a * x.2, d);
        lemma_quotient(a * x.2, d);
        let q = (a * x.2) / d;
        lemma_times(2, d);
        lemma_plus(2 * d, q);
        lemma_over(2 * d + q, 3);
        let next = (2 * d + q) / 3;
        lemma_mean_low(x, d, a, q, next);
        if next < c - 1 {
            lemma_cube_increases(next + 2, c);
        }
        lemma_mean_high(p, c, d, q, next);
        let gap = if next > d {
            lemma_minus(next, d);
            next - d
        } else {
            lemma_minus(d, next);
            d - next
        };
        lemma_times(gap, w);
        if d > c && (gap <= 1 || gap * w < next) {
            lemma_mean_exit(p, c, d, q, next);
        }
        if !(gap <= 1 || gap * w < next) {
            lemma_mean_reach_positive((fuel - 1) as nat);
            lemma_mean_run_3(x, c, next, (fuel - 1) as nat);
        }
    }
}

/// The geometric mean of three numbers from 10 to 10^34 is defined, and is the cube root of their product
/// rounded down to within one.
pub proof fn law_geometric_mean_3_accuracy(x: [U256; 3])
    requires
        10 <= x[0]@ <= 10_000_000_000_000_000_000_000_000_000_000_000,
        10 <= x[1]@ <= 10_000_000_000_000_000_000_000_000_000_000_000,
        10 <= x[2]@ <= 10_000_000_000_000_000_000_000_000_000_000_000,
    ensures
        geometric_mean_3_model(triple(x)) matches Ok(r) && cube(r - 1) <= x[0]@ * x[1]@ * x[2]@ < cube(r + 2),
{
    lemma_mean_3(triple(x));
}

proof fn lemma_mean_3(x: (int, int, int))
    requires
        10 <= x.0 <= 10_000_000_000_000_000_000_000_000_000_000_000,
        10 <= x.1 <= 10_000_000_000_000_000_000_000_000_000_000_000,
        10 <= x.2 <= 10_000_000_000_000_000_000_000_000_000_000_000,
    ensures
        geometric_mean_3_model(x) matches Ok(r) && 9 <= r && cube(r - 1) <= x.0 * x.1 * x.2 < cube(r + 2),
{
    let y = sorted3(x);
    let (a, b, c) = x;
    assert(a * b * c == a * c * b && a * b * c == b * a * c && a * b * c == b * c * a && a * b * c == c
        * a * b && a * b * c == c * b * a) by (nonlinear_arith);
    let p = y.0 * y.1 * y.2;
    assert(cube(y.2) <= p <= cube(y.0)) by (nonlinear_arith)
        requires
            10 <= y.2 <= y.1 <= y.0,
            p == y.0 * y.1 * y.2,
            cube(y.2) == y.2 * y.2 * y.2,
            cube(y.0) == y.0 * y.0 * y.0,
    {
        let m = y.0 * y.1;
        assert(y.2 * y.2 <= m <= y.0 * y.0) by (nonlinear_arith)
            requires
                10 <= y.2 <= y.1 <= y.0,
                m == y.0 * y.1,
        ;
        assert((y.2 * y.2) * y.2 <= m * y.2) by (nonlinear_arith)
            requires
                y.2 * y.2 <= m,
                10 <= y.2,
        ;
        assert(m * y.2 <= (y.0 * y.0) * y.0) by (nonlinear_arith)
            requires
                0 <= m <= y.0 * y.0,
                0 <= y.2 <= y.0,
        ;
        assert(0 <= m) by (nonlinear_arith)
            requires
                m == y.0 * y.1,
                10 <= y.1 <= y.0,
        ;
    }
    let r = lemma_icbrt_exists(p);
    if r < y.2 {
        lemma_cube_increases(r + 1, y.2);
    }
    if r > y.0 {
        lemma_cube_increases(y.0, r);
    }
    lemma_mean_reach(127);
    lemma2_to64();
    lemma2_to64_rest();
    lemma_pow2_adds(64, 63);
    assert(pow2(127) == 0x1_0000000000000000 * 0x8000000000000000);
    lemma_mean_run_3(y, r, y.0, MAX_ITERATIONS as nat);
    if let Ok(v) = geometric_mean_3_model(x) {
        lemma_cube_increases(v - 1, r);
        lemma_cube_increases(r + 1, v + 2);
    }
}

/// The invariant lies between three times the geometric mean of the balances, up to one part in ten to
/// the ninth of its cube, and three above their sum: of balances from 10^16 to 10^25 with the largest
/// at most 5000 times the smallest, with `ann` above 120 000 and `gamma` from 10^10 up. It is calculated
/// without a fault.
pub proof fn law_newton_d_bounds(ann: U256, gamma: U256, x: [U256; 3])
    requires
        120_001 <= ann@,
        10_000_000_000 <= gamma@,
        gamma@ + 2 * WAD < modulus(),
        ample_3(sorted3(triple(x))),
    ensures
        newton_d_3_v1_model(ann@, gamma@, triple(x)) is Ok,
        newton_d_3_v1_model(ann@, gamma@, triple(x)) matches Ok(Some(d)) ==> d_within_3(triple(x), d),
{
    let y = sorted3(triple(x));
    let s = y.0 + y.1 + y.2;
    lemma_plus(y.0, y.1);
    lemma_plus(y.0 + y.1, y.2);
    lemma_mean_3(y);
    if let Ok(r) = geometric_mean_3_model(y) {
        let p = y.0 * y.1 * y.2;
        lemma_product_3(y);
        lemma_three_means(y, p, r);
        lemma_times(3, r);
        lemma_run_within_3(ann@, gamma@, y, 3 * r, MAX_ITERATIONS as nat);
    }
    let (a, b, c) = triple(x);
    assert(a * b * c == a * c * b && a * b * c == b * a * c && a * b * c == b * c * a && a * b * c == c
        * a * b && a * b * c == c * b * a) by (nonlinear_arith);
}

/// Three times a mean that is within one of the cube root lies within the bounds of the invariant.
proof fn lemma_three_means(x: (int, int, int), p: int, r: int)
    requires
        ample_3(x),
        p == x.0 * x.1 * x.2,
        1_000_000_000_000_000_000_000_000_000_000_000_000_000_000_000 <= p,
        9 <= r,
        cube(r - 1) <= p < cube(r + 2),
    ensures
        d_within_3(x, 3 * r),
        3 * r < modulus(),
{
    let s = x.0 + x.1 + x.2;
    lemma_means_3(x.0, x.1, x.2);
    if 3 * r > s + 3 {
        let z = 3 * (r - 1);
        lemma_cube_increases(s, z);
        assert(cube(z) == 27 * cube(r - 1)) by (nonlinear_arith)
            requires
                cube(z) == z * z * z,
                cube(r - 1) == (r - 1) * (r - 1) * (r - 1),
                z == 3 * (r - 1),
        ;
    }
    let least = 900_000_000_000_000int;
    if r < least {
        lemma_cube_increases(r + 2, least + 1);
        assert(cube(least + 1) < 1_000_000_000_000_000_000_000_000_000_000_000_000_000_000_000) by (nonlinear_arith)
            requires
                cube(least + 1) == (least + 1) * (least + 1) * (least + 1),
                least == 900_000_000_000_000,
        ;
    }
    let v2 = r * r;
    let v3 = r * r * r;
    assert(cube(r + 2) == v3 + 6 * v2 + 12 * r + 8) by (nonlinear_arith)
        requires
            cube(r + 2) == (r + 2) * (r + 2) * (r + 2),
            v2 == r * r,
            v3 == r * r * r,
    ;
    assert(v3 >= 900_000_000_000_000 * v2 && v2 >= r) by (nonlinear_arith)
        requires
            v3 == r * r * r,
            v2 == r * r,
            r >= 900_000_000_000_000,
    ;
    let d = 3 * r;
    assert(d * d * d == 27 * v3) by (nonlinear_arith)
        requires
            d == 3 * r,
            v3 == r * r * r,
    ;
}

/// The invariant of an even split is the sum of the three balances.
pub proof fn law_newton_d_balanced(ann: U256, gamma: U256, x: U256)
    requires
        1 <= ann@,
        1 <= gamma@,
        1 <= x@ <= 1_000_000_000_000_000_000_000_000_000_000_000,
    ensures
        newton_d_3_v1_model(ann@, gamma@, (x@, x@, x@)) == Ok::<_, Fault>(Some(3 * x@)),
{
    lemma_word_range(gamma);
    let v = x@;
    let d = 3 * v;
    let w = WAD as int;
    let y = (v, v, v);
    assert(0 <= v * v < modulus()) by (nonlinear_arith)
        requires
            0 <= v <= 1_000_000_000_000_000_000_000_000_000_000_000,
            modulus() == 0x1_0000000000000000_0000000000000000_0000000000000000_0000000000000000int,
    ;
    assert((v * v) / v == v && (w * v) / v == w && (w * v * 3) / d == w) by (nonlinear_arith)
        requires
            v > 0,
            d == 3 * v,
    ;
    // the mean of equal numbers
    lemma_times(v, v);
    lemma_over(v * v, v);
    lemma_times(2, v);
    lemma_plus(2 * v, v);
    lemma_over(3 * v, 3);
    lemma_minus(v, v);
    assert(mean_run_3(y, v, MAX_ITERATIONS as nat) == Ok::<_, Fault>(v));
    // the first guess is the sum, and stays
    lemma_plus(v, v);
    lemma_plus(2 * v, v);
    lemma_times(3, v);
    lemma_times(w, v);
    lemma_times(w * v, 3);
    lemma_over(w * v * 3, d);
    assert(k0_3_at(y, d) == w);
    lemma_step_even(3, ann@, gamma@, d);
    assert(newton_d_3_run(ann@, gamma@, y, d, d, MAX_ITERATIONS as nat) == Ok::<_, Fault>(Some(d)));
}

/// The mean and the invariant do not depend on the order of the coins.
pub proof fn law_symmetric(ann: U256, gamma: U256, x: [U256; 3])
    ensures
        ({
            let m = geometric_mean_3_model((x[0]@, x[1]@, x[2]@));
            &&& m == geometric_mean_3_model((x[0]@, x[2]@, x[1]@))
            &&& m == geometric_mean_3_model((x[1]@, x[0]@, x[2]@))
            &&& m == geometric_mean_3_model((x[1]@, x[2]@, x[0]@))
            &&& m == geometric_mean_3_model((x[2]@, x[0]@, x[1]@))
            &&& m == geometric_mean_3_model((x[2]@, x[1]@, x[0]@))
        }),
        ({
            let d = newton_d_3_v1_model(ann@, gamma@, (x[0]@, x[1]@, x[2]@));
            &&& d == newton_d_3_v1_model(ann@, gamma@, (x[0]@, x[2]@, x[1]@))
            &&& d == newton_d_3_v1_model(ann@, gamma@, (x[1]@, x[0]@, x[2]@))
            &&& d == newton_d_3_v1_model(ann@, gamma@, (x[1]@, x[2]@, x[0]@))
            &&& d == newton_d_3_v1_model(ann@, gamma@, (x[2]@, x[0]@, x[1]@))
            &&& d == newton_d_3_v1_model(ann@, gamma@, (x[2]@, x[1]@, x[0]@))
        }),
{
}

/// The geometric mean of an even split with the invariant `d` at the prices `scale`.
pub open spec fn mean_of_even_3(d: int, scale: (int, int)) -> Result<int, Fault> {
    match even_split_3(d, scale) {
        Err(e) => Err(e),
        Ok(even) => geometric_mean_3_model(even),
    }
}

/// The value of [`mean_of_even_3`].
pub fn even_mean_3(d: U256, scale: [U256; 2]) -> (r: Result<U256, Fault>)
    ensures
        quantity(r) == mean_of_even_3(d@, pair(scale)),
{
    try_geometric_mean_3(split_evenly_3(d, scale)?)
}

/// The virtual price of a pool with the invariant `d`: the geometric mean of an even split at the
/// prices `scale`, per pool token.
pub open spec fn virtual_price_3(d: int, scale: (int, int), total_supply: int) -> Result<
    int,
    Fault,
> {
    match mean_of_even_3(d, scale) {
        Err(e) => Err(e),
        Ok(xcp) => if total_supply == 0 {
            Err(Fault)
        } else {
            Ok((WAD as int).times(xcp).over(total_supply))
        },
    }
}

/// The value of [`virtual_price_3`].
pub fn virtual_price_of_3(d: U256, scale: [U256; 2], total_supply: U256) -> (r: Result<U256, Fault>)
    ensures
        quantity(r) == virtual_price_3(d@, pair(scale), total_supply@),
{
    (U256::from(WAD) * even_mean_3(d, scale)?).div_by(total_supply)
}

impl TriV1 {
    /// The price scale of coin `k`; the first coin has none.
    pub open spec fn scale(self, k: int) -> Option<int> {
        if k > 0 {
            Some(get2(self.price_scale, k - 1))
        } else {
            None
        }
    }

    /// The balances in common units.
    pub open spec fn normalized(self) -> (int, int, int) {
        let w = WAD as int;
        (
            self.balances.0.times(self.precisions.0),
            self.balances.1.times(self.price_scale.0).times(self.precisions.1).over(w),
            self.balances.2.times(self.price_scale.1).times(self.precisions.2).over(w),
        )
    }

    /// The state after the admin's share of the profit has been claimed, with `D` and the virtual
    /// price taken anew where the solver has an answer.
    pub open spec fn with_claim(self) -> Result<TriV1, Fault> {
        let (profit, supply) = claimed(
            self.xcp_profit,
            self.xcp_profit_a,
            self.virtual_price,
            self.total_supply,
            self.admin_fee,
        );
        let s = TriV1 {
            xcp_profit: profit,
            total_supply: supply,
            xcp_profit_a: larger(self.xcp_profit_a, profit),
            ..self
        };
        match newton_d_3_v1_model(self.ann, self.gamma, self.normalized()) {
            Err(e) => Err(e),
            Ok(None) => Ok(s),
            Ok(Some(d)) => match mean_of_even_3(d, self.price_scale) {
                Err(e) => Err(e),
                Ok(xcp) => if supply == 0 {
                    Ok(TriV1 { d, ..s })
                } else {
                    Ok(TriV1 { d, virtual_price: (WAD as int).times(xcp).over(supply), ..s })
                },
            },
        }
    }

    /// The state with the moving averages brought up to the time `now`.
    pub open spec fn with_average(self, now: int) -> Result<TriV1, Fault> {
        let alpha = halfpow_model(
            (now - self.last_prices_timestamp).times(WAD as int).over(self.ma_half_time),
        );
        if self.last_prices_timestamp >= now {
            Ok(self)
        } else if self.ma_half_time == 0 {
            Err(Fault)
        } else {
            Ok(
                TriV1 {
                    price_oracle: (
                        moved_average(self.last_prices.0, self.price_oracle.0, alpha),
                        moved_average(self.last_prices.1, self.price_oracle.1, alpha),
                    ),
                    last_prices_timestamp: now,
                    ..self
                },
            )
        }
    }

    /// The invariant of the balances `xp`: `new_d` if it is known, else what the solver finds, else the
    /// old one.
    pub open spec fn invariant_at(self, xp: (int, int, int), new_d: int) -> Result<int, Fault> {
        if new_d != 0 {
            Ok(new_d)
        } else {
            match newton_d_3_v1_model(self.ann, self.gamma, xp) {
                Err(e) => Err(e),
                Ok(Some(d)) => Ok(d),
                Ok(None) => Ok(self.d),
            }
        }
    }

    /// The last price of coin `k`: what a millionth more of the first coin would buy, else the old one.
    pub open spec fn price_at(self, xp: (int, int, int), k: int, d: int, solve_y: SolveY3) -> int {
        let nudge = xp.0.over(1_000_000);
        match solve_y(self.ann, self.gamma, (xp.0.plus(nudge), xp.1, xp.2), d, k) {
            Some(y) => if get3(xp, k) > y {
                get2(self.price_scale, k - 1).times(nudge).over(get3(xp, k).minus(y))
            } else {
                get2(self.last_prices, k - 1)
            },
            None => get2(self.last_prices, k - 1),
        }
    }

    /// The virtual price, the profit and the end of a change of parameters, for the invariant `d`;
    /// nothing where the virtual price would fall while the parameters do not change.
    pub open spec fn profit_at(self, d: int) -> Result<Option<(int, int, int)>, Fault> {
        let t = self.future_a_gamma_time;
        if self.virtual_price > 0 {
            match virtual_price_3(d, self.price_scale, self.total_supply) {
                Err(e) => Err(e),
                Ok(v) => if v < self.virtual_price && t == 0 {
                    Ok(None)
                } else {
                    Ok(
                        Some(
                            (
                                v,
                                self.xcp_profit.times(v).over(self.virtual_price),
                                if t == 1 {
                                    0
                                } else {
                                    t
                                },
                            ),
                        ),
                    )
                },
            }
        } else {
            match even_split_3(d, self.price_scale) {
                Err(e) => Err(e),
                Ok(_) => Ok(Some((WAD as int, WAD as int, t))),
            }
        }
    }

    /// New price scales, their invariant and their virtual price, where the solver has an answer and
    /// enough of the profit is kept.
    pub open spec fn moved_price(self, xp: (int, int, int), norm: int, step: int) -> Result<
        Option<((int, int), int, int)>,
        Fault,
    > {
        let p = (
            moved_scale(self.price_scale.0, self.price_oracle.0, norm, step),
            moved_scale(self.price_scale.1, self.price_oracle.1, norm, step),
        );
        let x = (
            xp.0,
            xp.1.times(p.0).over(self.price_scale.0),
            xp.2.times(p.1).over(self.price_scale.1),
        );
        match newton_d_3_v1_model(self.ann, self.gamma, x) {
            Err(e) => Err(e),
            Ok(None) => Ok(None),
            Ok(Some(d)) => match virtual_price_3(d, p, self.total_supply) {
                Err(e) => Err(e),
                Ok(v) => if keeps_profit(v, self.xcp_profit) {
                    Ok(Some((p, d, v)))
                } else {
                    Ok(None)
                },
            },
        }
    }

    /// The state after the price scales have moved, where a move is due and pays, or with the invariant
    /// `d` and the virtual price `v`, after a claim where a move was due.
    pub open spec fn settled(self, xp: (int, int, int), d: int, v: int) -> Result<TriV1, Fault> {
        match norm_3(self.price_oracle, self.price_scale) {
            Err(e) => Err(e),
            Ok(norm) => {
                let step = step_size(self.adjustment_step, norm);
                let room = norm > step && self.virtual_price > 0;
                let due = self.not_adjusted || (profit_allows(
                    v,
                    self.xcp_profit,
                    self.allowed_extra_profit,
                ) && room);
                let kept = TriV1 { d, virtual_price: v, not_adjusted: false, ..self };
                if due && room {
                    match self.moved_price(xp, norm, step) {
                        Err(e) => Err(e),
                        Ok(Some((p, d2, v2))) => Ok(
                            TriV1 {
                                price_scale: p,
                                d: d2,
                                virtual_price: v2,
                                not_adjusted: true,
                                ..self
                            },
                        ),
                        Ok(None) => kept.with_claim(),
                    }
                } else if due {
                    kept.with_claim()
                } else {
                    Ok(kept)
                }
            },
        }
    }

    /// The state after a change of the balances to `xp` in common units, at the time `now`: `new_d` is
    /// the invariant after it, where it is known.
    pub open spec fn tweaked(self, xp: (int, int, int), new_d: int, now: int, solve_y: SolveY3) -> Result<
        TriV1,
        Fault,
    > {
        match self.with_average(now) {
            Err(e) => Err(e),
            Ok(s0) => match s0.invariant_at(xp, new_d) {
                Err(e) => Err(e),
                Ok(d) => {
                    let s1 = TriV1 {
                        last_prices: (
                            s0.price_at(xp, 1, d, solve_y),
                            s0.price_at(xp, 2, d, solve_y),
                        ),
                        ..s0
                    };
                    match s1.profit_at(d) {
                        Err(e) => Err(e),
                        Ok(None) => Ok(s1),
                        Ok(Some((v, profit, t))) => {
                            let s2 = TriV1 { xcp_profit: profit, future_a_gamma_time: t, ..s1 };
                            s2.settled(xp, d, v)
                        },
                    }
                },
            },
        }
    }

    /// The state with `D` solved anew from the balances before the trade, while the parameters change:
    /// `xp` are the balances with the trade in common units, and `x0` is the balance of coin `i`
    /// before it. Nothing where the solver has no answer.
    pub open spec fn ramped(self, xp: (int, int, int), i: int, x0: int, now: int) -> Result<
        Option<TriV1>,
        Fault,
    > {
        let before = set3(xp, i, in_units(x0, get3(self.precisions, i), self.scale(i)));
        if self.future_a_gamma_time == 0 {
            Ok(Some(self))
        } else {
            match newton_d_3_v1_model(self.ann, self.gamma, before) {
                Err(e) => Err(e),
                Ok(None) => Ok(None),
                Ok(Some(d)) => Ok(
                    Some(
                        TriV1 {
                            d,
                            future_a_gamma_time: if now >= self.future_a_gamma_time {
                                1
                            } else {
                                self.future_a_gamma_time
                            },
                            ..self
                        },
                    ),
                ),
            }
        }
    }

    /// The state after the balance of coin `j` has gone to `y` in common units, and the amount paid out
    /// and the fee. The price of the trade has to be defined, though both prices are measured anew.
    pub open spec fn paid(
        self,
        xp: (int, int, int),
        i: int,
        j: int,
        dx: int,
        y: int,
        now: int,
        solve_y: SolveY3,
    ) -> Result<(TriV1, (int, int)), Fault> {
        let x_j = get3(xp, j);
        let prec_j = get3(self.precisions, j);
        let xp1 = set3(xp, j, y);
        match gross_out(x_j, y, prec_j, self.scale(j)) {
            Err(e) => Err(e),
            Ok(out) => match fee_3_model(xp1, self.mid_fee, self.out_fee, self.fee_gamma) {
                Err(e) => Err(e),
                Ok(rate) => {
                    let fee = fee_on(rate, out);
                    let dy = out.minus(fee);
                    let left = get3(self.balances, j).minus(dy);
                    let xp2 = set3(xp1, j, in_units(left, prec_j, self.scale(j)));
                    let s = TriV1 { balances: set3(self.balances, j, left), ..self };
                    match trade_price(dx, dy, get3(self.precisions, i), prec_j, i == 0) {
                        Err(e) => Err(e),
                        Ok(_) => match s.tweaked(xp2, 0, now, solve_y) {
                            Err(e) => Err(e),
                            Ok(s2) => Ok((s2, (dy, fee))),
                        },
                    }
                },
            },
        }
    }

    /// The state after an exchange of `dx` of coin `i` for coin `j`, and the amount paid out and the fee
    /// where the exchange went through. A request for no exchange between two coins changes nothing;
    /// where a solver has no answer, the coins that came in stay.
    pub open spec fn exchanged(self, i: int, j: int, dx: int, now: int, solve_y: SolveY3) -> Result<
        (TriV1, Option<(int, int)>),
        Fault,
    > {
        let x0 = get3(self.balances, i);
        let s1 = TriV1 { balances: set3(self.balances, i, x0.plus(dx)), ..self };
        let xp = s1.normalized();
        if i == j || i >= 3 || j >= 3 || dx == 0 {
            Ok((self, None))
        } else {
            match s1.ramped(xp, i, x0, now) {
                Err(e) => Err(e),
                Ok(None) => Ok((s1, None)),
                Ok(Some(s2)) => match solve_y(s2.ann, s2.gamma, xp, s2.d, j) {
                    None => Ok((s2, None)),
                    Some(y) => match s2.paid(xp, i, j, dx, y, now, solve_y) {
                        Err(e) => Err(e),
                        Ok((s3, out)) => Ok((s3, Some(out))),
                    },
                },
            }
        }
    }
}

impl TriCryptoV1State {
    /// The balances in common units: see [`TriV1::normalized`].
    pub fn common_units(&self) -> (r: [U256; 3])
        ensures
            triple(r) == self@.normalized(),
    {
        let w = U256::from(WAD);
        [
            self.balances[0] * self.precisions[0],
            self.balances[1] * self.price_scale[0] * self.precisions[1] / w,
            self.balances[2] * self.price_scale[1] * self.precisions[2] / w,
        ]
    }

    /// The price scale of coin `k`: see [`TriV1::scale`].
    fn scale_at(&self, k: usize) -> (r: Option<U256>)
        requires
            k < 3,
        ensures
            scale_of(r) == self@.scale(k as int),
    {
        if k > 0 {
            Some(self.price_scale[k - 1])
        } else {
            None
        }
    }

    /// Claims the admin's share of the profit; where [`TriCryptoV1State::claim_admin_fees`] is not
    /// defined, a fault, and the state stays as it is.
    pub fn try_claim_admin_fees(&mut self) -> (r: Result<(), Fault>)
        ensures
            match old(self)@.with_claim() {
                Ok(s) => r is Ok && final(self)@ == s,
                Err(_) => r is Err && *final(self) == *old(self),
            },
    {
        let mut s = *self;
        let (profit, supply) = claim(
            s.xcp_profit,
            s.xcp_profit_a,
            s.virtual_price,
            s.total_supply,
            s.admin_fee,
        );
        s.xcp_profit = profit;
        s.total_supply = supply;
        s.xcp_profit_a = s.xcp_profit_a.max(profit);
        match newton_d_3_v1(s.ann, s.gamma, self.common_units())? {
            None => {},
            Some(d) => {
                s.d = d;
                let xcp = even_mean_3(d, s.price_scale)?;
                if !supply.is_zero() {
                    s.virtual_price = U256::from(WAD) * xcp / supply;
                }
            },
        }
        *self = s;
        Ok(())
    }

    /// Claims the admin's share of the profit since the last claim as pool tokens, then takes `D` and
    /// the virtual price anew.
    pub fn claim_admin_fees(&mut self)
        requires
            old(self)@.with_claim() is Ok,
        ensures
            Ok::<TriV1, Fault>(final(self)@) == old(self)@.with_claim(),
    {
        let _ = self.try_claim_admin_fees();
    }

    /// The state with the moving averages brought up to date: see [`TriV1::with_average`].
    fn averaged(&self, now: u64) -> (r: Result<TriCryptoV1State, Fault>)
        ensures
            state_outcome(r) == self@.with_average(now as int),
    {
        let mut s = *self;
        if self.last_prices_timestamp < now {
            let dt = U256::from(now - self.last_prices_timestamp);
            let alpha = halfpow((dt * U256::from(WAD)).div_by(self.ma_half_time)?);
            s.price_oracle = [
                move_average(self.last_prices[0], self.price_oracle[0], alpha),
                move_average(self.last_prices[1], self.price_oracle[1], alpha),
            ];
            s.last_prices_timestamp = now;
        }
        Ok(s)
    }

    /// The last price of coin `k`: see [`TriV1::price_at`].
    fn price_now<Y: Fn(U256, U256, [U256; 3], U256, usize) -> Option<U256>>(&self, xp: [U256; 3], k: usize, d: U256, newton_y: &Y) -> (r: U256)
        requires
            pure_y3(*newton_y),
            1 <= k < 3,
        ensures
            r@ == self@.price_at(triple(xp), k as int, d@, y3_of(*newton_y)),
    {
        let nudge = xp[0] / U256::from(1_000_000u64);
        match ask_y3(newton_y, self.ann, self.gamma, [xp[0] + nudge, xp[1], xp[2]], d, k) {
            Some(y) => {
                if xp[k] > y {
                    proof {
                        lemma_word_range(xp[k as int]);
                        lemma_word_range(y);
                        lemma_minus(xp[k as int]@, y@);
                    }
                    self.price_scale[k - 1] * nudge / (xp[k] - y)
                } else {
                    self.last_prices[k - 1]
                }
            },
            None => self.last_prices[k - 1],
        }
    }

    /// The virtual price, the profit and the end of a change of parameters: see [`TriV1::profit_at`].
    fn profit_now(&self, d: U256) -> (r: Result<Option<(U256, U256, U256)>, Fault>)
        ensures
            self@.profit_at(d@) == match r {
                Ok(Some((a, b, c))) => Ok::<_, Fault>(Some((a@, b@, c@))),
                Ok(None) => Ok(None),
                Err(e) => Err(e),
            },
    {
        let t = self.future_a_gamma_time;
        if self.virtual_price > U256::zero() {
            let v = virtual_price_of_3(d, self.price_scale, self.total_supply)?;
            if v < self.virtual_price && t.is_zero() {
                return Ok(None);
            }
            let profit = self.xcp_profit * v / self.virtual_price;
            let ended = if t == U256::from(1u64) {
                U256::zero()
            } else {
                t
            };
            Ok(Some((v, profit, ended)))
        } else {
            let _even = split_evenly_3(d, self.price_scale)?;
            Ok(Some((U256::from(WAD), U256::from(WAD), t)))
        }
    }

    /// New price scales, their invariant and their virtual price: see [`TriV1::moved_price`].
    fn price_moved(&self, xp: [U256; 3], norm: U256, step: U256) -> (r: Result<
        Option<([U256; 2], U256, U256)>,
        Fault,
    >)
        requires
            norm@ != 0,
            self@.price_scale.0 != 0,
            self@.price_scale.1 != 0,
        ensures
            self@.moved_price(triple(xp), norm@, step@) == match r {
                Ok(Some((p, d, v))) => Ok::<_, Fault>(Some((pair(p), d@, v@))),
                Ok(None) => Ok(None),
                Err(e) => Err(e),
            },
    {
        let p = [
            move_scale(self.price_scale[0], self.price_oracle[0], norm, step),
            move_scale(self.price_scale[1], self.price_oracle[1], norm, step),
        ];
        let x = [
            xp[0],
            xp[1] * p[0] / self.price_scale[0],
            xp[2] * p[1] / self.price_scale[1],
        ];
        match newton_d_3_v1(self.ann, self.gamma, x)? {
            None => Ok(None),
            Some(d) => {
                let v = virtual_price_of_3(d, p, self.total_supply)?;
                if profit_kept(v, self.xcp_profit) {
                    Ok(Some((p, d, v)))
                } else {
                    Ok(None)
                }
            },
        }
    }

    /// The state after the price scales have moved or not: see [`TriV1::settled`].
    fn settle(&self, xp: [U256; 3], d: U256, v: U256) -> (r: Result<TriCryptoV1State, Fault>)
        requires
            self@.price_scale.0 != 0,
            self@.price_scale.1 != 0,
        ensures
            state_outcome(r) == self@.settled(triple(xp), d@, v@),
    {
        let norm = norm_of_3(self.price_oracle, self.price_scale)?;
        let step = step_for(self.adjustment_step, norm);
        proof {
            lemma_word_range(step);
        }
        let room = norm > step && self.virtual_price > U256::zero();
        let due = self.not_adjusted || (profit_permits(
            v,
            self.xcp_profit,
            self.allowed_extra_profit,
        ) && room);
        let mut s = *self;
        if due && room {
            match self.price_moved(xp, norm, step)? {
                Some((p, d2, v2)) => {
                    s.price_scale = p;
                    s.d = d2;
                    s.virtual_price = v2;
                    s.not_adjusted = true;
                    return Ok(s);
                },
                None => {},
            }
        }
        s.d = d;
        s.virtual_price = v;
        s.not_adjusted = false;
        if due {
            s.try_claim_admin_fees()?;
        }
        Ok(s)
    }

    /// Brings the state up to date after a change of the balances to `xp` in common units: the price
    /// oracles, the last prices, `D`, the profit and, where it is due and pays, the price scales. `new_d`
    /// is the invariant after the change; zero stands for not known. On a fault the state stays as it
    /// is.
    pub fn tweak_price<Y: Fn(U256, U256, [U256; 3], U256, usize) -> Option<U256>>(
        &mut self,
        xp: [U256; 3],
        new_d: U256,
        block_timestamp: u64,
        newton_y: &Y,
    ) -> (r: Result<(), Fault>)
        requires
            pure_y3(*newton_y),
        ensures
            match old(self)@.tweaked(
                triple(xp),
                new_d@,
                block_timestamp as int,
                y3_of(*newton_y),
            ) {
                Ok(s) => r is Ok && final(self)@ == s,
                Err(_) => r is Err && *final(self) == *old(self),
            },
    {
        let mut s = self.averaged(block_timestamp)?;
        let d = if new_d.is_zero() {
            match newton_d_3_v1(s.ann, s.gamma, xp)? {
                Some(d) => d,
                None => s.d,
            }
        } else {
            new_d
        };
        let p0 = s.price_now(xp, 1, d, newton_y);
        let p1 = s.price_now(xp, 2, d, newton_y);
        s.last_prices = [p0, p1];
        match s.profit_now(d)? {
            None => {
                *self = s;
            },
            Some((v, profit, t)) => {
                proof {
                    lemma_times(3, 0);
                }
                s.xcp_profit = profit;
                s.future_a_gamma_time = t;
                *self = s.settle(xp, d, v)?;
            },
        }
        Ok(())
    }

    /// The state with `D` solved anew while the parameters change: see [`TriV1::ramped`].
    fn ramp(&self, xp: [U256; 3], i: usize, x0: U256, now: u64) -> (r: Result<
        Option<TriCryptoV1State>,
        Fault,
    >)
        requires
            i < 3,
        ensures
            self@.ramped(triple(xp), i as int, x0@, now as int) == match r {
                Ok(Some(s)) => Ok::<_, Fault>(Some(s@)),
                Ok(None) => Ok(None),
                Err(e) => Err(e),
            },
    {
        let t = self.future_a_gamma_time;
        proof {
            lemma_word_range(t);
        }
        if t > U256::zero() {
            let before = put3(xp, i, to_units(x0, self.precisions[i], self.scale_at(i)));
            match newton_d_3_v1(self.ann, self.gamma, before)? {
                None => Ok(None),
                Some(d) => {
                    let mut s = *self;
                    s.d = d;
                    if U256::from(now) >= t {
                        s.future_a_gamma_time = U256::from(1u64);
                    }
                    Ok(Some(s))
                },
            }
        } else {
            Ok(Some(*self))
        }
    }

    /// The state after a payout, and the payout: see [`TriV1::paid`].
    fn pay<Y: Fn(U256, U256, [U256; 3], U256, usize) -> Option<U256>>(
        &self,
        xp: [U256; 3],
        i: usize,
        j: usize,
        dx: U256,
        y: U256,
        now: u64,
        newton_y: &Y,
    ) -> (r: Result<(TriCryptoV1State, ExchangeResult), Fault>)
        requires
            pure_y3(*newton_y),
            i < 3,
            j < 3,
        ensures
            self@.paid(
                triple(xp),
                i as int,
                j as int,
                dx@,
                y@,
                now as int,
                y3_of(*newton_y),
            ) == match r {
                Ok((s, out)) => Ok::<_, Fault>((s@, (out.dy@, out.fee@))),
                Err(e) => Err(e),
            },
    {
        let prec_j = self.precisions[j];
        let xp1 = put3(xp, j, y);
        let out = gross(xp[j], y, prec_j, self.scale_at(j))?;
        let rate = fee_3(&xp1, self.mid_fee, self.out_fee, self.fee_gamma)?;
        let fee = fee_at(rate, out);
        let dy = out - fee;
        let left = self.balances[j] - dy;
        let xp2 = put3(xp1, j, to_units(left, prec_j, self.scale_at(j)));
        let mut s = *self;
        s.balances = put3(self.balances, j, left);
        let _p = price_of_trade(dx, dy, self.precisions[i], prec_j, i == 0)?;
        s.tweak_price(xp2, U256::zero(), now, newton_y)?;
        Ok((s, ExchangeResult { dy, fee }))
    }

    /// Exchanges `dx` of coin `i` for coin `j`; where [`TriCryptoV1State::exchange`] is not defined, a
    /// fault, and the state stays as it is.
    pub fn try_exchange<Y: Fn(U256, U256, [U256; 3], U256, usize) -> Option<U256>>(
        &mut self,
        i: usize,
        j: usize,
        dx: U256,
        block_timestamp: u64,
        newton_y: &Y,
    ) -> (r: Result<Option<ExchangeResult>, Fault>)
        requires
            pure_y3(*newton_y),
        ensures
            match old(self)@.exchanged(
                i as int,
                j as int,
                dx@,
                block_timestamp as int,
                y3_of(*newton_y),
            ) {
                Ok((s, out)) => final(self)@ == s && payout_outcome(r) == Ok::<_, Fault>(out),
                Err(_) => r is Err && *final(self) == *old(self),
            },
    {
        if i == j || i >= 3 || j >= 3 || dx.is_zero() {
            return Ok(None);
        }
        let mut s = *self;
        let x0 = s.balances[i];
        s.balances = put3(s.balances, i, x0 + dx);
        let xp = s.common_units();
        match s.ramp(xp, i, x0, block_timestamp)? {
            None => {
                *self = s;
                Ok(None)
            },
            Some(s2) => match ask_y3(newton_y, s2.ann, s2.gamma, xp, s2.d, j) {
                None => {
                    *self = s2;
                    Ok(None)
                },
                Some(y) => {
                    let (s3, out) = s2.pay(xp, i, j, dx, y, block_timestamp, newton_y)?;
                    *self = s3;
                    Ok(Some(out))
                },
            },
        }
    }

    /// Exchanges `dx` of coin `i` for coin `j` and brings the state up to date: `None` where there is
    /// nothing to exchange between two coins of the pool, or where a solver has no answer. `newton_y`
    /// solves for the balance of a coin.
    pub fn exchange<Y: Fn(U256, U256, [U256; 3], U256, usize) -> Option<U256>>(
        &mut self,
        i: usize,
        j: usize,
        dx: U256,
        block_timestamp: u64,
        newton_y: &Y,
    ) -> (r: Option<ExchangeResult>)
        requires
            pure_y3(*newton_y),
            old(self)@.exchanged(
                i as int,
                j as int,
                dx@,
                block_timestamp as int,
                y3_of(*newton_y),
            ) is Ok,
        ensures
            Ok::<_, Fault>((final(self)@, payout(r))) == old(self)@.exchanged(
                i as int,
                j as int,
                dx@,
                block_timestamp as int,
                y3_of(*newton_y),
            ),
    {
        match self.try_exchange(i, j, dx, block_timestamp, newton_y) {
            Ok(r) => r,
            Err(_) => None,
        }
    }
}

impl TriV1 {
    /// Whether two states have the same parameters: all that no operation of the pool changes.
    pub open spec fn same_parameters(self, other: TriV1) -> bool {
        &&& self.admin_fee == other.admin_fee
        &&& self.ann == other.ann
        &&& self.gamma == other.gamma
        &&& self.mid_fee == other.mid_fee
        &&& self.out_fee == other.out_fee
        &&& self.fee_gamma == other.fee_gamma
        &&& self.precisions == other.precisions
        &&& self.allowed_extra_profit == other.allowed_extra_profit
        &&& self.adjustment_step == other.adjustment_step
        &&& self.ma_half_time == other.ma_half_time
    }

    /// Whether the virtual price would fall with the invariant `d` while the parameters do not change.
    pub open spec fn falls_at(self, d: int) -> bool {
        &&& self.virtual_price > 0
        &&& self.future_a_gamma_time == 0
        &&& virtual_price_3(d, self.price_scale, self.total_supply) matches Ok(v)
        &&& v < self.virtual_price
    }

    /// Whether two states have the same prices.
    pub open spec fn same_prices(self, other: TriV1) -> bool {
        &&& self.price_scale == other.price_scale
        &&& self.price_oracle == other.price_oracle
        &&& self.last_prices == other.last_prices
        &&& self.last_prices_timestamp == other.last_prices_timestamp
    }
}

/// A claim of the admin's share leaves the balances, the prices and the parameters as they are, and
/// never lowers the profit that was last claimed.
pub proof fn law_claim(s: TriV1)
    ensures
        s.with_claim() matches Ok(t) ==> {
            &&& t.balances == s.balances
            &&& t.same_prices(s)
            &&& t.same_parameters(s)
            &&& t.not_adjusted == s.not_adjusted
            &&& t.future_a_gamma_time == s.future_a_gamma_time
            &&& t.xcp_profit_a >= s.xcp_profit_a
            &&& t.xcp_profit_a >= t.xcp_profit
        },
{
}

/// Bringing the state up to date leaves the balances and the parameters as they are and moves the time
/// of the moving averages forward to now.
pub proof fn law_tweak(s: TriV1, xp: (int, int, int), new_d: int, now: int, solve_y: SolveY3)
    ensures
        s.tweaked(xp, new_d, now, solve_y) matches Ok(t) ==> {
            &&& t.balances == s.balances
            &&& t.same_parameters(s)
            &&& t.last_prices_timestamp == larger(s.last_prices_timestamp, now)
        },
{
}

/// Where the virtual price would fall while the parameters do not change, the invariant, the virtual
/// price, the profit, the profit already shared, the supply and the price scales stay as they were, and so
/// does whether a move of the price scales is still due.
pub proof fn law_no_loss(s: TriV1, xp: (int, int, int), new_d: int, now: int, solve_y: SolveY3)
    requires
        s.invariant_at(xp, new_d) matches Ok(d) && s.falls_at(d),
    ensures
        s.tweaked(xp, new_d, now, solve_y) matches Ok(t) ==> {
            &&& t.d == s.d
            &&& t.virtual_price == s.virtual_price
            &&& t.xcp_profit == s.xcp_profit
            &&& t.xcp_profit_a == s.xcp_profit_a
            &&& t.not_adjusted == s.not_adjusted
            &&& t.total_supply == s.total_supply
            &&& t.price_scale == s.price_scale
        },
{
}

/// A request for an exchange of nothing, of a coin for itself or of a coin that the pool does not have
/// is refused, and the state stays as it is.
pub proof fn law_exchange_refused(
    s: TriV1,
    i: usize,
    j: usize,
    dx: U256,
    now: u64,
    solve_y: SolveY3,
)
    requires
        i == j || i >= 3 || j >= 3 || dx@ == 0,
    ensures
        s.exchanged(i as int, j as int, dx@, now as int, solve_y) == Ok::<_, Fault>(
            (s, None::<(int, int)>),
        ),
{
}

proof fn lemma_paid(
    s: TriV1,
    xp: (int, int, int),
    i: int,
    j: int,
    dx: int,
    y: int,
    now: int,
    solve_y: SolveY3,
)
    ensures
        s.paid(xp, i, j, dx, y, now, solve_y) matches Ok((t, (dy, fee))) ==> {
            &&& t.same_parameters(s)
            &&& t.balances == set3(s.balances, j, get3(s.balances, j).minus(dy))
            &&& t.last_prices_timestamp == larger(s.last_prices_timestamp, now)
        },
{
}

proof fn lemma_ramped(s: TriV1, xp: (int, int, int), i: int, x0: int, now: int)
    ensures
        s.ramped(xp, i, x0, now) matches Ok(Some(t)) ==> t == (TriV1 {
            d: t.d,
            future_a_gamma_time: t.future_a_gamma_time,
            ..s
        }),
{
}

/// An exchange adds what comes in to the balance of the first coin, takes what goes out from that of the
/// second, and leaves the third balance and the parameters as they are; the moving averages are brought
/// up to now. Where a solver has no answer, what came in stays in the pool and the prices, the
/// profit and the virtual price stay as they were.
pub proof fn law_exchange(
    s: TriV1,
    i: usize,
    j: usize,
    k: usize,
    dx: U256,
    now: u64,
    solve_y: SolveY3,
)
    requires
        i < 3,
        j < 3,
        k < 3,
        i != j,
        i != k,
        j != k,
        dx@ != 0,
    ensures
        s.exchanged(i as int, j as int, dx@, now as int, solve_y) matches Ok((t, out)) ==> {
            &&& t.same_parameters(s)
            &&& get3(t.balances, i as int) == get3(s.balances, i as int).plus(dx@)
            &&& get3(t.balances, k as int) == get3(s.balances, k as int)
            &&& match out {
                Some((dy, fee)) => {
                    &&& get3(t.balances, j as int) == get3(s.balances, j as int).minus(dy)
                    &&& t.last_prices_timestamp == larger(s.last_prices_timestamp, now as int)
                },
                None => {
                    &&& get3(t.balances, j as int) == get3(s.balances, j as int)
                    &&& t.same_prices(s)
                    &&& t.xcp_profit == s.xcp_profit
                    &&& t.virtual_price == s.virtual_price
                    &&& t.total_supply == s.total_supply
                },
            }
        },
{
    let x0 = get3(s.balances, i as int);
    let s1 = TriV1 { balances: set3(s.balances, i as int, x0.plus(dx@)), ..s };
    let xp = s1.normalized();
    lemma_ramped(s1, xp, i as int, x0, now as int);
    if let Ok(Some(s2)) = s1.ramped(xp, i as int, x0, now as int) {
        if let Some(y) = solve_y(s2.ann, s2.gamma, xp, s2.d, j as int) {
            lemma_paid(s2, xp, i as int, j as int, dx@, y, now as int, solve_y);
        }
    }
}

/// The fee lies between the two rates, and an even split pays the first one, as long as the products are
/// words.
pub proof fn law_fee(x: [U256; 3], mid_fee: U256, out_fee: U256, fee_gamma: U256)
    requires
        0 < x[0]@ + x[1]@ + x[2]@,
        27_000_000_000_000_000_000 * (x[0]@ + x[1]@ + x[2]@) < modulus(),
        mid_fee@ <= out_fee@,
        out_fee@ * WAD < modulus(),
        fee_gamma@ * WAD < modulus(),
    ensures
        fee_3_model(triple(x), mid_fee@, out_fee@, fee_gamma@) matches Ok(v) && mid_fee@ <= v
            <= out_fee@ && (x[0]@ == x[1]@ == x[2]@ ==> v == mid_fee@),
{
    lemma_word_range(x[0]);
    lemma_word_range(x[1]);
    lemma_word_range(x[2]);
    lemma_word_range(mid_fee);
    lemma_word_range(fee_gamma);
    lemma_plus(x[0]@, x[1]@);
    lemma_plus(x[0]@ + x[1]@, x[2]@);
    lemma_evenness_3(triple(x));
    lemma_weighted(mid_fee@, out_fee@, fee_gamma@, evenness_27(triple(x)));
}

/// Each moving average stays between the last price and its old value, as long as the products with ten
/// to the eighteenth are words.
pub proof fn law_average(s: TriCryptoV1State, now: u64)
    requires
        s.ma_half_time@ != 0,
        larger(s.last_prices[0]@, s.price_oracle[0]@) * WAD < modulus(),
        larger(s.last_prices[1]@, s.price_oracle[1]@) * WAD < modulus(),
    ensures
        s@.with_average(now as int) matches Ok(t) && smaller(
            s.last_prices[0]@,
            s.price_oracle[0]@,
        ) <= t.price_oracle.0 <= larger(s.last_prices[0]@, s.price_oracle[0]@) && smaller(
            s.last_prices[1]@,
            s.price_oracle[1]@,
        ) <= t.price_oracle.1 <= larger(s.last_prices[1]@, s.price_oracle[1]@),
{
    lemma_word_range(s.last_prices[0]);
    lemma_word_range(s.last_prices[1]);
    lemma_word_range(s.price_oracle[0]);
    lemma_word_range(s.price_oracle[1]);
    lemma_word_range(s.ma_half_time);
    if s.last_prices_timestamp < now {
        let dt = now - s.last_prices_timestamp;
        lemma_half_life(dt, s.ma_half_time@);
        let alpha = halfpow_model(dt.times(WAD as int).over(s.ma_half_time@));
        lemma_average_between(s.last_prices[0]@, s.price_oracle[0]@, alpha);
        lemma_average_between(s.last_prices[1]@, s.price_oracle[1]@, alpha);
    }
}

} // verus!
