//! Two-coin pools of the second generation, with the CryptoSwap invariant or that of the stable
//! pools: the simulated exchange with every update of the state.
pub use crate::pricing::ExchangeResult;
use crate::callbacks::{
    ask_stable_d, ask_stable_y, pure_stable_d, pure_stable_y, stable_d_of, stable_y_of,
    SolveStableD, SolveStableY,
};
use crate::coins::{get2, pair, put2, set2};
use crate::cubic::solution;
use crate::exponential::{decay, decayed, law_decay};
use crate::fault::Fault;
use crate::fees::{
    evenness_2, lemma_evenness_2, lemma_mixed, lemma_weighted, mix, mixed_fee, steep, steep_weight,
};
use crate::marginal::{
    gk0_model, gk0_of, marginal_price, nnag2_model, nnag2_of, price_at_margin,
};
use crate::newton::{outcome, quantity, A_MULTIPLIER, WAD};
use crate::pricing::{
    deviate, deviation, fee_at, fee_on, gross, gross_out, in_units, keeps_profit,
    lemma_average_between, move_average,
    move_scale, moved_average, moved_scale, payout, payout_outcome, profit_allows, profit_kept,
    profit_permits, scale_of, step_for, step_size, to_units,
};
use crate::roots::{isqrt_floor, try_isqrt};
use crate::solvers::twocrypto_ng::{
    get_y_2_model, newton_d_2_model, try_get_y_2_ng, try_newton_d,
};
use crate::uint::{
    larger, lemma_minus, lemma_over, lemma_plus, lemma_times, lemma_word_range, modulus, smaller,
    Word, U256,
};
use vstd::prelude::*;

verus! {

/// The state of a two-coin pool of the second generation.
#[derive(Clone, Copy, Debug)]
pub struct TwoCryptoNGState {
    /// What the pool holds of each coin, in the coin's own units.
    pub balances: [U256; 2],
    /// The price of the second coin in the first around which the liquidity is concentrated.
    pub price_scale: U256,
    /// The moving average of the price.
    pub price_oracle: U256,
    /// The price after the last change.
    pub last_prices: U256,
    /// When the moving average was last brought up to date.
    pub last_prices_timestamp: u64,
    /// The invariant.
    pub d: U256,
    /// The worth of a pool token.
    pub virtual_price: U256,
    /// The profit so far.
    pub xcp_profit: U256,
    /// The profit at the last claim of the admin's share.
    pub xcp_profit_a: U256,
    /// The admin's share of the fees on added liquidity.
    pub admin_lp_virtual_balance: U256,
    /// The amplification coefficient times `N^N`, scaled.
    pub ann: U256,
    /// How far the liquidity is concentrated.
    pub gamma: U256,
    /// The fee rate at an even split, in units of 10^10.
    pub mid_fee: U256,
    /// The fee rate far from an even split, in units of 10^10.
    pub out_fee: U256,
    /// How fast the fee rate changes between the two.
    pub fee_gamma: U256,
    /// What brings each coin to 18 decimals.
    pub precisions: [U256; 2],
    /// The number of pool tokens.
    pub total_supply: U256,
    /// The extra profit that has to be there before the price scale moves.
    pub allowed_extra_profit: U256,
    /// The least step by which the price scale moves.
    pub adjustment_step: U256,
    /// The time constant of the moving average, in seconds.
    pub ma_time: U256,
    /// When a change of `ann` and `gamma` ends; zero where there is none.
    pub future_a_gamma_time: U256,
    /// Whether the pool uses the invariant of the stable pools.
    pub is_stable: bool,
}

/// The numbers in the state of a two-coin pool of the second generation.
pub struct TwoNG {
    pub balances: (int, int),
    pub price_scale: int,
    pub price_oracle: int,
    pub last_prices: int,
    pub last_prices_timestamp: int,
    pub d: int,
    pub virtual_price: int,
    pub xcp_profit: int,
    pub xcp_profit_a: int,
    pub admin_lp_virtual_balance: int,
    pub ann: int,
    pub gamma: int,
    pub mid_fee: int,
    pub out_fee: int,
    pub fee_gamma: int,
    pub precisions: (int, int),
    pub total_supply: int,
    pub allowed_extra_profit: int,
    pub adjustment_step: int,
    pub ma_time: int,
    pub future_a_gamma_time: int,
    pub is_stable: bool,
}

impl View for TwoCryptoNGState {
    type V = TwoNG;

    open spec fn view(&self) -> TwoNG {
        TwoNG {
            balances: pair(self.balances),
            price_scale: self.price_scale@,
            price_oracle: self.price_oracle@,
            last_prices: self.last_prices@,
            last_prices_timestamp: self.last_prices_timestamp as int,
            d: self.d@,
            virtual_price: self.virtual_price@,
            xcp_profit: self.xcp_profit@,
            xcp_profit_a: self.xcp_profit_a@,
            admin_lp_virtual_balance: self.admin_lp_virtual_balance@,
            ann: self.ann@,
            gamma: self.gamma@,
            mid_fee: self.mid_fee@,
            out_fee: self.out_fee@,
            fee_gamma: self.fee_gamma@,
            precisions: pair(self.precisions),
            total_supply: self.total_supply@,
            allowed_extra_profit: self.allowed_extra_profit@,
            adjustment_step: self.adjustment_step@,
            ma_time: self.ma_time@,
            future_a_gamma_time: self.future_a_gamma_time@,
            is_stable: self.is_stable,
        }
    }
}

/// The numbers behind a calculated state.
pub open spec fn state_outcome(r: Result<TwoCryptoNGState, Fault>) -> Result<TwoNG, Fault> {
    match r {
        Ok(s) => Ok(s@),
        Err(e) => Err(e),
    }
}

/// The price of the second coin in the first at the margin, in units of 10^18 and before the price
/// scale.
pub open spec fn get_p_2_model(x: (int, int), d: int, ann: int, gamma: int) -> Result<int, Fault> {
    let k0 = 4int.times(x.0).times(x.1).over(d).times(
        1_000_000_000_000_000_000_000_000_000_000_000_000,
    ).over(d);
    if d == 0 {
        Err(Fault)
    } else {
        marginal_price(x.0, x.1, d, k0, gk0_model(k0, gamma), nnag2_model(ann, gamma))
    }
}

/// The price at the margin, or a fault where a divisor is zero: see [`get_p_2_model`].
pub fn get_p_2(xp: [U256; 2], d: U256, a_gamma: [U256; 2]) -> (r: Result<U256, Fault>)
    ensures
        quantity(r) == get_p_2_model(pair(xp), d@, a_gamma[0]@, a_gamma[1]@),
{
    if d.is_zero() {
        return Err(Fault);
    }
    let k0 = U256::from(4u64) * xp[0] * xp[1] / d * U256::from(
        1_000_000_000_000_000_000_000_000_000_000_000_000u128,
    ) / d;
    let gk0 = gk0_of(k0, a_gamma[1]);
    let nnag2 = nnag2_of(a_gamma[0], a_gamma[1]);
    price_at_margin(xp[0], xp[1], d, k0, gk0, nnag2)
}

/// The price of the second coin in the first at the margin of the invariant of the stable pools.
pub open spec fn get_p_2_stable_model(x: (int, int), d: int, ann: int) -> Result<int, Fault> {
    let dr = d.over(4).times(d).over(x.0).times(d).over(x.1);
    let weight = ann.times(2).times(x.0).over(A_MULTIPLIER as int);
    if x.0 == 0 || x.1 == 0 || weight.plus(dr) == 0 {
        Err(Fault)
    } else {
        Ok((WAD as int).times(weight.plus(dr.times(x.0).over(x.1))).over(weight.plus(dr)))
    }
}

/// The price at the margin of a stable pool, or a fault where a divisor is zero: see
/// [`get_p_2_stable_model`].
pub fn get_p_2_stable(xp: [U256; 2], d: U256, a_gamma: [U256; 2]) -> (r: Result<U256, Fault>)
    ensures
        quantity(r) == get_p_2_stable_model(pair(xp), d@, a_gamma[0]@),
{
    let ann = a_gamma[0] * U256::from(2u64);
    let dr = ((d / U256::from(4u64) * d).div_by(xp[0])? * d).div_by(xp[1])?;
    let weight = ann * xp[0] / U256::from(A_MULTIPLIER);
    (U256::from(WAD) * (weight + dr * xp[0] / xp[1])).div_by(weight + dr)
}

/// The weight `fee_gamma * k / (fee_gamma * k + 1 - k)` of the stable pools.
pub open spec fn stable_weight(fee_gamma: int, k: int) -> Result<int, Fault> {
    let w = WAD as int;
    let below = fee_gamma.times(k).over(w).plus(w).minus(k);
    if below == 0 {
        Err(Fault)
    } else {
        Ok(fee_gamma.times(k).over(below))
    }
}

/// The fee rate for the balances `x`, with the weight of the stable pools or the steep one.
pub open spec fn fee_2_model(
    x: (int, int),
    mid_fee: int,
    out_fee: int,
    fee_gamma: int,
    stable: bool,
) -> Result<int, Fault> {
    let f = if stable {
        stable_weight(fee_gamma, evenness_2(x))
    } else {
        steep_weight(fee_gamma, evenness_2(x))
    };
    if x.0.plus(x.1) == 0 {
        Err(Fault)
    } else {
        match f {
            Err(e) => Err(e),
            Ok(v) => Ok(mixed_fee(mid_fee, out_fee, v)),
        }
    }
}

/// The fee rate for the balances `xp`, or a fault where a divisor is zero.
pub fn fee_2(
    xp: &[U256; 2],
    mid_fee: U256,
    out_fee: U256,
    fee_gamma: U256,
    use_ng_formula: bool,
) -> (r: Result<U256, Fault>)
    ensures
        quantity(r) == fee_2_model(pair(*xp), mid_fee@, out_fee@, fee_gamma@, use_ng_formula),
{
    let w = U256::from(WAD);
    let s = xp[0] + xp[1];
    if s.is_zero() {
        return Err(Fault);
    }
    let k = w * U256::from(4u64) * xp[0] / s * xp[1] / s;
    let f = if use_ng_formula {
        (fee_gamma * k).div_by(fee_gamma * k / w + w - k)?
    } else {
        steep(fee_gamma, k)?
    };
    Ok(mix(mid_fee, out_fee, f))
}

/// The virtual price of a pool with the invariant `d`: the geometric mean of an even split at the
/// price `scale`, per pool token.
pub open spec fn virtual_price_ng(d: int, scale: int, total_supply: int) -> Result<int, Fault> {
    let below = 2int.times(scale);
    let product = d.over(2).times(d.times(WAD as int).over(below));
    if below == 0 || product == modulus() - 1 || total_supply == 0 {
        Err(Fault)
    } else {
        Ok((WAD as int).times(isqrt_floor(product)).over(total_supply))
    }
}

/// The value of [`virtual_price_ng`].
pub fn virtual_price_of_ng(d: U256, scale: U256, total_supply: U256) -> (r: Result<U256, Fault>)
    ensures
        quantity(r) == virtual_price_ng(d@, scale@, total_supply@),
{
    let w = U256::from(WAD);
    let two = U256::from(2u64);
    let xcp = try_isqrt(d / two * (d * w).div_by(two * scale)?)?;
    (w * xcp).div_by(total_supply)
}

impl TwoNG {
    /// The price scale of coin `k`; the first coin has none.
    pub open spec fn scale(self, k: int) -> Option<int> {
        if k > 0 {
            Some(self.price_scale)
        } else {
            None
        }
    }

    /// The balances in common units.
    pub open spec fn normalized(self) -> (int, int) {
        (
            self.balances.0.times(self.precisions.0),
            self.balances.1.times(self.price_scale).times(self.precisions.1).over(WAD as int),
        )
    }

    /// The invariant of the balances `xp`, as the solver of the pool finds it.
    pub open spec fn solved_d(self, xp: (int, int), k0_prev: int, stable_d: SolveStableD) -> Result<
        Option<int>,
        Fault,
    > {
        if self.is_stable {
            Ok(stable_d(xp, self.ann))
        } else {
            newton_d_2_model(self.ann, self.gamma, xp, k0_prev)
        }
    }

    /// The balance of coin `j` after coin `i` has come in, and the hint for the next invariant, as the
    /// solver of the pool finds them.
    pub open spec fn solved_y(self, xp: (int, int), i: int, j: int, stable_y: SolveStableY) -> Result<
        Option<(int, int)>,
        Fault,
    > {
        if self.is_stable {
            match stable_y(i, j, get2(xp, i), xp, self.d, self.ann) {
                Some(y) => Ok(Some((y, 0))),
                None => Ok(None),
            }
        } else {
            get_y_2_model(self.ann, self.gamma, xp, self.d, j)
        }
    }

    /// The state with the moving average brought up to the time `now`; the last price counts for at most
    /// twice the price scale.
    pub open spec fn with_average(self, now: int) -> Result<TwoNG, Fault> {
        if self.last_prices_timestamp >= now {
            Ok(self)
        } else {
            match decay(now - self.last_prices_timestamp, self.ma_time) {
                Err(e) => Err(e),
                Ok(alpha) => Ok(
                    TwoNG {
                        price_oracle: moved_average(
                            smaller(self.last_prices, 2int.times(self.price_scale)),
                            self.price_oracle,
                            alpha,
                        ),
                        last_prices_timestamp: now,
                        ..self
                    },
                ),
            }
        }
    }

    /// The invariant of the balances `xp`: `new_d` if it is known, else what the solver finds with the
    /// hint `k0_prev`, else the old one.
    pub open spec fn invariant_at(
        self,
        xp: (int, int),
        new_d: int,
        k0_prev: int,
        stable_d: SolveStableD,
    ) -> Result<int, Fault> {
        if new_d != 0 {
            Ok(new_d)
        } else {
            match self.solved_d(xp, k0_prev, stable_d) {
                Err(e) => Err(e),
                Ok(Some(d)) => Ok(d),
                Ok(None) => Ok(self.d),
            }
        }
    }

    /// The state with the last price at the margin.
    pub open spec fn with_price(self, xp: (int, int), d: int) -> Result<TwoNG, Fault> {
        let p = if self.is_stable {
            get_p_2_stable_model(xp, d, self.ann)
        } else {
            get_p_2_model(xp, d, self.ann, self.gamma)
        };
        match p {
            Err(e) => Err(e),
            Ok(v) => Ok(
                TwoNG { last_prices: v.times(self.price_scale).over(WAD as int), ..self },
            ),
        }
    }

    /// The virtual price and the profit for the invariant `d`; nothing where the virtual price would
    /// fall while the parameters do not change. The profit of a stable pool is a sum, that of another
    /// pool a product.
    pub open spec fn profit_at(self, d: int, now: int) -> Result<Option<(int, int)>, Fault> {
        if self.virtual_price > 0 {
            match virtual_price_ng(d, self.price_scale, self.total_supply) {
                Err(e) => Err(e),
                Ok(v) => if v < self.virtual_price && self.future_a_gamma_time < now {
                    Ok(None)
                } else if self.is_stable {
                    Ok(Some((v, self.xcp_profit.plus(v).minus(self.virtual_price))))
                } else {
                    Ok(Some((v, self.xcp_profit.times(v).over(self.virtual_price))))
                },
            }
        } else if 2int.times(self.price_scale) == 0 {
            Err(Fault)
        } else {
            Ok(Some((WAD as int, WAD as int)))
        }
    }

    /// A new price scale, its invariant and its virtual price, where the solver has an answer and enough
    /// of the profit is kept.
    pub open spec fn moved_price(
        self,
        xp: (int, int),
        norm: int,
        step: int,
        stable_d: SolveStableD,
    ) -> Result<Option<(int, int, int)>, Fault> {
        let p = moved_scale(self.price_scale, self.price_oracle, norm, step);
        match self.solved_d((xp.0, xp.1.times(p).over(self.price_scale)), 0, stable_d) {
            Err(e) => Err(e),
            Ok(None) => Ok(None),
            Ok(Some(d)) => match virtual_price_ng(d, p, self.total_supply) {
                Err(e) => Err(e),
                Ok(v) => if keeps_profit(v, self.xcp_profit) {
                    Ok(Some((p, d, v)))
                } else {
                    Ok(None)
                },
            },
        }
    }

    /// The state after the price scale has moved, where that is allowed and pays, or with the invariant
    /// `d` and the virtual price `v`. In a stable pool only the first change at a time moves it: `first`
    /// says whether this is one.
    pub open spec fn settled(
        self,
        xp: (int, int),
        d: int,
        v: int,
        first: bool,
        stable_d: SolveStableD,
    ) -> Result<TwoNG, Fault> {
        let norm = deviation(self.price_oracle, self.price_scale);
        let step = step_size(self.adjustment_step, norm);
        let kept = TwoNG { d, virtual_price: v, ..self };
        if (first || !self.is_stable) && profit_allows(
            v,
            self.xcp_profit,
            self.allowed_extra_profit,
        ) && norm > step && self.virtual_price > 0 {
            match self.moved_price(xp, norm, step, stable_d) {
                Err(e) => Err(e),
                Ok(Some((p, d2, v2))) => Ok(
                    TwoNG { price_scale: p, d: d2, virtual_price: v2, ..self },
                ),
                Ok(None) => Ok(kept),
            }
        } else {
            Ok(kept)
        }
    }

    /// The state after a change of the balances to `xp` in common units, at the time `now`: `new_d` is
    /// the invariant after it, where it is known, and `k0_prev` the hint for it.
    pub open spec fn tweaked(
        self,
        xp: (int, int),
        new_d: int,
        k0_prev: int,
        now: int,
        stable_d: SolveStableD,
    ) -> Result<TwoNG, Fault> {
        match self.with_average(now) {
            Err(e) => Err(e),
            Ok(s0) => match s0.invariant_at(xp, new_d, k0_prev, stable_d) {
                Err(e) => Err(e),
                Ok(d) => match s0.with_price(xp, d) {
                    Err(e) => Err(e),
                    Ok(s1) => match s1.profit_at(d, now) {
                        Err(e) => Err(e),
                        Ok(None) => Ok(s1),
                        Ok(Some((v, profit))) => {
                            let s2 = TwoNG { xcp_profit: profit, ..s1 };
                            s2.settled(xp, d, v, self.last_prices_timestamp < now, stable_d)
                        },
                    },
                },
            },
        }
    }

    /// The state with `D` solved anew from the balances before the trade, while the parameters change:
    /// `xp` are the balances with the trade in common units, and `x0` is the balance of coin `i`
    /// before it. Nothing where the solver has no answer.
    pub open spec fn ramped(
        self,
        xp: (int, int),
        i: int,
        x0: int,
        now: int,
        stable_d: SolveStableD,
    ) -> Result<Option<TwoNG>, Fault> {
        let before = set2(xp, i, in_units(x0, get2(self.precisions, i), self.scale(i)));
        if self.future_a_gamma_time == 0 || now >= self.future_a_gamma_time {
            Ok(Some(self))
        } else {
            match self.solved_d(before, 0, stable_d) {
                Err(e) => Err(e),
                Ok(None) => Ok(None),
                Ok(Some(d)) => Ok(Some(TwoNG { d, ..self })),
            }
        }
    }

    /// The state after the balance of coin `j` has gone to `y` in common units, and the amount paid out
    /// and the fee.
    pub open spec fn paid(
        self,
        xp: (int, int),
        j: int,
        y: int,
        k0_prev: int,
        now: int,
        stable_d: SolveStableD,
    ) -> Result<(TwoNG, (int, int)), Fault> {
        let x_j = get2(xp, j);
        let prec_j = get2(self.precisions, j);
        let xp1 = set2(xp, j, y);
        match gross_out(x_j, y, prec_j, self.scale(j)) {
            Err(e) => Err(e),
            Ok(out) => match fee_2_model(
                xp1,
                self.mid_fee,
                self.out_fee,
                self.fee_gamma,
                self.is_stable,
            ) {
                Err(e) => Err(e),
                Ok(rate) => {
                    let fee = fee_on(rate, out);
                    let dy = out.minus(fee);
                    let left = get2(self.balances, j).minus(dy);
                    let xp2 = set2(xp1, j, in_units(left, prec_j, self.scale(j)));
                    let s = TwoNG { balances: set2(self.balances, j, left), ..self };
                    match s.solved_d(xp2, k0_prev, stable_d) {
                        Err(e) => Err(e),
                        Ok(found) => {
                            let new_d = match found {
                                Some(d) => d,
                                None => 0,
                            };
                            match s.tweaked(xp2, new_d, k0_prev, now, stable_d) {
                                Err(e) => Err(e),
                                Ok(s2) => Ok((s2, (dy, fee))),
                            }
                        },
                    }
                },
            },
        }
    }

    /// The balance of coin `j` in common units once `dx` of coin `i` has come in, and the hint that it comes
    /// with. Nothing where a solver has no answer.
    pub open spec fn traded_y(
        self,
        i: int,
        j: int,
        dx: int,
        now: int,
        stable_d: SolveStableD,
        stable_y: SolveStableY,
    ) -> Result<Option<(int, int)>, Fault> {
        let x0 = get2(self.balances, i);
        let s1 = TwoNG { balances: set2(self.balances, i, x0.plus(dx)), ..self };
        let xp = s1.normalized();
        match s1.ramped(xp, i, x0, now, stable_d) {
            Err(e) => Err(e),
            Ok(None) => Ok(None),
            Ok(Some(s2)) => s2.solved_y(xp, i, j, stable_y),
        }
    }

    /// The state after an exchange of `dx` of coin `i` for coin `j`, and the amount paid out and the fee
    /// where the exchange went through. A request for no exchange between two coins changes nothing;
    /// where a solver has no answer, the coins that came in stay.
    pub open spec fn exchanged(
        self,
        i: int,
        j: int,
        dx: int,
        now: int,
        stable_d: SolveStableD,
        stable_y: SolveStableY,
    ) -> Result<(TwoNG, Option<(int, int)>), Fault> {
        let x0 = get2(self.balances, i);
        let s1 = TwoNG { balances: set2(self.balances, i, x0.plus(dx)), ..self };
        let xp = s1.normalized();
        if i == j || i >= 2 || j >= 2 || dx == 0 {
            Ok((self, None))
        } else {
            match s1.ramped(xp, i, x0, now, stable_d) {
                Err(e) => Err(e),
                Ok(None) => Ok((s1, None)),
                Ok(Some(s2)) => match s2.solved_y(xp, i, j, stable_y) {
                    Err(e) => Err(e),
                    Ok(None) => Ok((s2, None)),
                    Ok(Some((y, k0_prev))) => match s2.paid(xp, j, y, k0_prev, now, stable_d) {
                        Err(e) => Err(e),
                        Ok((s3, out)) => Ok((s3, Some(out))),
                    },
                },
            }
        }
    }
}

impl TwoCryptoNGState {
    /// The balances in common units: see [`TwoNG::normalized`].
    pub fn common_units(&self) -> (r: [U256; 2])
        ensures
            pair(r) == self@.normalized(),
    {
        [
            self.balances[0] * self.precisions[0],
            self.balances[1] * self.price_scale * self.precisions[1] / U256::from(WAD),
        ]
    }

    /// The price scale of coin `k`: see [`TwoNG::scale`].
    fn scale_at(&self, k: usize) -> (r: Option<U256>)
        ensures
            scale_of(r) == self@.scale(k as int),
    {
        if k > 0 {
            Some(self.price_scale)
        } else {
            None
        }
    }

    /// The invariant of the balances `xp`: see [`TwoNG::solved_d`].
    fn solve_d<D: Fn([U256; 2], U256) -> Option<U256>>(&self, xp: [U256; 2], k0_prev: U256, get_d: &D) -> (r: Result<
        Option<U256>,
        Fault,
    >)
        requires
            pure_stable_d(*get_d),
        ensures
            outcome(r) == self@.solved_d(pair(xp), k0_prev@, stable_d_of(*get_d)),
    {
        if self.is_stable {
            Ok(ask_stable_d(get_d, xp, self.ann))
        } else {
            try_newton_d(self.ann, self.gamma, xp, k0_prev)
        }
    }

    /// The balance of coin `j` after coin `i` has come in: see [`TwoNG::solved_y`].
    fn solve_y<Y: Fn(usize, usize, U256, [U256; 2], U256, U256) -> Option<U256>>(&self, xp: [U256; 2], i: usize, j: usize, get_y: &Y) -> (r: Result<
        Option<(U256, U256)>,
        Fault,
    >)
        requires
            pure_stable_y(*get_y),
            i < 2,
        ensures
            solution(r) == self@.solved_y(pair(xp), i as int, j as int, stable_y_of(*get_y)),
    {
        if self.is_stable {
            match ask_stable_y(get_y, i, j, xp[i], xp, self.d, self.ann) {
                Some(y) => Ok(Some((y, U256::zero()))),
                None => Ok(None),
            }
        } else {
            try_get_y_2_ng(self.ann, self.gamma, xp, self.d, j)
        }
    }

    /// The state with the moving average brought up to date: see [`TwoNG::with_average`].
    fn averaged(&self, now: u64) -> (r: Result<TwoCryptoNGState, Fault>)
        ensures
            state_outcome(r) == self@.with_average(now as int),
    {
        let mut s = *self;
        if self.last_prices_timestamp < now {
            let alpha = decayed(now - self.last_prices_timestamp, self.ma_time)?;
            let capped = self.last_prices.min(U256::from(2u64) * self.price_scale);
            s.price_oracle = move_average(capped, self.price_oracle, alpha);
            s.last_prices_timestamp = now;
        }
        Ok(s)
    }

    /// The virtual price and the profit: see [`TwoNG::profit_at`].
    fn profit_now(&self, d: U256, now: u64) -> (r: Result<Option<(U256, U256)>, Fault>)
        ensures
            self@.profit_at(d@, now as int) == match r {
                Ok(Some((a, b))) => Ok::<_, Fault>(Some((a@, b@))),
                Ok(None) => Ok(None),
                Err(e) => Err(e),
            },
    {
        if self.virtual_price > U256::zero() {
            let v = virtual_price_of_ng(d, self.price_scale, self.total_supply)?;
            if v < self.virtual_price && self.future_a_gamma_time < U256::from(now) {
                return Ok(None);
            }
            let profit = if self.is_stable {
                self.xcp_profit + v - self.virtual_price
            } else {
                self.xcp_profit * v / self.virtual_price
            };
            Ok(Some((v, profit)))
        } else {
            if (U256::from(2u64) * self.price_scale).is_zero() {
                return Err(Fault);
            }
            Ok(Some((U256::from(WAD), U256::from(WAD))))
        }
    }

    /// A new price scale, its invariant and its virtual price: see [`TwoNG::moved_price`].
    fn price_moved<D: Fn([U256; 2], U256) -> Option<U256>>(&self, xp: [U256; 2], norm: U256, step: U256, get_d: &D) -> (r: Result<
        Option<(U256, U256, U256)>,
        Fault,
    >)
        requires
            pure_stable_d(*get_d),
            norm@ != 0,
            self@.price_scale != 0,
        ensures
            self@.moved_price(pair(xp), norm@, step@, stable_d_of(*get_d)) == match r {
                Ok(Some((p, d, v))) => Ok::<_, Fault>(Some((p@, d@, v@))),
                Ok(None) => Ok(None),
                Err(e) => Err(e),
            },
    {
        let p = move_scale(self.price_scale, self.price_oracle, norm, step);
        match self.solve_d([xp[0], xp[1] * p / self.price_scale], U256::zero(), get_d)? {
            None => Ok(None),
            Some(d) => {
                let v = virtual_price_of_ng(d, p, self.total_supply)?;
                if profit_kept(v, self.xcp_profit) {
                    Ok(Some((p, d, v)))
                } else {
                    Ok(None)
                }
            },
        }
    }

    /// The state after the price scale has moved or not: see [`TwoNG::settled`].
    fn settle<D: Fn([U256; 2], U256) -> Option<U256>>(&self, xp: [U256; 2], d: U256, v: U256, first: bool, get_d: &D) -> (r: Result<
        TwoCryptoNGState,
        Fault,
    >)
        requires
            pure_stable_d(*get_d),
            self@.price_scale != 0,
        ensures
            state_outcome(r) == self@.settled(pair(xp), d@, v@, first, stable_d_of(*get_d)),
    {
        let mut s = *self;
        if (first || !self.is_stable) && profit_permits(
            v,
            self.xcp_profit,
            self.allowed_extra_profit,
        ) {
            let norm = deviate(self.price_oracle, self.price_scale)?;
            let step = step_for(self.adjustment_step, norm);
            proof {
                lemma_word_range(step);
            }
            if norm > step && self.virtual_price > U256::zero() {
                match self.price_moved(xp, norm, step, get_d)? {
                    Some((p, d2, v2)) => {
                        s.price_scale = p;
                        s.d = d2;
                        s.virtual_price = v2;
                        return Ok(s);
                    },
                    None => {},
                }
            }
        }
        s.d = d;
        s.virtual_price = v;
        Ok(s)
    }

    /// Brings the state up to date after a change of the balances to `xp` in common units: the price
    /// oracle, the last price, `D`, the profit and, where it is allowed and pays, the price scale.
    /// `new_d` is the invariant after the change, zero where it is not known, and `k0_prev` the hint for
    /// it. On a fault the state stays as it is.
    pub fn tweak_price<D: Fn([U256; 2], U256) -> Option<U256>>(
        &mut self,
        xp: [U256; 2],
        new_d: U256,
        k0_prev: U256,
        block_timestamp: u64,
        get_d: &D,
    ) -> (r: Result<(), Fault>)
        requires
            pure_stable_d(*get_d),
        ensures
            match old(self)@.tweaked(
                pair(xp),
                new_d@,
                k0_prev@,
                block_timestamp as int,
                stable_d_of(*get_d),
            ) {
                Ok(s) => r is Ok && final(self)@ == s,
                Err(_) => r is Err && *final(self) == *old(self),
            },
    {
        let first = self.last_prices_timestamp < block_timestamp;
        let mut s = self.averaged(block_timestamp)?;
        let d = if new_d.is_zero() {
            match s.solve_d(xp, k0_prev, get_d)? {
                Some(d) => d,
                None => s.d,
            }
        } else {
            new_d
        };
        let p = if s.is_stable {
            get_p_2_stable(xp, d, [s.ann, s.gamma])?
        } else {
            get_p_2(xp, d, [s.ann, s.gamma])?
        };
        s.last_prices = p * s.price_scale / U256::from(WAD);
        match s.profit_now(d, block_timestamp)? {
            None => {
                *self = s;
            },
            Some((v, profit)) => {
                proof {
                    lemma_times(2, 0);
                }
                s.xcp_profit = profit;
                *self = s.settle(xp, d, v, first, get_d)?;
            },
        }
        Ok(())
    }

    /// The state with `D` solved anew while the parameters change: see [`TwoNG::ramped`].
    fn ramp<D: Fn([U256; 2], U256) -> Option<U256>>(&self, xp: [U256; 2], i: usize, x0: U256, now: u64, get_d: &D) -> (r: Result<
        Option<TwoCryptoNGState>,
        Fault,
    >)
        requires
            pure_stable_d(*get_d),
            i < 2,
        ensures
            self@.ramped(pair(xp), i as int, x0@, now as int, stable_d_of(*get_d)) == match r {
                Ok(Some(s)) => Ok::<_, Fault>(Some(s@)),
                Ok(None) => Ok(None),
                Err(e) => Err(e),
            },
    {
        let t = self.future_a_gamma_time;
        proof {
            lemma_word_range(t);
        }
        if t > U256::zero() && U256::from(now) < t {
            let before = put2(xp, i, to_units(x0, self.precisions[i], self.scale_at(i)));
            match self.solve_d(before, U256::zero(), get_d)? {
                None => Ok(None),
                Some(d) => {
                    let mut s = *self;
                    s.d = d;
                    Ok(Some(s))
                },
            }
        } else {
            Ok(Some(*self))
        }
    }

    /// The state after a payout, and the payout: see [`TwoNG::paid`].
    fn pay<D: Fn([U256; 2], U256) -> Option<U256>>(
        &self,
        xp: [U256; 2],
        j: usize,
        y: U256,
        k0_prev: U256,
        now: u64,
        get_d: &D,
    ) -> (r: Result<(TwoCryptoNGState, ExchangeResult), Fault>)
        requires
            pure_stable_d(*get_d),
            j < 2,
        ensures
            self@.paid(
                pair(xp),
                j as int,
                y@,
                k0_prev@,
                now as int,
                stable_d_of(*get_d),
            ) == match r {
                Ok((s, out)) => Ok::<_, Fault>((s@, (out.dy@, out.fee@))),
                Err(e) => Err(e),
            },
    {
        let prec_j = self.precisions[j];
        let xp1 = put2(xp, j, y);
        let out = gross(xp[j], y, prec_j, self.scale_at(j))?;
        let rate = fee_2(&xp1, self.mid_fee, self.out_fee, self.fee_gamma, self.is_stable)?;
        let fee = fee_at(rate, out);
        let dy = out - fee;
        let left = self.balances[j] - dy;
        let xp2 = put2(xp1, j, to_units(left, prec_j, self.scale_at(j)));
        let mut s = *self;
        s.balances = put2(self.balances, j, left);
        let new_d = match s.solve_d(xp2, k0_prev, get_d)? {
            Some(d) => d,
            None => U256::zero(),
        };
        s.tweak_price(xp2, new_d, k0_prev, now, get_d)?;
        Ok((s, ExchangeResult { dy, fee }))
    }

    /// The balance of coin `j` in common units once `dx` of coin `i` has come in, and the hint that it comes
    /// with: see [`TwoNG::traded_y`].
    pub fn solve_trade<D: Fn([U256; 2], U256) -> Option<U256>, Y: Fn(usize, usize, U256, [U256; 2], U256, U256) -> Option<U256>>(
        &self,
        i: usize,
        j: usize,
        dx: U256,
        block_timestamp: u64,
        get_d: &D,
        get_y: &Y,
    ) -> (r: Result<Option<(U256, U256)>, Fault>)
        requires
            pure_stable_d(*get_d),
            pure_stable_y(*get_y),
            i < 2,
        ensures
            solution(r) == self@.traded_y(
                i as int,
                j as int,
                dx@,
                block_timestamp as int,
                stable_d_of(*get_d),
                stable_y_of(*get_y),
            ),
    {
        let mut s = *self;
        let x0 = s.balances[i];
        s.balances = put2(s.balances, i, x0 + dx);
        let xp = s.common_units();
        match s.ramp(xp, i, x0, block_timestamp, get_d)? {
            None => Ok(None),
            Some(s2) => s2.solve_y(xp, i, j, get_y),
        }
    }

    /// Exchanges `dx` of coin `i` for coin `j`; where [`TwoCryptoNGState::exchange`] is not defined, a
    /// fault, and the state stays as it is.
    pub fn try_exchange<D: Fn([U256; 2], U256) -> Option<U256>, Y: Fn(usize, usize, U256, [U256; 2], U256, U256) -> Option<U256>>(
        &mut self,
        i: usize,
        j: usize,
        dx: U256,
        block_timestamp: u64,
        get_d: &D,
        get_y: &Y,
    ) -> (r: Result<Option<ExchangeResult>, Fault>)
        requires
            pure_stable_d(*get_d),
            pure_stable_y(*get_y),
        ensures
            match old(self)@.exchanged(
                i as int,
                j as int,
                dx@,
                block_timestamp as int,
                stable_d_of(*get_d),
                stable_y_of(*get_y),
            ) {
                Ok((s, out)) => final(self)@ == s && payout_outcome(r) == Ok::<_, Fault>(out),
                Err(_) => r is Err && *final(self) == *old(self),
            },
    {
        if i == j || i >= 2 || j >= 2 || dx.is_zero() {
            return Ok(None);
        }
        let mut s = *self;
        let x0 = s.balances[i];
        s.balances = put2(s.balances, i, x0 + dx);
        let xp = s.common_units();
        match s.ramp(xp, i, x0, block_timestamp, get_d)? {
            None => {
                *self = s;
                Ok(None)
            },
            Some(s2) => match s2.solve_y(xp, i, j, get_y)? {
                None => {
                    *self = s2;
                    Ok(None)
                },
                Some((y, k0_prev)) => {
                    let (s3, out) = s2.pay(xp, j, y, k0_prev, block_timestamp, get_d)?;
                    *self = s3;
                    Ok(Some(out))
                },
            },
        }
    }

    /// Exchanges `dx` of coin `i` for coin `j` and brings the state up to date: `None` where there is
    /// nothing to exchange between two coins of the pool, or where a solver has no answer. `get_d` solves
    /// for `D` and `get_y` for the balance of a coin of a stable pool; another pool asks neither.
    pub fn exchange<D: Fn([U256; 2], U256) -> Option<U256>, Y: Fn(usize, usize, U256, [U256; 2], U256, U256) -> Option<U256>>(
        &mut self,
        i: usize,
        j: usize,
        dx: U256,
        block_timestamp: u64,
        get_d: &D,
        get_y: &Y,
    ) -> (r: Option<ExchangeResult>)
        requires
            pure_stable_d(*get_d),
            pure_stable_y(*get_y),
            old(self)@.exchanged(
                i as int,
                j as int,
                dx@,
                block_timestamp as int,
                stable_d_of(*get_d),
                stable_y_of(*get_y),
            ) is Ok,
        ensures
            Ok::<_, Fault>((final(self)@, payout(r))) == old(self)@.exchanged(
                i as int,
                j as int,
                dx@,
                block_timestamp as int,
                stable_d_of(*get_d),
                stable_y_of(*get_y),
            ),
    {
        match self.try_exchange(i, j, dx, block_timestamp, get_d, get_y) {
            Ok(r) => r,
            Err(_) => None,
        }
    }
}

impl TwoNG {
    /// Whether two states have the same parameters: all that no operation of the pool changes.
    pub open spec fn same_parameters(self, other: TwoNG) -> bool {
        &&& self.xcp_profit_a == other.xcp_profit_a
        &&& self.admin_lp_virtual_balance == other.admin_lp_virtual_balance
        &&& self.ann == other.ann
        &&& self.gamma == other.gamma
        &&& self.mid_fee == other.mid_fee
        &&& self.out_fee == other.out_fee
        &&& self.fee_gamma == other.fee_gamma
        &&& self.precisions == other.precisions
        &&& self.total_supply == other.total_supply
        &&& self.allowed_extra_profit == other.allowed_extra_profit
        &&& self.adjustment_step == other.adjustment_step
        &&& self.ma_time == other.ma_time
        &&& self.future_a_gamma_time == other.future_a_gamma_time
        &&& self.is_stable == other.is_stable
    }

    /// Whether the virtual price would fall with the invariant `d` while the parameters do not change.
    pub open spec fn falls_at(self, d: int, now: int) -> bool {
        &&& self.virtual_price > 0
        &&& self.future_a_gamma_time < now
        &&& virtual_price_ng(d, self.price_scale, self.total_supply) matches Ok(v)
        &&& v < self.virtual_price
    }

    /// Whether two states have the same prices.
    pub open spec fn same_prices(self, other: TwoNG) -> bool {
        &&& self.price_scale == other.price_scale
        &&& self.price_oracle == other.price_oracle
        &&& self.last_prices == other.last_prices
        &&& self.last_prices_timestamp == other.last_prices_timestamp
    }
}

/// Bringing the state up to date leaves the balances and the parameters as they are and moves the time
/// of the moving average forward to now. The virtual price does not fall, unless the parameters
/// change or the price scale has moved and more than half of the profit is kept. In a stable pool the
/// price scale moves at most once at a time.
pub proof fn law_tweak(
    s: TwoNG,
    xp: (int, int),
    new_d: int,
    k0_prev: int,
    now: int,
    stable_d: SolveStableD,
)
    ensures
        s.tweaked(xp, new_d, k0_prev, now, stable_d) matches Ok(t) ==> {
            &&& t.balances == s.balances
            &&& t.same_parameters(s)
            &&& t.last_prices_timestamp == larger(s.last_prices_timestamp, now)
            &&& s.virtual_price > 0 ==> {
                ||| t.virtual_price >= s.virtual_price
                ||| s.future_a_gamma_time >= now
                ||| keeps_profit(t.virtual_price, t.xcp_profit)
            }
            &&& s.is_stable && s.last_prices_timestamp >= now ==> t.price_scale == s.price_scale
        },
{
}

/// Where the virtual price would fall while the parameters do not change, the invariant, the virtual
/// price, the profit, the profit already shared and the price scale stay as they were.
pub proof fn law_no_loss(
    s: TwoNG,
    xp: (int, int),
    new_d: int,
    k0_prev: int,
    now: int,
    stable_d: SolveStableD,
)
    requires
        s.invariant_at(xp, new_d, k0_prev, stable_d) matches Ok(d) && s.falls_at(d, now),
    ensures
        s.tweaked(xp, new_d, k0_prev, now, stable_d) matches Ok(t) ==> {
            &&& t.d == s.d
            &&& t.virtual_price == s.virtual_price
            &&& t.xcp_profit == s.xcp_profit
            &&& t.xcp_profit_a == s.xcp_profit_a
            &&& t.price_scale == s.price_scale
        },
{
}

/// A request for an exchange of nothing, of a coin for itself or of a coin that the pool does not have
/// is refused, and the state stays as it is.
pub proof fn law_exchange_refused(
    s: TwoNG,
    i: usize,
    j: usize,
    dx: U256,
    now: u64,
    stable_d: SolveStableD,
    stable_y: SolveStableY,
)
    requires
        i == j || i >= 2 || j >= 2 || dx@ == 0,
    ensures
        s.exchanged(i as int, j as int, dx@, now as int, stable_d, stable_y) == Ok::<_, Fault>(
            (s, None::<(int, int)>),
        ),
{
}

proof fn lemma_paid(
    s: TwoNG,
    xp: (int, int),
    j: int,
    y: int,
    k0_prev: int,
    now: int,
    stable_d: SolveStableD,
)
    ensures
        s.paid(xp, j, y, k0_prev, now, stable_d) matches Ok((t, (dy, fee))) ==> {
            &&& t.same_parameters(s)
            &&& t.balances == set2(s.balances, j, get2(s.balances, j).minus(dy))
            &&& t.last_prices_timestamp == larger(s.last_prices_timestamp, now)
        },
{
}

proof fn lemma_ramped(s: TwoNG, xp: (int, int), i: int, x0: int, now: int, stable_d: SolveStableD)
    ensures
        s.ramped(xp, i, x0, now, stable_d) matches Ok(Some(t)) ==> t == (TwoNG { d: t.d, ..s }),
{
}

/// An exchange adds what comes in to the balance of the first coin and takes what goes out from that of
/// the second. The parameters stay as they are, and the moving average is brought up to now. Where a
/// solver has no answer, what came in stays in the pool and the prices, the profit and the virtual
/// price stay as they were.
pub proof fn law_exchange(
    s: TwoNG,
    i: usize,
    j: usize,
    dx: U256,
    now: u64,
    stable_d: SolveStableD,
    stable_y: SolveStableY,
)
    requires
        i < 2,
        j < 2,
        i != j,
        dx@ != 0,
    ensures
        s.exchanged(i as int, j as int, dx@, now as int, stable_d, stable_y) matches Ok((t, out)) ==> {
            &&& t.same_parameters(s)
            &&& get2(t.balances, i as int) == get2(s.balances, i as int).plus(dx@)
            &&& match out {
                Some((dy, fee)) => {
                    &&& get2(t.balances, j as int) == get2(s.balances, j as int).minus(dy)
                    &&& t.last_prices_timestamp == larger(s.last_prices_timestamp, now as int)
                },
                None => {
                    &&& get2(t.balances, j as int) == get2(s.balances, j as int)
                    &&& t.same_prices(s)
                    &&& t.xcp_profit == s.xcp_profit
                    &&& t.virtual_price == s.virtual_price
                },
            }
        },
{
    let x0 = get2(s.balances, i as int);
    let s1 = TwoNG { balances: set2(s.balances, i as int, x0.plus(dx@)), ..s };
    let xp = s1.normalized();
    lemma_ramped(s1, xp, i as int, x0, now as int, stable_d);
    if let Ok(Some(s2)) = s1.ramped(xp, i as int, x0, now as int, stable_d) {
        if let Ok(Some((y, k0_prev))) = s2.solved_y(xp, i as int, j as int, stable_y) {
            lemma_paid(s2, xp, j as int, y, k0_prev, now as int, stable_d);
        }
    }
}

proof fn lemma_stable_weight(fee_gamma: int, k: int)
    requires
        0 < k <= WAD,
        0 < fee_gamma,
        fee_gamma * WAD < modulus(),
    ensures
        stable_weight(fee_gamma, k) matches Ok(f) && 0 <= f <= WAD && (k == WAD ==> f == WAD),
{
    let w = WAD as int;
    let z = fee_gamma * k;
    assert(0 < z <= fee_gamma * w) by (nonlinear_arith)
        requires
            z == fee_gamma * k,
            0 < k <= w,
            0 < fee_gamma,
    ;
    lemma_times(fee_gamma, k);
    lemma_over(z, w);
    let part = z / w;
    lemma_plus(part, w);
    lemma_minus(part + w, k);
    let below = part + w - k;
    if k == w {
        assert(z / w == fee_gamma) by (nonlinear_arith)
            requires
                z == fee_gamma * w,
                w > 0,
        ;
        lemma_over(z, below);
        assert(z / fee_gamma == w) by (nonlinear_arith)
            requires
                z == fee_gamma * w,
                fee_gamma > 0,
        ;
    } else {
        lemma_over(z, below);
        assert(0 <= z / below <= w) by (nonlinear_arith)
            requires
                part == z / w,
                below >= part + 1,
                z > 0,
                w > 0,
        {
            assert(z < w * (part + 1));
            assert(w * (part + 1) <= w * below);
        }
    }
}

/// The fee lies between the two rates, and an even split pays the first one, as long as the products are
/// words.
pub proof fn law_fee(x: [U256; 2], mid_fee: U256, out_fee: U256, fee_gamma: U256, stable: bool)
    requires
        0 < x[0]@ + x[1]@,
        4_000_000_000_000_000_000 * (x[0]@ + x[1]@) < modulus(),
        mid_fee@ <= out_fee@,
        out_fee@ * WAD < modulus(),
        0 < fee_gamma@,
        fee_gamma@ * WAD < modulus(),
    ensures
        fee_2_model(pair(x), mid_fee@, out_fee@, fee_gamma@, stable) matches Ok(v) && mid_fee@ <= v
            <= out_fee@ && (x[0]@ == x[1]@ ==> v == mid_fee@),
{
    lemma_word_range(x[0]);
    lemma_word_range(x[1]);
    lemma_word_range(mid_fee);
    lemma_plus(x[0]@, x[1]@);
    lemma_evenness_2(pair(x));
    let k = evenness_2(pair(x));
    if stable {
        if k > 0 {
            lemma_stable_weight(fee_gamma@, k);
        } else {
            lemma_times(fee_gamma@, 0);
            lemma_over(0, WAD as int);
            lemma_plus(0, WAD as int);
            lemma_minus(WAD as int, 0);
        }
        lemma_mixed(mid_fee@, out_fee@, stable_weight(fee_gamma@, k)->Ok_0);
    } else {
        lemma_weighted(mid_fee@, out_fee@, fee_gamma@, k);
    }
}

/// The moving average stays between the last price, taken for at most twice the price scale, and its old
/// value, as long as the products with ten to the eighteenth are words.
pub proof fn law_average(s: TwoCryptoNGState, now: u64)
    requires
        s.ma_time@ != 0,
        larger(s.last_prices@, s.price_oracle@) * WAD < modulus(),
        2 * s.price_scale@ < modulus(),
    ensures
        ({
            let p = smaller(s.last_prices@, 2 * s.price_scale@);
            s.last_prices_timestamp < now ==> (s@.with_average(now as int) matches Ok(t) && smaller(
                p,
                s.price_oracle@,
            ) <= t.price_oracle <= larger(p, s.price_oracle@))
        }),
        s.last_prices_timestamp >= now ==> s@.with_average(now as int) == Ok::<_, Fault>(s@),
{
    lemma_word_range(s.last_prices);
    lemma_word_range(s.price_oracle);
    lemma_word_range(s.price_scale);
    if s.last_prices_timestamp < now {
        let dt = now - s.last_prices_timestamp;
        law_decay((now - s.last_prices_timestamp) as u64, s.ma_time);
        let alpha = decay(dt, s.ma_time@)->Ok_0;
        lemma_times(2, s.price_scale@);
        let p = smaller(s.last_prices@, 2 * s.price_scale@);
        lemma_average_between(p, s.price_oracle@, alpha);
    }
}

} // verus!
