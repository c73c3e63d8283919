//! Three-coin pools of the second generation: the simulated exchange with every update of the state.
pub use crate::exponential::{shr96, try_wad_exp, wad_exp};
pub use crate::pricing::ExchangeResult;
pub use crate::solvers::tricrypto_ng::geometric_mean_3;
use crate::coins::{get2, get3, pair, put3, set3, triple};
use crate::exponential::{decay, decayed, law_decay};
use crate::fault::Fault;
use crate::fees::{
    crypto_fee_model, evenness_3, lemma_evenness_3, lemma_weighted, numbers, try_crypto_fee, weigh,
    weighted_fee,
};
use crate::marginal::{
    gk0_model, gk0_of, marginal_price, nnag2_model, nnag2_of, price_at_margin,
};
use crate::newton::{number, outcome, quantity, FEE_DENOMINATOR, WAD};
use crate::pricing::{
    even_split_3, fee_at, fee_on, gross, gross_out, in_units, keeps_profit, lemma_average_between, move_average, move_scale,
    moved_average, moved_scale, norm_3, norm_of_3, payout, payout_outcome, profit_allows,
    profit_kept, profit_permits, scale_of, split_evenly_3, step_for, step_size, to_units,
};
use crate::solvers::tricrypto_ng::{
    geometric_mean_3_model, get_y_3_model, newton_d_3_model, try_get_y_3_ng, try_newton_d,
};
use crate::uint::{
    larger, lemma_plus, lemma_times, lemma_word_range, modulus, smaller, Word, U256,
};
use vstd::prelude::*;

verus! {

/// The state of a three-coin pool of the second generation.
#[derive(Clone, Copy, Debug)]
pub struct TriCryptoNGState {
    /// What the pool holds of each coin, in the coin's own units.
    pub balances: [U256; 3],
    /// The prices of the second and third coin in the first around which the liquidity is concentrated.
    pub price_scale: [U256; 2],
    /// The moving averages of the prices.
    pub price_oracle: [U256; 2],
    /// The prices after the last change.
    pub last_prices: [U256; 2],
    /// When the moving averages were last brought up to date.
    pub last_prices_timestamp: u64,
    /// The invariant.
    pub d: U256,
    /// The worth of a pool token.
    pub virtual_price: U256,
    /// The profit so far, as a factor.
    pub xcp_profit: U256,
    /// The profit at the last claim of the admin's share.
    pub xcp_profit_a: U256,
    /// The admin's share of the fees on added liquidity, where the pool keeps one.
    pub admin_lp_virtual_balance: U256,
    /// Whether the pool is of the variant that claims the admin's share by minting pool tokens.
    pub is_weth_variant: bool,
    /// The amplification coefficient times `N^N`, scaled.
    pub ann: U256,
    /// How far the liquidity is concentrated.
    pub gamma: U256,
    /// The fee rate at an even split, in units of 10^10.
    pub mid_fee: U256,
    /// The fee rate far from an even split, in units of 10^10.
    pub out_fee: U256,
    /// How fast the fee rate changes between the two.
    pub fee_gamma: U256,
    /// What brings each coin to 18 decimals.
    pub precisions: [U256; 3],
    /// The number of pool tokens.
    pub total_supply: U256,
    /// The extra profit that has to be there before the price scale moves.
    pub allowed_extra_profit: U256,
    /// The least step by which the price scale moves.
    pub adjustment_step: U256,
    /// The time constant of the moving averages, in seconds.
    pub ma_time: U256,
    /// When a change of `ann` and `gamma` ends; zero where there is none.
    pub future_a_gamma_time: U256,
}

/// The numbers in the state of a three-coin pool of the second generation.
pub struct TriNG {
    pub balances: (int, int, int),
    pub price_scale: (int, int),
    pub price_oracle: (int, int),
    pub last_prices: (int, int),
    pub last_prices_timestamp: int,
    pub d: int,
    pub virtual_price: int,
    pub xcp_profit: int,
    pub xcp_profit_a: int,
    pub admin_lp_virtual_balance: int,
    pub is_weth_variant: bool,
    pub ann: int,
    pub gamma: int,
    pub mid_fee: int,
    pub out_fee: int,
    pub fee_gamma: int,
    pub precisions: (int, int, int),
    pub total_supply: int,
    pub allowed_extra_profit: int,
    pub adjustment_step: int,
    pub ma_time: int,
    pub future_a_gamma_time: int,
}

impl View for TriCryptoNGState {
    type V = TriNG;

    open spec fn view(&self) -> TriNG {
        TriNG {
            balances: triple(self.balances),
            price_scale: pair(self.price_scale),
            price_oracle: pair(self.price_oracle),
            last_prices: pair(self.last_prices),
            last_prices_timestamp: self.last_prices_timestamp as int,
            d: self.d@,
            virtual_price: self.virtual_price@,
            xcp_profit: self.xcp_profit@,
            xcp_profit_a: self.xcp_profit_a@,
            admin_lp_virtual_balance: self.admin_lp_virtual_balance@,
            is_weth_variant: self.is_weth_variant,
            ann: self.ann@,
            gamma: self.gamma@,
            mid_fee: self.mid_fee@,
            out_fee: self.out_fee@,
            fee_gamma: self.fee_gamma@,
            precisions: triple(self.precisions),
            total_supply: self.total_supply@,
            allowed_extra_profit: self.allowed_extra_profit@,
            adjustment_step: self.adjustment_step@,
            ma_time: self.ma_time@,
            future_a_gamma_time: self.future_a_gamma_time@,
        }
    }
}

/// The numbers behind a calculated state.
pub open spec fn state_outcome(r: Result<TriCryptoNGState, Fault>) -> Result<TriNG, Fault> {
    match r {
        Ok(s) => Ok(s@),
        Err(e) => Err(e),
    }
}

/// The prices of the second and third coin in the first at the margin, in units of 10^18 and before
/// the price scale.
pub open spec fn get_p_model(x: (int, int, int), d: int, ann: int, gamma: int) -> Result<
    (int, int),
    Fault,
> {
    let k0 = 27int.times(x.0).times(x.1).over(d).times(x.2).over(d).times(
        1_000_000_000_000_000_000_000_000_000_000_000_000,
    ).over(d);
    let gk0 = gk0_model(k0, gamma);
    let nnag2 = nnag2_model(ann, gamma);
    if d == 0 {
        Err(Fault)
    } else {
        match marginal_price(x.0, x.1, d, k0, gk0, nnag2) {
            Err(e) => Err(e),
            Ok(p0) => match marginal_price(x.0, x.2, d, k0, gk0, nnag2) {
                Err(e) => Err(e),
                Ok(p1) => Ok((p0, p1)),
            },
        }
    }
}

/// The prices at the margin, or a fault where a divisor is zero: see [`get_p_model`].
pub fn get_p(xp: [U256; 3], d: U256, a_gamma: [U256; 2]) -> (r: Result<[U256; 2], Fault>)
    ensures
        get_p_model(triple(xp), d@, a_gamma[0]@, a_gamma[1]@) == match r {
            Ok(p) => Ok::<_, Fault>(pair(p)),
            Err(e) => Err(e),
        },
{
    if d.is_zero() {
        return Err(Fault);
    }
    let k0 = U256::from(27u64) * xp[0] * xp[1] / d * xp[2] / d * U256::from(
        1_000_000_000_000_000_000_000_000_000_000_000_000u128,
    ) / d;
    let gk0 = gk0_of(k0, a_gamma[1]);
    let nnag2 = nnag2_of(a_gamma[0], a_gamma[1]);
    let p0 = price_at_margin(xp[0], xp[1], d, k0, gk0, nnag2)?;
    let p1 = price_at_margin(xp[0], xp[2], d, k0, gk0, nnag2)?;
    Ok([p0, p1])
}

/// The fee rate for the balances `x`.
pub open spec fn fee_3_model(x: (int, int, int), mid_fee: int, out_fee: int, fee_gamma: int) -> Result<
    int,
    Fault,
> {
    if x.0.plus(x.1).plus(x.2) == 0 {
        Err(Fault)
    } else {
        weighted_fee(mid_fee, out_fee, fee_gamma, evenness_3(x))
    }
}

/// The fee rate for the balances `xp`, or a fault where a divisor is zero.
pub fn fee_3(xp: &[U256; 3], mid_fee: U256, out_fee: U256, fee_gamma: U256) -> (r: Result<
    U256,
    Fault,
>)
    ensures
        quantity(r) == fee_3_model(triple(*xp), mid_fee@, out_fee@, fee_gamma@),
{
    let s = xp[0] + xp[1] + xp[2];
    if s.is_zero() {
        return Err(Fault);
    }
    let n = U256::from(3u64);
    let k = U256::from(WAD) * n * xp[0] / s * n * xp[1] / s * n * xp[2] / s;
    weigh(mid_fee, out_fee, fee_gamma, k)
}

impl TriNG {
    /// The price scale of coin `k`; the first coin has none.
    pub open spec fn scale(self, k: int) -> Option<int> {
        if k > 0 {
            Some(get2(self.price_scale, k - 1))
        } else {
            None
        }
    }

    /// The balances in common units.
    pub open spec fn normalized(self) -> (int, int, int) {
        let w = WAD as int;
        (
            self.balances.0.times(self.precisions.0),
            self.balances.1.times(self.price_scale.0).times(self.precisions.1).over(w),
            self.balances.2.times(self.price_scale.1).times(self.precisions.2).over(w),
        )
    }

    /// The state with the moving averages brought up to the time `now`; a last price counts for at most
    /// twice the price scale.
    pub open spec fn with_average(self, now: int) -> Result<TriNG, Fault> {
        if self.last_prices_timestamp >= now {
            Ok(self)
        } else {
            match decay(now - self.last_prices_timestamp, self.ma_time) {
                Err(e) => Err(e),
                Ok(alpha) => Ok(
                    TriNG {
                        price_oracle: (
                            moved_average(
                                smaller(self.last_prices.0, 2int.times(self.price_scale.0)),
                                self.price_oracle.0,
                                alpha,
                            ),
                            moved_average(
                                smaller(self.last_prices.1, 2int.times(self.price_scale.1)),
                                self.price_oracle.1,
                                alpha,
                            ),
                        ),
                        last_prices_timestamp: now,
                        ..self
                    },
                ),
            }
        }
    }

    /// The invariant of the balances `xp`: `new_d` if it is known, else what the solver finds with the
    /// hint `k0_prev`, else the old one.
    pub open spec fn invariant_at(self, xp: (int, int, int), new_d: int, k0_prev: int) -> Result<
        int,
        Fault,
    > {
        if new_d != 0 {
            Ok(new_d)
        } else {
            match newton_d_3_model(self.ann, self.gamma, xp, k0_prev) {
                Err(e) => Err(e),
                Ok(Some(d)) => Ok(d),
                Ok(None) => Ok(self.d),
            }
        }
    }

    /// The state with the last prices at the margin.
    pub open spec fn with_prices(self, xp: (int, int, int), d: int) -> Result<TriNG, Fault> {
        match get_p_model(xp, d, self.ann, self.gamma) {
            Err(e) => Err(e),
            Ok(p) => Ok(
                TriNG {
                    last_prices: (
                        p.0.times(self.price_scale.0).over(WAD as int),
                        p.1.times(self.price_scale.1).over(WAD as int),
                    ),
                    ..self
                },
            ),
        }
    }

    /// The virtual price and the profit for the invariant `d`; nothing where the virtual price would
    /// fall while the parameters do not change.
    pub open spec fn profit_at(self, d: int, now: int) -> Result<Option<(int, int)>, Fault> {
        match even_split_3(d, self.price_scale) {
            Err(e) => Err(e),
            Ok(even) => if self.virtual_price > 0 {
                if self.total_supply == 0 {
                    Err(Fault)
                } else {
                    let v = (WAD as int).times(geometric_mean_3_model(even)).over(
                        self.total_supply,
                    );
                    if v < self.virtual_price && self.future_a_gamma_time < now {
                        Ok(None)
                    } else {
                        Ok(Some((v, self.xcp_profit.times(v).over(self.virtual_price))))
                    }
                }
            } else {
                Ok(Some((WAD as int, WAD as int)))
            },
        }
    }

    /// New price scales, their invariant and their virtual price, where the solver has an answer and
    /// enough of the profit is kept.
    pub open spec fn moved_price(self, xp: (int, int, int), norm: int, step: int) -> Result<
        Option<((int, int), int, int)>,
        Fault,
    > {
        let p = (
            moved_scale(self.price_scale.0, self.price_oracle.0, norm, step),
            moved_scale(self.price_scale.1, self.price_oracle.1, norm, step),
        );
        let x = (
            xp.0,
            xp.1.times(p.0).over(self.price_scale.0),
            xp.2.times(p.1).over(self.price_scale.1),
        );
        match newton_d_3_model(self.ann, self.gamma, x, 0) {
            Err(e) => Err(e),
            Ok(None) => Ok(None),
            Ok(Some(d)) => match even_split_3(d, p) {
                Err(e) => Err(e),
                Ok(even) => if self.total_supply == 0 {
                    Err(Fault)
                } else {
                    let v = (WAD as int).times(geometric_mean_3_model(even)).over(
                        self.total_supply,
                    );
                    if keeps_profit(v, self.xcp_profit) {
                        Ok(Some((p, d, v)))
                    } else {
                        Ok(None)
                    }
                },
            },
        }
    }

    /// The state after the price scales have moved, where that is allowed and pays, or with the
    /// invariant `d` and the virtual price `v`.
    pub open spec fn settled(self, xp: (int, int, int), d: int, v: int) -> Result<TriNG, Fault> {
        let kept = TriNG { d, virtual_price: v, ..self };
        if profit_allows(v, self.xcp_profit, self.allowed_extra_profit) {
            match norm_3(self.price_oracle, self.price_scale) {
                Err(e) => Err(e),
                Ok(norm) => {
                    let step = step_size(self.adjustment_step, norm);
                    if norm > step && self.virtual_price > 0 {
                        match self.moved_price(xp, norm, step) {
                            Err(e) => Err(e),
                            Ok(Some((p, d2, v2))) => Ok(
                                TriNG { price_scale: p, d: d2, virtual_price: v2, ..self },
                            ),
                            Ok(None) => Ok(kept),
                        }
                    } else {
                        Ok(kept)
                    }
                },
            }
        } else {
            Ok(kept)
        }
    }

    /// The state after a change of the balances to `xp` in common units, at the time `now`: `new_d` is
    /// the invariant after it, where it is known, and `k0_prev` the hint for it.
    pub open spec fn tweaked(self, xp: (int, int, int), new_d: int, k0_prev: int, now: int) -> Result<
        TriNG,
        Fault,
    > {
        match self.with_average(now) {
            Err(e) => Err(e),
            Ok(s0) => match s0.invariant_at(xp, new_d, k0_prev) {
                Err(e) => Err(e),
                Ok(d) => match s0.with_prices(xp, d) {
                    Err(e) => Err(e),
                    Ok(s1) => match s1.profit_at(d, now) {
                        Err(e) => Err(e),
                        Ok(None) => Ok(s1),
                        Ok(Some((v, profit))) => {
                            let s2 = TriNG { xcp_profit: profit, ..s1 };
                            s2.settled(xp, d, v)
                        },
                    },
                },
            },
        }
    }
}

impl TriCryptoNGState {
    /// The balances in common units: see [`TriNG::normalized`].
    pub fn common_units(&self) -> (r: [U256; 3])
        ensures
            triple(r) == self@.normalized(),
    {
        let w = U256::from(WAD);
        [
            self.balances[0] * self.precisions[0],
            self.balances[1] * self.price_scale[0] * self.precisions[1] / w,
            self.balances[2] * self.price_scale[1] * self.precisions[2] / w,
        ]
    }

    /// The price scale of coin `k`: see [`TriNG::scale`].
    fn scale_at(&self, k: usize) -> (r: Option<U256>)
        requires
            k < 3,
        ensures
            scale_of(r) == self@.scale(k as int),
    {
        if k > 0 {
            Some(self.price_scale[k - 1])
        } else {
            None
        }
    }

    /// The state with the moving averages brought up to date: see [`TriNG::with_average`].
    fn averaged(&self, now: u64) -> (r: Result<TriCryptoNGState, Fault>)
        ensures
            state_outcome(r) == self@.with_average(now as int),
    {
        let mut s = *self;
        if self.last_prices_timestamp < now {
            let alpha = decayed(now - self.last_prices_timestamp, self.ma_time)?;
            let two = U256::from(2u64);
            let capped0 = self.last_prices[0].min(two * self.price_scale[0]);
            let capped1 = self.last_prices[1].min(two * self.price_scale[1]);
            s.price_oracle = [
                move_average(capped0, self.price_oracle[0], alpha),
                move_average(capped1, self.price_oracle[1], alpha),
            ];
            s.last_prices_timestamp = now;
        }
        Ok(s)
    }

    /// The virtual price and the profit: see [`TriNG::profit_at`].
    fn profit_now(&self, d: U256, now: u64) -> (r: Result<Option<(U256, U256)>, Fault>)
        ensures
            self@.profit_at(d@, now as int) == match r {
                Ok(Some((a, b))) => Ok::<_, Fault>(Some((a@, b@))),
                Ok(None) => Ok(None),
                Err(e) => Err(e),
            },
    {
        let even = split_evenly_3(d, self.price_scale)?;
        if self.virtual_price > U256::zero() {
            let v = (U256::from(WAD) * geometric_mean_3(even)).div_by(self.total_supply)?;
            if v < self.virtual_price && self.future_a_gamma_time < U256::from(now) {
                return Ok(None);
            }
            Ok(Some((v, self.xcp_profit * v / self.virtual_price)))
        } else {
            Ok(Some((U256::from(WAD), U256::from(WAD))))
        }
    }

    /// New price scales, their invariant and their virtual price: see [`TriNG::moved_price`].
    fn price_moved(&self, xp: [U256; 3], norm: U256, step: U256) -> (r: Result<
        Option<([U256; 2], U256, U256)>,
        Fault,
    >)
        requires
            norm@ != 0,
            self@.price_scale.0 != 0,
            self@.price_scale.1 != 0,
        ensures
            self@.moved_price(triple(xp), norm@, step@) == match r {
                Ok(Some((p, d, v))) => Ok::<_, Fault>(Some((pair(p), d@, v@))),
                Ok(None) => Ok(None),
                Err(e) => Err(e),
            },
    {
        let p = [
            move_scale(self.price_scale[0], self.price_oracle[0], norm, step),
            move_scale(self.price_scale[1], self.price_oracle[1], norm, step),
        ];
        let x = [
            xp[0],
            xp[1] * p[0] / self.price_scale[0],
            xp[2] * p[1] / self.price_scale[1],
        ];
        match try_newton_d(self.ann, self.gamma, x, U256::zero())? {
            None => Ok(None),
            Some(d) => {
                let even = split_evenly_3(d, p)?;
                let v = (U256::from(WAD) * geometric_mean_3(even)).div_by(self.total_supply)?;
                if profit_kept(v, self.xcp_profit) {
                    Ok(Some((p, d, v)))
                } else {
                    Ok(None)
                }
            },
        }
    }

    /// The state after the price scales have moved or not: see [`TriNG::settled`].
    fn settle(&self, xp: [U256; 3], d: U256, v: U256) -> (r: Result<TriCryptoNGState, Fault>)
        requires
            self@.price_scale.0 != 0,
            self@.price_scale.1 != 0,
        ensures
            state_outcome(r) == self@.settled(triple(xp), d@, v@),
    {
        let mut s = *self;
        if profit_permits(v, self.xcp_profit, self.allowed_extra_profit) {
            let norm = norm_of_3(self.price_oracle, self.price_scale)?;
            let step = step_for(self.adjustment_step, norm);
            proof {
                lemma_word_range(step);
            }
            if norm > step && self.virtual_price > U256::zero() {
                match self.price_moved(xp, norm, step)? {
                    Some((p, d2, v2)) => {
                        s.price_scale = p;
                        s.d = d2;
                        s.virtual_price = v2;
                        return Ok(s);
                    },
                    None => {},
                }
            }
        }
        s.d = d;
        s.virtual_price = v;
        Ok(s)
    }

    /// Brings the state up to date after a change of the balances to `xp` in common units: the price
    /// oracles, the last prices, `D`, the profit and, where it is allowed and pays, the price scales.
    /// `new_d` is the invariant after the change, zero where it is not known, and `k0_prev` the hint for
    /// it. On a fault the state stays as it is.
    pub fn tweak_price(
        &mut self,
        xp: [U256; 3],
        new_d: U256,
        k0_prev: U256,
        block_timestamp: u64,
    ) -> (r: Result<(), Fault>)
        ensures
            match old(self)@.tweaked(triple(xp), new_d@, k0_prev@, block_timestamp as int) {
                Ok(s) => r is Ok && final(self)@ == s,
                Err(_) => r is Err && *final(self) == *old(self),
            },
    {
        let mut s = self.averaged(block_timestamp)?;
        let d = if new_d.is_zero() {
            match try_newton_d(s.ann, s.gamma, xp, k0_prev)? {
                Some(d) => d,
                None => s.d,
            }
        } else {
            new_d
        };
        let p = get_p(xp, d, [s.ann, s.gamma])?;
        let w = U256::from(WAD);
        s.last_prices = [p[0] * s.price_scale[0] / w, p[1] * s.price_scale[1] / w];
        match s.profit_now(d, block_timestamp)? {
            None => {
                *self = s;
            },
            Some((v, profit)) => {
                proof {
                    lemma_times(3, 0);
                }
                s.xcp_profit = profit;
                *self = s.settle(xp, d, v)?;
            },
        }
        Ok(())
    }
}

impl TriNG {
    /// The state with `D` solved anew from the balances before the trade, while the parameters change:
    /// `xp` are the balances with the trade in common units, and `x0` is the balance of coin `i`
    /// before it. Nothing where the solver has no answer.
    pub open spec fn ramped(self, xp: (int, int, int), i: int, x0: int, now: int) -> Result<
        Option<TriNG>,
        Fault,
    > {
        let before = set3(xp, i, in_units(x0, get3(self.precisions, i), self.scale(i)));
        if self.future_a_gamma_time == 0 || now >= self.future_a_gamma_time {
            Ok(Some(self))
        } else {
            match newton_d_3_model(self.ann, self.gamma, before, 0) {
                Err(e) => Err(e),
                Ok(None) => Ok(None),
                Ok(Some(d)) => Ok(Some(TriNG { d, ..self })),
            }
        }
    }

    /// The state after the balance of coin `j` has gone to `y` in common units, and the amount paid out
    /// and the fee.
    pub open spec fn paid(self, xp: (int, int, int), j: int, y: int, k0_prev: int, now: int) -> Result<
        (TriNG, (int, int)),
        Fault,
    > {
        let x_j = get3(xp, j);
        let prec_j = get3(self.precisions, j);
        let xp1 = set3(xp, j, y);
        match gross_out(x_j, y, prec_j, self.scale(j)) {
            Err(e) => Err(e),
            Ok(out) => match fee_3_model(xp1, self.mid_fee, self.out_fee, self.fee_gamma) {
                Err(e) => Err(e),
                Ok(rate) => {
                    let fee = fee_on(rate, out);
                    let dy = out.minus(fee);
                    let left = get3(self.balances, j).minus(dy);
                    let xp2 = set3(xp1, j, in_units(left, prec_j, self.scale(j)));
                    let s = TriNG { balances: set3(self.balances, j, left), ..self };
                    match s.tweaked(xp2, 0, k0_prev, now) {
                        Err(e) => Err(e),
                        Ok(s2) => Ok((s2, (dy, fee))),
                    }
                },
            },
        }
    }

    /// The state after an exchange of `dx` of coin `i` for coin `j`, and the amount paid out and the fee
    /// where the exchange went through. A request for no exchange between two coins changes nothing;
    /// where a solver has no answer, the coins that came in stay.
    pub open spec fn exchanged(self, i: int, j: int, dx: int, now: int) -> Result<
        (TriNG, Option<(int, int)>),
        Fault,
    > {
        let x0 = get3(self.balances, i);
        let s1 = TriNG { balances: set3(self.balances, i, x0.plus(dx)), ..self };
        let xp = s1.normalized();
        if i == j || i >= 3 || j >= 3 || dx == 0 {
            Ok((self, None))
        } else {
            match s1.ramped(xp, i, x0, now) {
                Err(e) => Err(e),
                Ok(None) => Ok((s1, None)),
                Ok(Some(s2)) => match get_y_3_model(s2.ann, s2.gamma, xp, s2.d, j) {
                    Err(e) => Err(e),
                    Ok(None) => Ok((s2, None)),
                    Ok(Some((y, k0_prev))) => match s2.paid(xp, j, y, k0_prev, now) {
                        Err(e) => Err(e),
                        Ok((s3, out)) => Ok((s3, Some(out))),
                    },
                },
            }
        }
    }

    /// The balances in common units, as a withdrawal takes them.
    pub open spec fn withdraw_units(self) -> (int, int, int) {
        let w = WAD as int;
        (
            self.precisions.0.times(self.balances.0),
            self.precisions.1.times(self.balances.1).times(self.price_scale.0).over(w),
            self.precisions.2.times(self.balances.2).times(self.price_scale.1).over(w),
        )
    }

    /// What a unit of coin `i` is worth in common units, in units of 10^18.
    pub open spec fn unit_price(self, i: int) -> int {
        if i == 0 {
            (WAD as int).times(self.precisions.0)
        } else {
            get2(self.price_scale, i - 1).times(get3(self.precisions, i))
        }
    }

    /// The fee rate on a withdrawal of coin `i` for `burn_amount` pool tokens; nothing where it cannot be
    /// told. Meant for `total_supply != 0` only.
    pub open spec fn withdraw_fee(self, xp: (int, int, int), i: int, burn_amount: int) -> Result<
        Option<int>,
        Fault,
    > {
        let x_i = get3(xp, i);
        let correction = x_i.times(3).times(burn_amount).over(self.total_supply);
        let x = set3(xp, i, x_i.minus(correction));
        if correction < x_i {
            crypto_fee_model(seq![x.0, x.1, x.2], self.mid_fee, self.out_fee, self.fee_gamma)
        } else {
            Ok(Some(self.out_fee))
        }
    }

    /// The state after `burn_amount` pool tokens have been burnt for `coin_amount` of coin `i`, and the
    /// invariant. Nothing changes where there is no such coin or no pool token, where the fee takes all,
    /// where the solver has no answer, or where the amount is not what the pool would pay.
    pub open spec fn removed(self, burn_amount: int, i: int, coin_amount: int, now: int) -> Result<
        (TriNG, Option<int>),
        Fault,
    > {
        let xp = self.withdraw_units();
        let x_i = get3(xp, i);
        let dd = burn_amount.times(self.d).over(self.total_supply);
        if i >= 3 || self.total_supply == 0 {
            Ok((self, None))
        } else {
            match self.withdraw_fee(xp, i, burn_amount) {
                Err(e) => Err(e),
                Ok(None) => Ok((self, None)),
                Ok(Some(fee)) => {
                    let d_fee = fee.times(dd).over(2int.times(FEE_DENOMINATOR as int)).plus(1);
                    let d = self.d.minus(dd.minus(d_fee));
                    if d_fee >= dd {
                        Ok((self, None))
                    } else {
                        match get_y_3_model(self.ann, self.gamma, xp, d, i) {
                            Err(e) => Err(e),
                            Ok(None) => Ok((self, None)),
                            Ok(Some((y, _))) => {
                                let dy = x_i.minus(y).times(WAD as int).over(self.unit_price(i));
                                let s = TriNG {
                                    balances: set3(
                                        self.balances,
                                        i,
                                        get3(self.balances, i).minus(coin_amount),
                                    ),
                                    total_supply: self.total_supply.minus(burn_amount),
                                    ..self
                                };
                                if x_i <= y {
                                    Ok((self, None))
                                } else if self.unit_price(i) == 0 {
                                    Err(Fault)
                                } else if dy != coin_amount {
                                    Ok((self, None))
                                } else {
                                    match s.tweaked(set3(xp, i, y), d, 0, now) {
                                        Err(e) => Err(e),
                                        Ok(s2) => Ok((s2, Some(s2.d))),
                                    }
                                }
                            },
                        }
                    }
                },
            }
        }
    }
}

impl TriCryptoNGState {
    /// The state with `D` solved anew while the parameters change: see [`TriNG::ramped`].
    fn ramp(&self, xp: [U256; 3], i: usize, x0: U256, now: u64) -> (r: Result<
        Option<TriCryptoNGState>,
        Fault,
    >)
        requires
            i < 3,
        ensures
            self@.ramped(triple(xp), i as int, x0@, now as int) == match r {
                Ok(Some(s)) => Ok::<_, Fault>(Some(s@)),
                Ok(None) => Ok(None),
                Err(e) => Err(e),
            },
    {
        let t = self.future_a_gamma_time;
        proof {
            lemma_word_range(t);
        }
        if t > U256::zero() && U256::from(now) < t {
            let before = put3(xp, i, to_units(x0, self.precisions[i], self.scale_at(i)));
            match try_newton_d(self.ann, self.gamma, before, U256::zero())? {
                None => Ok(None),
                Some(d) => {
                    let mut s = *self;
                    s.d = d;
                    Ok(Some(s))
                },
            }
        } else {
            Ok(Some(*self))
        }
    }

    /// The state after a payout, and the payout: see [`TriNG::paid`].
    fn pay(&self, xp: [U256; 3], j: usize, y: U256, k0_prev: U256, now: u64) -> (r: Result<
        (TriCryptoNGState, ExchangeResult),
        Fault,
    >)
        requires
            j < 3,
        ensures
            self@.paid(triple(xp), j as int, y@, k0_prev@, now as int) == match r {
                Ok((s, out)) => Ok::<_, Fault>((s@, (out.dy@, out.fee@))),
                Err(e) => Err(e),
            },
    {
        let prec_j = self.precisions[j];
        let xp1 = put3(xp, j, y);
        let out = gross(xp[j], y, prec_j, self.scale_at(j))?;
        let rate = fee_3(&xp1, self.mid_fee, self.out_fee, self.fee_gamma)?;
        let fee = fee_at(rate, out);
        let dy = out - fee;
        let left = self.balances[j] - dy;
        let xp2 = put3(xp1, j, to_units(left, prec_j, self.scale_at(j)));
        let mut s = *self;
        s.balances = put3(self.balances, j, left);
        s.tweak_price(xp2, U256::zero(), k0_prev, now)?;
        Ok((s, ExchangeResult { dy, fee }))
    }

    /// Exchanges `dx` of coin `i` for coin `j`; where [`TriCryptoNGState::exchange`] is not defined, a
    /// fault, and the state stays as it is.
    pub fn try_exchange(&mut self, i: usize, j: usize, dx: U256, block_timestamp: u64) -> (r: Result<
        Option<ExchangeResult>,
        Fault,
    >)
        ensures
            match old(self)@.exchanged(i as int, j as int, dx@, block_timestamp as int) {
                Ok((s, out)) => final(self)@ == s && payout_outcome(r) == Ok::<_, Fault>(out),
                Err(_) => r is Err && *final(self) == *old(self),
            },
    {
        if i == j || i >= 3 || j >= 3 || dx.is_zero() {
            return Ok(None);
        }
        let mut s = *self;
        let x0 = s.balances[i];
        s.balances = put3(s.balances, i, x0 + dx);
        let xp = s.common_units();
        match s.ramp(xp, i, x0, block_timestamp)? {
            None => {
                *self = s;
                Ok(None)
            },
            Some(s2) => match try_get_y_3_ng(s2.ann, s2.gamma, xp, s2.d, j)? {
                None => {
                    *self = s2;
                    Ok(None)
                },
                Some((y, k0_prev)) => {
                    let (s3, out) = s2.pay(xp, j, y, k0_prev, block_timestamp)?;
                    *self = s3;
                    Ok(Some(out))
                },
            },
        }
    }

    /// Exchanges `dx` of coin `i` for coin `j` and brings the state up to date: `None` where there is
    /// nothing to exchange between two coins of the pool, or where a solver has no answer.
    pub fn exchange(&mut self, i: usize, j: usize, dx: U256, block_timestamp: u64) -> (r: Option<
        ExchangeResult,
    >)
        requires
            old(self)@.exchanged(i as int, j as int, dx@, block_timestamp as int) is Ok,
        ensures
            Ok::<_, Fault>((final(self)@, payout(r))) == old(self)@.exchanged(
                i as int,
                j as int,
                dx@,
                block_timestamp as int,
            ),
    {
        match self.try_exchange(i, j, dx, block_timestamp) {
            Ok(r) => r,
            Err(_) => None,
        }
    }

    /// The balances in common units, as a withdrawal takes them: see [`TriNG::withdraw_units`].
    fn units_to_withdraw(&self) -> (r: [U256; 3])
        ensures
            triple(r) == self@.withdraw_units(),
    {
        let w = U256::from(WAD);
        [
            self.precisions[0] * self.balances[0],
            self.precisions[1] * self.balances[1] * self.price_scale[0] / w,
            self.precisions[2] * self.balances[2] * self.price_scale[1] / w,
        ]
    }

    /// The fee rate on a withdrawal: see [`TriNG::withdraw_fee`].
    fn fee_to_withdraw(&self, xp: [U256; 3], i: usize, burn_amount: U256) -> (r: Result<
        Option<U256>,
        Fault,
    >)
        requires
            i < 3,
            self@.total_supply != 0,
        ensures
            outcome(r) == self@.withdraw_fee(triple(xp), i as int, burn_amount@),
    {
        let correction = xp[i] * U256::from(3u64) * burn_amount / self.total_supply;
        if correction < xp[i] {
            let x = put3(xp, i, xp[i] - correction);
            assert(numbers(x@) =~= seq![triple(x).0, triple(x).1, triple(x).2]);
            try_crypto_fee(&x, self.mid_fee, self.out_fee, self.fee_gamma)
        } else {
            Ok(Some(self.out_fee))
        }
    }

    /// What a unit of coin `i` is worth: see [`TriNG::unit_price`].
    fn price_of_unit(&self, i: usize) -> (r: U256)
        requires
            i < 3,
        ensures
            r@ == self@.unit_price(i as int),
    {
        if i == 0 {
            U256::from(WAD) * self.precisions[0]
        } else {
            self.price_scale[i - 1] * self.precisions[i]
        }
    }

    /// Removes liquidity in one coin; where [`TriCryptoNGState::apply_remove_liquidity_one`] is not
    /// defined, a fault, and the state stays as it is.
    pub fn try_apply_remove_liquidity_one(
        &mut self,
        burn_amount: U256,
        coin_index: usize,
        coin_amount: U256,
        block_timestamp: u64,
    ) -> (r: Result<Option<U256>, Fault>)
        ensures
            match old(self)@.removed(
                burn_amount@,
                coin_index as int,
                coin_amount@,
                block_timestamp as int,
            ) {
                Ok((s, d)) => final(self)@ == s && outcome(r) == Ok::<_, Fault>(d),
                Err(_) => r is Err && *final(self) == *old(self),
            },
    {
        let i = coin_index;
        if i >= 3 || self.total_supply.is_zero() {
            return Ok(None);
        }
        let mut s = *self;
        let xp = s.units_to_withdraw();
        let fee = match s.fee_to_withdraw(xp, i, burn_amount)? {
            Some(v) => v,
            None => {
                return Ok(None);
            },
        };
        let dd = burn_amount * s.d / s.total_supply;
        proof {
            lemma_times(2, FEE_DENOMINATOR as int);
        }
        let d_fee = fee * dd / (U256::from(2u64) * U256::from(FEE_DENOMINATOR)) + U256::from(1u64);
        if d_fee >= dd {
            return Ok(None);
        }
        let d = s.d - (dd - d_fee);
        match try_get_y_3_ng(s.ann, s.gamma, xp, d, i)? {
            None => Ok(None),
            Some((y, _)) => {
                if xp[i] <= y {
                    return Ok(None);
                }
                let dy = ((xp[i] - y) * U256::from(WAD)).div_by(s.price_of_unit(i))?;
                if dy != coin_amount {
                    return Ok(None);
                }
                s.balances = put3(s.balances, i, s.balances[i] - coin_amount);
                s.total_supply = s.total_supply - burn_amount;
                s.tweak_price(put3(xp, i, y), d, U256::zero(), block_timestamp)?;
                *self = s;
                Ok(Some(s.d))
            },
        }
    }

    /// Burns `burn_amount` pool tokens for `coin_amount` of one coin and brings the state up to date.
    /// Returns the invariant after it. `None`, with the state as it was, where there is no such coin or no
    /// pool token, where the fee takes all, where the solver has no answer, or where `coin_amount` is not
    /// what the pool would pay.
    pub fn apply_remove_liquidity_one(
        &mut self,
        burn_amount: U256,
        coin_index: usize,
        coin_amount: U256,
        block_timestamp: u64,
    ) -> (r: Option<U256>)
        requires
            old(self)@.removed(
                burn_amount@,
                coin_index as int,
                coin_amount@,
                block_timestamp as int,
            ) is Ok,
        ensures
            Ok::<_, Fault>((final(self)@, number(r))) == old(self)@.removed(
                burn_amount@,
                coin_index as int,
                coin_amount@,
                block_timestamp as int,
            ),
    {
        match self.try_apply_remove_liquidity_one(
            burn_amount,
            coin_index,
            coin_amount,
            block_timestamp,
        ) {
            Ok(r) => r,
            Err(_) => None,
        }
    }
}

impl TriNG {
    /// Whether two states have the same parameters: all that no operation of the pool changes.
    pub open spec fn same_parameters(self, other: TriNG) -> bool {
        &&& self.xcp_profit_a == other.xcp_profit_a
        &&& self.admin_lp_virtual_balance == other.admin_lp_virtual_balance
        &&& self.is_weth_variant == other.is_weth_variant
        &&& self.ann == other.ann
        &&& self.gamma == other.gamma
        &&& self.mid_fee == other.mid_fee
        &&& self.out_fee == other.out_fee
        &&& self.fee_gamma == other.fee_gamma
        &&& self.precisions == other.precisions
        &&& self.allowed_extra_profit == other.allowed_extra_profit
        &&& self.adjustment_step == other.adjustment_step
        &&& self.ma_time == other.ma_time
        &&& self.future_a_gamma_time == other.future_a_gamma_time
    }

    /// Whether the virtual price would fall with the invariant `d` while the parameters do not change.
    pub open spec fn falls_at(self, d: int, now: int) -> bool {
        &&& self.virtual_price > 0
        &&& self.future_a_gamma_time < now
        &&& self.total_supply > 0
        &&& even_split_3(d, self.price_scale) matches Ok(even)
        &&& (WAD as int).times(geometric_mean_3_model(even)).over(self.total_supply) < self.virtual_price
    }

    /// Whether two states have the same prices.
    pub open spec fn same_prices(self, other: TriNG) -> bool {
        &&& self.price_scale == other.price_scale
        &&& self.price_oracle == other.price_oracle
        &&& self.last_prices == other.last_prices
        &&& self.last_prices_timestamp == other.last_prices_timestamp
    }
}

/// Bringing the state up to date leaves the balances, the supply and the parameters as they are and
/// moves the time of the moving averages forward to now. The virtual price does not fall, unless the
/// parameters change or the price scales have moved and more than half of the profit is kept.
pub proof fn law_tweak(s: TriNG, xp: (int, int, int), new_d: int, k0_prev: int, now: int)
    ensures
        s.tweaked(xp, new_d, k0_prev, now) matches Ok(t) ==> {
            &&& t.balances == s.balances
            &&& t.total_supply == s.total_supply
            &&& t.same_parameters(s)
            &&& t.last_prices_timestamp == larger(s.last_prices_timestamp, now)
            &&& s.virtual_price > 0 ==> {
                ||| t.virtual_price >= s.virtual_price
                ||| s.future_a_gamma_time >= now
                ||| keeps_profit(t.virtual_price, t.xcp_profit)
            }
        },
{
}

/// Where the virtual price would fall while the parameters do not change, the invariant, the virtual
/// price, the profit, the profit already shared and the price scales stay as they were.
pub proof fn law_no_loss(s: TriNG, xp: (int, int, int), new_d: int, k0_prev: int, now: int)
    requires
        s.invariant_at(xp, new_d, k0_prev) matches Ok(d) && s.falls_at(d, now),
    ensures
        s.tweaked(xp, new_d, k0_prev, now) matches Ok(t) ==> {
            &&& t.d == s.d
            &&& t.virtual_price == s.virtual_price
            &&& t.xcp_profit == s.xcp_profit
            &&& t.xcp_profit_a == s.xcp_profit_a
            &&& t.price_scale == s.price_scale
        },
{
}

/// A request for an exchange of nothing, of a coin for itself or of a coin that the pool does not have
/// is refused, and the state stays as it is.
pub proof fn law_exchange_refused(s: TriNG, i: usize, j: usize, dx: U256, now: u64)
    requires
        i == j || i >= 3 || j >= 3 || dx@ == 0,
    ensures
        s.exchanged(i as int, j as int, dx@, now as int) == Ok::<_, Fault>(
            (s, None::<(int, int)>),
        ),
{
}

proof fn lemma_paid(s: TriNG, xp: (int, int, int), j: int, y: int, k0_prev: int, now: int)
    ensures
        s.paid(xp, j, y, k0_prev, now) matches Ok((t, (dy, fee))) ==> {
            &&& t.same_parameters(s)
            &&& t.total_supply == s.total_supply
            &&& t.balances == set3(s.balances, j, get3(s.balances, j).minus(dy))
            &&& t.last_prices_timestamp == larger(s.last_prices_timestamp, now)
        },
{
}

proof fn lemma_ramped(s: TriNG, xp: (int, int, int), i: int, x0: int, now: int)
    ensures
        s.ramped(xp, i, x0, now) matches Ok(Some(t)) ==> t == (TriNG { d: t.d, ..s }),
{
}

/// An exchange adds what comes in to the balance of the first coin, takes what goes out from that of the
/// second, and leaves the third balance, the supply and the parameters as they are; the moving averages
/// are brought up to now. Where a solver has no answer, what came in stays in the pool and the
/// prices, the profit and the virtual price stay as they were.
pub proof fn law_exchange(s: TriNG, i: usize, j: usize, k: usize, dx: U256, now: u64)
    requires
        i < 3,
        j < 3,
        k < 3,
        i != j,
        i != k,
        j != k,
        dx@ != 0,
    ensures
        s.exchanged(i as int, j as int, dx@, now as int) matches Ok((t, out)) ==> {
            &&& t.same_parameters(s)
            &&& t.total_supply == s.total_supply
            &&& get3(t.balances, i as int) == get3(s.balances, i as int).plus(dx@)
            &&& get3(t.balances, k as int) == get3(s.balances, k as int)
            &&& match out {
                Some((dy, fee)) => {
                    &&& get3(t.balances, j as int) == get3(s.balances, j as int).minus(dy)
                    &&& t.last_prices_timestamp == larger(s.last_prices_timestamp, now as int)
                },
                None => {
                    &&& get3(t.balances, j as int) == get3(s.balances, j as int)
                    &&& t.same_prices(s)
                    &&& t.xcp_profit == s.xcp_profit
                    &&& t.virtual_price == s.virtual_price
                },
            }
        },
{
    let x0 = get3(s.balances, i as int);
    let s1 = TriNG { balances: set3(s.balances, i as int, x0.plus(dx@)), ..s };
    let xp = s1.normalized();
    lemma_ramped(s1, xp, i as int, x0, now as int);
    if let Ok(Some(s2)) = s1.ramped(xp, i as int, x0, now as int) {
        if let Ok(Some((y, k0_prev))) = get_y_3_model(s2.ann, s2.gamma, xp, s2.d, j as int) {
            lemma_paid(s2, xp, j as int, y, k0_prev, now as int);
        }
    }
}

/// Removing liquidity in one coin takes the amount from the balance of that coin and the tokens from the
/// supply, and leaves the other balances and the parameters as they are; what it returns is the invariant
/// of the new state. Where it is refused, the state stays as it is, and it is refused for a coin that
/// the pool does not have and without pool tokens.
pub proof fn law_remove_liquidity_one(
    s: TriNG,
    burn_amount: U256,
    i: usize,
    coin_amount: U256,
    now: u64,
)
    ensures
        s.removed(burn_amount@, i as int, coin_amount@, now as int) matches Ok((t, d)) ==> {
            &&& d is None ==> t == s
            &&& d is Some ==> {
                &&& d == Some(t.d)
                &&& i < 3
                &&& s.total_supply != 0
                &&& t.same_parameters(s)
                &&& t.balances == set3(
                    s.balances,
                    i as int,
                    get3(s.balances, i as int).minus(coin_amount@),
                )
                &&& t.total_supply == s.total_supply.minus(burn_amount@)
                &&& t.last_prices_timestamp == larger(s.last_prices_timestamp, now as int)
            }
        },
        i >= 3 || s.total_supply == 0 ==> s.removed(
            burn_amount@,
            i as int,
            coin_amount@,
            now as int,
        ) == Ok::<_, Fault>((s, None::<int>)),
{
}

/// The fee lies between the two rates, and an even split pays the first one, as long as the products are
/// words.
pub proof fn law_fee(x: [U256; 3], mid_fee: U256, out_fee: U256, fee_gamma: U256)
    requires
        0 < x[0]@ + x[1]@ + x[2]@,
        27_000_000_000_000_000_000 * (x[0]@ + x[1]@ + x[2]@) < modulus(),
        mid_fee@ <= out_fee@,
        out_fee@ * WAD < modulus(),
        fee_gamma@ * WAD < modulus(),
    ensures
        fee_3_model(triple(x), mid_fee@, out_fee@, fee_gamma@) matches Ok(v) && mid_fee@ <= v
            <= out_fee@ && (x[0]@ == x[1]@ == x[2]@ ==> v == mid_fee@),
{
    lemma_word_range(x[0]);
    lemma_word_range(x[1]);
    lemma_word_range(x[2]);
    lemma_word_range(mid_fee);
    lemma_word_range(fee_gamma);
    lemma_plus(x[0]@, x[1]@);
    lemma_plus(x[0]@ + x[1]@, x[2]@);
    lemma_evenness_3(triple(x));
    lemma_weighted(mid_fee@, out_fee@, fee_gamma@, evenness_3(triple(x)));
}

/// Each moving average stays between the last price, taken for at most twice the price scale, and its old
/// value, as long as the products with ten to the eighteenth are words.
pub proof fn law_average(s: TriCryptoNGState, now: u64)
    requires
        s.ma_time@ != 0,
        larger(s.last_prices[0]@, s.price_oracle[0]@) * WAD < modulus(),
        larger(s.last_prices[1]@, s.price_oracle[1]@) * WAD < modulus(),
        2 * s.price_scale[0]@ < modulus(),
        2 * s.price_scale[1]@ < modulus(),
    ensures
        ({
            let p0 = smaller(s.last_prices[0]@, 2 * s.price_scale[0]@);
            let p1 = smaller(s.last_prices[1]@, 2 * s.price_scale[1]@);
            s.last_prices_timestamp < now ==> (s@.with_average(now as int) matches Ok(t) && smaller(
                p0,
                s.price_oracle[0]@,
            ) <= t.price_oracle.0 <= larger(p0, s.price_oracle[0]@) && smaller(
                p1,
                s.price_oracle[1]@,
            ) <= t.price_oracle.1 <= larger(p1, s.price_oracle[1]@))
        }),
        s.last_prices_timestamp >= now ==> s@.with_average(now as int) == Ok::<_, Fault>(s@),
{
    lemma_word_range(s.last_prices[0]);
    lemma_word_range(s.last_prices[1]);
    lemma_word_range(s.price_oracle[0]);
    lemma_word_range(s.price_oracle[1]);
    lemma_word_range(s.price_scale[0]);
    lemma_word_range(s.price_scale[1]);
    if s.last_prices_timestamp < now {
        let dt = now - s.last_prices_timestamp;
        law_decay((now - s.last_prices_timestamp) as u64, s.ma_time);
        let alpha = decay(dt, s.ma_time@)->Ok_0;
        lemma_times(2, s.price_scale[0]@);
        lemma_times(2, s.price_scale[1]@);
        let p0 = smaller(s.last_prices[0]@, 2 * s.price_scale[0]@);
        let p1 = smaller(s.last_prices[1]@, 2 * s.price_scale[1]@);
        lemma_average_between(p0, s.price_oracle[0]@, alpha);
        lemma_average_between(p1, s.price_oracle[1]@, alpha);
    }
}

} // verus!
