use vstd::prelude::*;

use crate::types::{EnergyAmount, Payment, RewardsError, TokenId, energy_weight, energy_weight_of};

verus! {

/// Denominator of the basis-point fractions in `BoostConfig`.
pub const MAX_PERCENT: u64 = 10_000;

/// Static boost configuration, in basis points of `MAX_PERCENT`.
#[derive(Clone, Copy, Debug, PartialEq, Eq, Structural)]
pub struct BoostConfig {
    /// The least boost factor (energy share over stake share), in basis points.
    pub min_boost_bps: u64,
    /// The largest boost factor (energy share over stake share), in basis points.
    pub max_boost_bps: u64,
    /// The part of the boosted reward that is paid out.
    pub boost_weight_bps: u64,
}

impl BoostConfig {
    pub open spec fn wf(&self) -> bool {
        &&& self.min_boost_bps <= self.max_boost_bps
        &&& self.boost_weight_bps <= MAX_PERCENT
        &&& self.max_boost_bps * MAX_PERCENT <= u64::MAX
    }
}

/// The participant's energy share divided by their stake share, clamped to the configured
/// bounds, as the integer numerator `X` of `X / (total_energy * stake * MAX_PERCENT)`:
/// `clamp(energy * total_stake * MAX_PERCENT, total_energy * stake * min, total_energy * stake * max)`.
/// With no total energy the energy share is zero (and `total_energy` counts as 1).
pub open spec fn boost_scaled(cfg: BoostConfig, energy: int, total_energy: int, stake: int, total_stake: int) -> int {
    let e = if total_energy == 0 { 0 } else { energy };
    let te = if total_energy == 0 { 1 } else { total_energy };
    let x = e * total_stake * MAX_PERCENT;
    let lo = te * stake * cfg.min_boost_bps;
    let hi = te * stake * cfg.max_boost_bps;
    if x < lo {
        lo
    } else if x > hi {
        hi
    } else {
        x
    }
}

/// The boosted reward, rounded down once: `rate * clamp(energy_share / stake_share, min, max)
/// * weight`, where `rate` is the participant's own reward rate, `energy_share =
/// energy / total_energy` (zero without total energy) and `stake_share = stake / total_stake`.
/// By cross-multiplication this is `rate * X * weight / (total_energy * stake * MAX_PERCENT^2)`
/// with `X` from `boost_scaled`. Without stake the ratio is taken as unbounded when the
/// participant has energy (the maximum boost applies) and as zero otherwise (the minimum).
pub open spec fn boosted_amount(
    cfg: BoostConfig,
    rate: nat,
    energy: nat,
    total_energy: nat,
    stake: nat,
    total_stake: nat,
) -> nat {
    let e: int = if total_energy == 0 { 0 } else { energy as int };
    let te: int = if total_energy == 0 { 1 } else { total_energy as int };
    if stake == 0 {
        let f: int = if e > 0 { cfg.max_boost_bps as int } else { cfg.min_boost_bps as int };
        (rate * f * cfg.boost_weight_bps / (MAX_PERCENT * MAX_PERCENT)) as nat
    } else {
        let x = boost_scaled(cfg, energy as int, total_energy as int, stake as int, total_stake as int);
        (rate * x * cfg.boost_weight_bps / (te * stake * (MAX_PERCENT * MAX_PERCENT))) as nat
    }
}

/// `a * x / d`, floored, for a fraction `x / d` below one; every intermediate stays in
/// `u128` (binary multiplication with the remainders kept below `d`).
fn mul_frac(a: u128, x: u128, d: u128) -> (r: u128)
    requires
        x < d,
    ensures
        r == (a as int * x as int) / (d as int),
{
    let mut cur: u128 = a;
    let mut q: u128 = 0;
    let mut rem: u128 = 0;
    let mut tq: u128 = 0;
    let mut tr: u128 = x;
    let ghost mut pw: int = 1;
    let ghost mut low: int = 0;
    while cur > 0
        invariant
            x < d,
            pw >= 1,
            0 <= low < pw,
            a == cur * pw + low,
            q * d + rem == low * x,
            rem < d,
            q <= low,
            cur > 0 ==> tq * d + tr == pw * x && tr < d && tq < pw,
        decreases cur,
    {
        let ghost (q0, r0, tq0, tr0, pw0, low0, cur0) = (q as int, rem as int, tq as int, tr as int, pw, low, cur as int);
        proof {
            assert(pw0 + low0 <= a) by (nonlinear_arith)
                requires a == cur0 * pw0 + low0, cur0 >= 1, pw0 >= 1, low0 >= 0;
        }
        let bit = cur % 2;
        if bit == 1 {
            if rem >= d - tr {
                q = q + tq + 1;
                rem = rem - (d - tr);
                proof {
                    assert(q * d + rem == (low0 + pw0) * x) by (nonlinear_arith)
                        requires q == q0 + tq0 + 1, rem == r0 + tr0 - d, q0 * d + r0 == low0 * x,
                            tq0 * d + tr0 == pw0 * x;
                }
            } else {
                q = q + tq;
                rem = rem + tr;
                proof {
                    assert(q * d + rem == (low0 + pw0) * x) by (nonlinear_arith)
                        requires q == q0 + tq0, rem == r0 + tr0, q0 * d + r0 == low0 * x,
                            tq0 * d + tr0 == pw0 * x;
                }
            }
            proof {
                low = low0 + pw0;
            }
        }
        cur = cur / 2;
        if cur > 0 {
            proof {
                assert(2 * pw0 <= a) by (nonlinear_arith)
                    requires a == cur0 * pw0 + low0, cur0 >= 2, pw0 >= 1, low0 >= 0;
            }
            if tr >= d - tr {
                tq = tq + tq + 1;
                tr = tr - (d - tr);
            } else {
                tq = tq + tq;
                tr = tr + tr;
            }
            proof {
                assert(tq * d + tr == (2 * pw0) * x) by (nonlinear_arith)
                    requires tq0 * d + tr0 == pw0 * x,
                        tq == 2 * tq0 + 1 && tr == 2 * tr0 - d || tq == 2 * tq0 && tr == 2 * tr0;
                assert(tq < 2 * pw0) by (nonlinear_arith)
                    requires tq * d + tr == (2 * pw0) * x, x < d, tr >= 0, pw0 >= 1;
            }
        }
        proof {
            pw = 2 * pw0;
            assert(a == cur * pw + low) by (nonlinear_arith)
                requires a == cur0 * pw0 + low0, cur0 == 2 * cur + bit, pw == 2 * pw0,
                    low == low0 + bit * pw0, bit == 0 || bit == 1;
            assert(q <= low) by (nonlinear_arith)
                requires q * d + rem == low * x, x < d, low >= 0, rem >= 0, q >= 0;
        }
    }
    proof {
        assert(q == (a as int * x as int) / (d as int)) by (nonlinear_arith)
            requires q * d + rem == a * x, 0 <= rem < d, q >= 0;
    }
    q
}


/// `f(x) = rate * x * w / den` keeps the order of its argument.
proof fn lemma_scaled_ordered(rate: int, w: int, den: int, x: int, y: int)
    requires
        rate >= 0,
        w >= 0,
        den > 0,
        x <= y,
    ensures
        rate * x * w / den <= rate * y * w / den,
{
    assert(rate * x * w <= rate * y * w) by (nonlinear_arith)
        requires rate >= 0, w >= 0, x <= y;
    vstd::arithmetic::div_mod::lemma_div_is_ordered(rate * x * w, rate * y * w, den);
}

/// `(k * a) / (k * d) == a / d`, with the products arranged as the boost terms need.
proof fn lemma_cancel(k: int, a: int, d: int)
    requires
        k > 0,
        a >= 0,
        d > 0,
    ensures
        (k * a) / (k * d) == a / d,
{
    vstd::arithmetic::div_mod::lemma_div_multiples_vanish_quotient(k, a, d);
}

/// Secondary, energy-boosted reward stream, paid from a pre-funded reserve.
pub struct ClaimBoostOnlyModule {
    pub config: BoostConfig,
    pub reward_token_id: TokenId,
    pub reward_reserve: u128,
}

impl ClaimBoostOnlyModule {
    pub fn new(config: BoostConfig, reward_token_id: TokenId) -> (r: ClaimBoostOnlyModule)
        requires
            config.wf(),
        ensures
            r.config == config,
            r.reward_token_id == reward_token_id,
            r.reward_reserve == 0,
    {
        ClaimBoostOnlyModule { config, reward_token_id, reward_reserve: 0 }
    }

    /// Adds `amount` to the reserve.
    pub fn deposit_rewards(&mut self, amount: u128) -> (r: Result<(), RewardsError>)
        ensures
            r is Err <==> old(self).reward_reserve + amount > u128::MAX,
            r is Err ==> r == Err::<(), RewardsError>(RewardsError::Overflow) && *final(self) == *old(self),
            r is Ok ==> final(self).reward_reserve == old(self).reward_reserve + amount,
            final(self).config == old(self).config,
            final(self).reward_token_id == old(self).reward_token_id,
    {
        match self.reward_reserve.checked_add(amount) {
            Some(v) => {
                self.reward_reserve = v;
                Ok(())
            },
            None => Err(RewardsError::Overflow),
        }
    }

    /// The boosted reward of a participant with `energy` out of `total_energy` and a stake
    /// of `stake` out of `total_stake`, whose own reward rate is `reward_rate`, rounded
    /// down once (see `boosted_amount`).
    pub fn calculate_boosted_rewards(
        &self,
        energy: EnergyAmount,
        total_energy: u64,
        reward_rate: u64,
        stake: u64,
        total_stake: u64,
    ) -> (r: u128)
        requires
            self.config.wf(),
        ensures
            r == boosted_amount(
                self.config,
                reward_rate as nat,
                energy_weight(energy as int),
                total_energy as nat,
                stake as nat,
                total_stake as nat,
            ),
    {
        let cfg = self.config;
        let ew = energy_weight_of(energy);
        let (e, te): (u64, u64) = if total_energy == 0 {
            (0, 1)
        } else {
            (ew, total_energy)
        };
        let w = cfg.boost_weight_bps;
        let ghost (ri, si, tsi, tei, ei, wi) = (
            reward_rate as int,
            stake as int,
            total_stake as int,
            te as int,
            e as int,
            w as int,
        );
        proof {
            assert(ri * wi <= ri * MAX_PERCENT) by (nonlinear_arith)
                requires wi <= MAX_PERCENT, ri >= 0;
            assert(ri * wi * cfg.max_boost_bps <= u64::MAX * u64::MAX) by (nonlinear_arith)
                requires ri * wi <= ri * MAX_PERCENT, cfg.max_boost_bps * MAX_PERCENT <= u64::MAX,
                    ri <= u64::MAX, ri >= 0, wi >= 0;
            assert(ri * wi * cfg.min_boost_bps <= ri * wi * cfg.max_boost_bps) by (nonlinear_arith)
                requires cfg.min_boost_bps <= cfg.max_boost_bps, ri >= 0, wi >= 0;
        }
        let rw: u128 = (reward_rate as u128) * (w as u128);
        let low: u128 = rw * (cfg.min_boost_bps as u128) / 100_000_000;
        let high: u128 = rw * (cfg.max_boost_bps as u128) / 100_000_000;
        proof {
            vstd::arithmetic::div_mod::lemma_div_is_ordered(
                rw * cfg.min_boost_bps,
                rw * cfg.max_boost_bps,
                100_000_000,
            );
        }
        if stake == 0 {
            proof {
                assert(ri * cfg.max_boost_bps * wi == rw * cfg.max_boost_bps) by (nonlinear_arith)
                    requires rw == ri * wi;
                assert(ri * cfg.min_boost_bps * wi == rw * cfg.min_boost_bps) by (nonlinear_arith)
                    requires rw == ri * wi;
            }
            return if e > 0 {
                high
            } else {
                low
            };
        }
        let ghost den = tei * si * (MAX_PERCENT * MAX_PERCENT);
        let ghost lo_x = tei * si * cfg.min_boost_bps;
        let ghost hi_x = tei * si * cfg.max_boost_bps;
        let ghost mid_x = ei * tsi * MAX_PERCENT;
        proof {
            assert(ei * tsi <= u64::MAX * u64::MAX) by (nonlinear_arith)
                requires 0 <= ei <= u64::MAX, 0 <= tsi <= u64::MAX;
            assert(tei * si <= u64::MAX * u64::MAX && tei * si > 0) by (nonlinear_arith)
                requires 1 <= tei <= u64::MAX, 1 <= si <= u64::MAX;
        }
        let p: u128 = (e as u128) * (total_stake as u128);
        let qd: u128 = (te as u128) * (stake as u128);
        let qr: u128 = p / qd;
        let rr: u128 = p % qd;
        proof {
            // the bounds are the single-floor formula at the clamp's bounds
            assert(ri * lo_x * wi == (tei * si) * (rw * cfg.min_boost_bps)) by (nonlinear_arith)
                requires lo_x == tei * si * cfg.min_boost_bps, rw == ri * wi;
            assert(ri * hi_x * wi == (tei * si) * (rw * cfg.max_boost_bps)) by (nonlinear_arith)
                requires hi_x == tei * si * cfg.max_boost_bps, rw == ri * wi;
            assert(den == (tei * si) * 100_000_000) by (nonlinear_arith)
                requires den == tei * si * (MAX_PERCENT * MAX_PERCENT);
            lemma_cancel(tei * si, rw * cfg.min_boost_bps, 100_000_000);
            lemma_cancel(tei * si, rw * cfg.max_boost_bps, 100_000_000);
            assert(low == ri * lo_x * wi / den);
            assert(high == ri * hi_x * wi / den);
            assert(lo_x <= hi_x) by (nonlinear_arith)
                requires lo_x == tei * si * cfg.min_boost_bps, hi_x == tei * si * cfg.max_boost_bps,
                    cfg.min_boost_bps <= cfg.max_boost_bps, si >= 0, tei >= 0;
            assert(den > 0) by (nonlinear_arith)
                requires den == tei * si * (MAX_PERCENT * MAX_PERCENT), tei > 0, si > 0;
            assert(p == qr * qd + rr) by (nonlinear_arith)
                requires qr == p / qd, rr == p % qd, qd > 0;
            assert(mid_x == p * MAX_PERCENT) by (nonlinear_arith)
                requires mid_x == ei * tsi * MAX_PERCENT, p == ei * tsi;
        }
        if qr >= cfg.max_boost_bps as u128 || qr * (MAX_PERCENT as u128) >= cfg.max_boost_bps as u128 {
            proof {
                assert(mid_x >= hi_x) by (nonlinear_arith)
                    requires mid_x == p * MAX_PERCENT, p == qr * qd + rr, rr >= 0,
                        qr * MAX_PERCENT >= cfg.max_boost_bps, qd == tei * si, hi_x == tei * si * cfg.max_boost_bps,
                        qd > 0;
            }
            return high;
        }
        proof {
            assert(rw * qr + rw <= rw * cfg.max_boost_bps) by (nonlinear_arith)
                requires qr < cfg.max_boost_bps, rw >= 0;
            assert((rw as int * rr as int) / (qd as int) <= rw) by (nonlinear_arith)
                requires rr < qd, rw >= 0, qd > 0, rr >= 0;
        }
        let whole: u128 = rw * qr;
        let frac: u128 = mul_frac(rw, rr, qd);
        assert(whole + frac <= rw * cfg.max_boost_bps);
        let mid: u128 = (whole + frac) / (MAX_PERCENT as u128);
        proof {
            // the middle value is the single-floor formula at the energy ratio
            vstd::arithmetic::div_mod::lemma_hoist_over_denominator(rw * rr, rw * qr, qd as nat);
            assert(rw * p == rw * rr + (rw * qr) * qd) by (nonlinear_arith)
                requires p == qr * qd + rr;
            vstd::arithmetic::div_mod::lemma_div_denominator(rw * p, qd as int, MAX_PERCENT as int);
            assert(ri * mid_x * wi == MAX_PERCENT * (rw * p)) by (nonlinear_arith)
                requires mid_x == p * MAX_PERCENT, rw == ri * wi;
            assert(den == MAX_PERCENT * (qd * MAX_PERCENT)) by (nonlinear_arith)
                requires den == tei * si * (MAX_PERCENT * MAX_PERCENT), qd == tei * si;
            assert(rw * p >= 0) by (nonlinear_arith)
                requires rw >= 0, p >= 0;
            lemma_cancel(MAX_PERCENT as int, rw * p, qd * MAX_PERCENT);
            assert(mid == ri * mid_x * wi / den);
        }
        let amount: u128 = if mid < low {
            low
        } else if mid > high {
            high
        } else {
            mid
        };
        proof {
            let x = boost_scaled(cfg, ew as int, total_energy as int, si, tsi);
            assert(x == if mid_x < lo_x { lo_x } else if mid_x > hi_x { hi_x } else { mid_x });
            lemma_scaled_ordered(ri, wi, den, lo_x, hi_x);
            if mid_x < lo_x {
                lemma_scaled_ordered(ri, wi, den, mid_x, lo_x);
            } else if mid_x > hi_x {
                lemma_scaled_ordered(ri, wi, den, hi_x, mid_x);
            } else {
                lemma_scaled_ordered(ri, wi, den, lo_x, mid_x);
                lemma_scaled_ordered(ri, wi, den, mid_x, hi_x);
            }
        }
        amount
    }

    /// The accounting of a farm exit: `reward` leaves the reserve and `farming_amount`
    /// leaves the farm's token supply `farm_token_supply`; returns the new supply. A debit
    /// larger than what it is taken from is refused and changes nothing.
    pub fn exit_farm_base(&mut self, farm_token_supply: u128, reward: u128, farming_amount: u128) -> (r: Result<
        u128,
        RewardsError,
    >)
        ensures
            r is Err <==> (reward > old(self).reward_reserve || farming_amount > farm_token_supply),
            r is Err ==> r == Err::<u128, RewardsError>(RewardsError::Underflow) && *final(self) == *old(self),
            r matches Ok(s) ==> s == farm_token_supply - farming_amount && final(self).reward_reserve
                == old(self).reward_reserve - reward,
            final(self).config == old(self).config,
            final(self).reward_token_id == old(self).reward_token_id,
    {
        if reward > self.reward_reserve || farming_amount > farm_token_supply {
            return Err(RewardsError::Underflow);
        }
        self.reward_reserve = self.reward_reserve - reward;
        Ok(farm_token_supply - farming_amount)
    }

    /// Pays the participant's boosted reward (for their own `reward_rate`, see
    /// `boosted_amount`) out of the reserve. A reward larger than the reserve is cut to the
    /// reserve, which is then left at zero.
    pub fn claim_only_boosted_payment(
        &mut self,
        energy: EnergyAmount,
        total_energy: u64,
        reward_rate: u64,
        stake: u64,
        total_stake: u64,
    ) -> (r: Payment)
        requires
            old(self).config.wf(),
        ensures
            ({
                let reward = boosted_amount(
                    old(self).config,
                    reward_rate as nat,
                    energy_weight(energy as int),
                    total_energy as nat,
                    stake as nat,
                    total_stake as nat,
                );
                &&& r.token == old(self).reward_token_id
                &&& reward <= old(self).reward_reserve ==> r.amount == reward
                &&& reward > old(self).reward_reserve ==> r.amount == old(self).reward_reserve
                    && final(self).reward_reserve == 0
            }),
            r.amount <= old(self).reward_reserve,
            final(self).reward_reserve == old(self).reward_reserve - r.amount,
            final(self).config == old(self).config,
            final(self).reward_token_id == old(self).reward_token_id,
    {
        let reward = self.calculate_boosted_rewards(energy, total_energy, reward_rate, stake, total_stake);
        let paid = if reward > self.reward_reserve {
            self.reward_reserve
        } else {
            reward
        };
        self.reward_reserve = self.reward_reserve - paid;
        Payment { token: self.reward_token_id, amount: paid }
    }
}

} // verus!
