use vstd::prelude::*;
use std::collections::HashMap;

use crate::types::{
    Payment, RewardsError, TokenAmountPair, TokenId, collected, paid, payments_wf,
    copy_pairs, lemma_paid_absent, lemma_paid_at, lemma_paid_update,
};
use crate::week_clock::Week;

verus! {

broadcast use vstd::std_specs::hash::group_hash_axioms;

/// Pro-rata share of `amount` for a participant holding `energy` out of `total` energy,
/// floored; zero when either energy is zero.
pub open spec fn share(amount: nat, energy: nat, total: nat) -> nat {
    if energy == 0 || total == 0 {
        0
    } else {
        amount * energy / total
    }
}

/// The participant's share of everything collected for `token` in one period.
pub open spec fn week_share(totals: Seq<TokenAmountPair>, token: TokenId, energy: nat, total: nat) -> nat
    decreases totals.len(),
{
    if totals.len() == 0 {
        0
    } else {
        week_share(totals.drop_last(), token, energy, total) + if totals.last().token == token {
            share(totals.last().amount as nat, energy, total)
        } else {
            0
        }
    }
}

/// The per-pair payments of one period, in the order of the period's totals, without
/// the pairs whose share floors to zero.
pub open spec fn week_payments(totals: Seq<TokenAmountPair>, energy: nat, total: nat) -> Seq<Payment>
    decreases totals.len(),
{
    if totals.len() == 0 {
        seq![]
    } else {
        let prev = week_payments(totals.drop_last(), energy, total);
        let s = share(totals.last().amount as nat, energy, total);
        if s > 0 {
            prev.push(Payment { token: totals.last().token, amount: s as u128 })
        } else {
            prev
        }
    }
}

pub proof fn lemma_share_fits(amount: nat, energy: nat, total: nat)
    requires
        amount <= u64::MAX,
        energy <= u64::MAX,
    ensures
        share(amount, energy, total) <= amount * energy,
        share(amount, energy, total) <= u128::MAX,
{
    if energy != 0 && total != 0 {
        assert(amount * energy / total <= amount * energy) by (nonlinear_arith)
            requires total >= 1;
        assert(amount * energy <= u64::MAX * u64::MAX) by (nonlinear_arith)
            requires amount <= u64::MAX, energy <= u64::MAX;
    }
}

/// What `week_payments` pays for `token` is the participant's `week_share` of it.
pub proof fn lemma_week_payments_paid(totals: Seq<TokenAmountPair>, token: TokenId, energy: nat, total: nat)
    requires
        energy <= u64::MAX,
    ensures
        paid(week_payments(totals, energy, total), token) == week_share(totals, token, energy, total),
    decreases totals.len(),
{
    if totals.len() > 0 {
        lemma_week_payments_paid(totals.drop_last(), token, energy, total);
        lemma_share_fits(totals.last().amount as nat, energy, total);
        let prev = week_payments(totals.drop_last(), energy, total);
        let s = share(totals.last().amount as nat, energy, total);
        if s > 0 {
            assert(prev.push(Payment { token: totals.last().token, amount: s as u128 }).drop_last()
                =~= prev);
        }
    }
}

/// A participant without energy is owed nothing in any period.
pub proof fn lemma_zero_energy_week_payments(totals: Seq<TokenAmountPair>, total: nat)
    ensures
        week_payments(totals, 0, total) == Seq::<Payment>::empty(),
    decreases totals.len(),
{
    if totals.len() > 0 {
        lemma_zero_energy_week_payments(totals.drop_last(), total);
    }
}

/// Sum of a sequence of energies.
pub open spec fn sum_energy(s: Seq<nat>) -> nat
    decreases s.len(),
{
    if s.len() == 0 {
        0
    } else {
        sum_energy(s.drop_last()) + s.last()
    }
}

/// Sum of the shares of `amount` computed one participant at a time.
pub open spec fn sum_shares(amount: nat, energies: Seq<nat>, total: nat) -> nat
    decreases energies.len(),
{
    if energies.len() == 0 {
        0
    } else {
        sum_shares(amount, energies.drop_last(), total) + share(amount, energies.last(), total)
    }
}

/// Sum of the participants' week shares of `token`, one participant at a time.
pub open spec fn sum_week_shares(totals: Seq<TokenAmountPair>, token: TokenId, energies: Seq<nat>, total: nat) -> nat
    decreases energies.len(),
{
    if energies.len() == 0 {
        0
    } else {
        sum_week_shares(totals, token, energies.drop_last(), total) + week_share(
            totals,
            token,
            energies.last(),
            total,
        )
    }
}

proof fn lemma_sum_shares_scaled(amount: nat, energies: Seq<nat>, total: nat)
    requires
        total > 0,
    ensures
        sum_shares(amount, energies, total) * total <= amount * sum_energy(energies),
    decreases energies.len(),
{
    if energies.len() > 0 {
        let rest = energies.drop_last();
        let e = energies.last();
        lemma_sum_shares_scaled(amount, rest, total);
        let a = sum_shares(amount, rest, total);
        let b = share(amount, e, total);
        assert(b * total <= amount * e) by (nonlinear_arith)
            requires b == (if e == 0 { 0 } else { amount * e / total }), total > 0;
        assert((a + b) * total <= amount * (sum_energy(rest) + e)) by (nonlinear_arith)
            requires a * total <= amount * sum_energy(rest), b * total <= amount * e;
        assert(sum_shares(amount, energies, total) == a + b);
        assert(sum_energy(energies) == sum_energy(rest) + e);
    } else {
        assert(sum_shares(amount, energies, total) * total == 0) by (nonlinear_arith)
            requires sum_shares(amount, energies, total) == 0;
        assert(0 <= amount * sum_energy(energies)) by (nonlinear_arith);
    }
}

/// Floor rounding never pays out more than was collected: when the participants' energies
/// add up to at most the total energy, their shares of `amount` add up to at most `amount`.
pub proof fn lemma_shares_within_amount(amount: nat, energies: Seq<nat>, total: nat)
    requires
        sum_energy(energies) <= total,
    ensures
        sum_shares(amount, energies, total) <= amount,
    decreases energies.len(),
{
    if total == 0 {
        lemma_sum_shares_zero_total(amount, energies);
    } else {
        lemma_sum_shares_scaled(amount, energies, total);
        let s = sum_shares(amount, energies, total);
        assert(s <= amount) by (nonlinear_arith)
            requires s * total <= amount * sum_energy(energies), sum_energy(energies) <= total, total > 0;
    }
}

/// What floor rounding drops from the shares of `amount`, summed over the participants.
pub open spec fn sum_dropped(amount: nat, energies: Seq<nat>, total: nat) -> nat
    decreases energies.len(),
{
    if energies.len() == 0 {
        0
    } else {
        sum_dropped(amount, energies.drop_last(), total) + (amount * energies.last()) % total
    }
}

proof fn lemma_sum_shares_exact(amount: nat, energies: Seq<nat>, total: nat)
    requires
        total > 0,
    ensures
        sum_shares(amount, energies, total) * total + sum_dropped(amount, energies, total)
            == amount * sum_energy(energies),
        forall|i: int|
            0 <= i < energies.len() ==> (amount * #[trigger] energies[i]) % total <= sum_dropped(
                amount,
                energies,
                total,
            ),
    decreases energies.len(),
{
    if energies.len() > 0 {
        let rest = energies.drop_last();
        let e = energies.last();
        lemma_sum_shares_exact(amount, rest, total);
        let a = sum_shares(amount, rest, total);
        let d = sum_dropped(amount, rest, total);
        let b = share(amount, e, total);
        let m = (amount * e) % total;
        assert(b * total + m == amount * e) by (nonlinear_arith)
            requires
                b == (if e == 0 { 0 } else { amount * e / total }),
                m == (amount * e) % total,
                total > 0,
        ;
        assert((a + b) * total + (d + m) == amount * (sum_energy(rest) + e)) by (nonlinear_arith)
            requires a * total + d == amount * sum_energy(rest), b * total + m == amount * e;
        assert(sum_shares(amount, energies, total) == a + b);
        assert(sum_energy(energies) == sum_energy(rest) + e);
        assert forall|i: int| 0 <= i < energies.len() implies (amount * #[trigger] energies[i]) % total
            <= sum_dropped(amount, energies, total) by {
            if i < rest.len() {
                assert(energies[i] == rest[i]);
            }
        }
    } else {
        assert(sum_shares(amount, energies, total) * total == 0) by (nonlinear_arith)
            requires sum_shares(amount, energies, total) == 0;
        assert(amount * sum_energy(energies) == 0) by (nonlinear_arith)
            requires sum_energy(energies) == 0;
    }
}

/// The shares of `amount` add up to exactly `amount` only when no participant's share was
/// rounded down: each `amount * energy` is then a multiple of the total energy.
pub proof fn lemma_shares_exact_only_when_divisible(amount: nat, energies: Seq<nat>, total: nat)
    requires
        sum_energy(energies) <= total,
        total > 0,
        sum_shares(amount, energies, total) == amount,
    ensures
        forall|i: int| 0 <= i < energies.len() ==> (amount * #[trigger] energies[i]) % total == 0,
{
    lemma_sum_shares_exact(amount, energies, total);
    let d = sum_dropped(amount, energies, total);
    let e = sum_energy(energies);
    assert(d == 0) by (nonlinear_arith)
        requires amount * total + d == amount * e, e <= total;
}

proof fn lemma_sum_dropped_zero(amount: nat, energies: Seq<nat>, total: nat)
    requires
        forall|i: int| 0 <= i < energies.len() ==> (amount * #[trigger] energies[i]) % total == 0,
    ensures
        sum_dropped(amount, energies, total) == 0,
    decreases energies.len(),
{
    if energies.len() > 0 {
        let rest = energies.drop_last();
        assert forall|i: int| 0 <= i < rest.len() implies (amount * #[trigger] rest[i]) % total == 0 by {
            assert(rest[i] == energies[i]);
        }
        lemma_sum_dropped_zero(amount, rest, total);
        assert(energies.last() == energies[energies.len() - 1]);
    }
}

/// When the participants' energies make up the whole total energy and no share is rounded
/// down, the shares of `amount` add up to exactly `amount`.
pub proof fn lemma_shares_exact_when_divisible(amount: nat, energies: Seq<nat>, total: nat)
    requires
        sum_energy(energies) == total,
        total > 0,
        forall|i: int| 0 <= i < energies.len() ==> (amount * #[trigger] energies[i]) % total == 0,
    ensures
        sum_shares(amount, energies, total) == amount,
{
    lemma_sum_shares_exact(amount, energies, total);
    lemma_sum_dropped_zero(amount, energies, total);
    let s = sum_shares(amount, energies, total);
    assert(s == amount) by (nonlinear_arith)
        requires s * total == amount * total, total > 0;
}

proof fn lemma_sum_shares_zero_total(amount: nat, energies: Seq<nat>)
    ensures
        sum_shares(amount, energies, 0) == 0,
    decreases energies.len(),
{
    if energies.len() > 0 {
        lemma_sum_shares_zero_total(amount, energies.drop_last());
    }
}

proof fn lemma_sum_week_shares_last(totals: Seq<TokenAmountPair>, token: TokenId, energies: Seq<nat>, total: nat)
    requires
        totals.len() > 0,
    ensures
        sum_week_shares(totals, token, energies, total) == sum_week_shares(
            totals.drop_last(),
            token,
            energies,
            total,
        ) + if totals.last().token == token {
            sum_shares(totals.last().amount as nat, energies, total)
        } else {
            0
        },
    decreases energies.len(),
{
    if energies.len() > 0 {
        lemma_sum_week_shares_last(totals, token, energies.drop_last(), total);
    }
}

/// Summed over any participants whose energies add up to at most the period's total
/// energy, the shares of a token never exceed what was collected for it in that period.
pub proof fn lemma_week_shares_within_collected(
    totals: Seq<TokenAmountPair>,
    token: TokenId,
    energies: Seq<nat>,
    total: nat,
)
    requires
        sum_energy(energies) <= total,
    ensures
        sum_week_shares(totals, token, energies, total) <= collected(totals, token),
    decreases totals.len(),
{
    if totals.len() == 0 {
        lemma_sum_week_shares_empty(totals, token, energies, total);
    } else {
        lemma_week_shares_within_collected(totals.drop_last(), token, energies, total);
        lemma_sum_week_shares_last(totals, token, energies, total);
        lemma_shares_within_amount(totals.last().amount as nat, energies, total);
    }
}

proof fn lemma_sum_week_shares_empty(totals: Seq<TokenAmountPair>, token: TokenId, energies: Seq<nat>, total: nat)
    requires
        totals.len() == 0,
    ensures
        sum_week_shares(totals, token, energies, total) == 0,
    decreases energies.len(),
{
    if energies.len() > 0 {
        lemma_sum_week_shares_empty(totals, token, energies.drop_last(), total);
    }
}

/// Adds `p` into the per-token accumulator `acc`.
pub fn add_payment(acc: &mut Vec<Payment>, p: Payment) -> (r: Result<(), RewardsError>)
    requires
        payments_wf(old(acc)@),
        p.amount > 0,
    ensures
        r is Err <==> paid(old(acc)@, p.token) + p.amount > u128::MAX,
        r is Err ==> r == Err::<(), RewardsError>(RewardsError::Overflow) && final(acc)@ == old(acc)@,
        r is Ok ==> payments_wf(final(acc)@),
        r is Ok ==> forall|t: TokenId|
            #[trigger] paid(final(acc)@, t) == paid(old(acc)@, t) + if t == p.token {
                p.amount as nat
            } else {
                0
            },
{
    let mut i: usize = 0;
    while i < acc.len()
        invariant
            i <= acc.len(),
            acc@ == old(acc)@,
            payments_wf(acc@),
            p.amount > 0,
            forall|j: int| 0 <= j < i ==> #[trigger] acc@[j].token != p.token,
        decreases acc.len() - i,
    {
        if acc[i].token == p.token {
            proof {
                lemma_paid_at(acc@, i as int);
            }
            let cur = acc[i].amount;
            match cur.checked_add(p.amount) {
                Some(sum) => {
                    let ghost before = acc@;
                    acc.set(i, Payment { token: p.token, amount: sum });
                    proof {
                        assert forall|t: TokenId|
                            #[trigger] paid(acc@, t) == paid(before, t) + if t == p.token {
                                p.amount as nat
                            } else {
                                0
                            } by {
                            lemma_paid_update(before, i as int, Payment { token: p.token, amount: sum }, t);
                        }
                    }
                    return Ok(());
                },
                None => {
                    return Err(RewardsError::Overflow);
                },
            }
        }
        i += 1;
    }
    proof {
        lemma_paid_absent(acc@, p.token);
    }
    let ghost before = acc@;
    acc.push(p);
    proof {
        assert(acc@.drop_last() =~= before);
        assert(acc@[acc@.len() - 1] == p);
        assert forall|i: int, j: int|
            0 <= i < j < acc@.len() implies #[trigger] acc@[i].token != #[trigger] acc@[j].token by {
            if j == acc@.len() - 1 {
                assert(before[i].token != p.token);
            } else {
                assert(before[i].token != before[j].token);
            }
        }
    }
    Ok(())
}

/// Frozen per-period reward totals: a period's record is computed once and then never changes.
pub struct WeeklyRewardsCache {
    total_rewards_for_week: HashMap<Week, Vec<TokenAmountPair>>,
}

impl WeeklyRewardsCache {
    /// The frozen totals, by period.
    pub closed spec fn frozen(&self) -> Map<Week, Seq<TokenAmountPair>> {
        self.total_rewards_for_week@.map_values(|v: Vec<TokenAmountPair>| v@)
    }

    pub fn new() -> (r: WeeklyRewardsCache)
        ensures
            r.frozen() == Map::<Week, Seq<TokenAmountPair>>::empty(),
    {
        let r = WeeklyRewardsCache { total_rewards_for_week: HashMap::new() };
        assert(r.frozen() =~= Map::<Week, Seq<TokenAmountPair>>::empty());
        r
    }

    /// The frozen totals of `week`, if that week was frozen.
    pub fn get_frozen(&self, week: Week) -> (r: Option<Vec<TokenAmountPair>>)
        ensures
            r is Some <==> self.frozen().contains_key(week),
            r matches Some(v) ==> v@ == self.frozen()[week],
    {
        match self.total_rewards_for_week.get(&week) {
            Some(v) => Some(copy_pairs(v)),
            None => None,
        }
    }

    fn freeze(&mut self, week: Week, totals: &Vec<TokenAmountPair>)
        requires
            !old(self).frozen().contains_key(week),
        ensures
            final(self).frozen() == old(self).frozen().insert(week, totals@),
    {
        let v = copy_pairs(totals);
        self.total_rewards_for_week.insert(week, v);
        assert(self.frozen() =~= old(self).frozen().insert(week, totals@));
    }
}

/// Per-period reward computation over a source of rewards: the source is asked for a
/// period's rewards at most once, the first time that period is needed.
pub trait WeeklyRewardsSplittingTraitsModule: Sized {
    /// The source's own consistency, kept by every collection.
    spec fn rewards_wf(&self) -> bool;

    /// What the source holds for `week` and would hand over now.
    spec fn rewards_for_week(&self, week: Week) -> Seq<TokenAmountPair>;

    /// What the source holds for `week`, left in place.
    fn get_rewards_for_week(&self, week: Week) -> (r: Vec<TokenAmountPair>)
        requires
            self.rewards_wf(),
        ensures
            r@ == self.rewards_for_week(week),
    ;

    /// Hands over everything collected for `week`; called once per week.
    fn collect_rewards_for_week(&mut self, week: Week) -> (r: Vec<TokenAmountPair>)
        requires
            old(self).rewards_wf(),
        ensures
            final(self).rewards_wf(),
            r@ == old(self).rewards_for_week(week),
            final(self).rewards_for_week(week) == Seq::<TokenAmountPair>::empty(),
            forall|x: Week| x != week ==> #[trigger] final(self).rewards_for_week(x) == old(self).rewards_for_week(x),
    ;

    /// The frozen totals of `week`, collecting and freezing them on first use.
    fn collect_and_get_rewards_for_week(&mut self, cache: &mut WeeklyRewardsCache, week: Week) -> (r: Vec<TokenAmountPair>)
        requires
            old(self).rewards_wf(),
        ensures
            final(self).rewards_wf(),
            final(cache).frozen().contains_key(week),
            final(cache).frozen()[week] == r@,
            old(cache).frozen().contains_key(week) ==> {
                &&& r@ == old(cache).frozen()[week]
                &&& final(cache).frozen() == old(cache).frozen()
                &&& *final(self) == *old(self)
            },
            !old(cache).frozen().contains_key(week) ==> r@ == old(self).rewards_for_week(week)
                && final(cache).frozen() == old(cache).frozen().insert(week, r@),
            forall|x: Week| x != week ==> #[trigger] final(self).rewards_for_week(x) == old(self).rewards_for_week(x),
    {
        match cache.get_frozen(week) {
            Some(v) => v,
            None => {
                let total_rewards = self.collect_rewards_for_week(week);
                cache.freeze(week, &total_rewards);
                total_rewards
            },
        }
    }

    /// The participant's payments for one period: for each collected pair, the floored
    /// share `amount * energy / total_energy`, kept when positive.
    fn get_user_rewards_for_week(&self, energy_amount: u64, total_energy: u64, total_rewards: &Vec<TokenAmountPair>) -> (r: Vec<Payment>)
        ensures
            r@ == week_payments(total_rewards@, energy_amount as nat, total_energy as nat),
    {
        let mut user_rewards: Vec<Payment> = Vec::new();
        if energy_amount == 0 || total_energy == 0 {
            proof {
                if energy_amount == 0 {
                    lemma_zero_energy_week_payments(total_rewards@, total_energy as nat);
                } else {
                    lemma_zero_total_week_payments(total_rewards@, energy_amount as nat);
                }
            }
            return user_rewards;
        }
        let mut i: usize = 0;
        while i < total_rewards.len()
            invariant
                i <= total_rewards.len(),
                energy_amount > 0,
                total_energy > 0,
                user_rewards@ == week_payments(total_rewards@.subrange(0, i as int), energy_amount as nat, total_energy as nat),
            decreases total_rewards.len() - i,
        {
            let weekly_reward = total_rewards[i];
            proof {
                let (a, e) = (weekly_reward.amount as nat, energy_amount as nat);
                assert(a * e <= u64::MAX * u64::MAX) by (nonlinear_arith)
                    requires a <= u64::MAX, e <= u64::MAX;
            }
            let product: u128 = (weekly_reward.amount as u128) * (energy_amount as u128);
            let reward_amount: u128 = product / (total_energy as u128);
            proof {
                let pre = total_rewards@.subrange(0, i as int + 1);
                assert(pre.drop_last() =~= total_rewards@.subrange(0, i as int));
                assert(pre.last() == weekly_reward);
            }
            if reward_amount > 0 {
                user_rewards.push(Payment { token: weekly_reward.token, amount: reward_amount });
            }
            i += 1;
        }
        assert(total_rewards@.subrange(0, total_rewards@.len() as int) =~= total_rewards@);
        user_rewards
    }
}

pub proof fn lemma_zero_total_week_payments(totals: Seq<TokenAmountPair>, energy: nat)
    ensures
        week_payments(totals, energy, 0) == Seq::<Payment>::empty(),
    decreases totals.len(),
{
    if totals.len() > 0 {
        lemma_zero_total_week_payments(totals.drop_last(), energy);
    }
}

} // verus!
