use vstd::prelude::*;
use std::collections::HashMap;

use crate::claim_progress::{ClaimProgress, ClaimProgressLedger};
use crate::types::{
    EnergyAmount, Payment, RewardsError, TokenAmountPair, TokenId, UserId, energy_weight,
    energy_weight_of, paid, payments_wf,
};
use crate::week_clock::Week;
use crate::weekly_rewards::{
    WeeklyRewardsCache, WeeklyRewardsSplittingTraitsModule, add_payment, lemma_week_payments_paid, share,
    week_payments, week_share,
};

verus! {

broadcast use vstd::std_specs::hash::group_hash_axioms;

/// Total energy recorded for `week`, zero when none was recorded.
pub open spec fn total_energy_in(m: Map<Week, u64>, week: Week) -> nat {
    if m.contains_key(week) {
        m[week] as nat
    } else {
        0
    }
}

/// What a participant holding `energy` is owed for `token` over the weeks `from .. end`
/// (end excluded), from the frozen totals and the recorded total energies.
pub open spec fn owed(
    frozen: Map<Week, Seq<TokenAmountPair>>,
    totals: Map<Week, u64>,
    energy: nat,
    from: nat,
    end: nat,
    token: TokenId,
) -> nat
    decreases end - from,
{
    if end <= from {
        0
    } else {
        let w = (end - 1) as nat;
        owed(frozen, totals, energy, from, w, token) + week_share(
            frozen[w as Week],
            token,
            energy,
            total_energy_in(totals, w as Week),
        )
    }
}

/// The totals a settlement pays from: the frozen ones, and for a week not yet frozen what
/// the source holds for it (which the settlement then freezes).
pub open spec fn pending_totals<H: WeeklyRewardsSplittingTraitsModule>(
    frozen: Map<Week, Seq<TokenAmountPair>>,
    source: H,
) -> Map<Week, Seq<TokenAmountPair>> {
    Map::new(
        |w: Week| true,
        |w: Week|
            if frozen.contains_key(w) {
                frozen[w]
            } else {
                source.rewards_for_week(w)
            },
    )
}

/// Settlement state: the frozen period totals, the claim progress of every participant,
/// and the total energy recorded for each week.
///
/// The total energy of a week is a snapshot recorded for that week (zero when none was
/// recorded), while a participant's own energy is the one recorded at their last
/// settlement, used unchanged for every week of a catch-up.
pub struct WeeklyRewardsSplitting {
    pub cache: WeeklyRewardsCache,
    pub ledger: ClaimProgressLedger,
    pub total_energy_for_week: HashMap<Week, u64>,
}

proof fn lemma_paid_prefix_le(s: Seq<Payment>, j: int, token: TokenId)
    requires
        0 <= j <= s.len(),
    ensures
        paid(s.subrange(0, j), token) <= paid(s, token),
    decreases s.len() - j,
{
    if j < s.len() {
        lemma_paid_prefix_le(s, j + 1, token);
        assert(s.subrange(0, j + 1).drop_last() =~= s.subrange(0, j));
    } else {
        assert(s.subrange(0, j) =~= s);
    }
}

proof fn lemma_owed_mono(
    frozen: Map<Week, Seq<TokenAmountPair>>,
    totals: Map<Week, u64>,
    energy: nat,
    from: nat,
    mid: nat,
    end: nat,
    token: TokenId,
)
    requires
        mid <= end,
    ensures
        owed(frozen, totals, energy, from, mid, token) <= owed(frozen, totals, energy, from, end, token),
    decreases end - mid,
{
    if mid < end {
        lemma_owed_mono(frozen, totals, energy, from, mid, (end - 1) as nat, token);
    }
}

proof fn lemma_week_payments_positive(totals: Seq<TokenAmountPair>, energy: nat, total: nat)
    requires
        energy <= u64::MAX,
    ensures
        forall|i: int|
            0 <= i < week_payments(totals, energy, total).len() ==> #[trigger] week_payments(
                totals,
                energy,
                total,
            )[i].amount > 0,
    decreases totals.len(),
{
    if totals.len() > 0 {
        lemma_week_payments_positive(totals.drop_last(), energy, total);
        crate::weekly_rewards::lemma_share_fits(totals.last().amount as nat, energy, total);
        let prev = week_payments(totals.drop_last(), energy, total);
        let s = share(totals.last().amount as nat, energy, total);
        if s > 0 {
            let q = prev.push(Payment { token: totals.last().token, amount: s as u128 });
            assert forall|i: int| 0 <= i < q.len() implies #[trigger] q[i].amount > 0 by {
                if i < prev.len() {
                    assert(q[i] == prev[i]);
                }
            }
        }
    }
}

/// Catching up over `from .. end` in one settlement owes what settling `from .. mid` and
/// then `mid .. end` separately owes, for the same energy.
pub proof fn lemma_owed_split(
    frozen: Map<Week, Seq<TokenAmountPair>>,
    totals: Map<Week, u64>,
    energy: nat,
    from: nat,
    mid: nat,
    end: nat,
    token: TokenId,
)
    requires
        from <= mid <= end,
    ensures
        owed(frozen, totals, energy, from, end, token) == owed(frozen, totals, energy, from, mid, token)
            + owed(frozen, totals, energy, mid, end, token),
    decreases end - mid,
{
    if mid < end {
        lemma_owed_split(frozen, totals, energy, from, mid, (end - 1) as nat, token);
    }
}

/// Catching up over `from .. end` in one settlement owes the sum of settling each week on
/// its own.
pub proof fn lemma_owed_week_by_week(
    frozen: Map<Week, Seq<TokenAmountPair>>,
    totals: Map<Week, u64>,
    energy: nat,
    from: nat,
    end: nat,
    token: TokenId,
)
    requires
        from < end,
    ensures
        owed(frozen, totals, energy, from, end, token) == owed(frozen, totals, energy, from, (end - 1) as nat, token)
            + owed(frozen, totals, energy, (end - 1) as nat, end, token),
{
    lemma_owed_split(frozen, totals, energy, from, (end - 1) as nat, end, token);
}

proof fn lemma_zero_energy_week_share(totals: Seq<TokenAmountPair>, token: TokenId, total: nat)
    ensures
        week_share(totals, token, 0, total) == 0,
    decreases totals.len(),
{
    if totals.len() > 0 {
        lemma_zero_energy_week_share(totals.drop_last(), token, total);
    }
}

/// A participant without energy is owed nothing, over any span of weeks.
pub proof fn lemma_zero_energy_owes_nothing(
    frozen: Map<Week, Seq<TokenAmountPair>>,
    totals: Map<Week, u64>,
    from: nat,
    end: nat,
    token: TokenId,
)
    ensures
        owed(frozen, totals, 0, from, end, token) == 0,
    decreases end - from,
{
    if end > from {
        lemma_zero_energy_owes_nothing(frozen, totals, from, (end - 1) as nat, token);
        lemma_zero_energy_week_share(frozen[(end - 1) as nat as Week], token, total_energy_in(totals, (end - 1) as nat as Week));
    }
}

proof fn lemma_zero_span_owes_nothing(
    frozen: Map<Week, Seq<TokenAmountPair>>,
    totals: Map<Week, u64>,
    energy: nat,
    from: nat,
    end: nat,
)
    requires
        end <= from,
    ensures
        forall|t: TokenId| #[trigger] owed(frozen, totals, energy, from, end, t) == 0,
{
}

/// Adds every payment of `payments` into the per-token accumulator `acc`.
fn add_all_payments(acc: &mut Vec<Payment>, payments: &Vec<Payment>) -> (r: Result<(), RewardsError>)
    requires
        payments_wf(old(acc)@),
        forall|i: int| 0 <= i < payments@.len() ==> #[trigger] payments@[i].amount > 0,
    ensures
        r is Err ==> exists|t: TokenId| #[trigger] paid(old(acc)@, t) + paid(payments@, t) > u128::MAX,
        r is Ok ==> payments_wf(final(acc)@),
        r is Ok ==> forall|t: TokenId| #[trigger] paid(final(acc)@, t) == paid(old(acc)@, t) + paid(payments@, t),
{
    let ghost base = acc@;
    let mut j: usize = 0;
    while j < payments.len()
        invariant
            j <= payments.len(),
            base == old(acc)@,
            forall|i: int| 0 <= i < payments@.len() ==> #[trigger] payments@[i].amount > 0,
            payments_wf(acc@),
            forall|t: TokenId| #[trigger] paid(acc@, t) == paid(base, t) + paid(payments@.subrange(0, j as int), t),
        decreases payments.len() - j,
    {
        let p = payments[j];
        let res = add_payment(acc, p);
        proof {
            assert(payments@.subrange(0, j as int + 1).drop_last() =~= payments@.subrange(0, j as int));
        }
        if res.is_err() {
            proof {
                lemma_paid_prefix_le(payments@, j as int + 1, p.token);
                assert(paid(base, p.token) + paid(payments@, p.token) > u128::MAX);
            }
            return Err(RewardsError::Overflow);
        }
        j += 1;
    }
    assert(payments@.subrange(0, payments@.len() as int) =~= payments@);
    Ok(())
}

impl WeeklyRewardsSplitting {
    pub open spec fn total_energies(&self) -> Map<Week, u64> {
        self.total_energy_for_week@
    }

    pub fn new() -> (r: WeeklyRewardsSplitting)
        ensures
            r.cache.frozen() == Map::<Week, Seq<TokenAmountPair>>::empty(),
            r.ledger@ == Map::<UserId, ClaimProgress>::empty(),
            r.total_energies() == Map::<Week, u64>::empty(),
    {
        WeeklyRewardsSplitting {
            cache: WeeklyRewardsCache::new(),
            ledger: ClaimProgressLedger::new(),
            total_energy_for_week: HashMap::new(),
        }
    }

    /// Records the total energy of all participants for `week`.
    pub fn set_total_energy_for_week(&mut self, week: Week, total_energy: u64)
        ensures
            final(self).total_energies() == old(self).total_energies().insert(week, total_energy),
            final(self).cache == old(self).cache,
            final(self).ledger == old(self).ledger,
    {
        self.total_energy_for_week.insert(week, total_energy);
    }

    /// The total energy recorded for `week`, zero when none was recorded.
    pub fn total_energy_for_week(&self, week: Week) -> (r: u64)
        ensures
            r == total_energy_in(self.total_energies(), week),
    {
        match self.total_energy_for_week.get(&week) {
            Some(e) => *e,
            None => 0,
        }
    }

    /// Settles `user` up to the end of the week before `current_week`: every week from the
    /// first unsettled one up to `current_week - 1` is frozen (collected from `source` on
    /// first use) and paid pro rata with the energy recorded at the last settlement; the
    /// progress then moves to `current_week` with `current_energy` (clamped to zero).
    /// The payout is worked out before anything is frozen: on overflow nothing changes.
    pub fn settle_and_claim<H: WeeklyRewardsSplittingTraitsModule>(
        &mut self,
        source: &mut H,
        user: UserId,
        current_week: Week,
        current_energy: EnergyAmount,
    ) -> (r: Result<Vec<Payment>, RewardsError>)
        requires
            old(source).rewards_wf(),
        ensures
            final(source).rewards_wf(),
            ({
                let p = old(self).ledger.progress(user);
                &&& p.week >= current_week ==> {
                    &&& r matches Ok(v) && v@.len() == 0
                    &&& final(self).cache == old(self).cache
                    &&& final(self).ledger == old(self).ledger
                    &&& *final(source) == *old(source)
                }
                &&& p.energy == 0 ==> (r matches Ok(v) && v@.len() == 0)
                &&& p.week < current_week ==> {
                    &&& r is Ok ==> forall|w: Week|
                        p.week <= w < current_week ==> #[trigger] final(self).cache.frozen().contains_key(w)
                    &&& (r is Err <==> exists|t: TokenId|
                        #[trigger] owed(
                            pending_totals(old(self).cache.frozen(), *old(source)),
                            old(self).total_energies(),
                            p.energy as nat,
                            p.week as nat,
                            current_week as nat,
                            t,
                        ) > u128::MAX)
                    &&& r is Err ==> r == Err::<Vec<Payment>, RewardsError>(RewardsError::Overflow)
                        && *final(self) == *old(self) && *final(source) == *old(source)
                    &&& r matches Ok(v) ==> {
                        &&& payments_wf(v@)
                        &&& forall|t: TokenId|
                            #[trigger] paid(v@, t) == owed(
                                pending_totals(old(self).cache.frozen(), *old(source)),
                                old(self).total_energies(),
                                p.energy as nat,
                                p.week as nat,
                                current_week as nat,
                                t,
                            )
                        &&& final(self).ledger@ == old(self).ledger@.insert(
                            user,
                            ClaimProgress {
                                week: current_week,
                                energy: energy_weight(current_energy as int) as u64,
                            },
                        )
                    }
                }
            }),
            forall|w: Week|
                old(self).cache.frozen().contains_key(w) ==> #[trigger] final(self).cache.frozen().contains_key(w)
                    && final(self).cache.frozen()[w] == old(self).cache.frozen()[w],
            r is Ok ==> forall|w: Week|
                !old(self).cache.frozen().contains_key(w) && old(self).ledger.progress(user).week <= w < current_week
                    ==> #[trigger] final(self).cache.frozen()[w] == old(source).rewards_for_week(w),
            forall|w: Week|
                !old(self).cache.frozen().contains_key(w) && !(old(self).ledger.progress(user).week <= w
                    < current_week) ==> !#[trigger] final(self).cache.frozen().contains_key(w),
            final(self).total_energies() == old(self).total_energies(),
    {
        let progress = self.ledger.progress_of(user);
        if progress.week >= current_week {
            return Ok(Vec::new());
        }
        let ghost f0 = self.cache.frozen();
        let ghost pending = pending_totals(f0, *source);
        let ghost totals = self.total_energies();
        let ghost e = progress.energy as nat;
        let ghost from = progress.week as nat;
        // work out the payout first, from the frozen totals and, for weeks not yet
        // frozen, what the source holds: an overflow leaves everything untouched
        let mut acc: Vec<Payment> = Vec::new();
        let mut w: Week = progress.week;
        while w < current_week
            invariant
                progress.week <= w <= current_week,
                *self == *old(self),
                *source == *old(source),
                f0 == old(self).cache.frozen(),
                pending == pending_totals(f0, *old(source)),
                totals == self.total_energies(),
                e == progress.energy as nat,
                from == progress.week as nat,
                progress == old(self).ledger.progress(user),
                source.rewards_wf(),
                payments_wf(acc@),
                forall|t: TokenId| #[trigger] paid(acc@, t) == owed(pending, totals, e, from, w as nat, t),
            decreases current_week - w,
        {
            let totals_w = match self.cache.get_frozen(w) {
                Some(v) => v,
                None => source.get_rewards_for_week(w),
            };
            assert(totals_w@ == pending[w]);
            let total_energy = self.total_energy_for_week(w);
            let week_rewards = source.get_user_rewards_for_week(progress.energy, total_energy, &totals_w);
            proof {
                lemma_week_payments_positive(totals_w@, e, total_energy as nat);
            }
            let ghost before = acc@;
            let res = add_all_payments(&mut acc, &week_rewards);
            if res.is_err() {
                proof {
                    let t = choose|t: TokenId| #[trigger] paid(before, t) + paid(week_rewards@, t) > u128::MAX;
                    lemma_week_payments_paid(totals_w@, t, e, total_energy as nat);
                    lemma_owed_mono(pending, totals, e, from, w as nat + 1, current_week as nat, t);
                    assert(owed(pending, totals, e, from, current_week as nat, t) > u128::MAX);
                    if e == 0 {
                        lemma_zero_energy_owes_nothing(pending, totals, from, current_week as nat, t);
                    }
                }
                return Err(RewardsError::Overflow);
            }
            proof {
                assert forall|t: TokenId| #[trigger] paid(acc@, t) == owed(pending, totals, e, from, w as nat + 1, t) by {
                    lemma_week_payments_paid(totals_w@, t, e, total_energy as nat);
                }
            }
            w += 1;
        }
        proof {
            assert forall|t: TokenId| #[trigger] owed(pending, totals, e, from, current_week as nat, t) <= u128::MAX by {
                crate::types::lemma_paid_bounded(acc@, t);
            }
            if e == 0 {
                if acc@.len() > 0 {
                    crate::types::lemma_paid_at(acc@, 0);
                    lemma_zero_energy_owes_nothing(pending, totals, from, current_week as nat, acc@[0].token);
                }
            }
        }
        // then freeze every week of the span
        let mut w: Week = progress.week;
        while w < current_week
            invariant
                progress.week <= w <= current_week,
                progress == old(self).ledger.progress(user),
                self.ledger == old(self).ledger,
                self.total_energies() == old(self).total_energies(),
                source.rewards_wf(),
                forall|x: Week| progress.week <= x < w ==> #[trigger] self.cache.frozen().contains_key(x),
                forall|x: Week| x >= w ==> #[trigger] source.rewards_for_week(x) == old(source).rewards_for_week(x),
                forall|x: Week|
                    !f0.contains_key(x) && progress.week <= x < w ==> #[trigger] self.cache.frozen()[x]
                        == old(source).rewards_for_week(x),
                forall|x: Week|
                    !f0.contains_key(x) && !(progress.week <= x < w) ==> !#[trigger] self.cache.frozen().contains_key(x),
                f0 == old(self).cache.frozen(),
                forall|x: Week|
                    f0.contains_key(x) ==> #[trigger] self.cache.frozen().contains_key(x)
                        && self.cache.frozen()[x] == f0[x],
            decreases current_week - w,
        {
            let ghost c_before = self.cache.frozen();
            let _ = source.collect_and_get_rewards_for_week(&mut self.cache, w);
            proof {
                assert forall|x: Week| !f0.contains_key(x) && progress.week <= x < w + 1 implies #[trigger] self.cache.frozen()[x]
                    == old(source).rewards_for_week(x) by {
                    if x < w {
                        assert(c_before.contains_key(x));
                    }
                }
                assert forall|x: Week| !f0.contains_key(x) && !(progress.week <= x < w + 1) implies !#[trigger] self.cache.frozen().contains_key(x) by {
                    assert(!c_before.contains_key(x));
                }
            }
            w += 1;
        }
        let _ = self.ledger.advance(user, current_week, energy_weight_of(current_energy));
        Ok(acc)
    }

    /// An energy change of `user`: settles every pending week with the energy recorded so
    /// far, then records `new_energy` (clamped to zero) for the weeks to come.
    pub fn update_energy_and_progress<H: WeeklyRewardsSplittingTraitsModule>(
        &mut self,
        source: &mut H,
        user: UserId,
        current_week: Week,
        new_energy: EnergyAmount,
    ) -> (r: Result<Vec<Payment>, RewardsError>)
        requires
            old(source).rewards_wf(),
        ensures
            final(source).rewards_wf(),
            ({
                let p = old(self).ledger.progress(user);
                let next_week = if p.week >= current_week {
                    p.week
                } else {
                    current_week
                };
                &&& p.week >= current_week ==> (r matches Ok(v) && v@.len() == 0)
                &&& p.energy == 0 ==> (r matches Ok(v) && v@.len() == 0)
                &&& p.week < current_week ==> (r is Err <==> exists|t: TokenId|
                    #[trigger] owed(
                        pending_totals(old(self).cache.frozen(), *old(source)),
                        old(self).total_energies(),
                        p.energy as nat,
                        p.week as nat,
                        current_week as nat,
                        t,
                    ) > u128::MAX)
                &&& r is Err ==> *final(self) == *old(self) && *final(source) == *old(source)
                &&& r matches Ok(v) ==> {
                    &&& payments_wf(v@)
                    &&& forall|t: TokenId|
                        #[trigger] paid(v@, t) == owed(
                            pending_totals(old(self).cache.frozen(), *old(source)),
                            old(self).total_energies(),
                            p.energy as nat,
                            p.week as nat,
                            current_week as nat,
                            t,
                        )
                    &&& final(self).ledger@ == old(self).ledger@.insert(
                        user,
                        ClaimProgress { week: next_week, energy: energy_weight(new_energy as int) as u64 },
                    )
                }
            }),
            forall|w: Week|
                old(self).cache.frozen().contains_key(w) ==> #[trigger] final(self).cache.frozen().contains_key(w)
                    && final(self).cache.frozen()[w] == old(self).cache.frozen()[w],
            r is Ok ==> forall|w: Week|
                !old(self).cache.frozen().contains_key(w) && old(self).ledger.progress(user).week <= w < current_week
                    ==> #[trigger] final(self).cache.frozen()[w] == old(source).rewards_for_week(w),
            forall|w: Week|
                !old(self).cache.frozen().contains_key(w) && !(old(self).ledger.progress(user).week <= w
                    < current_week) ==> !#[trigger] final(self).cache.frozen().contains_key(w),
            final(self).total_energies() == old(self).total_energies(),
    {
        let progress = self.ledger.progress_of(user);
        let r = self.settle_and_claim(source, user, current_week, new_energy);
        match r {
            Err(e) => Err(e),
            Ok(v) => {
                if progress.week >= current_week {
                    let _ = self.ledger.advance(user, progress.week, energy_weight_of(new_energy));
                    proof {
                        lemma_zero_span_owes_nothing(
                            self.cache.frozen(),
                            old(self).total_energies(),
                            progress.energy as nat,
                            progress.week as nat,
                            current_week as nat,
                        );
                    }
                }
                Ok(v)
            },
        }
    }
}

} // verus!
