use vstd::prelude::*;
use std::collections::HashMap;

use crate::types::{
    RewardsError, TokenAmountPair, TokenId, UserId, collected, copy_pairs, lemma_collected_absent,
    lemma_collected_at, lemma_collected_update, pairs_wf,
};
use crate::week_clock::Week;
use crate::weekly_rewards::WeeklyRewardsSplittingTraitsModule;

verus! {

broadcast use vstd::std_specs::hash::group_hash_axioms;

/// The amounts collected for `week`, empty when nothing is held for it.
pub open spec fn fees_in(m: Map<Week, Seq<TokenAmountPair>>, week: Week) -> Seq<TokenAmountPair> {
    if m.contains_key(week) {
        m[week]
    } else {
        Seq::empty()
    }
}

/// Adds `amount` of `token` into the collected amounts `v`.
fn add_pair(v: &mut Vec<TokenAmountPair>, token: TokenId, amount: u64) -> (r: Result<(), RewardsError>)
    requires
        pairs_wf(old(v)@),
        amount > 0,
    ensures
        r is Err <==> collected(old(v)@, token) + amount > u64::MAX,
        r is Err ==> r == Err::<(), RewardsError>(RewardsError::Overflow) && final(v)@ == old(v)@,
        r is Ok ==> pairs_wf(final(v)@),
        r is Ok ==> forall|t: TokenId|
            #[trigger] collected(final(v)@, t) == collected(old(v)@, t) + if t == token {
                amount as nat
            } else {
                0
            },
{
    let mut i: usize = 0;
    while i < v.len()
        invariant
            i <= v.len(),
            v@ == old(v)@,
            pairs_wf(v@),
            amount > 0,
            forall|j: int| 0 <= j < i ==> #[trigger] v@[j].token != token,
        decreases v.len() - i,
    {
        if v[i].token == token {
            proof {
                lemma_collected_at(v@, i as int);
            }
            let cur = v[i].amount;
            match cur.checked_add(amount) {
                Some(sum) => {
                    let ghost before = v@;
                    v.set(i, TokenAmountPair { token, amount: sum });
                    proof {
                        assert forall|t: TokenId|
                            #[trigger] collected(v@, t) == collected(before, t) + if t == token {
                                amount as nat
                            } else {
                                0
                            } by {
                            lemma_collected_update(before, i as int, TokenAmountPair { token, amount: sum }, t);
                        }
                    }
                    return Ok(());
                },
                None => {
                    return Err(RewardsError::Overflow);
                },
            }
        }
        i += 1;
    }
    proof {
        lemma_collected_absent(v@, token);
    }
    let ghost before = v@;
    let p = TokenAmountPair { token, amount };
    v.push(p);
    proof {
        assert(v@.drop_last() =~= before);
        assert(v@[v@.len() - 1] == p);
        assert forall|i: int, j: int|
            0 <= i < j < v@.len() implies #[trigger] v@[i].token != #[trigger] v@[j].token by {
            if j == v@.len() - 1 {
                assert(before[i].token != token);
            } else {
                assert(before[i].token != before[j].token);
            }
        }
    }
    Ok(())
}

/// A week's fees: each token at most once, never zero, and only accepted tokens.
pub open spec fn fees_wf(s: Seq<TokenAmountPair>, tokens: Seq<TokenId>) -> bool {
    &&& pairs_wf(s)
    &&& forall|j: int| 0 <= j < s.len() ==> tokens.contains(#[trigger] s[j].token)
}

/// The fees of `fees` taken token by token in the order of `tokens`, leaving out tokens
/// with nothing held (and any later repeat of a token, which finds nothing left).
pub open spec fn pairs_for(tokens: Seq<TokenId>, fees: Seq<TokenAmountPair>) -> Seq<TokenAmountPair>
    decreases tokens.len(),
{
    if tokens.len() == 0 {
        seq![]
    } else {
        let prev = pairs_for(tokens.drop_last(), fees);
        let t = tokens.last();
        let amt = if tokens.drop_last().contains(t) {
            0
        } else {
            collected(fees, t)
        };
        if amt > 0 {
            prev.push(TokenAmountPair { token: t, amount: amt as u64 })
        } else {
            prev
        }
    }
}

proof fn lemma_pairs_for_nothing(tokens: Seq<TokenId>)
    ensures
        pairs_for(tokens, Seq::<TokenAmountPair>::empty()) == Seq::<TokenAmountPair>::empty(),
    decreases tokens.len(),
{
    if tokens.len() > 0 {
        lemma_pairs_for_nothing(tokens.drop_last());
    }
}

proof fn lemma_token_held(s: Seq<TokenAmountPair>, token: TokenId)
    requires
        collected(s, token) > 0,
    ensures
        exists|k: int| 0 <= k < s.len() && s[k].token == token,
{
    if forall|k: int| 0 <= k < s.len() ==> #[trigger] s[k].token != token {
        lemma_collected_absent(s, token);
    }
}

proof fn lemma_collected_remove(s: Seq<TokenAmountPair>, i: int, token: TokenId)
    requires
        0 <= i < s.len(),
    ensures
        collected(s.remove(i), token) + (if s[i].token == token {
            s[i].amount as nat
        } else {
            0
        }) == collected(s, token),
    decreases s.len(),
{
    if i == s.len() - 1 {
        assert(s.remove(i) =~= s.drop_last());
    } else {
        lemma_collected_remove(s.drop_last(), i, token);
        assert(s.remove(i).drop_last() =~= s.drop_last().remove(i));
        assert(s.remove(i).last() == s.last());
    }
}

/// Fees deposited per week and token, handed over once per week to the reward splitting.
pub struct FeesAccumulationModule {
    known_contracts: Vec<UserId>,
    known_tokens: Vec<TokenId>,
    accumulated_fees: HashMap<Week, Vec<TokenAmountPair>>,
}

impl FeesAccumulationModule {
    /// The tokens accepted as deposits.
    pub closed spec fn tokens(&self) -> Seq<TokenId> {
        self.known_tokens@
    }

    /// The contracts allowed to deposit.
    pub closed spec fn contracts(&self) -> Seq<UserId> {
        self.known_contracts@
    }

    /// The fees held, by week.
    pub closed spec fn fees(&self) -> Map<Week, Seq<TokenAmountPair>> {
        self.accumulated_fees@.map_values(|v: Vec<TokenAmountPair>| v@)
    }

    /// Each week holds each token at most once, never with a zero amount, and only
    /// tokens that are accepted.
    pub open spec fn wf(&self) -> bool {
        forall|w: Week| #[trigger] self.fees().contains_key(w) ==> fees_wf(self.fees()[w], self.tokens())
    }

    pub fn new(known_contracts: Vec<UserId>, known_tokens: Vec<TokenId>) -> (r: FeesAccumulationModule)
        ensures
            r.wf(),
            r.contracts() == known_contracts@,
            r.tokens() == known_tokens@,
            r.fees() == Map::<Week, Seq<TokenAmountPair>>::empty(),
    {
        let r = FeesAccumulationModule { known_contracts, known_tokens, accumulated_fees: HashMap::new() };
        assert(r.fees() =~= Map::<Week, Seq<TokenAmountPair>>::empty());
        r
    }

    /// The fees of `token` held for `week`.
    pub fn accumulated_fees(&self, week: Week, token: TokenId) -> (r: u64)
        requires
            self.wf(),
        ensures
            r == collected(fees_in(self.fees(), week), token),
    {
        match self.accumulated_fees.get(&week) {
            None => 0,
            Some(v) => {
                assert(self.fees().contains_key(week));
                let mut i: usize = 0;
                while i < v.len()
                    invariant
                        i <= v.len(),
                        self.fees().contains_key(week),
                        v@ == self.fees()[week],
                        pairs_wf(v@),
                        forall|j: int| 0 <= j < i ==> #[trigger] v@[j].token != token,
                    decreases v.len() - i,
                {
                    if v[i].token == token {
                        proof {
                            lemma_collected_at(v@, i as int);
                        }
                        return v[i].amount;
                    }
                    i += 1;
                }
                proof {
                    lemma_collected_absent(v@, token);
                }
                0
            },
        }
    }

    /// Adds a deposit by `caller` of `amount` of `token` to the fees of `current_week`.
    pub fn deposit_swap_fees(
        &mut self,
        caller: UserId,
        current_week: Week,
        token: TokenId,
        amount: u64,
    ) -> (r: Result<(), RewardsError>)
        requires
            old(self).wf(),
        ensures
            final(self).wf(),
            final(self).contracts() == old(self).contracts(),
            final(self).tokens() == old(self).tokens(),
            !old(self).contracts().contains(caller) ==> r == Err::<(), RewardsError>(RewardsError::UnknownContract),
            old(self).contracts().contains(caller) && !old(self).tokens().contains(token) ==> r == Err::<
                (),
                RewardsError,
            >(RewardsError::UnknownToken),
            old(self).contracts().contains(caller) && old(self).tokens().contains(token) ==> (r is Err <==> collected(
                fees_in(old(self).fees(), current_week),
                token,
            ) + amount > u64::MAX),
            old(self).contracts().contains(caller) && old(self).tokens().contains(token) && r is Err ==> r == Err::<
                (),
                RewardsError,
            >(RewardsError::Overflow),
            r is Err ==> final(self).fees() == old(self).fees(),
            r is Ok ==> forall|w: Week, t: TokenId|
                #[trigger] collected(fees_in(final(self).fees(), w), t) == collected(
                    fees_in(old(self).fees(), w),
                    t,
                ) + if w == current_week && t == token {
                    amount as nat
                } else {
                    0
                },
    {
        if !contains_id(&self.known_contracts, caller) {
            return Err(RewardsError::UnknownContract);
        }
        if !contains_id(&self.known_tokens, token) {
            return Err(RewardsError::UnknownToken);
        }
        if amount == 0 {
            proof {
                if self.fees().contains_key(current_week) {
                    crate::types::lemma_collected_bounded(self.fees()[current_week], token);
                }
            }
            return Ok(());
        }
        let mut v: Vec<TokenAmountPair> = match self.accumulated_fees.get(&current_week) {
            Some(cur) => copy_pairs(cur),
            None => Vec::new(),
        };
        assert(v@ == fees_in(self.fees(), current_week));
        assert(fees_wf(v@, self.tokens())) by {
            if self.fees().contains_key(current_week) {
                assert(fees_wf(self.fees()[current_week], self.tokens()));
            }
        }
        let ghost before = v@;
        let res = add_pair(&mut v, token, amount);
        if res.is_err() {
            return Err(RewardsError::Overflow);
        }
        proof {
            assert forall|j: int| 0 <= j < v@.len() implies self.tokens().contains(#[trigger] v@[j].token) by {
                if v@[j].token != token {
                    lemma_collected_at(v@, j);
                    lemma_token_held(before, v@[j].token);
                    let k = choose|k: int| 0 <= k < before.len() && before[k].token == v@[j].token;
                    assert(self.tokens().contains(before[k].token));
                }
            }
        }
        let ghost old_fees = self.fees();
        self.accumulated_fees.insert(current_week, v);
        assert(self.fees() =~= old_fees.insert(current_week, v@));
        Ok(())
    }

    /// Takes the fees of `token` held for `week`: `None` when there are none.
    pub fn get_and_clear_acccumulated_fees(&mut self, week: Week, token: TokenId) -> (r: Option<u64>)
        requires
            old(self).wf(),
        ensures
            final(self).wf(),
            final(self).contracts() == old(self).contracts(),
            final(self).tokens() == old(self).tokens(),
            ({
                let amt = collected(fees_in(old(self).fees(), week), token);
                &&& amt == 0 ==> r is None
                &&& amt > 0 ==> r == Some(amt as u64)
            }),
            forall|w: Week| w != week ==> #[trigger] fees_in(final(self).fees(), w) == fees_in(old(self).fees(), w),
            final(self).fees().dom() == old(self).fees().dom(),
            forall|t: TokenId|
                #[trigger] collected(fees_in(final(self).fees(), week), t) == if t == token {
                    0
                } else {
                    collected(fees_in(old(self).fees(), week), t)
                },
    {
        let ghost old_fees = self.fees();
        let mut v: Vec<TokenAmountPair> = match self.accumulated_fees.get(&week) {
            Some(cur) => copy_pairs(cur),
            None => {
                return None;
            },
        };
        assert(old_fees.contains_key(week));
        assert(v@ == old_fees[week]);
        assert(fees_wf(v@, self.tokens()));
        proof {
            crate::types::lemma_collected_bounded(v@, token);
        }
        let mut i: usize = 0;
        while i < v.len()
            invariant
                i <= v.len(),
                old_fees.contains_key(week),
                v@ == old_fees[week],
                fees_wf(v@, self.tokens()),
                forall|j: int| 0 <= j < i ==> #[trigger] v@[j].token != token,
            ensures
                i <= v.len(),
                v@ == old_fees[week],
                forall|j: int| 0 <= j < i ==> #[trigger] v@[j].token != token,
                i < v.len() ==> v@[i as int].token == token,
            decreases v.len() - i,
        {
            if v[i].token == token {
                break;
            }
            i += 1;
        }
        if i == v.len() {
            proof {
                lemma_collected_absent(v@, token);
                assert forall|t: TokenId| #[trigger] collected(fees_in(self.fees(), week), t) == if t == token {
                    0
                } else {
                    collected(fees_in(old_fees, week), t)
                } by {}
            }
            return None;
        }
        let ghost before = v@;
        proof {
            lemma_collected_at(before, i as int);
        }
        let amount = v[i].amount;
        v.remove(i);
        proof {
            assert forall|t: TokenId|
                #[trigger] collected(v@, t) == if t == token {
                    0
                } else {
                    collected(before, t)
                } by {
                lemma_collected_remove(before, i as int, t);
                if t == token {
                    lemma_collected_at(before, i as int);
                }
            }
            assert forall|j: int| 0 <= j < v@.len() implies #[trigger] v@[j].amount > 0 && self.tokens().contains(
                v@[j].token,
            ) by {
                if j < i {
                    assert(v@[j] == before[j]);
                } else {
                    assert(v@[j] == before[j + 1]);
                }
            }
            assert forall|j: int, k: int| 0 <= j < k < v@.len() implies #[trigger] v@[j].token != #[trigger] v@[
                k
            ].token by {
                let jj = if j < i { j } else { j + 1 };
                let kk = if k < i { k } else { k + 1 };
                assert(v@[j] == before[jj]);
                assert(v@[k] == before[kk]);
            }
        }
        self.accumulated_fees.insert(week, v);
        assert(self.fees() =~= old_fees.insert(week, v@));
        Some(amount)
    }

    /// Takes everything held for `week`, token by token in the order of the accepted
    /// tokens, leaving nothing behind for it.
    pub fn collect_accumulated_fees_for_week(&mut self, week: Week) -> (r: Vec<TokenAmountPair>)
        requires
            old(self).wf(),
        ensures
            final(self).wf(),
            final(self).contracts() == old(self).contracts(),
            final(self).tokens() == old(self).tokens(),
            r@ == pairs_for(old(self).tokens(), fees_in(old(self).fees(), week)),
            final(self).fees() == old(self).fees().remove(week),
    {
        let ghost old_fees = self.fees();
        let ghost orig = fees_in(old_fees, week);
        let ghost tokens = self.tokens();
        proof {
            if old_fees.contains_key(week) {
                assert(fees_wf(orig, tokens));
            }
        }
        let mut results: Vec<TokenAmountPair> = Vec::new();
        let mut i: usize = 0;
        while i < self.known_tokens.len()
            invariant
                i <= tokens.len(),
                self.wf(),
                self.tokens() == tokens,
                self.contracts() == old(self).contracts(),
                pairs_wf(orig),
                forall|w: Week| w != week ==> #[trigger] fees_in(self.fees(), w) == fees_in(old_fees, w),
                self.fees().dom() == old_fees.dom(),
                forall|t: TokenId|
                    #[trigger] collected(fees_in(self.fees(), week), t) == if tokens.subrange(0, i as int).contains(t) {
                        0
                    } else {
                        collected(orig, t)
                    },
                results@ == pairs_for(tokens.subrange(0, i as int), orig),
            decreases tokens.len() - i,
        {
            let t = self.known_tokens[i];
            let ghost prefix = tokens.subrange(0, i as int);
            let ghost next = tokens.subrange(0, i as int + 1);
            proof {
                assert(next.drop_last() =~= prefix);
                assert(next.last() == t);
                crate::types::lemma_collected_bounded(orig, t);
                assert forall|x: TokenId| next.contains(x) <==> (prefix.contains(x) || x == t) by {
                    if next.contains(x) {
                        let k = choose|k: int| 0 <= k < next.len() && next[k] == x;
                        if k < i {
                            assert(prefix[k] == x);
                        }
                    }
                    if prefix.contains(x) {
                        let k = choose|k: int| 0 <= k < prefix.len() && prefix[k] == x;
                        assert(next[k] == x);
                    }
                    if x == t {
                        assert(next[i as int] == x);
                    }
                }
            }
            match self.get_and_clear_acccumulated_fees(week, t) {
                Some(amount) => {
                    results.push(TokenAmountPair { token: t, amount });
                },
                None => {},
            }
            i += 1;
        }
        proof {
            assert(tokens.subrange(0, tokens.len() as int) =~= tokens);
        }
        let ghost mid = self.fees();
        self.accumulated_fees.remove(&week);
        proof {
            assert forall|w: Week| #[trigger] self.fees().contains_key(w) <==> old_fees.remove(week).contains_key(w) by {}
            assert forall|w: Week| #[trigger] self.fees().contains_key(w) implies self.fees()[w] == old_fees.remove(
                week,
            )[w] by {
                assert(fees_in(mid, w) == fees_in(old_fees, w));
            }
            assert(self.fees() =~= old_fees.remove(week));
        }
        results
    }
}

/// True iff `id` occurs in `ids`.
fn contains_id(ids: &Vec<u64>, id: u64) -> (r: bool)
    ensures
        r <==> ids@.contains(id),
{
    let mut i: usize = 0;
    while i < ids.len()
        invariant
            i <= ids.len(),
            forall|j: int| 0 <= j < i ==> #[trigger] ids@[j] != id,
        decreases ids.len() - i,
    {
        if ids[i] == id {
            assert(ids@[i as int] == id);
            return true;
        }
        i += 1;
    }
    false
}

impl WeeklyRewardsSplittingTraitsModule for FeesAccumulationModule {
    open spec fn rewards_wf(&self) -> bool {
        self.wf()
    }

    open spec fn rewards_for_week(&self, week: Week) -> Seq<TokenAmountPair> {
        pairs_for(self.tokens(), fees_in(self.fees(), week))
    }

    fn get_rewards_for_week(&self, week: Week) -> Vec<TokenAmountPair> {
        let ghost fees = fees_in(self.fees(), week);
        let ghost tokens = self.tokens();
        proof {
            if self.fees().contains_key(week) {
                assert(fees_wf(fees, tokens));
            }
        }
        let mut results: Vec<TokenAmountPair> = Vec::new();
        let mut i: usize = 0;
        while i < self.known_tokens.len()
            invariant
                i <= tokens.len(),
                self.wf(),
                tokens == self.tokens(),
                fees == fees_in(self.fees(), week),
                pairs_wf(fees),
                results@ == pairs_for(tokens.subrange(0, i as int), fees),
            decreases tokens.len() - i,
        {
            let t = self.known_tokens[i];
            let ghost prefix = tokens.subrange(0, i as int);
            let ghost next = tokens.subrange(0, i as int + 1);
            proof {
                assert(next.drop_last() =~= prefix);
                assert(next.last() == t);
                crate::types::lemma_collected_bounded(fees, t);
            }
            let mut seen = false;
            let mut j: usize = 0;
            while j < i
                invariant
                    j <= i,
                    i < tokens.len(),
                    tokens == self.tokens(),
                    prefix == tokens.subrange(0, i as int),
                    seen <==> exists|k: int| 0 <= k < j && prefix[k] == t,
                decreases i - j,
            {
                assert(prefix[j as int] == self.known_tokens@[j as int]);
                if self.known_tokens[j] == t {
                    seen = true;
                }
                proof {
                    assert forall|k: int| 0 <= k < j + 1 && prefix[k] == t implies (k < j || self.known_tokens@[j as int] == t) by {}
                }
                j += 1;
            }
            proof {
                assert(seen <==> prefix.contains(t)) by {
                    if prefix.contains(t) {
                        let k = choose|k: int| 0 <= k < prefix.len() && prefix[k] == t;
                        assert(0 <= k < j && prefix[k] == t);
                    }
                }
            }
            if !seen {
                let amount = self.accumulated_fees(week, t);
                if amount > 0 {
                    results.push(TokenAmountPair { token: t, amount });
                }
            }
            i += 1;
        }
        proof {
            assert(tokens.subrange(0, tokens.len() as int) =~= tokens);
        }
        results
    }

    fn collect_rewards_for_week(&mut self, week: Week) -> Vec<TokenAmountPair> {
        let r = self.collect_accumulated_fees_for_week(week);
        proof {
            lemma_pairs_for_nothing(self.tokens());
            assert(fees_in(self.fees(), week) =~= Seq::<TokenAmountPair>::empty());
            assert forall|x: Week| x != week implies #[trigger] fees_in(self.fees(), x) == fees_in(old(self).fees(), x) by {}
        }
        r
    }
}

} // verus!
