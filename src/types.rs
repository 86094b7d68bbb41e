use vstd::prelude::*;

verus! {

/// Identifier of a reward token.
pub type TokenId = u64;

/// Identifier of a participant.
pub type UserId = u64;

/// Signed energy as reported by the energy source; may be transiently negative.
pub type EnergyAmount = i64;

/// An amount of one token collected for a period.
#[derive(Clone, Copy, Debug, PartialEq, Eq, Structural)]
pub struct TokenAmountPair {
    pub token: TokenId,
    pub amount: u64,
}

/// An amount of one token owed to (or paid to) a participant.
#[derive(Clone, Copy, Debug, PartialEq, Eq, Structural)]
pub struct Payment {
    pub token: TokenId,
    pub amount: u128,
}

/// Errors of the reward engine.
#[derive(Clone, Copy, Debug, PartialEq, Eq, Structural)]
pub enum RewardsError {
    /// An accumulated amount no longer fits its integer type.
    Overflow,
    /// A debit larger than what it is taken from.
    Underflow,
    /// A claim-progress update would move a participant's progress backwards.
    ProgressRegression,
    /// A deposit of a token that is not on the allow-list.
    UnknownToken,
    /// A deposit from a contract that is not allowed to deposit.
    UnknownContract,
    /// The current time lies before the first period.
    BeforeFirstWeek,
}

/// Energy used as a splitting weight: negative energy counts as zero.
pub open spec fn energy_weight(e: int) -> nat {
    if e > 0 {
        e as nat
    } else {
        0
    }
}

/// Clamps a signed energy to the non-negative weight used for splitting.
pub fn energy_weight_of(e: EnergyAmount) -> (r: u64)
    ensures
        r == energy_weight(e as int),
{
    if e > 0 {
        e as u64
    } else {
        0
    }
}

/// Sum of the amounts of `token` in a list of collected amounts.
pub open spec fn collected(s: Seq<TokenAmountPair>, token: TokenId) -> nat
    decreases s.len(),
{
    if s.len() == 0 {
        0
    } else {
        collected(s.drop_last(), token) + if s.last().token == token {
            s.last().amount as nat
        } else {
            0
        }
    }
}

/// Sum of the amounts of `token` in a list of payments.
pub open spec fn paid(s: Seq<Payment>, token: TokenId) -> nat
    decreases s.len(),
{
    if s.len() == 0 {
        0
    } else {
        paid(s.drop_last(), token) + if s.last().token == token {
            s.last().amount as nat
        } else {
            0
        }
    }
}

/// A payment list read as a mapping: each token at most once, never with a zero amount.
pub open spec fn payments_wf(s: Seq<Payment>) -> bool {
    &&& forall|i: int| 0 <= i < s.len() ==> #[trigger] s[i].amount > 0
    &&& forall|i: int, j: int|
        0 <= i < j < s.len() ==> #[trigger] s[i].token != #[trigger] s[j].token
}

/// A list of collected amounts read as a mapping: each token at most once, never zero.
pub open spec fn pairs_wf(s: Seq<TokenAmountPair>) -> bool {
    &&& forall|i: int| 0 <= i < s.len() ==> #[trigger] s[i].amount > 0
    &&& forall|i: int, j: int|
        0 <= i < j < s.len() ==> #[trigger] s[i].token != #[trigger] s[j].token
}

pub proof fn lemma_paid_absent(s: Seq<Payment>, token: TokenId)
    requires
        forall|i: int| 0 <= i < s.len() ==> #[trigger] s[i].token != token,
    ensures
        paid(s, token) == 0,
    decreases s.len(),
{
    if s.len() > 0 {
        lemma_paid_absent(s.drop_last(), token);
    }
}

pub proof fn lemma_paid_update(s: Seq<Payment>, k: int, x: Payment, token: TokenId)
    requires
        0 <= k < s.len(),
    ensures
        paid(s.update(k, x), token) + (if s[k].token == token {
            s[k].amount as nat
        } else {
            0
        }) == paid(s, token) + (if x.token == token {
            x.amount as nat
        } else {
            0
        }),
    decreases s.len(),
{
    let t = s.update(k, x);
    if k == s.len() - 1 {
        assert(t.drop_last() =~= s.drop_last());
    } else {
        lemma_paid_update(s.drop_last(), k, x, token);
        assert(t.drop_last() =~= s.drop_last().update(k, x));
    }
}

pub proof fn lemma_paid_at(s: Seq<Payment>, k: int)
    requires
        payments_wf(s),
        0 <= k < s.len(),
    ensures
        paid(s, s[k].token) == s[k].amount,
    decreases s.len(),
{
    let tok = s[k].token;
    if k == s.len() - 1 {
        lemma_paid_absent(s.drop_last(), tok);
    } else {
        lemma_paid_at(s.drop_last(), k);
    }
}

pub proof fn lemma_collected_absent(s: Seq<TokenAmountPair>, token: TokenId)
    requires
        forall|i: int| 0 <= i < s.len() ==> #[trigger] s[i].token != token,
    ensures
        collected(s, token) == 0,
    decreases s.len(),
{
    if s.len() > 0 {
        lemma_collected_absent(s.drop_last(), token);
    }
}

pub proof fn lemma_collected_update(s: Seq<TokenAmountPair>, k: int, x: TokenAmountPair, token: TokenId)
    requires
        0 <= k < s.len(),
    ensures
        collected(s.update(k, x), token) + (if s[k].token == token {
            s[k].amount as nat
        } else {
            0
        }) == collected(s, token) + (if x.token == token {
            x.amount as nat
        } else {
            0
        }),
    decreases s.len(),
{
    let t = s.update(k, x);
    if k == s.len() - 1 {
        assert(t.drop_last() =~= s.drop_last());
    } else {
        lemma_collected_update(s.drop_last(), k, x, token);
        assert(t.drop_last() =~= s.drop_last().update(k, x));
    }
}

pub proof fn lemma_collected_at(s: Seq<TokenAmountPair>, k: int)
    requires
        pairs_wf(s),
        0 <= k < s.len(),
    ensures
        collected(s, s[k].token) == s[k].amount,
    decreases s.len(),
{
    let tok = s[k].token;
    if k == s.len() - 1 {
        lemma_collected_absent(s.drop_last(), tok);
    } else {
        lemma_collected_at(s.drop_last(), k);
    }
}

/// Copies a list of collected amounts.
pub fn copy_pairs(v: &Vec<TokenAmountPair>) -> (r: Vec<TokenAmountPair>)
    ensures
        r@ == v@,
{
    let mut r: Vec<TokenAmountPair> = Vec::new();
    let mut i: usize = 0;
    while i < v.len()
        invariant
            i <= v.len(),
            r@ == v@.subrange(0, i as int),
        decreases v.len() - i,
    {
        r.push(v[i]);
        i += 1;
        assert(r@ =~= v@.subrange(0, i as int));
    }
    assert(r@ =~= v@);
    r
}

pub proof fn lemma_paid_bounded(s: Seq<Payment>, token: TokenId)
    requires
        payments_wf(s),
    ensures
        paid(s, token) <= u128::MAX,
{
    if exists|k: int| 0 <= k < s.len() && #[trigger] s[k].token == token {
        let k = choose|k: int| 0 <= k < s.len() && #[trigger] s[k].token == token;
        lemma_paid_at(s, k);
    } else {
        lemma_paid_absent(s, token);
    }
}

pub proof fn lemma_collected_bounded(s: Seq<TokenAmountPair>, token: TokenId)
    requires
        pairs_wf(s),
    ensures
        collected(s, token) <= u64::MAX,
{
    if exists|k: int| 0 <= k < s.len() && #[trigger] s[k].token == token {
        let k = choose|k: int| 0 <= k < s.len() && #[trigger] s[k].token == token;
        lemma_collected_at(s, k);
    } else {
        lemma_collected_absent(s, token);
    }
}

} // verus!
