use vstd::prelude::*;
use std::collections::HashMap;

use crate::types::{TokenId, UserId};

verus! {

broadcast use vstd::std_specs::hash::group_hash_axioms;

/// Epochs between an unstake and the unbond that returns the tokens.
pub const UNBOND_EPOCHS: u64 = 3;

/// Most entries returned by one snapshot page.
pub const MAX_SNAPSHOT_RESULTS: usize = 5_000;

/// One participant's staked locked assets.
#[derive(Clone, Copy, Debug, PartialEq, Eq, Structural)]
pub struct UserEntry {
    pub token_nonce: u64,
    pub stake_amount: u128,
    pub unstake_amount: u128,
    pub unbond_epoch: u64,
}

/// Why a staking action was refused.
#[derive(Clone, Copy, Debug, PartialEq, Eq, Structural)]
pub enum StakingError {
    MustStakeFirst,
    TryingToUnstakeTooMuch,
    MustUnstakeFirst,
    UnbondPeriodInProgress,
    Overflow,
}

/// Staking of locked assets, with a delayed unbond and paged snapshots of the stakes.
pub struct MetabondingStaking {
    locked_asset_token_id: TokenId,
    locked_asset_factory_address: UserId,
    entries: HashMap<UserId, UserEntry>,
    user_list: Vec<UserId>,
    total_locked_asset_supply: u128,
}

/// The `(participant, stake)` pairs of the participants at positions `lo .. hi` of `users`
/// whose stake is positive, in list order.
pub open spec fn snapshot_entries(users: Seq<UserId>, entries: Map<UserId, UserEntry>, lo: int, hi: int) -> Seq<(UserId, u128)>
    decreases hi - lo,
{
    if hi <= lo {
        seq![]
    } else {
        let prev = snapshot_entries(users, entries, lo, hi - 1);
        let u = users[hi - 1];
        if entries[u].stake_amount > 0 {
            prev.push((u, entries[u].stake_amount))
        } else {
            prev
        }
    }
}

/// What an entry holds: its staked and its unstaked amount.
pub open spec fn entry_total(e: UserEntry) -> int {
    e.stake_amount + e.unstake_amount
}

/// What the listed participants hold in all.
pub open spec fn held(users: Seq<UserId>, entries: Map<UserId, UserEntry>) -> int
    decreases users.len(),
{
    if users.len() == 0 {
        0
    } else {
        held(users.drop_last(), entries) + entry_total(entries[users.last()])
    }
}

proof fn lemma_held_frame(users: Seq<UserId>, m1: Map<UserId, UserEntry>, m2: Map<UserId, UserEntry>)
    requires
        forall|i: int| 0 <= i < users.len() ==> entry_total(m1[#[trigger] users[i]]) == entry_total(m2[users[i]]),
    ensures
        held(users, m1) == held(users, m2),
    decreases users.len(),
{
    if users.len() > 0 {
        let d = users.drop_last();
        assert forall|i: int| 0 <= i < d.len() implies entry_total(m1[#[trigger] d[i]]) == entry_total(m2[d[i]]) by {
            assert(d[i] == users[i]);
        }
        lemma_held_frame(d, m1, m2);
        assert(users.last() == users[users.len() - 1]);
    }
}

proof fn lemma_held_insert(users: Seq<UserId>, m: Map<UserId, UserEntry>, c: UserId, x: UserEntry)
    requires
        users.no_duplicates(),
    ensures
        held(users, m.insert(c, x)) == held(users, m) + if users.contains(c) {
            entry_total(x) - entry_total(m[c])
        } else {
            0
        },
    decreases users.len(),
{
    if users.len() > 0 {
        let d = users.drop_last();
        assert(d.no_duplicates()) by {
            assert forall|i: int, j: int| 0 <= i < d.len() && 0 <= j < d.len() && i != j implies d[i] != d[j] by {
                assert(d[i] == users[i] && d[j] == users[j]);
            }
        }
        lemma_held_insert(d, m, c, x);
        let l = users.last();
        assert(users.contains(c) <==> (d.contains(c) || l == c)) by {
            if users.contains(c) {
                let k = choose|k: int| 0 <= k < users.len() && users[k] == c;
                if k < d.len() {
                    assert(d[k] == c);
                }
            }
            if d.contains(c) {
                let k = choose|k: int| 0 <= k < d.len() && d[k] == c;
                assert(users[k] == c);
            }
            if l == c {
                assert(users[users.len() - 1] == c);
            }
        }
        if l == c {
            assert(!d.contains(c)) by {
                if d.contains(c) {
                    let k = choose|k: int| 0 <= k < d.len() && d[k] == c;
                    assert(users[k] == users[users.len() - 1]);
                }
            }
        }
    }
}

proof fn lemma_held_update(users: Seq<UserId>, m: Map<UserId, UserEntry>, i: int, u: UserId)
    requires
        0 <= i < users.len(),
    ensures
        held(users.update(i, u), m) == held(users, m) - entry_total(m[users[i]]) + entry_total(m[u]),
    decreases users.len(),
{
    let t = users.update(i, u);
    if i == users.len() - 1 {
        assert(t.drop_last() =~= users.drop_last());
    } else {
        lemma_held_update(users.drop_last(), m, i, u);
        assert(t.drop_last() =~= users.drop_last().update(i, u));
    }
}

proof fn lemma_held_at_least(users: Seq<UserId>, m: Map<UserId, UserEntry>, c: UserId)
    requires
        users.contains(c),
    ensures
        held(users, m) >= entry_total(m[c]),
    decreases users.len(),
{
    lemma_held_nonneg(users.drop_last(), m);
    if users.last() != c {
        let k = choose|k: int| 0 <= k < users.len() && users[k] == c;
        assert(users.drop_last()[k] == c);
        lemma_held_at_least(users.drop_last(), m, c);
    }
}

proof fn lemma_held_nonneg(users: Seq<UserId>, m: Map<UserId, UserEntry>)
    ensures
        held(users, m) >= 0,
    decreases users.len(),
{
    if users.len() > 0 {
        lemma_held_nonneg(users.drop_last(), m);
    }
}

impl MetabondingStaking {
    /// The entry of each participant that has one.
    pub closed spec fn entries(&self) -> Map<UserId, UserEntry> {
        self.entries@
    }

    /// The participants, in snapshot order.
    pub closed spec fn users(&self) -> Seq<UserId> {
        self.user_list@
    }

    pub closed spec fn token_id(&self) -> TokenId {
        self.locked_asset_token_id
    }

    pub closed spec fn factory_address(&self) -> UserId {
        self.locked_asset_factory_address
    }

    pub closed spec fn total_supply(&self) -> u128 {
        self.total_locked_asset_supply
    }

    /// Each participant with an entry is listed exactly once, and the total supply is what
    /// the entries hold.
    pub open spec fn wf(&self) -> bool {
        &&& self.users().no_duplicates()
        &&& forall|u: UserId| #[trigger] self.entries().contains_key(u) <==> self.users().contains(u)
        &&& self.total_supply() == held(self.users(), self.entries())
    }

    pub fn init(locked_asset_token_id: TokenId, locked_asset_factory_address: UserId) -> (r: MetabondingStaking)
        ensures
            r.wf(),
            r.token_id() == locked_asset_token_id,
            r.factory_address() == locked_asset_factory_address,
            r.entries() == Map::<UserId, UserEntry>::empty(),
            r.total_supply() == 0,
    {
        let r = MetabondingStaking {
            locked_asset_token_id,
            locked_asset_factory_address,
            entries: HashMap::new(),
            user_list: Vec::new(),
            total_locked_asset_supply: 0,
        };
        assert(r.users() =~= Seq::<UserId>::empty());
        r
    }

    pub fn locked_asset_token_id(&self) -> (r: TokenId)
        ensures
            r == self.token_id(),
    {
        self.locked_asset_token_id
    }

    pub fn total_locked_asset_supply(&self) -> (r: u128)
        ensures
            r == self.total_supply(),
    {
        self.total_locked_asset_supply
    }

    /// Adds `amount` to the stake of `caller`, whose staked tokens are now held under the
    /// merged token `merged_nonce`.
    pub fn stake_locked_asset(&mut self, caller: UserId, amount: u128, merged_nonce: u64) -> (r: Result<(), StakingError>)
        requires
            old(self).wf(),
        ensures
            final(self).wf(),
            final(self).token_id() == old(self).token_id(),
            final(self).factory_address() == old(self).factory_address(),
            ({
                let prev = if old(self).entries().contains_key(caller) {
                    old(self).entries()[caller]
                } else {
                    UserEntry { token_nonce: 0, stake_amount: 0, unstake_amount: 0, unbond_epoch: 0 }
                };
                &&& r is Err <==> (prev.stake_amount + amount > u128::MAX
                    || old(self).total_supply() + amount > u128::MAX)
                &&& r is Err ==> r == Err::<(), StakingError>(StakingError::Overflow)
                    && final(self).entries() == old(self).entries()
                    && final(self).total_supply() == old(self).total_supply()
                    && final(self).users() == old(self).users()
                &&& r is Ok ==> final(self).users() == if old(self).entries().contains_key(caller) {
                    old(self).users()
                } else {
                    old(self).users().push(caller)
                }
                &&& r is Ok ==> final(self).entries() == old(self).entries().insert(
                    caller,
                    UserEntry {
                        token_nonce: merged_nonce,
                        stake_amount: (prev.stake_amount + amount) as u128,
                        ..prev
                    },
                ) && final(self).total_supply() == old(self).total_supply() + amount
            }),
    {
        let prev = match self.entries.get(&caller) {
            Some(e) => *e,
            None => UserEntry { token_nonce: 0, stake_amount: 0, unstake_amount: 0, unbond_epoch: 0 },
        };
        let stake_amount = match prev.stake_amount.checked_add(amount) {
            Some(v) => v,
            None => {
                return Err(StakingError::Overflow);
            },
        };
        let total = match self.total_locked_asset_supply.checked_add(amount) {
            Some(v) => v,
            None => {
                return Err(StakingError::Overflow);
            },
        };
        let listed = self.entries.contains_key(&caller);
        let ghost old_entries = self.entries();
        self.total_locked_asset_supply = total;
        let new_entry = UserEntry { token_nonce: merged_nonce, stake_amount, ..prev };
        self.entries.insert(caller, new_entry);
        proof {
            lemma_held_insert(self.users(), old_entries, caller, new_entry);
        }
        if !listed {
            let ghost before = self.user_list@;
            self.user_list.push(caller);
            proof {
                assert(self.user_list@ == before.push(caller));
                assert(self.users().drop_last() =~= before);
                assert(!before.contains(caller));
                assert(self.users().no_duplicates()) by {
                    assert forall|i: int, j: int| 0 <= i < self.users().len() && 0 <= j < self.users().len() && i != j
                        implies self.users()[i] != self.users()[j] by {
                        if i < before.len() && j < before.len() {
                            assert(before[i] != before[j]);
                        } else if i < before.len() {
                            assert(before.contains(before[i]));
                        } else {
                            assert(before.contains(before[j]));
                        }
                    }
                }
                assert forall|u: UserId| #[trigger] self.users().contains(u) <==> (before.contains(u) || u == caller) by {
                    if u == caller {
                        assert(self.users()[before.len() as int] == caller);
                    }
                    if before.contains(u) {
                        let k = choose|k: int| 0 <= k < before.len() && before[k] == u;
                        assert(self.users()[k] == u);
                    }
                }
            }
        }
        Ok(())
    }

    /// Moves `amount` of the stake of `caller` to the unstaked part, unbondable from
    /// `current_epoch + UNBOND_EPOCHS` on.
    pub fn unstake(&mut self, caller: UserId, amount: u128, current_epoch: u64) -> (r: Result<(), StakingError>)
        requires
            old(self).wf(),
        ensures
            final(self).wf(),
            final(self).token_id() == old(self).token_id(),
            final(self).factory_address() == old(self).factory_address(),
            final(self).total_supply() == old(self).total_supply(),
            final(self).users() == old(self).users(),
            !old(self).entries().contains_key(caller) ==> r == Err::<(), StakingError>(StakingError::MustStakeFirst),
            old(self).entries().contains_key(caller) ==> {
                let e = old(self).entries()[caller];
                &&& amount > e.stake_amount ==> r == Err::<(), StakingError>(StakingError::TryingToUnstakeTooMuch)
                &&& amount <= e.stake_amount ==> (r is Err <==> (e.unstake_amount + amount > u128::MAX
                    || current_epoch + UNBOND_EPOCHS > u64::MAX))
                &&& amount <= e.stake_amount && r is Err ==> r == Err::<(), StakingError>(StakingError::Overflow)
                &&& r is Ok ==> final(self).entries() == old(self).entries().insert(
                    caller,
                    UserEntry {
                        token_nonce: e.token_nonce,
                        stake_amount: (e.stake_amount - amount) as u128,
                        unstake_amount: (e.unstake_amount + amount) as u128,
                        unbond_epoch: (current_epoch + UNBOND_EPOCHS) as u64,
                    },
                )
            },
            r is Err ==> final(self).entries() == old(self).entries(),
    {
        let mut entry = match self.entries.get(&caller) {
            Some(e) => *e,
            None => {
                return Err(StakingError::MustStakeFirst);
            },
        };
        if amount > entry.stake_amount {
            return Err(StakingError::TryingToUnstakeTooMuch);
        }
        let unbond_epoch = match current_epoch.checked_add(UNBOND_EPOCHS) {
            Some(v) => v,
            None => {
                return Err(StakingError::Overflow);
            },
        };
        let unstake_amount = match entry.unstake_amount.checked_add(amount) {
            Some(v) => v,
            None => {
                return Err(StakingError::Overflow);
            },
        };
        entry.unbond_epoch = unbond_epoch;
        entry.stake_amount = entry.stake_amount - amount;
        entry.unstake_amount = unstake_amount;
        let ghost old_entries = self.entries();
        self.entries.insert(caller, entry);
        proof {
            lemma_held_insert(self.users(), old_entries, caller, entry);
        }
        Ok(())
    }

    /// Returns the unstaked part of `caller`'s tokens once the unbond epoch is reached, as
    /// `(token_nonce, amount)`. A participant left without stake is removed.
    pub fn unbond(&mut self, caller: UserId, current_epoch: u64) -> (r: Result<(u64, u128), StakingError>)
        requires
            old(self).wf(),
        ensures
            final(self).wf(),
            final(self).token_id() == old(self).token_id(),
            final(self).factory_address() == old(self).factory_address(),
            !old(self).entries().contains_key(caller) ==> r == Err::<(u64, u128), StakingError>(StakingError::MustStakeFirst),
            old(self).entries().contains_key(caller) ==> {
                let e = old(self).entries()[caller];
                &&& e.unstake_amount == 0 ==> r == Err::<(u64, u128), StakingError>(StakingError::MustUnstakeFirst)
                &&& e.unstake_amount > 0 && current_epoch < e.unbond_epoch ==> r == Err::<(u64, u128), StakingError>(
                    StakingError::UnbondPeriodInProgress,
                )
                &&& e.unstake_amount > 0 && current_epoch >= e.unbond_epoch ==> r is Ok
                &&& r is Ok ==> {
                    &&& r == Ok::<(u64, u128), StakingError>((e.token_nonce, e.unstake_amount))
                    &&& final(self).total_supply() == old(self).total_supply() - e.unstake_amount
                    &&& e.stake_amount == 0 ==> final(self).entries() == old(self).entries().remove(caller)
                        && final(self).users().len() == old(self).users().len() - 1
                        && forall|u: UserId| #[trigger] final(self).users().contains(u) <==> (old(self).users().contains(u) && u != caller)
                    &&& e.stake_amount > 0 ==> final(self).users() == old(self).users()
                    &&& e.stake_amount > 0 ==> final(self).entries() == old(self).entries().insert(
                        caller,
                        UserEntry { unstake_amount: 0, unbond_epoch: u64::MAX, ..e },
                    )
                }
            },
            r is Err ==> final(self).entries() == old(self).entries() && final(self).total_supply()
                == old(self).total_supply() && final(self).users() == old(self).users(),
    {
        let mut entry = match self.entries.get(&caller) {
            Some(e) => *e,
            None => {
                return Err(StakingError::MustStakeFirst);
            },
        };
        let unstake_amount = entry.unstake_amount;
        if unstake_amount == 0 {
            return Err(StakingError::MustUnstakeFirst);
        }
        if current_epoch < entry.unbond_epoch {
            return Err(StakingError::UnbondPeriodInProgress);
        }
        proof {
            assert(self.users().contains(caller));
            lemma_held_at_least(self.users(), self.entries(), caller);
        }
        let ghost old_users = self.users();
        let ghost old_entries = self.entries();
        self.total_locked_asset_supply = self.total_locked_asset_supply - unstake_amount;
        if entry.stake_amount == 0 {
            self.entries.remove(&caller);
            self.remove_user(caller);
            proof {
                let t = self.users();
                assert(held(t, old_entries) == held(old_users, old_entries) - entry_total(old_entries[caller]));
                assert forall|i: int| 0 <= i < t.len() implies entry_total(old_entries[#[trigger] t[i]]) == entry_total(
                    self.entries()[t[i]],
                ) by {
                    assert(t.contains(t[i]));
                }
                lemma_held_frame(t, old_entries, self.entries());
            }
        } else {
            entry.unstake_amount = 0;
            entry.unbond_epoch = u64::MAX;
            self.entries.insert(caller, entry);
            proof {
                lemma_held_insert(old_users, old_entries, caller, entry);
            }
        }
        Ok((entry.token_nonce, unstake_amount))
    }

    /// The stake of `user`, zero for one without an entry.
    pub fn get_staked_amount_for_user(&self, user_address: UserId) -> (r: u128)
        ensures
            r == if self.entries().contains_key(user_address) {
                self.entries()[user_address].stake_amount
            } else {
                0
            },
    {
        match self.entries.get(&user_address) {
            Some(e) => e.stake_amount,
            None => 0,
        }
    }

    /// The entry of `user`, if there is one.
    pub fn get_user_entry(&self, user_address: UserId) -> (r: Option<UserEntry>)
        ensures
            r is Some <==> self.entries().contains_key(user_address),
            r matches Some(e) ==> e == self.entries()[user_address],
    {
        match self.entries.get(&user_address) {
            Some(e) => Some(*e),
            None => None,
        }
    }

    /// Page `snapshot_batch` of the stakes: the number of participants after this page,
    /// and the `(participant, stake)` pairs with a positive stake among the page's
    /// `MAX_SNAPSHOT_RESULTS` participants.
    pub fn get_snapshot(&self, snapshot_batch: usize) -> (r: (usize, Vec<(UserId, u128)>))
        requires
            self.wf(),
            snapshot_batch * MAX_SNAPSHOT_RESULTS + MAX_SNAPSHOT_RESULTS + 1 <= usize::MAX,
        ensures
            ({
                let n = self.users().len() as int;
                let start = snapshot_batch * MAX_SNAPSHOT_RESULTS as int;
                let end = if start + MAX_SNAPSHOT_RESULTS < n {
                    start + MAX_SNAPSHOT_RESULTS
                } else {
                    n
                };
                &&& r.0 == n - end
                &&& r.1@ == snapshot_entries(self.users(), self.entries(), start, end)
            }),
    {
        let mapper_len = self.user_list.len();
        let start_index: usize = snapshot_batch * MAX_SNAPSHOT_RESULTS;
        let end_index: usize = if start_index + MAX_SNAPSHOT_RESULTS < mapper_len {
            start_index + MAX_SNAPSHOT_RESULTS
        } else {
            mapper_len
        };
        let results_left = mapper_len - end_index;
        let mut result: Vec<(UserId, u128)> = Vec::new();
        let mut i: usize = start_index;
        while i < end_index
            invariant
                start_index <= i,
                end_index <= mapper_len,
                start_index < end_index ==> i <= end_index,
                start_index >= end_index ==> i == start_index,
                mapper_len == self.users().len(),
                self.wf(),
                result@ == snapshot_entries(self.users(), self.entries(), start_index as int, i as int),
            decreases end_index - i,
        {
            let user_address = self.user_list[i];
            assert(self.users().contains(user_address)) by {
                assert(self.users()[i as int] == user_address);
            }
            let entry = self.entries.get(&user_address).unwrap();
            if entry.stake_amount > 0 {
                result.push((user_address, entry.stake_amount));
            }
            i += 1;
        }
        proof {
            if start_index >= end_index {
                assert(snapshot_entries(self.users(), self.entries(), start_index as int, end_index as int) == Seq::<(UserId, u128)>::empty());
            }
        }
        (results_left, result)
    }

    /// Takes `user` out of the participant list by moving the last one into its place.
    fn remove_user(&mut self, user: UserId)
        requires
            old(self).users().no_duplicates(),
            old(self).users().contains(user),
        ensures
            final(self).users().no_duplicates(),
            final(self).users().len() == old(self).users().len() - 1,
            forall|u: UserId| #[trigger] final(self).users().contains(u) <==> (old(self).users().contains(u) && u != user),
            forall|m: Map<UserId, UserEntry>|
                #[trigger] held(final(self).users(), m) == held(old(self).users(), m) - entry_total(m[user]),
            final(self).entries() == old(self).entries(),
            final(self).total_supply() == old(self).total_supply(),
            final(self).token_id() == old(self).token_id(),
            final(self).factory_address() == old(self).factory_address(),
    {
        let ghost s = self.user_list@;
        let mut i: usize = 0;
        while i < self.user_list.len()
            invariant
                self.user_list@ == s,
                s.contains(user),
                i <= s.len(),
                forall|j: int| 0 <= j < i ==> #[trigger] s[j] != user,
            ensures
                self.user_list@ == s,
                i <= s.len(),
                forall|j: int| 0 <= j < i ==> #[trigger] s[j] != user,
                i < s.len() ==> s[i as int] == user,
            decreases s.len() - i,
        {
            if self.user_list[i] == user {
                break;
            }
            i += 1;
        }
        proof {
            if i == s.len() {
                let k = choose|k: int| 0 <= k < s.len() && s[k] == user;
                assert(s[k] != user);
            }
        }
        let last = self.user_list.len() - 1;
        self.user_list.swap_remove(i);
        proof {
        let t = self.user_list@;
        assert(s[i as int] == user);
        assert(t =~= if i == last { s.subrange(0, last as int) } else { s.subrange(0, last as int).update(i as int, s[last as int]) });
        assert(s.subrange(0, last as int) =~= s.drop_last());
        assert forall|m: Map<UserId, UserEntry>|
            #[trigger] held(t, m) == held(s, m) - entry_total(m[user]) by {
            if i != last {
                lemma_held_update(s.drop_last(), m, i as int, s[last as int]);
                assert(s.drop_last()[i as int] == user);
            }
        }
        assert forall|u: UserId| #[trigger] t.contains(u) <==> (s.contains(u) && u != user) by {
            if s.contains(u) && u != user {
                let k = choose|k: int| 0 <= k < s.len() && s[k] == u;
                if k == last {
                    assert(t[i as int] == u);
                } else {
                    assert(t[k] == u);
                }
            }
            if t.contains(u) {
                let k = choose|k: int| 0 <= k < t.len() && t[k] == u;
                if k == i && i != last {
                    assert(s[last as int] == u);
                } else {
                    assert(s[k] == u);
                }
            }
        }
        }
    }
}

} // verus!
