use vstd::prelude::*;
use std::collections::HashMap;

use crate::types::{RewardsError, UserId};
use crate::week_clock::Week;

verus! {

broadcast use vstd::std_specs::hash::group_hash_axioms;

/// How far a participant has been settled: `week` is the first week not yet settled,
/// `energy` the energy recorded at the last settlement.
#[derive(Clone, Copy, Debug, PartialEq, Eq, Structural)]
pub struct ClaimProgress {
    pub week: Week,
    pub energy: u64,
}

/// Per-participant claim progress; a participant never seen has progress `(0, 0)`.
pub struct ClaimProgressLedger {
    progress: HashMap<UserId, ClaimProgress>,
}

/// The progress of a participant, with `(0, 0)` for one without a record.
pub open spec fn progress_in(m: Map<UserId, ClaimProgress>, user: UserId) -> ClaimProgress {
    if m.contains_key(user) {
        m[user]
    } else {
        ClaimProgress { week: 0, energy: 0 }
    }
}

impl ClaimProgressLedger {
    pub closed spec fn view(&self) -> Map<UserId, ClaimProgress> {
        self.progress@
    }

    pub open spec fn progress(&self, user: UserId) -> ClaimProgress {
        progress_in(self@, user)
    }

    pub fn new() -> (r: ClaimProgressLedger)
        ensures
            r@ == Map::<UserId, ClaimProgress>::empty(),
    {
        ClaimProgressLedger { progress: HashMap::new() }
    }

    pub fn progress_of(&self, user: UserId) -> (r: ClaimProgress)
        ensures
            r == self.progress(user),
    {
        match self.progress.get(&user) {
            Some(p) => *p,
            None => ClaimProgress { week: 0, energy: 0 },
        }
    }

    /// Moves `user` to `new_week` with `new_energy`; refuses to move backwards.
    pub fn advance(&mut self, user: UserId, new_week: Week, new_energy: u64) -> (r: Result<(), RewardsError>)
        ensures
            r is Err <==> new_week < old(self).progress(user).week,
            r is Err ==> r == Err::<(), RewardsError>(RewardsError::ProgressRegression)
                && final(self)@ == old(self)@,
            r is Ok ==> final(self)@ == old(self)@.insert(
                user,
                ClaimProgress { week: new_week, energy: new_energy },
            ),
    {
        let cur = self.progress_of(user);
        if new_week < cur.week {
            return Err(RewardsError::ProgressRegression);
        }
        self.progress.insert(user, ClaimProgress { week: new_week, energy: new_energy });
        Ok(())
    }
}

} // verus!
