use vstd::prelude::*;

verus! {

/// Index of a fixed-length reward period. Week 0 is the "nothing settled yet" marker.
pub type Week = u64;

/// Maps the external epoch counter onto week indices.
pub struct WeekClock {
    pub first_week_start_epoch: u64,
    pub epochs_in_week: u64,
}

/// The week that contains `epoch`, counting the week that starts at `start` as week 1.
pub open spec fn week_of(start: nat, len: nat, epoch: nat) -> nat {
    ((epoch - start) as nat) / len + 1
}

impl WeekClock {
    pub open spec fn wf(&self) -> bool {
        self.epochs_in_week > 0
    }

    pub fn new(first_week_start_epoch: u64, epochs_in_week: u64) -> (r: WeekClock)
        requires
            epochs_in_week > 0,
        ensures
            r.wf(),
            r.first_week_start_epoch == first_week_start_epoch,
            r.epochs_in_week == epochs_in_week,
    {
        WeekClock { first_week_start_epoch, epochs_in_week }
    }

    /// The week open at `current_epoch`; `None` before the first week starts
    /// (or past the last representable week).
    pub fn get_current_week(&self, current_epoch: u64) -> (r: Option<Week>)
        requires
            self.wf(),
        ensures
            r.is_none() <==> (current_epoch < self.first_week_start_epoch || week_of(
                self.first_week_start_epoch as nat,
                self.epochs_in_week as nat,
                current_epoch as nat,
            ) > u64::MAX),
            r matches Some(w) ==> w == week_of(
                self.first_week_start_epoch as nat,
                self.epochs_in_week as nat,
                current_epoch as nat,
            ),
    {
        if current_epoch < self.first_week_start_epoch {
            return None;
        }
        let elapsed: u64 = current_epoch - self.first_week_start_epoch;
        let w: u64 = elapsed / self.epochs_in_week;
        assert(w <= elapsed) by (nonlinear_arith)
            requires w == elapsed / self.epochs_in_week, self.epochs_in_week > 0;
        if w == u64::MAX {
            return None;
        }
        Some(w + 1)
    }
}


impl WeekClock {
    /// True iff `week` is already closed at `current_epoch`.
    pub fn period_has_closed(&self, week: Week, current_epoch: u64) -> (r: bool)
        requires
            self.wf(),
        ensures
            r <==> (current_epoch >= self.first_week_start_epoch && week < week_of(
                self.first_week_start_epoch as nat,
                self.epochs_in_week as nat,
                current_epoch as nat,
            )),
    {
        match self.get_current_week(current_epoch) {
            Some(cw) => week < cw,
            None => current_epoch >= self.first_week_start_epoch,
        }
    }
}

} // verus!
