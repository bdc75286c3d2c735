use vstd::prelude::*;

use crate::stats::{next_count, ExecutionResult, TuringMachineStatsExt};
use crate::{is_trace, step_in_trace, TuringMachine};

verus! {

/// A machine wrapped with a step counter and, optionally, a step budget: once
/// the count exceeds the budget the machine reports rejection, whatever the
/// machine inside does.
pub struct LimitedTuringMachineExt<T> {
    tm: TuringMachineStatsExt<T>,
    max_steps: usize,
    limited: bool,
}

impl<T> LimitedTuringMachineExt<T> {
    pub closed spec fn counted(&self) -> TuringMachineStatsExt<T> {
        self.tm
    }

    pub closed spec fn budget(&self) -> Option<usize> {
        if self.limited {
            Some(self.max_steps)
        } else {
            None
        }
    }

    /// Whether the budget is used up.
    pub open spec fn over_budget(&self) -> bool {
        self.budget() matches Some(m) && m < self.counted().steps()
    }

    /// Decorate an existing machine with a step counter and no budget.
    pub fn new(tm: T) -> (r: Self)
        ensures
            r.counted().inner() == tm,
            r.counted().steps() == 0,
            r.budget() is None,
    {
        LimitedTuringMachineExt { tm: TuringMachineStatsExt::new(tm), max_steps: 0, limited: false }
    }

    /// Decorate an existing machine with a step counter and a budget of
    /// `max_steps` steps.
    pub fn new_with_limit(tm: T, max_steps: usize) -> (r: Self)
        ensures
            r.counted().inner() == tm,
            r.counted().steps() == 0,
            r.budget() == Some(max_steps),
    {
        LimitedTuringMachineExt { tm: TuringMachineStatsExt::new(tm), max_steps, limited: true }
    }

    /// Return how many steps the machine has done so far.
    pub fn get_number_of_steps(&self) -> (r: usize)
        ensures
            r == self.counted().steps(),
    {
        self.tm.get_number_of_steps()
    }

    fn is_over_budget(&self) -> (r: bool)
        ensures
            r == self.over_budget(),
    {
        self.limited && self.max_steps < self.tm.get_number_of_steps()
    }
}

impl<T: TuringMachine> LimitedTuringMachineExt<T> {
    /// Steps the machine until it accepts or rejects, the budget included, or
    /// until its tape could no longer grow, and reports how it ended: the
    /// verdict, the count, and the machine inside after the steps taken. A
    /// machine with a budget below the largest count always stops.
    pub fn execute_and_get_result(self) -> (r: ExecutionResult<T>)
        requires
            self.inv(),
            self.budget() matches Some(m) && m < usize::MAX,
        ensures
            r.tm.inv(),
            self.counted().steps() <= self.budget()->Some_0 + 1 ==> r.num_steps
                <= self.budget()->Some_0 + 1,
            r.accepting == (r.num_steps <= self.budget()->Some_0 && r.tm.accepting()),
            r.num_steps > self.budget()->Some_0 || r.tm.accepting() || r.tm.rejecting()
                || !r.tm.can_step(),
            exists|tr: Seq<T>|
                tr.len() + self.counted().steps() == r.num_steps + 1 && tr[0]
                    == self.counted().inner() && tr.last() == r.tm && is_trace(tr),
    {
        let mut m = self;
        let ghost mut tr: Seq<T> = seq![self.counted().inner()];
        while !(m.is_accepting() || m.is_rejecting()) && m.has_room()
            invariant
                m.inv(),
                m.budget() == self.budget(),
                self.budget() matches Some(b) && b < usize::MAX,
                self.counted().steps() <= self.budget()->Some_0 + 1 ==> m.counted().steps()
                    <= self.budget()->Some_0 + 1,
                tr.len() + self.counted().steps() == m.counted().steps() + 1,
                tr[0] == self.counted().inner(),
                tr.last() == m.counted().inner(),
                is_trace(tr),
            decreases if m.counted().steps() <= self.budget()->Some_0 {
                self.budget()->Some_0 + 1 - m.counted().steps()
            } else {
                0
            },
        {
            let ghost before = tr;
            let ghost pre = m;
            m.step();
            proof {
                tr = before.push(m.counted().inner());
                assert(step_in_trace(tr, before.len() - 1)) by {
                    assert(tr[before.len() - 1] == pre.counted().inner());
                }
                assert forall|i: int| 0 <= i < tr.len() - 1 implies #[trigger] step_in_trace(tr, i) by {
                    if i < before.len() - 1 {
                        assert(step_in_trace(before, i));
                        assert(tr[i] == before[i] && tr[i + 1] == before[i + 1]);
                    }
                }
            }
        }
        let accepting = m.is_accepting();
        let num_steps = m.tm.get_number_of_steps();
        let tm = m.tm.into_inner();
        ExecutionResult { accepting, num_steps, tm }
    }
}

impl<T: TuringMachine> TuringMachine for LimitedTuringMachineExt<T> {
    type Tape = T::Tape;

    open spec fn inv(&self) -> bool {
        self.counted().inv()
    }

    open spec fn accepting(&self) -> bool {
        !self.over_budget() && self.counted().accepting()
    }

    open spec fn rejecting(&self) -> bool {
        self.over_budget() || self.counted().rejecting()
    }

    open spec fn can_step(&self) -> bool {
        self.counted().can_step()
    }

    open spec fn steps_to(&self, next: Self) -> bool {
        &&& next.budget() == self.budget()
        &&& if self.accepting() || self.rejecting() {
            next == self
        } else {
            self.counted().steps_to(next.counted())
        }
    }

    open spec fn tape_view(&self) -> T::Tape {
        self.counted().tape_view()
    }

    fn step(&mut self) {
        if self.is_accepting() || self.is_rejecting() {
            return;
        }
        self.tm.step();
    }

    fn is_accepting(&self) -> (r: bool) {
        if self.is_over_budget() {
            false
        } else {
            self.tm.is_accepting()
        }
    }

    fn is_rejecting(&self) -> (r: bool) {
        if self.is_over_budget() {
            true
        } else {
            self.tm.is_rejecting()
        }
    }

    fn has_room(&self) -> (r: bool) {
        self.tm.has_room()
    }

    fn tape(&self) -> (r: &T::Tape) {
        self.tm.tape()
    }
}

} // verus!
