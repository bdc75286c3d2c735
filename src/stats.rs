use vstd::prelude::*;

use crate::{complete_run, is_trace, run, step_in_trace, TuringMachine};

verus! {

/// The count after one more step; it stays at the largest `usize` once there.
pub open spec fn next_count(n: usize) -> usize {
    if n < usize::MAX {
        (n + 1) as usize
    } else {
        n
    }
}

/// The outcome of running a machine until it stopped.
pub struct ExecutionResult<T> {
    /// Did the machine accept the input?
    pub accepting: bool,
    /// How many steps did it take to stop
    pub num_steps: usize,
    /// The machine as it stopped
    pub tm: T,
}

/// A machine wrapped with a counter of the steps it has taken.
pub struct TuringMachineStatsExt<T> {
    tm: T,
    num_steps: usize,
}

impl<T> TuringMachineStatsExt<T> {
    pub closed spec fn inner(&self) -> T {
        self.tm
    }

    pub closed spec fn steps(&self) -> usize {
        self.num_steps
    }

    /// Decorate an existing machine with the step counter.
    pub fn new(tm: T) -> (r: Self)
        ensures
            r.inner() == tm,
            r.steps() == 0,
    {
        TuringMachineStatsExt { tm, num_steps: 0 }
    }

    /// Return how many steps the machine has done so far.
    pub fn get_number_of_steps(&self) -> (r: usize)
        ensures
            r == self.steps(),
    {
        self.num_steps
    }

    /// The machine inside.
    pub fn into_inner(self) -> (r: T)
        ensures
            r == self.inner(),
    {
        self.tm
    }
}

/// The inner machines of a run of counted machines form a run of their own,
/// and a count that started at zero counts its steps.
proof fn lemma_counted_trace<T: TuringMachine>(ts: Seq<TuringMachineStatsExt<T>>, i: int)
    requires
        is_trace(ts),
        0 <= i < ts.len(),
        ts.len() <= usize::MAX + 1,
        ts[0].steps() == 0,
    ensures
        ts[i].steps() == i,
        is_trace(ts.take(i + 1).map_values(|s: TuringMachineStatsExt<T>| s.inner())),
    decreases i,
{
    let inner = ts.take(i + 1).map_values(|s: TuringMachineStatsExt<T>| s.inner());
    if i > 0 {
        lemma_counted_trace(ts, i - 1);
        assert(step_in_trace(ts, i - 1));
        let prev = ts.take(i).map_values(|s: TuringMachineStatsExt<T>| s.inner());
        assert forall|k: int| 0 <= k < inner.len() - 1 implies #[trigger] step_in_trace(inner, k) by {
            assert(step_in_trace(ts, k));
            assert(inner[k] == ts[k].inner() && inner[k + 1] == ts[k + 1].inner());
        }
    }
}

impl<T: TuringMachine> TuringMachineStatsExt<T> {
    /// Runs the machine until it accepts or rejects, its tape can grow no
    /// more, or `fuel` steps are taken, and reports the verdict, the number of
    /// steps and the machine. The machine is the input after those steps.
    pub fn execute_and_get_result(self, fuel: usize) -> (r: ExecutionResult<T>)
        requires
            self.inv(),
            self.steps() == 0,
        ensures
            r.tm.inv(),
            r.accepting == r.tm.accepting(),
            exists|tr: Seq<T>|
                tr.len() == r.num_steps + 1 && tr[0] == self.inner() && tr.last() == r.tm
                    && complete_run(tr, fuel as nat),
    {
        let mut m = self;
        let taken = run(&mut m, fuel);
        let ghost ts = choose|ts: Seq<TuringMachineStatsExt<T>>|
            ts.len() == taken + 1 && ts[0] == self && ts.last() == m && complete_run(
                ts,
                fuel as nat,
            );
        proof {
            lemma_counted_trace(ts, taken as int);
            let inner = ts.take(taken + 1).map_values(|s: TuringMachineStatsExt<T>| s.inner());
            assert(ts.take(taken + 1) =~= ts);
            assert(inner[0] == self.inner());
            assert(inner.last() == m.inner());
            assert(inner.len() == taken + 1);
            assert(complete_run(inner, fuel as nat));
        }
        let accepting = m.is_accepting();
        let num_steps = m.get_number_of_steps();
        ExecutionResult { accepting, num_steps, tm: m.into_inner() }
    }
}

impl<T: TuringMachine> TuringMachine for TuringMachineStatsExt<T> {
    type Tape = T::Tape;

    open spec fn inv(&self) -> bool {
        self.inner().inv()
    }

    open spec fn accepting(&self) -> bool {
        self.inner().accepting()
    }

    open spec fn rejecting(&self) -> bool {
        self.inner().rejecting()
    }

    open spec fn can_step(&self) -> bool {
        self.inner().can_step()
    }

    open spec fn steps_to(&self, next: Self) -> bool {
        &&& next.steps() == next_count(self.steps())
        &&& self.inner().steps_to(next.inner())
    }

    open spec fn tape_view(&self) -> T::Tape {
        self.inner().tape_view()
    }

    fn step(&mut self) {
        if self.num_steps < usize::MAX {
            self.num_steps = self.num_steps + 1;
        }
        self.tm.step();
    }

    fn is_accepting(&self) -> (r: bool) {
        self.tm.is_accepting()
    }

    fn is_rejecting(&self) -> (r: bool) {
        self.tm.is_rejecting()
    }

    fn has_room(&self) -> (r: bool) {
        self.tm.has_room()
    }

    fn tape(&self) -> (r: &T::Tape) {
        self.tm.tape()
    }
}

} // verus!
