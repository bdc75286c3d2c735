use vstd::prelude::*;

pub mod common;
pub mod deterministic_tm;
pub mod hashed;
pub mod limited;
pub mod machine_parser;
pub mod non_deterministic_tm;
pub mod representation;
pub mod stats;
pub mod text;
pub mod transition_table;
pub mod utils;

verus! {

/// The behaviour shared by every machine: one step at a time, with the
/// accepting and rejecting predicates telling when it has stopped.
pub trait TuringMachine: Sized {
    /// What the machine exposes as its tape.
    type Tape;

    /// The machine's internal invariant.
    spec fn inv(&self) -> bool;

    /// Whether the machine currently accepts.
    spec fn accepting(&self) -> bool;

    /// Whether the machine currently rejects.
    spec fn rejecting(&self) -> bool;

    /// Whether the tapes can still grow as a step may need.
    spec fn can_step(&self) -> bool;

    /// Whether `next` is what one step makes of this machine.
    spec fn steps_to(&self, next: Self) -> bool;

    /// The tape as it stands.
    spec fn tape_view(&self) -> Self::Tape;

    /// Takes a single step; a machine that accepts or rejects stays as it is.
    fn step(&mut self)
        requires
            old(self).inv(),
            old(self).accepting() || old(self).rejecting() || old(self).can_step(),
        ensures
            final(self).inv(),
            old(self).steps_to(*final(self)),
    ;

    /// Is the machine currently in an accepting state?
    fn is_accepting(&self) -> (r: bool)
        requires
            self.inv(),
        ensures
            r == self.accepting(),
    ;

    /// Is the machine currently in a rejecting state?
    fn is_rejecting(&self) -> (r: bool)
        requires
            self.inv(),
        ensures
            r == self.rejecting(),
    ;

    /// Can the machine take another step without its tapes outgrowing memory?
    fn has_room(&self) -> (r: bool)
        requires
            self.inv(),
        ensures
            r == self.can_step(),
    ;

    /// Get the tape the machine is currently using.
    fn tape(&self) -> (r: &Self::Tape)
        ensures
            *r == self.tape_view(),
    ;
}

/// Whether the `i`-th step of `tr` is one step, taken from a machine that
/// had not stopped and whose tape could still grow.
pub open spec fn step_in_trace<T: TuringMachine>(tr: Seq<T>, i: int) -> bool {
    &&& !(tr[i].accepting() || tr[i].rejecting())
    &&& tr[i].can_step()
    &&& tr[i].steps_to(tr[i + 1])
}

/// Whether `tr` is a run: each machine of it is one step from the one before.
pub open spec fn is_trace<T: TuringMachine>(tr: Seq<T>) -> bool {
    &&& tr.len() >= 1
    &&& forall|i: int| 0 <= i < tr.len() - 1 ==> #[trigger] step_in_trace(tr, i)
}

/// Whether `tr` is a whole run with `fuel` steps at most: it ends where the
/// machine stopped, its tape could grow no more, or the fuel ran out.
pub open spec fn complete_run<T: TuringMachine>(tr: Seq<T>, fuel: nat) -> bool {
    &&& is_trace(tr)
    &&& tr.len() <= fuel + 1
    &&& tr.len() < fuel + 1 ==> tr.last().accepting() || tr.last().rejecting()
        || !tr.last().can_step()
}

/// Steps `m` until it accepts or rejects, its tape can grow no more, or
/// `fuel` steps are taken, and returns the number of steps taken. The machine
/// it leaves is the input after that many steps, each taken from a machine
/// that had not stopped; fewer than `fuel` steps means it stopped.
pub fn run<T: TuringMachine>(m: &mut T, fuel: usize) -> (r: usize)
    requires
        old(m).inv(),
    ensures
        final(m).inv(),
        r <= fuel,
        r < fuel ==> final(m).accepting() || final(m).rejecting() || !final(m).can_step(),
        old(m).accepting() || old(m).rejecting() ==> r == 0,
        exists|tr: Seq<T>|
            tr.len() == r + 1 && tr[0] == *old(m) && tr.last() == *final(m) && is_trace(tr),
        exists|tr: Seq<T>|
            tr.len() == r + 1 && tr[0] == *old(m) && tr.last() == *final(m) && complete_run(
                tr,
                fuel as nat,
            ),
{
    let mut taken: usize = 0;
    let ghost mut tr: Seq<T> = seq![*m];
    while taken < fuel && !(m.is_accepting() || m.is_rejecting()) && m.has_room()
        invariant
            m.inv(),
            taken <= fuel,
            tr.len() == taken + 1,
            tr[0] == *old(m),
            tr.last() == *m,
            is_trace(tr),
            old(m).accepting() || old(m).rejecting() ==> taken == 0,
        decreases fuel - taken,
    {
        let ghost before = tr;
        m.step();
        proof {
            tr = before.push(*m);
            assert forall|i: int| 0 <= i < tr.len() - 1 implies #[trigger] step_in_trace(tr, i) by {
                if i < before.len() - 1 {
                    assert(step_in_trace(before, i));
                    assert(tr[i] == before[i] && tr[i + 1] == before[i + 1]);
                } else {
                    assert(tr[i] == before.last());
                }
            }
        }
        taken = taken + 1;
    }
    assert(tr.len() == taken + 1 && tr[0] == *old(m) && tr.last() == *m && is_trace(tr));
    taken
}

} // verus!
