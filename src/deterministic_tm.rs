use vstd::prelude::*;

use crate::common::{Action, Motion};
use crate::hashed::symbol_set_contains;
use crate::representation::DeterministicMachineRepresentation;
use crate::utils::{applied, apply_action, cell, has_room, Config, BLANK};
use crate::{complete_run, is_trace, step_in_trace, TuringMachine};

verus! {

/// Why a machine could not be put together from a representation and a tape.
#[derive(Debug)]
pub enum MachineCreationError {
    /// The tape holds a symbol outside the representation's alphabet.
    TapeAlphabetMismatch,
}

/// The action a deterministic machine takes in configuration `c`: the table's
/// entry for the current state and the symbol under the head, or, where the
/// table has none, a move to the rejecting state that writes blank and moves
/// left.
pub open spec fn det_action(r: DeterministicMachineRepresentation, c: Config) -> Action {
    let key = (c.state, cell(c.tape, c.head as int));
    if r.table()@.contains_key(key) {
        r.table()@[key]
    } else {
        Action { next_state: r.spec_rejecting(), tape_output: BLANK, motion: Motion::Left }
    }
}

/// Whether `c` is terminal: its state is the accepting or the rejecting one.
pub open spec fn det_terminal(r: DeterministicMachineRepresentation, c: Config) -> bool {
    c.state == r.spec_accepting() || c.state == r.spec_rejecting()
}

/// One step of a deterministic machine; a terminal configuration stays as it is.
pub open spec fn det_step(r: DeterministicMachineRepresentation, c: Config) -> Config {
    if det_terminal(r, c) {
        c
    } else {
        applied(det_action(r, c), c)
    }
}

/// The configuration after `n` steps from `c`.
pub open spec fn det_run(r: DeterministicMachineRepresentation, c: Config, n: nat) -> Config
    decreases n,
{
    if n == 0 {
        c
    } else {
        det_step(r, det_run(r, c, (n - 1) as nat))
    }
}

/// `t` without its trailing blanks.
pub open spec fn without_trailing_blanks(t: Seq<char>) -> Seq<char>
    decreases t.len(),
{
    if t.len() > 0 && t.last() == BLANK {
        without_trailing_blanks(t.drop_last())
    } else {
        t
    }
}

/// How a tape is shown: without its trailing blanks, or as a single blank when
/// nothing else is left.
pub open spec fn shown_tape(t: Seq<char>) -> Seq<char> {
    if without_trailing_blanks(t).len() == 0 {
        seq![BLANK]
    } else {
        without_trailing_blanks(t)
    }
}

/// A machine with deterministic behaviour, a singly infinite tape and a
/// variable alphabet.
pub struct DeterministicTuringMachine {
    tape: Vec<char>,
    representation: DeterministicMachineRepresentation,
    current_cell: usize,
    current_state: usize,
}

impl DeterministicTuringMachine {
    pub closed spec fn view(&self) -> Config {
        Config { state: self.current_state, tape: self.tape@, head: self.current_cell as nat }
    }

    pub closed spec fn repr(&self) -> DeterministicMachineRepresentation {
        self.representation
    }

    /// Puts a machine in its starting configuration on `tape`, whose symbols
    /// must all be in the representation's alphabet.
    pub fn new(representation: DeterministicMachineRepresentation, tape: Vec<char>) -> (r: Result<
        Self,
        MachineCreationError,
    >)
        requires
            representation.wf(),
        ensures
            r is Err <==> exists|i: int|
                0 <= i < tape@.len() && !representation.spec_alphabet().contains(
                    #[trigger] tape@[i],
                ),
            r matches Ok(m) ==> m.inv() && m.repr() == representation && m@ == (Config {
                state: representation.spec_starting(),
                tape: tape@,
                head: 0,
            }),
    {
        let mut i: usize = 0;
        while i < tape.len()
            invariant
                i <= tape.len(),
                forall|j: int| 0 <= j < i ==> representation.spec_alphabet().contains(#[trigger] tape@[j]),
            decreases tape.len() - i,
        {
            if !symbol_set_contains(representation.alphabet(), tape[i]) {
                return Err(MachineCreationError::TapeAlphabetMismatch);
            }
            i = i + 1;
        }
        let current_state = *representation.starting_state();
        Ok(DeterministicTuringMachine { tape, representation, current_cell: 0, current_state })
    }
}

impl DeterministicTuringMachine {
    /// The tape as it is shown: without trailing blanks, or a single blank.
    pub fn tape_text(&self) -> (r: Vec<char>)
        ensures
            r@ == shown_tape(self@.tape),
    {
        let mut end = self.tape.len();
        assert(self@.tape.take(end as int) =~= self@.tape);
        while end > 0 && self.tape[end - 1] == BLANK
            invariant
                end <= self.tape.len(),
                without_trailing_blanks(self@.tape) == without_trailing_blanks(
                    self@.tape.take(end as int),
                ),
            decreases end,
        {
            proof {
                assert(self@.tape.take(end as int).drop_last() =~= self@.tape.take(end - 1));
            }
            end = end - 1;
        }
        if end == 0 {
            assert(self@.tape.take(0) =~= Seq::<char>::empty());
            let mut r: Vec<char> = Vec::new();
            r.push(BLANK);
            assert(r@ =~= seq![BLANK]);
            return r;
        }
        let mut r: Vec<char> = Vec::new();
        let mut i: usize = 0;
        while i < end
            invariant
                i <= end,
                end <= self.tape.len(),
                r@ == self@.tape.take(i as int),
            decreases end - i,
        {
            r.push(self.tape[i]);
            i = i + 1;
            assert(r@ =~= self@.tape.take(i as int));
        }
        assert(without_trailing_blanks(self@.tape.take(end as int)) == self@.tape.take(end as int));
        r
    }
}

impl TuringMachine for DeterministicTuringMachine {
    type Tape = Vec<char>;

    open spec fn inv(&self) -> bool {
        &&& self.repr().wf()
        &&& self@.head <= self@.tape.len()
    }

    open spec fn accepting(&self) -> bool {
        self@.state == self.repr().spec_accepting()
    }

    open spec fn rejecting(&self) -> bool {
        self@.state == self.repr().spec_rejecting()
    }

    open spec fn can_step(&self) -> bool {
        has_room(self@.tape)
    }

    open spec fn steps_to(&self, next: Self) -> bool {
        &&& next.repr() == self.repr()
        &&& next@ == det_step(self.repr(), self@)
    }

    closed spec fn tape_view(&self) -> Vec<char> {
        self.tape
    }

    fn step(&mut self) {
        if self.is_accepting() || self.is_rejecting() {
            return;
        }
        let input_char = if self.current_cell < self.tape.len() {
            self.tape[self.current_cell]
        } else {
            BLANK
        };
        let action = match self.representation.transition_table().apply_transition_table(
            self.current_state,
            input_char,
        ) {
            Some(a) => a,
            None => Action::new(*self.representation.rejecting_state(), BLANK, Motion::Left),
        };
        apply_action(action, &mut self.tape, &mut self.current_cell, &mut self.current_state);
    }

    fn is_accepting(&self) -> (r: bool) {
        self.current_state == *self.representation.accepting_state()
    }

    fn is_rejecting(&self) -> (r: bool) {
        self.current_state == *self.representation.rejecting_state()
    }

    fn has_room(&self) -> (r: bool) {
        self.tape.len() <= (usize::MAX - 2) / 2
    }

    fn tape(&self) -> (r: &Vec<char>) {
        &self.tape
    }
}

/// What `tape` returns holds the configuration's tape.
pub proof fn lemma_det_tape_view(m: DeterministicTuringMachine)
    ensures
        m.tape_view()@ == m@.tape,
{
}

/// A deterministic machine never accepts and rejects at once.
pub proof fn lemma_det_verdicts_exclusive(m: DeterministicTuringMachine)
    requires
        m.inv(),
    ensures
        !(m.accepting() && m.rejecting()),
{
}

/// Along a run of a deterministic machine the representation stays, and the
/// configuration after `i` steps is `det_run` of the first one.
pub proof fn lemma_det_trace(tr: Seq<DeterministicTuringMachine>, i: int)
    requires
        is_trace(tr),
        0 <= i < tr.len(),
    ensures
        tr[i].repr() == tr[0].repr(),
        tr[i]@ == det_run(tr[0].repr(), tr[0]@, i as nat),
    decreases i,
{
    if i > 0 {
        lemma_det_trace(tr, i - 1);
        assert(step_in_trace(tr, i - 1));
    }
}

/// Replaying the same representation on the same tape gives the same run:
/// two complete runs with the same fuel from equal machines take the same
/// number of steps and end with the same tape, head, state and verdict.
pub proof fn lemma_replay_deterministic(
    t1: Seq<DeterministicTuringMachine>,
    t2: Seq<DeterministicTuringMachine>,
    fuel: nat,
)
    requires
        complete_run(t1, fuel),
        complete_run(t2, fuel),
        t1[0].repr() == t2[0].repr(),
        t1[0]@ == t2[0]@,
    ensures
        t1.len() == t2.len(),
        t1.last()@ == t2.last()@,
        t1.last().accepting() == t2.last().accepting(),
        t1.last().rejecting() == t2.last().rejecting(),
{
    lemma_det_trace(t1, t1.len() - 1);
    lemma_det_trace(t2, t2.len() - 1);
    if t1.len() < t2.len() {
        let i = t1.len() - 1;
        lemma_det_trace(t2, i);
        assert(step_in_trace(t2, i));
    } else if t2.len() < t1.len() {
        let i = t2.len() - 1;
        lemma_det_trace(t1, i);
        assert(step_in_trace(t1, i));
    }
}

} // verus!
