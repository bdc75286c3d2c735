use vstd::prelude::*;

use crate::common::Action;
use crate::deterministic_tm::{
    det_run, det_step, lemma_det_trace, DeterministicTuringMachine,
    MachineCreationError,
};
use crate::hashed::symbol_set_contains;
use crate::representation::{
    DeterministicMachineRepresentation, NonDeterministicMachineRepresentation,
};
use crate::utils::{applied, apply_action, cell, has_room, Config, BLANK};
use crate::machine_parser::MachineDescription;
use crate::transition_table::{first_repeat, lemma_choice_table_singletons, TransitionTable};
use crate::{complete_run, is_trace, step_in_trace, TuringMachine};

verus! {

/// The actions the table offers path `c`; none where the table has no entry.
pub open spec fn nd_actions(r: NonDeterministicMachineRepresentation, c: Config) -> Seq<Action> {
    let key = (c.state, cell(c.tape, c.head as int));
    if r.table()@.contains_key(key) {
        r.table()@[key]
    } else {
        Seq::empty()
    }
}

/// What one step makes of a single path, first the path itself updated by the
/// first action, then one new path for each further action. A rejecting path
/// stays as it is; a path with no action becomes rejecting.
pub open spec fn nd_successors(r: NonDeterministicMachineRepresentation, c: Config) -> Seq<Config> {
    if c.state == r.spec_rejecting() {
        seq![c]
    } else if nd_actions(r, c).len() == 0 {
        seq![Config { state: r.spec_rejecting(), ..c }]
    } else {
        nd_actions(r, c).map_values(|a: Action| applied(a, c))
    }
}

/// The paths that branch off `ps` in one step, in order.
pub open spec fn nd_staged(r: NonDeterministicMachineRepresentation, ps: Seq<Config>) -> Seq<Config>
    decreases ps.len(),
{
    if ps.len() == 0 {
        Seq::empty()
    } else {
        nd_staged(r, ps.drop_last()) + nd_successors(r, ps.last()).drop_first()
    }
}

/// `live` with each path of `staged` appended in order unless an equal path is
/// already there.
pub open spec fn merged(live: Seq<Config>, staged: Seq<Config>) -> Seq<Config>
    decreases staged.len(),
{
    if staged.len() == 0 {
        live
    } else {
        let m = merged(live, staged.drop_last());
        if m.contains(staged.last()) {
            m
        } else {
            m.push(staged.last())
        }
    }
}

/// Whether some path accepts.
pub open spec fn nd_accepting(r: NonDeterministicMachineRepresentation, ps: Seq<Config>) -> bool {
    exists|i: int| 0 <= i < ps.len() && (#[trigger] ps[i]).state == r.spec_accepting()
}

/// Whether every path rejects.
pub open spec fn nd_rejecting(r: NonDeterministicMachineRepresentation, ps: Seq<Config>) -> bool {
    forall|i: int| 0 <= i < ps.len() ==> (#[trigger] ps[i]).state == r.spec_rejecting()
}

/// One step of a non-deterministic machine: once some path accepts or every
/// path rejects nothing changes; otherwise each path is replaced by its first
/// successor and the other successors are merged in after them.
pub open spec fn nd_step(r: NonDeterministicMachineRepresentation, ps: Seq<Config>) -> Seq<Config> {
    if nd_accepting(r, ps) || nd_rejecting(r, ps) {
        ps
    } else {
        merged(ps.map_values(|c: Config| nd_successors(r, c)[0]), nd_staged(r, ps))
    }
}

/// Merging keeps the live paths in front, loses no staged path and adds each
/// at most once; where a staged path already stands among the live ones, the
/// merged set is smaller than live and staged paths counted together.
pub proof fn lemma_merged_dedup(live: Seq<Config>, staged: Seq<Config>)
    ensures
        live.len() <= merged(live, staged).len() <= live.len() + staged.len(),
        merged(live, staged).take(live.len() as int) == live,
        forall|k: int| 0 <= k < staged.len() ==> merged(live, staged).contains(#[trigger] staged[k]),
        (exists|k: int| 0 <= k < staged.len() && live.contains(#[trigger] staged[k])) ==> merged(
            live,
            staged,
        ).len() < live.len() + staged.len(),
    decreases staged.len(),
{
    if staged.len() == 0 {
        assert(live.take(live.len() as int) =~= live);
    } else {
        let rest = staged.drop_last();
        lemma_merged_dedup(live, rest);
        let m = merged(live, rest);
        let x = staged.last();
        let mm = merged(live, staged);
        if !m.contains(x) {
            assert(mm == m.push(x));
            assert(mm.take(live.len() as int) =~= m.take(live.len() as int));
            assert(mm[m.len() as int] == x);
        }
        assert forall|k: int| 0 <= k < staged.len() implies mm.contains(#[trigger] staged[k]) by {
            if k < rest.len() {
                assert(rest[k] == staged[k]);
                assert(m.contains(rest[k]));
                let j = choose|j: int| 0 <= j < m.len() && m[j] == rest[k];
                assert(mm[j] == m[j]);
            }
        }
        if exists|k: int| 0 <= k < staged.len() && live.contains(#[trigger] staged[k]) {
            let k = choose|k: int| 0 <= k < staged.len() && live.contains(#[trigger] staged[k]);
            if k < rest.len() {
                assert(rest[k] == staged[k]);
                assert(live.contains(rest[k]));
            } else {
                let j = choose|j: int| 0 <= j < live.len() && live[j] == x;
                assert(m.take(live.len() as int)[j] == x);
                assert(m[j] == x);
                assert(m.contains(x));
            }
        }
    }
}

/// A machine that follows every path its table allows: it accepts as soon as
/// one path accepts, and rejects once every path rejects.
pub struct NonDeterministicTuringMachine {
    states: Vec<usize>,
    positions: Vec<usize>,
    tapes: Vec<Vec<char>>,
    representation: NonDeterministicMachineRepresentation,
}

/// A copy of `t`.
fn copy_tape(t: &Vec<char>) -> (r: Vec<char>)
    ensures
        r@ == t@,
{
    let mut r: Vec<char> = Vec::new();
    let mut i: usize = 0;
    while i < t.len()
        invariant
            i <= t.len(),
            r@ == t@.take(i as int),
        decreases t.len() - i,
    {
        r.push(t[i]);
        i = i + 1;
        assert(r@ =~= t@.take(i as int));
    }
    assert(t@.take(t.len() as int) =~= t@);
    r
}

/// Whether two tapes hold the same symbols.
fn same_tape(a: &Vec<char>, b: &Vec<char>) -> (r: bool)
    ensures
        r == (a@ == b@),
{
    if a.len() != b.len() {
        return false;
    }
    let mut i: usize = 0;
    while i < a.len()
        invariant
            a.len() == b.len(),
            i <= a.len(),
            forall|j: int| 0 <= j < i ==> a@[j] == b@[j],
        decreases a.len() - i,
    {
        if a[i] != b[i] {
            return false;
        }
        i = i + 1;
    }
    assert(a@ =~= b@);
    true
}

/// The paths held in three parallel lists, as configurations.
pub open spec fn paths_of(states: Seq<usize>, positions: Seq<usize>, tapes: Seq<Vec<char>>) -> Seq<
    Config,
> {
    Seq::new(
        states.len(),
        |i: int| Config { state: states[i], tape: tapes[i]@, head: positions[i] as nat },
    )
}

/// Whether the three parallel lists describe equally many paths.
pub open spec fn aligned(states: Seq<usize>, positions: Seq<usize>, tapes: Seq<Vec<char>>) -> bool {
    states.len() == positions.len() && positions.len() == tapes.len()
}

/// Whether the paths in the lists already include (state, position, tape).
fn holds_path(
    states: &Vec<usize>,
    positions: &Vec<usize>,
    tapes: &Vec<Vec<char>>,
    state: usize,
    position: usize,
    tape: &Vec<char>,
) -> (r: bool)
    requires
        aligned(states@, positions@, tapes@),
    ensures
        r == paths_of(states@, positions@, tapes@).contains(
            Config { state, tape: tape@, head: position as nat },
        ),
{
    let ghost ps = paths_of(states@, positions@, tapes@);
    let ghost target = Config { state, tape: tape@, head: position as nat };
    let mut i: usize = 0;
    while i < states.len()
        invariant
            aligned(states@, positions@, tapes@),
            ps == paths_of(states@, positions@, tapes@),
            target == (Config { state, tape: tape@, head: position as nat }),
            i <= states.len(),
            forall|j: int| 0 <= j < i ==> ps[j] != target,
        decreases states.len() - i,
    {
        assert(ps[i as int].state == states@[i as int]);
        assert(ps[i as int].head == positions@[i as int] as nat);
        assert(ps[i as int].tape == tapes@[i as int]@);
        if states[i] == state && positions[i] == position {
            let same = same_tape(&tapes[i], tape);
            assert(same == (tapes@[i as int]@ == tape@));
            if same {
                assert(ps[i as int] == target);
                return true;
            }
        }
        assert(ps[i as int] != target);
        i = i + 1;
    }
    false
}

impl NonDeterministicTuringMachine {
    pub closed spec fn view(&self) -> Seq<Config> {
        paths_of(self.states@, self.positions@, self.tapes@)
    }

    pub closed spec fn repr(&self) -> NonDeterministicMachineRepresentation {
        self.representation
    }

    pub closed spec fn lists_aligned(&self) -> bool {
        aligned(self.states@, self.positions@, self.tapes@)
    }

    /// Puts a machine in its starting configuration, a single path on `tape`,
    /// whose symbols must all be in the representation's alphabet.
    pub fn new(representation: NonDeterministicMachineRepresentation, tape: Vec<char>) -> (r:
        Result<Self, MachineCreationError>)
        requires
            representation.wf(),
        ensures
            r is Err <==> exists|i: int|
                0 <= i < tape@.len() && !representation.spec_alphabet().contains(
                    #[trigger] tape@[i],
                ),
            r matches Ok(m) ==> m.inv() && m.repr() == representation && m@ == seq![
                Config { state: representation.spec_starting(), tape: tape@, head: 0 },
            ],
    {
        let mut i: usize = 0;
        while i < tape.len()
            invariant
                i <= tape.len(),
                forall|j: int|
                    0 <= j < i ==> representation.spec_alphabet().contains(#[trigger] tape@[j]),
            decreases tape.len() - i,
        {
            if !symbol_set_contains(representation.alphabet(), tape[i]) {
                return Err(MachineCreationError::TapeAlphabetMismatch);
            }
            i = i + 1;
        }
        let start = *representation.starting_state();
        let mut states: Vec<usize> = Vec::new();
        states.push(start);
        let mut positions: Vec<usize> = Vec::new();
        positions.push(0);
        let mut tapes: Vec<Vec<char>> = Vec::new();
        tapes.push(tape);
        let m = NonDeterministicTuringMachine { states, positions, tapes, representation };
        assert(m@ =~= seq![Config { state: start, tape: m.tapes@[0]@, head: 0 }]);
        Ok(m)
    }

    /// The number of live paths.
    pub fn num_paths(&self) -> (r: usize)
        requires
            self.inv(),
        ensures
            r == self@.len(),
    {
        self.states.len()
    }
}

impl TuringMachine for NonDeterministicTuringMachine {
    type Tape = Vec<Vec<char>>;

    open spec fn inv(&self) -> bool {
        &&& self.repr().wf()
        &&& self.lists_aligned()
        &&& self@.len() >= 1
        &&& forall|i: int| 0 <= i < self@.len() ==> (#[trigger] self@[i]).head <= self@[i].tape.len()
    }

    open spec fn accepting(&self) -> bool {
        nd_accepting(self.repr(), self@)
    }

    open spec fn rejecting(&self) -> bool {
        nd_rejecting(self.repr(), self@)
    }

    open spec fn can_step(&self) -> bool {
        forall|i: int| 0 <= i < self@.len() ==> has_room((#[trigger] self@[i]).tape)
    }

    open spec fn steps_to(&self, next: Self) -> bool {
        &&& next.repr() == self.repr()
        &&& next@ == nd_step(self.repr(), self@)
    }

    closed spec fn tape_view(&self) -> Vec<Vec<char>> {
        self.tapes
    }

    fn step(&mut self) {
        if self.is_accepting() || self.is_rejecting() {
            return;
        }
        let ghost r = self.repr();
        let ghost ps = self@;
        let ghost first = ps.map_values(|c: Config| nd_successors(r, c)[0]);
        let rej = *self.representation.rejecting_state();
        let n = self.states.len();
        let mut new_states: Vec<usize> = Vec::new();
        let mut new_positions: Vec<usize> = Vec::new();
        let mut new_tapes: Vec<Vec<char>> = Vec::new();
        let mut staged_states: Vec<usize> = Vec::new();
        let mut staged_positions: Vec<usize> = Vec::new();
        let mut staged_tapes: Vec<Vec<char>> = Vec::new();
        let mut i: usize = 0;
        assert(paths_of(new_states@, new_positions@, new_tapes@) =~= first.take(0));
        assert(paths_of(staged_states@, staged_positions@, staged_tapes@) =~= nd_staged(r, ps.take(0)));
        while i < n
            invariant
                self.inv(),
                self.can_step(),
                self@ == ps,
                self.repr() == r,
                rej == r.spec_rejecting(),
                n == ps.len(),
                i <= n,
                first == ps.map_values(|c: Config| nd_successors(r, c)[0]),
                aligned(new_states@, new_positions@, new_tapes@),
                aligned(staged_states@, staged_positions@, staged_tapes@),
                paths_of(new_states@, new_positions@, new_tapes@) == first.take(i as int),
                paths_of(staged_states@, staged_positions@, staged_tapes@) == nd_staged(r, ps.take(i as int)),
                forall|j: int| 0 <= j < new_states.len() ==> #[trigger] new_positions@[j] <= new_tapes@[j].len(),
                forall|j: int| 0 <= j < staged_states.len() ==> #[trigger] staged_positions@[j] <= staged_tapes@[j].len(),
            decreases n - i,
        {
            let ghost c = ps[i as int];
            let ghost succ = nd_successors(r, c);
            let state = self.states[i];
            let position = self.positions[i];
            let mut tape = copy_tape(&self.tapes[i]);
            assert(c == Config { state, tape: tape@, head: position as nat });
            let ghost staged_before = paths_of(staged_states@, staged_positions@, staged_tapes@);
            let ghost new_before = paths_of(new_states@, new_positions@, new_tapes@);
            if state == rej {
                new_states.push(state);
                new_positions.push(position);
                new_tapes.push(tape);
                assert(succ == seq![c]);
            } else {
                let symbol = if position < tape.len() {
                    tape[position]
                } else {
                    BLANK
                };
                let actions = match self.representation.transition_table().apply_transition_table(
                    state,
                    symbol,
                ) {
                    Some(v) => v,
                    None => Vec::new(),
                };
                assert(actions@ == nd_actions(r, c));
                if actions.len() == 0 {
                    new_states.push(rej);
                    new_positions.push(position);
                    new_tapes.push(tape);
                    assert(succ == seq![Config { state: rej, ..c }]);
                } else {
                    let mut j: usize = 1;
                    while j < actions.len()
                        invariant
                            1 <= j <= actions.len(),
                            actions@ == nd_actions(r, c),
                            c == (Config { state, tape: tape@, head: position as nat }),
                            succ == actions@.map_values(|a: Action| applied(a, c)),
                            position <= tape.len(),
                            has_room(tape@),
                            aligned(staged_states@, staged_positions@, staged_tapes@),
                            paths_of(staged_states@, staged_positions@, staged_tapes@) == staged_before + succ.subrange(1, j as int),
                            forall|k: int| 0 <= k < staged_states.len() ==> #[trigger] staged_positions@[k] <= staged_tapes@[k].len(),
                        decreases actions.len() - j,
                    {
                        let mut branch_tape = copy_tape(&tape);
                        let mut branch_position = position;
                        let mut branch_state = state;
                        apply_action(actions[j], &mut branch_tape, &mut branch_position, &mut branch_state);
                        let ghost before = paths_of(staged_states@, staged_positions@, staged_tapes@);
                        staged_states.push(branch_state);
                        staged_positions.push(branch_position);
                        staged_tapes.push(branch_tape);
                        proof {
                            assert(paths_of(staged_states@, staged_positions@, staged_tapes@) =~= before.push(succ[j as int]));
                            assert(succ.subrange(1, j + 1) =~= succ.subrange(1, j as int).push(succ[j as int]));
                            assert(staged_before + succ.subrange(1, j + 1) =~= (staged_before + succ.subrange(1, j as int)).push(succ[j as int]));
                        }
                        j = j + 1;
                    }
                    let mut new_position = position;
                    let mut new_state = state;
                    apply_action(actions[0], &mut tape, &mut new_position, &mut new_state);
                    new_states.push(new_state);
                    new_positions.push(new_position);
                    new_tapes.push(tape);
                    assert(succ.subrange(1, actions.len() as int) =~= succ.drop_first());
                }
            }
            proof {
                assert(ps.take(i + 1).drop_last() =~= ps.take(i as int));
                assert(ps.take(i + 1).last() == c);
                assert(first[i as int] == succ[0]);
                assert(paths_of(new_states@, new_positions@, new_tapes@) =~= new_before.push(succ[0]));
                assert(first.take(i + 1) =~= first.take(i as int).push(succ[0]));
                if state == rej || nd_actions(r, c).len() == 0 {
                    assert(succ.drop_first() =~= Seq::<Config>::empty());
                    assert(paths_of(staged_states@, staged_positions@, staged_tapes@) =~= staged_before + succ.drop_first());
                }
            }
            i = i + 1;
        }
        proof {
            assert(ps.take(n as int) =~= ps);
            assert(first.take(n as int) =~= first);
        }
        let ghost staged = paths_of(staged_states@, staged_positions@, staged_tapes@);
        let m = staged_states.len();
        let mut k: usize = 0;
        assert(staged.take(0) =~= Seq::<Config>::empty());
        while k < m
            invariant
                m == staged.len(),
                k <= m,
                n <= new_states.len(),
                aligned(new_states@, new_positions@, new_tapes@),
                aligned(staged_states@, staged_positions@, staged_tapes@),
                staged == paths_of(staged_states@, staged_positions@, staged_tapes@),
                paths_of(new_states@, new_positions@, new_tapes@) == merged(first, staged.take(k as int)),
                forall|j: int| 0 <= j < new_states.len() ==> #[trigger] new_positions@[j] <= new_tapes@[j].len(),
                forall|j: int| 0 <= j < staged_states.len() ==> #[trigger] staged_positions@[j] <= staged_tapes@[j].len(),
            decreases m - k,
        {
            let tape = copy_tape(&staged_tapes[k]);
            let ghost before = paths_of(new_states@, new_positions@, new_tapes@);
            proof {
                assert(staged.take(k + 1).drop_last() =~= staged.take(k as int));
                assert(staged.take(k + 1).last() == staged[k as int]);
            }
            if !holds_path(&new_states, &new_positions, &new_tapes, staged_states[k], staged_positions[k], &tape) {
                new_states.push(staged_states[k]);
                new_positions.push(staged_positions[k]);
                new_tapes.push(tape);
                assert(paths_of(new_states@, new_positions@, new_tapes@) =~= before.push(staged[k as int]));
            }
            k = k + 1;
        }
        proof {
            assert(staged.take(m as int) =~= staged);
        }
        self.states = new_states;
        self.positions = new_positions;
        self.tapes = new_tapes;
    }

    fn is_accepting(&self) -> (r: bool) {
        let acc = *self.representation.accepting_state();
        let mut i: usize = 0;
        while i < self.states.len()
            invariant
                self.inv(),
                acc == self.repr().spec_accepting(),
                i <= self@.len(),
                forall|j: int| 0 <= j < i ==> (#[trigger] self@[j]).state != acc,
            decreases self.states.len() - i,
        {
            if self.states[i] == acc {
                assert(self@[i as int].state == acc);
                return true;
            }
            i = i + 1;
        }
        false
    }

    fn is_rejecting(&self) -> (r: bool) {
        let rej = *self.representation.rejecting_state();
        let mut i: usize = 0;
        while i < self.states.len()
            invariant
                self.inv(),
                rej == self.repr().spec_rejecting(),
                i <= self@.len(),
                forall|j: int| 0 <= j < i ==> (#[trigger] self@[j]).state == rej,
            decreases self.states.len() - i,
        {
            if self.states[i] != rej {
                assert(self@[i as int].state != rej);
                return false;
            }
            i = i + 1;
        }
        true
    }

    fn has_room(&self) -> (r: bool) {
        let mut i: usize = 0;
        while i < self.tapes.len()
            invariant
                self.inv(),
                i <= self@.len(),
                forall|j: int| 0 <= j < i ==> has_room((#[trigger] self@[j]).tape),
            decreases self.tapes.len() - i,
        {
            if self.tapes[i].len() > (usize::MAX - 2) / 2 {
                assert(!has_room(self@[i as int].tape));
                return false;
            }
            i = i + 1;
        }
        true
    }

    fn tape(&self) -> (r: &Vec<Vec<char>>) {
        &self.tapes
    }
}

/// What `tape` returns holds one tape per path, in the order of the paths.
pub proof fn lemma_nd_tape_view(m: NonDeterministicTuringMachine)
    requires
        m.inv(),
    ensures
        m.tape_view()@.len() == m@.len(),
        forall|i: int| 0 <= i < m@.len() ==> (#[trigger] m.tape_view()@[i])@ == m@[i].tape,
{
}

/// A non-deterministic machine never accepts and rejects at once: a path that
/// accepts is a path that does not reject.
pub proof fn lemma_nd_verdicts_exclusive(m: NonDeterministicTuringMachine)
    requires
        m.inv(),
    ensures
        !(m.accepting() && m.rejecting()),
{
    if m.accepting() {
        let i = choose|i: int| 0 <= i < m@.len() && (#[trigger] m@[i]).state == m.repr().spec_accepting();
        assert(m@[i].state != m.repr().spec_rejecting());
    }
}

/// The paths after `n` steps from `ps`.
pub open spec fn nd_run(r: NonDeterministicMachineRepresentation, ps: Seq<Config>, n: nat) -> Seq<
    Config,
>
    decreases n,
{
    if n == 0 {
        ps
    } else {
        nd_step(r, nd_run(r, ps, (n - 1) as nat))
    }
}

/// Once some path accepts, or every path rejects, further steps change
/// nothing: one accepting path decides acceptance whatever the other paths do.
pub proof fn lemma_nd_verdict_is_final(
    r: NonDeterministicMachineRepresentation,
    ps: Seq<Config>,
    n: nat,
)
    requires
        nd_accepting(r, ps) || nd_rejecting(r, ps),
    ensures
        nd_run(r, ps, n) == ps,
    decreases n,
{
    if n > 0 {
        lemma_nd_verdict_is_final(r, ps, (n - 1) as nat);
    }
}

/// Paths that all reject make the machine reject and not accept.
pub proof fn lemma_nd_all_paths_reject(r: NonDeterministicMachineRepresentation, ps: Seq<Config>)
    requires
        r.wf(),
        forall|i: int| 0 <= i < ps.len() ==> (#[trigger] ps[i]).state == r.spec_rejecting(),
    ensures
        nd_rejecting(r, ps),
        !nd_accepting(r, ps),
{
    if nd_accepting(r, ps) {
        let i = choose|i: int| 0 <= i < ps.len() && (#[trigger] ps[i]).state == r.spec_accepting();
        assert(ps[i].state == r.spec_rejecting());
    }
}

/// Along a run of a non-deterministic machine the representation stays, and
/// the paths after `i` steps are `nd_run` of the first ones.
pub proof fn lemma_nd_trace(tr: Seq<NonDeterministicTuringMachine>, i: int)
    requires
        is_trace(tr),
        0 <= i < tr.len(),
    ensures
        tr[i].repr() == tr[0].repr(),
        tr[i]@ == nd_run(tr[0].repr(), tr[0]@, i as nat),
    decreases i,
{
    if i > 0 {
        lemma_nd_trace(tr, i - 1);
        assert(step_in_trace(tr, i - 1));
    }
}

/// Whether `rn` is `rd` with each action of its table seen as a one-element set.
pub open spec fn singleton_view(
    rd: DeterministicMachineRepresentation,
    rn: NonDeterministicMachineRepresentation,
) -> bool {
    &&& rn.spec_accepting() == rd.spec_accepting()
    &&& rn.spec_rejecting() == rd.spec_rejecting()
    &&& forall|k: (usize, char)| #[trigger]
        rn.table()@.contains_key(k) == rd.table()@.contains_key(k)
    &&& forall|k: (usize, char)|
        rd.table()@.contains_key(k) ==> #[trigger] rn.table()@[k] == seq![rd.table()@[k]]
}

/// Whether a deterministic and a non-deterministic configuration agree: they
/// are equal, or both are in the rejecting state.
pub open spec fn agree(rd: DeterministicMachineRepresentation, d: Config, e: Config) -> bool {
    d == e || (d.state == rd.spec_rejecting() && e.state == rd.spec_rejecting())
}

proof fn lemma_single_path_step(
    rd: DeterministicMachineRepresentation,
    rn: NonDeterministicMachineRepresentation,
    d: Config,
    e: Config,
)
    requires
        rd.wf(),
        singleton_view(rd, rn),
        agree(rd, d, e),
    ensures
        nd_step(rn, seq![e]).len() == 1,
        agree(rd, det_step(rd, d), nd_step(rn, seq![e])[0]),
{
    let ps = seq![e];
    let acc = rd.spec_accepting();
    let rej = rd.spec_rejecting();
    if nd_accepting(rn, ps) || nd_rejecting(rn, ps) {
        if nd_accepting(rn, ps) {
            let i = choose|i: int| 0 <= i < ps.len() && (#[trigger] ps[i]).state == acc;
            assert(ps[i] == e);
        } else {
            assert(ps[0] == e);
        }
    } else {
        assert(ps[0] == e);
        assert(e.state != acc && e.state != rej);
        assert(d == e);
        let succ = nd_successors(rn, e);
        let first = ps.map_values(|c: Config| nd_successors(rn, c)[0]);
        assert(ps.drop_last() =~= Seq::<Config>::empty());
        assert(nd_staged(rn, ps) == nd_staged(rn, ps.drop_last()) + succ.drop_first());
        let key = (e.state, cell(e.tape, e.head as int));
        if rd.table()@.contains_key(key) {
            assert(nd_actions(rn, e) == seq![rd.table()@[key]]);
            assert(succ.len() == 1);
            assert(succ.drop_first() =~= Seq::<Config>::empty());
        } else {
            assert(nd_actions(rn, e) == Seq::<Action>::empty());
            assert(succ.drop_first() =~= Seq::<Config>::empty());
        }
        assert(nd_staged(rn, ps) =~= Seq::<Config>::empty());
        assert(merged(first, nd_staged(rn, ps)) == first);
        assert(first.len() == 1);
    }
}

/// Seen as a non-deterministic machine whose every set of actions holds one
/// action, a deterministic machine keeps a single path, and that path accepts
/// or rejects exactly when the deterministic machine does, after every number
/// of steps.
pub proof fn lemma_deterministic_reduction(
    rd: DeterministicMachineRepresentation,
    rn: NonDeterministicMachineRepresentation,
    c: Config,
    n: nat,
)
    requires
        rd.wf(),
        singleton_view(rd, rn),
    ensures
        nd_run(rn, seq![c], n).len() == 1,
        nd_accepting(rn, nd_run(rn, seq![c], n)) == (det_run(rd, c, n).state
            == rd.spec_accepting()),
        nd_rejecting(rn, nd_run(rn, seq![c], n)) == (det_run(rd, c, n).state
            == rd.spec_rejecting()),
    decreases n,
{
    lemma_reduction_agree(rd, rn, c, n);
    let ps = nd_run(rn, seq![c], n);
    let d = det_run(rd, c, n);
    let e = ps[0];
    if nd_accepting(rn, ps) {
        let i = choose|i: int| 0 <= i < ps.len() && (#[trigger] ps[i]).state == rn.spec_accepting();
        assert(i == 0);
    }
    if d.state == rd.spec_accepting() {
        assert(ps[0].state == rn.spec_accepting());
    }
    if !nd_rejecting(rn, ps) {
        let i = choose|i: int| !(0 <= i < ps.len() ==> (#[trigger] ps[i]).state == rn.spec_rejecting());
        assert(i == 0);
    }
}

/// A deterministic and a non-deterministic representation built from the same
/// description, with no key given twice, accept and reject the same inputs
/// after every number of steps.
pub proof fn lemma_same_description_reduction(
    d: MachineDescription,
    rd: DeterministicMachineRepresentation,
    rn: NonDeterministicMachineRepresentation,
    c: Config,
    n: nat,
)
    requires
        first_repeat(d.transitions) is None,
        rd.wf(),
        rd.built_from(d),
        rn.built_from(d),
        rd.table().describes(d.transitions),
        rn.table().describes(d.transitions),
    ensures
        nd_run(rn, seq![c], n).len() == 1,
        nd_accepting(rn, nd_run(rn, seq![c], n)) == (det_run(rd, c, n).state
            == rd.spec_accepting()),
        nd_rejecting(rn, nd_run(rn, seq![c], n)) == (det_run(rd, c, n).state
            == rd.spec_rejecting()),
{
    assert forall|k: (usize, char)| #[trigger]
        rn.table()@.contains_key(k) == rd.table()@.contains_key(k) by {
        lemma_choice_table_singletons(d.transitions, k);
    }
    assert forall|k: (usize, char)|
        rd.table()@.contains_key(k) implies #[trigger] rn.table()@[k] == seq![rd.table()@[k]] by {
        lemma_choice_table_singletons(d.transitions, k);
    }
    lemma_deterministic_reduction(rd, rn, c, n);
}

proof fn lemma_reduction_agree(
    rd: DeterministicMachineRepresentation,
    rn: NonDeterministicMachineRepresentation,
    c: Config,
    n: nat,
)
    requires
        rd.wf(),
        singleton_view(rd, rn),
    ensures
        nd_run(rn, seq![c], n).len() == 1,
        agree(rd, det_run(rd, c, n), nd_run(rn, seq![c], n)[0]),
    decreases n,
{
    if n > 0 {
        lemma_reduction_agree(rd, rn, c, (n - 1) as nat);
        let ps = nd_run(rn, seq![c], (n - 1) as nat);
        assert(ps =~= seq![ps[0]]);
        lemma_single_path_step(rd, rn, det_run(rd, c, (n - 1) as nat), ps[0]);
    } else {
        assert(seq![c][0] == c);
    }
}

/// Once the paths reject, later steps leave them as they are.
proof fn lemma_nd_run_stays(r: NonDeterministicMachineRepresentation, ps: Seq<Config>, j: nat, k: nat)
    requires
        j <= k,
        nd_accepting(r, nd_run(r, ps, j)) || nd_rejecting(r, nd_run(r, ps, j)),
    ensures
        nd_run(r, ps, k) == nd_run(r, ps, j),
    decreases k - j,
{
    if k > j {
        lemma_nd_run_stays(r, ps, j, (k - 1) as nat);
    }
}

/// Through whole runs with the same fuel, a deterministic machine and the
/// non-deterministic machine whose sets of actions each hold its one action
/// take the same number of steps and reach the same verdict.
pub proof fn lemma_reduction_through_runs(
    t1: Seq<DeterministicTuringMachine>,
    t2: Seq<NonDeterministicTuringMachine>,
    fuel: nat,
)
    requires
        complete_run(t1, fuel),
        complete_run(t2, fuel),
        t1[0].repr().wf(),
        singleton_view(t1[0].repr(), t2[0].repr()),
        t2[0]@ == seq![t1[0]@],
    ensures
        t1.len() == t2.len(),
        t2.last().accepting() == t1.last().accepting(),
        t2.last().rejecting() == t1.last().rejecting(),
{
    let rd = t1[0].repr();
    let rn = t2[0].repr();
    let c = t1[0]@;
    assert forall|i: int| 0 <= i < t1.len() && i < t2.len() implies {
        &&& (#[trigger] t2[i]).accepting() == t1[i].accepting()
        &&& t2[i].rejecting() == t1[i].rejecting()
        &&& (!t1[i].rejecting() ==> t2[i].can_step() == t1[i].can_step())
    } by {
        lemma_det_trace(t1, i);
        lemma_nd_trace(t2, i);
        lemma_reduction_agree(rd, rn, c, i as nat);
        lemma_deterministic_reduction(rd, rn, c, i as nat);
        let ps = t2[i]@;
        assert(ps.len() == 1);
        if !t1[i].rejecting() {
            assert(ps[0] == t1[i]@);
            if t2[i].can_step() {
                assert(has_room(ps[0].tape));
            }
            if t1[i].can_step() {
                assert forall|k: int| 0 <= k < ps.len() implies has_room((#[trigger] ps[k]).tape) by {
                    assert(k == 0);
                }
            }
        }
    }
    if t1.len() < t2.len() {
        let i = t1.len() - 1;
        assert(step_in_trace(t2, i));
        assert(t2[i].accepting() == t1[i].accepting());
    } else if t2.len() < t1.len() {
        let i = t2.len() - 1;
        assert(step_in_trace(t1, i));
        assert(t2[i].accepting() == t1[i].accepting());
    }
    assert(t2.last() == t2[t2.len() - 1]);
}

/// Where some path accepts within the fuel, a whole run ends accepting,
/// whatever the other paths do (unless the tapes could grow no more).
pub proof fn lemma_nd_run_accepts(t: Seq<NonDeterministicTuringMachine>, fuel: nat, k: nat)
    requires
        complete_run(t, fuel),
        t.last().inv(),
        k <= fuel,
        nd_accepting(t[0].repr(), nd_run(t[0].repr(), t[0]@, k)),
    ensures
        t.last().accepting() || !t.last().can_step(),
{
    let r = t[0].repr();
    let j = t.len() - 1;
    lemma_nd_trace(t, j);
    if j > k {
        lemma_nd_trace(t, k as int);
        assert(step_in_trace(t, k as int));
    } else if j < k {
        if t.last().rejecting() {
            lemma_nd_run_stays(r, t[0]@, j as nat, k);
            lemma_nd_verdicts_exclusive(t.last());
            lemma_nd_run_stays(r, t[0]@, j as nat, k);
        }
    }
}

/// Where every path rejects within the fuel and none accepted before, a
/// whole run ends rejecting and not accepting (unless the tapes could grow no
/// more).
pub proof fn lemma_nd_run_rejects(t: Seq<NonDeterministicTuringMachine>, fuel: nat, k: nat)
    requires
        complete_run(t, fuel),
        t.last().inv(),
        k <= fuel,
        nd_rejecting(t[0].repr(), nd_run(t[0].repr(), t[0]@, k)),
        forall|i: nat| i <= k ==> !nd_accepting(t[0].repr(), #[trigger] nd_run(t[0].repr(), t[0]@, i)),
    ensures
        t.last().rejecting() || !t.last().can_step(),
        !t.last().accepting(),
{
    let r = t[0].repr();
    let j = t.len() - 1;
    lemma_nd_trace(t, j);
    if j > k {
        lemma_nd_trace(t, k as int);
        assert(step_in_trace(t, k as int));
    } else if j < k {
        assert(!nd_accepting(r, nd_run(r, t[0]@, j as nat)));
    }
}

} // verus!
