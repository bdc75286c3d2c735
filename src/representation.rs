use vstd::prelude::*;

use crate::common::State;
use crate::hashed::{
    state_members, state_set_insert, state_set_new, symbol_members, symbol_set_insert,
    symbol_set_new,
};
use crate::machine_parser::{
    classified_in, mentions_state, mentions_symbol, vec_contains_state, vec_contains_symbol,
    MachineDescription, MachineParser,
};
use crate::transition_table::{
    DeterministicTransitionTable, NonDeterministicTransitionTable, TransitionTable,
};
use hashbrown::HashSet;

verus! {

/// Why a representation could not be built from a raw description.
#[derive(Debug)]
pub enum RepresentationCreationError<E> {
    StartingStateNotSpecified,
    AcceptStateNotSpecified,
    RejectStateNotSpecified,
    /// Every state that the transitions mention but that is not declared, each once.
    TransitionTableStateMismatch(Vec<usize>),
    /// Every symbol that the transitions mention but that is not in the alphabet, each once.
    TransitionTableAlphabetMismatch(Vec<char>),
    /// The table itself could not be built.
    TableConstructionError(E),
}

/// The checked, immutable description of a machine: its states, its three
/// designated states, its alphabet and its transition table.
pub struct GeneralMachineRepresentation<TableTy> {
    states: HashSet<usize>,
    starting_state: usize,
    accepting_state: usize,
    rejecting_state: usize,
    alphabet: HashSet<char>,
    transition_table: TableTy,
}

/// A representation whose table gives at most one action per key.
pub type DeterministicMachineRepresentation = GeneralMachineRepresentation<
    DeterministicTransitionTable,
>;

/// A representation whose table gives a set of actions per key.
pub type NonDeterministicMachineRepresentation = GeneralMachineRepresentation<
    NonDeterministicTransitionTable,
>;

/// The outcome of the checks that come before a table is built: the starting,
/// accepting and rejecting states, or the first check that failed.
pub open spec fn checked<E>(d: MachineDescription) -> Result<
    (usize, usize, usize),
    RepresentationCreationError<E>,
> {
    if d.starting is None {
        Err(RepresentationCreationError::StartingStateNotSpecified)
    } else if d.accepting is None {
        Err(RepresentationCreationError::AcceptStateNotSpecified)
    } else if d.rejecting is None {
        Err(RepresentationCreationError::RejectStateNotSpecified)
    } else {
        Ok((d.starting->Some_0, d.accepting->Some_0, d.rejecting->Some_0))
    }
}

impl<TableTy> GeneralMachineRepresentation<TableTy> {
    pub closed spec fn spec_states(&self) -> Set<usize> {
        state_members(self.states)
    }

    pub closed spec fn spec_alphabet(&self) -> Set<char> {
        symbol_members(self.alphabet)
    }

    pub closed spec fn spec_starting(&self) -> usize {
        self.starting_state
    }

    pub closed spec fn spec_accepting(&self) -> usize {
        self.accepting_state
    }

    pub closed spec fn spec_rejecting(&self) -> usize {
        self.rejecting_state
    }

    pub closed spec fn table(&self) -> TableTy {
        self.transition_table
    }

    /// The three designated states are states of the machine, and accepting
    /// and rejecting are different states.
    pub open spec fn wf(&self) -> bool {
        &&& self.spec_states().contains(self.spec_starting())
        &&& self.spec_states().contains(self.spec_accepting())
        &&& self.spec_states().contains(self.spec_rejecting())
        &&& self.spec_accepting() != self.spec_rejecting()
    }

    /// Whether the states, alphabet and designated states are those of `d`.
    pub open spec fn built_from(&self, d: MachineDescription) -> bool {
        &&& self.spec_states() == d.declared_states()
        &&& self.spec_alphabet() == d.alphabet.to_set()
        &&& Some(self.spec_starting()) == d.starting
        &&& Some(self.spec_accepting()) == d.accepting
        &&& Some(self.spec_rejecting()) == d.rejecting
    }

    /// Get the set of states
    pub fn states(&self) -> (r: &HashSet<usize>)
        ensures
            state_members(*r) == self.spec_states(),
    {
        &self.states
    }

    /// Get the starting state
    pub fn starting_state(&self) -> (r: &usize)
        ensures
            *r == self.spec_starting(),
    {
        &self.starting_state
    }

    /// Get the accepting state
    pub fn accepting_state(&self) -> (r: &usize)
        ensures
            *r == self.spec_accepting(),
    {
        &self.accepting_state
    }

    /// Get the rejecting state
    pub fn rejecting_state(&self) -> (r: &usize)
        ensures
            *r == self.spec_rejecting(),
    {
        &self.rejecting_state
    }

    /// Get the alphabet
    pub fn alphabet(&self) -> (r: &HashSet<char>)
        ensures
            symbol_members(*r) == self.spec_alphabet(),
    {
        &self.alphabet
    }

    /// Get the transition table
    pub fn transition_table(&self) -> (r: &TableTy)
        ensures
            *r == self.table(),
    {
        &self.transition_table
    }
}

/// The designated states of every representation are among its states, and a
/// state cannot be both the accepting and the rejecting one.
pub proof fn lemma_designated_states<T>(r: GeneralMachineRepresentation<T>)
    requires
        r.wf(),
    ensures
        r.spec_states().contains(r.spec_starting()),
        r.spec_states().contains(r.spec_accepting()),
        r.spec_states().contains(r.spec_rejecting()),
        r.spec_accepting() != r.spec_rejecting(),
{
}

/// The states that the transition lines mention but `b` does not declare, each once.
fn undeclared_states(b: &MachineParser) -> (r: Vec<usize>)
    ensures
        r@.no_duplicates(),
        r@.to_set() == b@.undeclared_states(),
{
    let t = b.transition_table_builder();
    let n = t.len();
    let mut r: Vec<usize> = Vec::new();
    let mut i: usize = 0;
    while i < n
        invariant
            n == b@.transitions.len(),
            t@ == b@.transitions,
            i <= n,
            r@.no_duplicates(),
            forall|s: usize|
                r@.contains(s) <==> (mentions_state(b@.transitions.take(i as int), s)
                    && !b@.declares(s)),
        decreases n - i,
    {
        let line = t.get(i);
        let ghost before = r@;
        let ghost pre = b@.transitions.take(i as int);
        let ghost post = b@.transitions.take(i + 1);
        if !b.declares_state(line.0) && !vec_contains_state(&r, line.0) {
            r.push(line.0);
        }
        let ghost mid = r@;
        if !b.declares_state(line.2.next_state) && !vec_contains_state(&r, line.2.next_state) {
            r.push(line.2.next_state);
        }
        proof {
            assert(post[i as int] == line);
            assert forall|s: usize|
                r@.contains(s) <==> (mentions_state(post, s) && !b@.declares(s)) by {
                if mentions_state(pre, s) {
                    let k = choose|k: int| 0 <= k < pre.len() && ((#[trigger] pre[k]).0 == s
                        || pre[k].2.next_state == s);
                    assert(post[k] == pre[k]);
                }
                if mentions_state(post, s) {
                    let k = choose|k: int| 0 <= k < post.len() && ((#[trigger] post[k]).0 == s
                        || post[k].2.next_state == s);
                    if k < i {
                        assert(pre[k] == post[k]);
                    }
                }
                if before.contains(s) {
                    let k = choose|k: int| 0 <= k < before.len() && before[k] == s;
                    assert(mid[k] == s);
                    assert(r@[k] == s);
                }
                if mid.contains(s) {
                    let k = choose|k: int| 0 <= k < mid.len() && mid[k] == s;
                    assert(r@[k] == s);
                }
                if r@.contains(s) {
                    let k = choose|k: int| 0 <= k < r@.len() && r@[k] == s;
                    if k < before.len() {
                        assert(before[k] == s);
                    } else if k < mid.len() {
                        assert(mid[k] == s);
                    }
                }
                if mid.len() > before.len() {
                    assert(mid[before.len() as int] == line.0);
                    assert(r@[before.len() as int] == line.0);
                }
                if r@.len() > mid.len() {
                    assert(r@[mid.len() as int] == line.2.next_state);
                }
            }
            assert forall|x: int, y: int| 0 <= x < r@.len() && 0 <= y < r@.len() && x != y implies r@[x] != r@[y] by {
                if mid.len() > before.len() {
                    assert(mid == before.push(line.0));
                }
                if r@.len() > mid.len() {
                    assert(r@ == mid.push(line.2.next_state));
                }
                if x < before.len() && y < before.len() {
                    assert(before[x] != before[y]);
                } else if x < mid.len() && y < mid.len() {
                    if x >= before.len() {
                        assert(mid[y] == before[y]);
                    } else {
                        assert(mid[x] == before[x]);
                    }
                } else {
                    if x >= mid.len() {
                        assert(r@[y] == mid[y]);
                    } else {
                        assert(r@[x] == mid[x]);
                    }
                }
            }
        }
        i = i + 1;
    }
    proof {
        assert(b@.transitions.take(n as int) =~= b@.transitions);
        assert(r@.to_set() =~= b@.undeclared_states());
    }
    r
}

/// The symbols that the transition lines mention but the alphabet of `b` lacks, each once.
fn undeclared_symbols(b: &MachineParser) -> (r: Vec<char>)
    ensures
        r@.no_duplicates(),
        r@.to_set() == b@.undeclared_symbols(),
{
    let t = b.transition_table_builder();
    let n = t.len();
    let mut r: Vec<char> = Vec::new();
    let mut i: usize = 0;
    while i < n
        invariant
            n == b@.transitions.len(),
            t@ == b@.transitions,
            i <= n,
            r@.no_duplicates(),
            forall|s: char|
                r@.contains(s) <==> (mentions_symbol(b@.transitions.take(i as int), s)
                    && !b@.alphabet.contains(s)),
        decreases n - i,
    {
        let line = t.get(i);
        let ghost before = r@;
        let ghost pre = b@.transitions.take(i as int);
        let ghost post = b@.transitions.take(i + 1);
        if !vec_contains_symbol(b.alphabet(), line.1) && !vec_contains_symbol(&r, line.1) {
            r.push(line.1);
        }
        let ghost mid = r@;
        if !vec_contains_symbol(b.alphabet(), line.2.tape_output) && !vec_contains_symbol(&r, line.2.tape_output) {
            r.push(line.2.tape_output);
        }
        proof {
            assert(post[i as int] == line);
            assert forall|s: char|
                r@.contains(s) <==> (mentions_symbol(post, s) && !b@.alphabet.contains(s)) by {
                if mentions_symbol(pre, s) {
                    let k = choose|k: int| 0 <= k < pre.len() && ((#[trigger] pre[k]).1 == s
                        || pre[k].2.tape_output == s);
                    assert(post[k] == pre[k]);
                }
                if mentions_symbol(post, s) {
                    let k = choose|k: int| 0 <= k < post.len() && ((#[trigger] post[k]).1 == s
                        || post[k].2.tape_output == s);
                    if k < i {
                        assert(pre[k] == post[k]);
                    }
                }
                if before.contains(s) {
                    let k = choose|k: int| 0 <= k < before.len() && before[k] == s;
                    assert(mid[k] == s);
                    assert(r@[k] == s);
                }
                if mid.contains(s) {
                    let k = choose|k: int| 0 <= k < mid.len() && mid[k] == s;
                    assert(r@[k] == s);
                }
                if r@.contains(s) {
                    let k = choose|k: int| 0 <= k < r@.len() && r@[k] == s;
                    if k < before.len() {
                        assert(before[k] == s);
                    } else if k < mid.len() {
                        assert(mid[k] == s);
                    }
                }
                if mid.len() > before.len() {
                    assert(mid[before.len() as int] == line.1);
                    assert(r@[before.len() as int] == line.1);
                }
                if r@.len() > mid.len() {
                    assert(r@[mid.len() as int] == line.2.tape_output);
                }
            }
            assert forall|x: int, y: int| 0 <= x < r@.len() && 0 <= y < r@.len() && x != y implies r@[x] != r@[y] by {
                if mid.len() > before.len() {
                    assert(mid == before.push(line.1));
                }
                if r@.len() > mid.len() {
                    assert(r@ == mid.push(line.2.tape_output));
                }
                if x < before.len() && y < before.len() {
                    assert(before[x] != before[y]);
                } else if x < mid.len() && y < mid.len() {
                    if x >= before.len() {
                        assert(mid[y] == before[y]);
                    } else {
                        assert(mid[x] == before[x]);
                    }
                } else {
                    if x >= mid.len() {
                        assert(r@[y] == mid[y]);
                    } else {
                        assert(r@[x] == mid[x]);
                    }
                }
            }
        }
        i = i + 1;
    }
    proof {
        assert(b@.transitions.take(n as int) =~= b@.transitions);
        assert(r@.to_set() =~= b@.undeclared_symbols());
    }
    r
}

/// The states, starting, accepting and rejecting, or the first check that fails:
/// the designations are present, then every state and every symbol that the
/// transitions mention is declared.
fn check_builder<E>(b: &MachineParser) -> (r: Result<(usize, usize, usize), RepresentationCreationError<E>>)
    requires
        b@.wf(),
    ensures
        checked::<E>(b@) is Err ==> r == checked::<E>(b@),
        checked::<E>(b@) is Ok && !b@.states_consistent() ==> (r matches Err(
            RepresentationCreationError::TransitionTableStateMismatch(v),
        ) && v@.no_duplicates() && v@.to_set() == b@.undeclared_states()),
        checked::<E>(b@) is Ok && b@.states_consistent() && !b@.symbols_consistent() ==> (r matches Err(
            RepresentationCreationError::TransitionTableAlphabetMismatch(v),
        ) && v@.no_duplicates() && v@.to_set() == b@.undeclared_symbols()),
        checked::<E>(b@) is Ok && b@.states_consistent() && b@.symbols_consistent() ==> r
            == checked::<E>(b@),
{
    let starting = match b.starting_state() {
        Some(s) => *s,
        None => {
            return Err(RepresentationCreationError::StartingStateNotSpecified);
        },
    };
    let accepting = match b.accepting_state() {
        Some(s) => *s,
        None => {
            return Err(RepresentationCreationError::AcceptStateNotSpecified);
        },
    };
    let rejecting = match b.rejecting_state() {
        Some(s) => *s,
        None => {
            return Err(RepresentationCreationError::RejectStateNotSpecified);
        },
    };
    let state_diff = undeclared_states(b);
    if state_diff.len() > 0 {
        proof {
            let s = state_diff@[0];
            assert(state_diff@.to_set().contains(s));
            assert(b@.undeclared_states().contains(s));
        }
        return Err(RepresentationCreationError::TransitionTableStateMismatch(state_diff));
    }
    assert forall|s: usize| mentions_state(b@.transitions, s) implies b@.declares(s) by {
        if !b@.declares(s) {
            assert(b@.undeclared_states().contains(s));
            assert(state_diff@.to_set().contains(s));
        }
    }
    let alpha_diff = undeclared_symbols(b);
    if alpha_diff.len() > 0 {
        proof {
            let c = alpha_diff@[0];
            assert(alpha_diff@.to_set().contains(c));
            assert(b@.undeclared_symbols().contains(c));
        }
        return Err(RepresentationCreationError::TransitionTableAlphabetMismatch(alpha_diff));
    }
    assert forall|c: char| mentions_symbol(b@.transitions, c) implies b@.alphabet.contains(c) by {
        if !b@.alphabet.contains(c) {
            assert(b@.undeclared_symbols().contains(c));
            assert(alpha_diff@.to_set().contains(c));
        }
    }
    Ok((starting, accepting, rejecting))
}

/// The declared states of `b` as a set.
fn state_set_of(b: &MachineParser) -> (r: HashSet<usize>)
    ensures
        state_members(r) == b@.declared_states(),
{
    let states = b.states();
    let n = states.len();
    let mut r = state_set_new();
    let mut i: usize = 0;
    while i < n
        invariant
            n == b@.states.len(),
            states@ == b@.states,
            i <= n,
            state_members(r) == Set::new(|s: usize| exists|j: int| 0 <= j < i && (#[trigger] b@.states[j]).0 == s),
        decreases n - i,
    {
        let ghost prev = state_members(r);
        state_set_insert(&mut r, states[i].0);
        proof {
            assert(state_members(r) =~= Set::new(|s: usize| exists|j: int| 0 <= j < i + 1 && (#[trigger] b@.states[j]).0 == s)) by {
                assert forall|s: usize| (exists|j: int| 0 <= j < i + 1 && (#[trigger] b@.states[j]).0 == s) implies state_members(r).contains(s) by {
                    let j = choose|j: int| 0 <= j < i + 1 && (#[trigger] b@.states[j]).0 == s;
                    if j < i {
                        assert(prev.contains(s));
                    }
                }
            }
        }
        i = i + 1;
    }
    assert(state_members(r) =~= b@.declared_states());
    r
}

/// The alphabet of `b` as a set.
fn symbol_set_of(b: &MachineParser) -> (r: HashSet<char>)
    ensures
        symbol_members(r) == b@.alphabet.to_set(),
{
    let alphabet = b.alphabet();
    let n = alphabet.len();
    let mut r = symbol_set_new();
    let mut i: usize = 0;
    while i < n
        invariant
            n == b@.alphabet.len(),
            alphabet@ == b@.alphabet,
            i <= n,
            symbol_members(r) == b@.alphabet.take(i as int).to_set(),
        decreases n - i,
    {
        let ghost prev = symbol_members(r);
        symbol_set_insert(&mut r, alphabet[i]);
        proof {
            let t = b@.alphabet.take(i + 1);
            assert(t == b@.alphabet.take(i as int).push(alphabet@[i as int]));
            assert forall|c: char| symbol_members(r).contains(c) <==> t.to_set().contains(c) by {
                if t.contains(c) {
                    let k = choose|k: int| 0 <= k < t.len() && t[k] == c;
                    if k < i {
                        assert(b@.alphabet.take(i as int)[k] == c);
                    }
                }
                if prev.contains(c) {
                    let k = choose|k: int| 0 <= k < i && b@.alphabet.take(i as int)[k] == c;
                    assert(t[k] == c);
                }
                assert(t[i as int] == alphabet@[i as int]);
            }
            assert(symbol_members(r) =~= t.to_set());
        }
        i = i + 1;
    }
    assert(b@.alphabet.take(n as int) =~= b@.alphabet);
    r
}

/// Accepting and rejecting are different states in a well-formed description.
proof fn lemma_accept_reject_differ(d: MachineDescription)
    requires
        d.wf(),
        d.accepting is Some,
        d.rejecting is Some,
    ensures
        d.accepting->Some_0 != d.rejecting->Some_0,
{
    let a = d.accepting->Some_0;
    let r = d.rejecting->Some_0;
    if a == r {
        let i = choose|i: int| 0 <= i < d.states.len() && #[trigger] d.states[i] == (a, State::Accepting);
        let j = choose|j: int| 0 <= j < d.states.len() && #[trigger] d.states[j] == (r, State::Rejecting);
        assert(i != j);
        if i < j {
            assert(d.states[i].0 != d.states[j].0);
        } else {
            assert(d.states[j].0 != d.states[i].0);
        }
    }
}

impl<TableTy> GeneralMachineRepresentation<TableTy> {
    /// Puts together a representation from a description that passed its checks.
    fn assemble(b: &MachineParser, designated: (usize, usize, usize), transition_table: TableTy) -> (r: Self)
        requires
            b@.wf(),
            checked::<()>(b@) == Ok::<(usize, usize, usize), RepresentationCreationError<()>>(designated),
        ensures
            r.wf(),
            r.built_from(b@),
            r.table() == transition_table,
    {
        let (starting_state, accepting_state, rejecting_state) = designated;
        proof {
            lemma_accept_reject_differ(b@);
            let d = b@;
            let k = choose|k: int| 0 <= k < d.states.len() && #[trigger] d.states[k] == (accepting_state, State::Accepting);
            assert(d.declares(accepting_state));
            let k2 = choose|k: int| 0 <= k < d.states.len() && #[trigger] d.states[k] == (rejecting_state, State::Rejecting);
            assert(d.declares(rejecting_state));
        }
        GeneralMachineRepresentation {
            states: state_set_of(b),
            starting_state,
            accepting_state,
            rejecting_state,
            alphabet: symbol_set_of(b),
            transition_table,
        }
    }
}

impl<TableTy: TransitionTable> GeneralMachineRepresentation<TableTy> {
    /// Validates the raw description and builds the representation: the
    /// designated states must be present, every state and symbol that the
    /// transitions mention must be declared, and the table must be buildable
    /// from the transition lines. The first check that fails is reported.
    pub fn from_builder(b: &MachineParser) -> (r: Result<
        Self,
        RepresentationCreationError<TableTy::ErrorTy>,
    >)
        requires
            b@.wf(),
        ensures
            b@.starting is None ==> r matches Err(
                RepresentationCreationError::StartingStateNotSpecified,
            ),
            b@.starting is Some && b@.accepting is None ==> r matches Err(
                RepresentationCreationError::AcceptStateNotSpecified,
            ),
            b@.starting is Some && b@.accepting is Some && b@.rejecting is None ==> r matches Err(
                RepresentationCreationError::RejectStateNotSpecified,
            ),
            b@.designations_present() && !b@.states_consistent() ==> (r matches Err(
                RepresentationCreationError::TransitionTableStateMismatch(v),
            ) && v@.no_duplicates() && v@.to_set() == b@.undeclared_states()),
            b@.designations_present() && b@.states_consistent() && !b@.symbols_consistent() ==> (
            r matches Err(RepresentationCreationError::TransitionTableAlphabetMismatch(v))
                && v@.no_duplicates() && v@.to_set() == b@.undeclared_symbols()),
            b@.designations_present() && b@.states_consistent() && b@.symbols_consistent()
                && !TableTy::buildable(b@.transitions) ==> (r matches Err(
                RepresentationCreationError::TableConstructionError(e),
            ) && TableTy::refused(b@.transitions, e)),
            b@.designations_present() && b@.states_consistent() && b@.symbols_consistent()
                && TableTy::buildable(b@.transitions) ==> (r matches Ok(m) && m.wf()
                && m.built_from(b@) && m.table().describes(b@.transitions)),
    {
        let designated = match check_builder::<TableTy::ErrorTy>(b) {
            Ok(d) => d,
            Err(e) => {
                return Err(e);
            },
        };
        let table = match TableTy::from_builder(b.transition_table_builder()) {
            Ok(t) => t,
            Err(e) => {
                return Err(RepresentationCreationError::TableConstructionError(e));
            },
        };
        Ok(Self::assemble(b, designated, table))
    }
}

} // verus!
