use vstd::prelude::*;

use crate::common::{Action, Motion, State};
use crate::text::{
    as_count, as_motion, as_symbol, begins_with, lemma_pieces_nonempty, pieces, slice_of, split,
    starts_with, token_count, token_motion, token_symbol, trim, trimmed,
};

verus! {

/// Failures while reading the state section of a machine description.
#[derive(Debug)]
pub enum StateError {
    MissingStateHeader,
    InvalidStateHeader,
    HeaderIntParsing,
    InvalidStateLine(Vec<char>),
    InvalidStateName(Vec<char>),
    InvalidStateSymbol(Vec<char>),
    MandatoryStatesNotSet,
    /// A state was named as the starting state before it was declared.
    UndeclaredState(usize),
}

/// Failures while reading the alphabet section of a machine description.
#[derive(Debug)]
pub enum AlphabetError {
    MissingAlphabetHeader,
    InvalidAlphabetHeader,
    InvalidBlankSymbol,
    HeaderIntParsing,
    TokenNotAChar(Vec<char>),
    InvalidNumberOfElements(usize),
}

/// Failures while reading one transition line.
#[derive(Debug)]
pub enum TransitionTableError {
    InvalidNumberOfTokens(usize),
    TokenNotAChar(Vec<char>),
    InvalidMotion(Vec<char>),
}

/// Why a machine description could not be read.
#[derive(Debug)]
pub enum ParsingError {
    /// The states parsing failed
    States(StateError),
    /// The alphabet is inconsistent
    Alphabet(AlphabetError),
    /// The transition table could not be parsed
    TransitionTable(TransitionTableError),
}

/// The unchecked transition description of a machine: every transition line
/// `(state, symbol, action)` in the order it was given.
pub struct MachineTableParser {
    transitions: Vec<(usize, char, Action)>,
}

/// Whether state `s` has a transition of its own in `t`.
pub open spec fn has_source(t: Seq<(usize, char, Action)>, s: usize) -> bool {
    exists|i: int| 0 <= i < t.len() && (#[trigger] t[i]).0 == s
}

/// The transitions of state `s` in `t`, in order, as (symbol, action) pairs.
pub open spec fn transitions_of(t: Seq<(usize, char, Action)>, s: usize) -> Seq<(char, Action)>
    decreases t.len(),
{
    if t.len() == 0 {
        Seq::empty()
    } else {
        let rest = transitions_of(t.drop_last(), s);
        if t.last().0 == s {
            rest.push((t.last().1, t.last().2))
        } else {
            rest
        }
    }
}

/// Whether state `s` occurs anywhere in `t`, as a source or as a target.
pub open spec fn mentions_state(t: Seq<(usize, char, Action)>, s: usize) -> bool {
    exists|i: int| 0 <= i < t.len() && ((#[trigger] t[i]).0 == s || t[i].2.next_state == s)
}

/// Whether symbol `c` occurs anywhere in `t`, as an input or as an output.
pub open spec fn mentions_symbol(t: Seq<(usize, char, Action)>, c: char) -> bool {
    exists|i: int| 0 <= i < t.len() && ((#[trigger] t[i]).1 == c || t[i].2.tape_output == c)
}

impl MachineTableParser {
    pub closed spec fn view(&self) -> Seq<(usize, char, Action)> {
        self.transitions@
    }

    /// An empty transition description.
    pub fn new() -> (r: Self)
        ensures
            r@ == Seq::<(usize, char, Action)>::empty(),
    {
        MachineTableParser { transitions: Vec::new() }
    }

    /// Records that in `state`, reading `symbol`, the machine may take `action`.
    pub fn add_transition(&mut self, state: usize, symbol: char, action: Action)
        ensures
            final(self)@ == old(self)@.push((state, symbol, action)),
    {
        self.transitions.push((state, symbol, action));
    }

    /// The number of transition lines.
    pub fn len(&self) -> (r: usize)
        ensures
            r == self@.len(),
    {
        self.transitions.len()
    }

    /// The transition line at index `i`.
    pub fn get(&self, i: usize) -> (r: (usize, char, Action))
        requires
            i < self@.len(),
        ensures
            r == self@[i as int],
    {
        self.transitions[i]
    }

    /// The states that have transitions of their own, each once.
    pub fn states(&self) -> (r: Vec<usize>)
        ensures
            r@.no_duplicates(),
            forall|s: usize| r@.contains(s) <==> has_source(self@, s),
    {
        let mut r: Vec<usize> = Vec::new();
        let n = self.transitions.len();
        let mut i: usize = 0;
        while i < n
            invariant
                n == self@.len(),
                i <= n,
                r@.no_duplicates(),
                forall|s: usize|
                    r@.contains(s) <==> exists|j: int| 0 <= j < i && (#[trigger] self@[j]).0 == s,
            decreases n - i,
        {
            let s = self.transitions[i].0;
            let ghost prev = r@;
            if !vec_contains_state(&r, s) {
                r.push(s);
                assert(r@ == prev.push(s));
                assert(r@.contains(s)) by {
                    assert(r@[prev.len() as int] == s);
                }
            }
            assert(r@.contains(s));
            assert forall|x: usize|
                r@.contains(x) <==> exists|j: int| 0 <= j < i + 1 && (#[trigger] self@[j]).0 == x by {
                if r@.contains(x) && x != s {
                    let k = choose|k: int| 0 <= k < r@.len() && r@[k] == x;
                    assert(prev[k] == x);
                    assert(prev.contains(x));
                }
                if prev.contains(x) {
                    let k = choose|k: int| 0 <= k < prev.len() && prev[k] == x;
                    assert(r@[k] == x);
                }
                if exists|j: int| 0 <= j < i + 1 && (#[trigger] self@[j]).0 == x {
                    let j = choose|j: int| 0 <= j < i + 1 && (#[trigger] self@[j]).0 == x;
                    if j < i {
                        assert(prev.contains(x));
                    }
                }
            }
            i = i + 1;
        }
        r
    }

    /// Given a state, the transitions it can take, in order.
    pub fn get_state_transitions(&self, state: usize) -> (r: Vec<(char, Action)>)
        ensures
            r@ == transitions_of(self@, state),
    {
        let mut r: Vec<(char, Action)> = Vec::new();
        let n = self.transitions.len();
        let mut i: usize = 0;
        while i < n
            invariant
                n == self@.len(),
                i <= n,
                r@ == transitions_of(self@.take(i as int), state),
            decreases n - i,
        {
            let (s, c, a) = self.transitions[i];
            assert(self@.take(i + 1).drop_last() =~= self@.take(i as int));
            if s == state {
                r.push((c, a));
            }
            i = i + 1;
        }
        assert(self@.take(n as int) =~= self@);
        r
    }
}

/// What a raw machine description holds: the designated states, the declared
/// states with their classification, the alphabet and the transition lines.
pub struct MachineDescription {
    pub starting: Option<usize>,
    pub accepting: Option<usize>,
    pub rejecting: Option<usize>,
    pub states: Seq<(usize, State)>,
    pub alphabet: Seq<char>,
    pub transitions: Seq<(usize, char, Action)>,
}

/// Whether `s` is declared in `states`.
pub open spec fn declared_in(states: Seq<(usize, State)>, s: usize) -> bool {
    exists|i: int| 0 <= i < states.len() && (#[trigger] states[i]).0 == s
}

/// Whether `s` is declared in `states` with classification `v`.
pub open spec fn classified_in(states: Seq<(usize, State)>, s: usize, v: State) -> bool {
    exists|i: int| 0 <= i < states.len() && #[trigger] states[i] == (s, v)
}

/// Each state is declared once, and the designated states are declared with
/// the matching classification.
pub open spec fn states_wf(
    states: Seq<(usize, State)>,
    starting: Option<usize>,
    accepting: Option<usize>,
    rejecting: Option<usize>,
) -> bool {
    &&& forall|i: int, j: int|
        0 <= i < j < states.len() ==> (#[trigger] states[i]).0 != (#[trigger] states[j]).0
    &&& (accepting matches Some(a) ==> classified_in(states, a, State::Accepting))
    &&& (rejecting matches Some(r) ==> classified_in(states, r, State::Rejecting))
    &&& (starting matches Some(s) ==> declared_in(states, s))
}

impl MachineDescription {
    /// Whether `s` is a declared state.
    pub open spec fn declares(&self, s: usize) -> bool {
        declared_in(self.states, s)
    }

    /// Whether `s` is declared with classification `v`.
    pub open spec fn classifies(&self, s: usize, v: State) -> bool {
        classified_in(self.states, s, v)
    }

    /// The starting, accepting and rejecting states are all designated.
    pub open spec fn designations_present(&self) -> bool {
        &&& self.starting is Some
        &&& self.accepting is Some
        &&& self.rejecting is Some
    }

    /// Every state that the transitions mention is declared.
    pub open spec fn states_consistent(&self) -> bool {
        forall|s: usize| mentions_state(self.transitions, s) ==> self.declares(s)
    }

    /// Every symbol that the transitions mention is in the alphabet.
    pub open spec fn symbols_consistent(&self) -> bool {
        forall|c: char| mentions_symbol(self.transitions, c) ==> self.alphabet.contains(c)
    }

    /// The declared states.
    pub open spec fn declared_states(&self) -> Set<usize> {
        Set::new(|s: usize| self.declares(s))
    }

    /// The states that the transitions mention but that are not declared.
    pub open spec fn undeclared_states(&self) -> Set<usize> {
        Set::new(|s: usize| mentions_state(self.transitions, s) && !self.declares(s))
    }

    /// The symbols that the transitions mention but that are not in the alphabet.
    pub open spec fn undeclared_symbols(&self) -> Set<char> {
        Set::new(|c: char| mentions_symbol(self.transitions, c) && !self.alphabet.contains(c))
    }

    /// Each state is declared once, the alphabet holds each symbol once, and the
    /// designated states are declared with the matching classification.
    pub open spec fn wf(&self) -> bool {
        &&& states_wf(self.states, self.starting, self.accepting, self.rejecting)
        &&& self.alphabet.no_duplicates()
    }
}

/// The raw description of a machine, filled in piece by piece and checked
/// only when a representation is built from it.
pub struct MachineParser {
    starting_state: Option<usize>,
    accept_state: Option<usize>,
    reject_state: Option<usize>,
    states: Vec<(usize, State)>,
    alphabet: Vec<char>,
    table_builder: MachineTableParser,
}

impl MachineParser {
    pub closed spec fn view(&self) -> MachineDescription {
        MachineDescription {
            starting: self.starting_state,
            accepting: self.accept_state,
            rejecting: self.reject_state,
            states: self.states@,
            alphabet: self.alphabet@,
            transitions: self.table_builder@,
        }
    }

    /// An empty description.
    pub fn new() -> (r: Self)
        ensures
            r@.starting is None,
            r@.accepting is None,
            r@.rejecting is None,
            r@.states.len() == 0,
            r@.alphabet.len() == 0,
            r@.transitions.len() == 0,
            r@.wf(),
    {
        MachineParser {
            starting_state: None,
            accept_state: None,
            reject_state: None,
            states: Vec::new(),
            alphabet: Vec::new(),
            table_builder: MachineTableParser::new(),
        }
    }

    /// Whether `s` is a declared state.
    pub fn declares_state(&self, s: usize) -> (r: bool)
        ensures
            r == self@.declares(s),
    {
        let n = self.states.len();
        let mut i: usize = 0;
        while i < n
            invariant
                n == self.states.len(),
                i <= n,
                forall|j: int| 0 <= j < i ==> (#[trigger] self.states@[j]).0 != s,
            decreases n - i,
        {
            if self.states[i].0 == s {
                assert(self@.states[i as int].0 == s);
                return true;
            }
            i = i + 1;
        }
        false
    }

    /// Is an accepting state designated?
    pub fn has_accept_state(&self) -> (r: bool)
        ensures
            r == self@.accepting is Some,
    {
        self.accept_state.is_some()
    }

    /// Is a rejecting state designated?
    pub fn has_reject_state(&self) -> (r: bool)
        ensures
            r == self@.rejecting is Some,
    {
        self.reject_state.is_some()
    }

    /// The number of symbols in the alphabet.
    pub fn alphabet_len(&self) -> (r: usize)
        ensures
            r == self@.alphabet.len(),
    {
        self.alphabet.len()
    }

    /// Declares `state` with classification `value`, or reclassifies it. An
    /// accepting or rejecting state becomes the designated one of its kind; a
    /// state that loses a classification stops being designated for it.
    pub fn add_state(&mut self, state: usize, value: State) -> (r: Result<(), ParsingError>)
        requires
            old(self)@.wf(),
        ensures
            r is Ok,
            final(self)@.wf(),
            final(self)@.classifies(state, value),
            forall|x: usize, v: State|
                x != state ==> (final(self)@.classifies(x, v) <==> old(self)@.classifies(x, v)),
            forall|x: usize| x != state ==> (final(self)@.declares(x) <==> old(self)@.declares(x)),
            final(self)@.declares(state),
            final(self)@.starting == old(self)@.starting,
            final(self)@.alphabet == old(self)@.alphabet,
            final(self)@.transitions == old(self)@.transitions,
            value == State::Accepting ==> final(self)@.accepting == Some(state),
            value == State::Rejecting ==> final(self)@.rejecting == Some(state),
            value != State::Accepting ==> final(self)@.accepting == (if old(self)@.accepting
                == Some(state) {
                None
            } else {
                old(self)@.accepting
            }),
            value != State::Rejecting ==> final(self)@.rejecting == (if old(self)@.rejecting
                == Some(state) {
                None
            } else {
                old(self)@.rejecting
            }),
    {
        let ghost pre = self@;
        let n = self.states.len();
        let mut i: usize = 0;
        while i < n
            invariant
                n == self.states.len(),
                i <= n,
                self@ == pre,
                forall|j: int| 0 <= j < i ==> (#[trigger] self.states@[j]).0 != state,
            ensures
                i <= n,
                self@ == pre,
                i < n ==> self.states@[i as int].0 == state,
                forall|j: int| 0 <= j < i ==> (#[trigger] self.states@[j]).0 != state,
            decreases n - i,
        {
            if self.states[i].0 == state {
                break;
            }
            i = i + 1;
        }
        let ghost idx: int = i as int;
        if i < n {
            self.states.set(i, (state, value));
            assert(self@.states[i as int] == (state, value));
            assert forall|x: usize, v: State|
                x != state implies (self@.classifies(x, v) <==> pre.classifies(x, v)) by {
                if pre.classifies(x, v) {
                    let k = choose|k: int| 0 <= k < pre.states.len() && #[trigger] pre.states[k] == (
                    x, v);
                    assert(self@.states[k] == (x, v));
                }
            }
            assert forall|x: usize| x != state implies (self@.declares(x) <==> pre.declares(x)) by {
                if pre.declares(x) {
                    let k = choose|k: int| 0 <= k < pre.states.len() && (#[trigger] pre.states[k]).0
                        == x;
                    assert(self@.states[k].0 == x);
                }
            }
        } else {
            self.states.push((state, value));
            assert forall|x: usize, v: State|
                x != state implies (self@.classifies(x, v) <==> pre.classifies(x, v)) by {
                if pre.classifies(x, v) {
                    let k = choose|k: int| 0 <= k < pre.states.len() && #[trigger] pre.states[k] == (
                    x, v);
                    assert(self@.states[k] == (x, v));
                }
            }
            assert forall|x: usize| x != state implies (self@.declares(x) <==> pre.declares(x)) by {
                if pre.declares(x) {
                    let k = choose|k: int| 0 <= k < pre.states.len() && (#[trigger] pre.states[k]).0
                        == x;
                    assert(self@.states[k].0 == x);
                }
            }
            assert(self@.states[n as int] == (state, value));
        }
        match value {
            State::Accepting => {
                self.accept_state = Some(state);
                if self.reject_state == Some(state) {
                    self.reject_state = None;
                }
            },
            State::Rejecting => {
                self.reject_state = Some(state);
                if self.accept_state == Some(state) {
                    self.accept_state = None;
                }
            },
            State::Neutral => {
                if self.accept_state == Some(state) {
                    self.accept_state = None;
                }
                if self.reject_state == Some(state) {
                    self.reject_state = None;
                }
            },
        }
        proof {
            let post = self@;
            assert(post.states[idx] == (state, value));
            assert(post.classifies(state, value));
            if let Some(x) = post.accepting {
                if x != state {
                    assert(pre.classifies(x, State::Accepting));
                }
            }
            if let Some(x) = post.rejecting {
                if x != state {
                    assert(pre.classifies(x, State::Rejecting));
                }
            }
            if let Some(x) = post.starting {
                if x != state {
                    assert(pre.declares(x));
                }
            }
        }
        Ok(())
    }

    /// Designates the starting state; it must have been declared already.
    pub fn add_starting_state(&mut self, state: usize) -> (r: Result<(), ParsingError>)
        requires
            old(self)@.wf(),
        ensures
            final(self)@.wf(),
            r is Ok <==> old(self)@.declares(state),
            r is Ok ==> final(self)@ == (MachineDescription {
                starting: Some(state),
                ..old(self)@
            }),
            r is Err ==> final(self)@ == old(self)@,
            r matches Err(e) ==> e == ParsingError::States(StateError::UndeclaredState(state)),
    {
        let n = self.states.len();
        let mut i: usize = 0;
        while i < n
            invariant
                n == self.states.len(),
                i <= n,
                self@ == old(self)@,
                self@.wf(),
                forall|j: int| 0 <= j < i ==> (#[trigger] self.states@[j]).0 != state,
            decreases n - i,
        {
            if self.states[i].0 == state {
                self.starting_state = Some(state);
                assert(self@.states[i as int].0 == state);
                return Ok(());
            }
            i = i + 1;
        }
        Err(ParsingError::States(StateError::UndeclaredState(state)))
    }

    /// Adds a symbol to the alphabet; a symbol already there is kept once.
    pub fn add_alphabet_symbol(&mut self, symbol: char) -> (r: Result<(), ParsingError>)
        requires
            old(self)@.wf(),
        ensures
            r is Ok,
            final(self)@.wf(),
            final(self)@.alphabet.to_set() == old(self)@.alphabet.to_set().insert(symbol),
            final(self)@.alphabet == (if old(self)@.alphabet.contains(symbol) {
                old(self)@.alphabet
            } else {
                old(self)@.alphabet.push(symbol)
            }),
            final(self)@.states == old(self)@.states,
            final(self)@.starting == old(self)@.starting,
            final(self)@.accepting == old(self)@.accepting,
            final(self)@.rejecting == old(self)@.rejecting,
            final(self)@.transitions == old(self)@.transitions,
    {
        if !vec_contains_symbol(&self.alphabet, symbol) {
            self.alphabet.push(symbol);
            proof {
                let o = old(self)@.alphabet;
                assert(self@.alphabet == o.push(symbol));
                assert forall|i: int, j: int|
                    0 <= i < self@.alphabet.len() && 0 <= j < self@.alphabet.len() && i != j
                    implies self@.alphabet[i] != self@.alphabet[j] by {
                    if j == o.len() {
                        assert(!o.contains(symbol));
                        assert(o[i] == self@.alphabet[i]);
                    } else if i == o.len() {
                        assert(o[j] == self@.alphabet[j]);
                    }
                }
                assert forall|c: char| self@.alphabet.to_set().contains(c) <==> o.to_set().insert(
                    symbol,
                ).contains(c) by {
                    if o.contains(c) {
                        let k = choose|k: int| 0 <= k < o.len() && o[k] == c;
                        assert(self@.alphabet[k] == c);
                    }
                    if self@.alphabet.contains(c) && c != symbol {
                        let k = choose|k: int| 0 <= k < self@.alphabet.len() && self@.alphabet[k]
                            == c;
                        assert(o[k] == c);
                    }
                    assert(self@.alphabet[o.len() as int] == symbol);
                }
                assert(self@.alphabet.to_set() =~= o.to_set().insert(symbol));
            }
        } else {
            assert(old(self)@.alphabet.to_set() =~= old(self)@.alphabet.to_set().insert(symbol));
        }

        Ok(())
    }

    /// Records that in `state`, reading `symbol`, the machine may take `action`.
    pub fn add_transition(&mut self, state: usize, symbol: char, action: Action)
        requires
            old(self)@.wf(),
        ensures
            final(self)@ == (MachineDescription {
                transitions: old(self)@.transitions.push((state, symbol, action)),
                ..old(self)@
            }),
            final(self)@.wf(),
    {
        self.table_builder.add_transition(state, symbol, action);
    }

    /// The declared states with their classification.
    pub fn states(&self) -> (r: &Vec<(usize, State)>)
        ensures
            r@ == self@.states,
    {
        &self.states
    }

    /// The starting state, if designated.
    pub fn starting_state(&self) -> (r: &Option<usize>)
        ensures
            *r == self@.starting,
    {
        &self.starting_state
    }

    /// The accepting state, if designated.
    pub fn accepting_state(&self) -> (r: &Option<usize>)
        ensures
            *r == self@.accepting,
    {
        &self.accept_state
    }

    /// The rejecting state, if designated.
    pub fn rejecting_state(&self) -> (r: &Option<usize>)
        ensures
            *r == self@.rejecting,
    {
        &self.reject_state
    }

    /// The alphabet.
    pub fn alphabet(&self) -> (r: &Vec<char>)
        ensures
            r@ == self@.alphabet,
    {
        &self.alphabet
    }

    /// The transition description.
    pub fn transition_table_builder(&self) -> (r: &MachineTableParser)
        ensures
            r@ == self@.transitions,
    {
        &self.table_builder
    }
}

/// Whether `v` holds `s`.
pub fn vec_contains_state(v: &Vec<usize>, s: usize) -> (r: bool)
    ensures
        r == v@.contains(s),
{
    let mut i: usize = 0;
    while i < v.len()
        invariant
            i <= v.len(),
            forall|j: int| 0 <= j < i ==> v@[j] != s,
        decreases v.len() - i,
    {
        if v[i] == s {
            return true;
        }
        i = i + 1;
    }
    false
}

/// Whether `v` holds `c`.
pub fn vec_contains_symbol(v: &Vec<char>, c: char) -> (r: bool)
    ensures
        r == v@.contains(c),
{
    let mut i: usize = 0;
    while i < v.len()
        invariant
            i <= v.len(),
            forall|j: int| 0 <= j < i ==> v@[j] != c,
        decreases v.len() - i,
    {
        if v[i] == c {
            return true;
        }
        i = i + 1;
    }
    false
}

/// The names of states as character sequences; a state's identifier is the
/// index of its name.
pub open spec fn names_view(names: Seq<Vec<char>>) -> Seq<Seq<char>> {
    names.map_values(|v: Vec<char>| v@)
}

/// Whether `old` is a prefix of `new`: names once given keep their identifier.
pub open spec fn names_extend(old: Seq<Seq<char>>, new: Seq<Seq<char>>) -> bool {
    old.len() <= new.len() && new.take(old.len() as int) == old
}

/// Whether two character vectors hold the same characters.
fn same_chars(a: &Vec<char>, b: &Vec<char>) -> (r: bool)
    ensures
        r == (a@ == b@),
{
    if a.len() != b.len() {
        return false;
    }
    let mut i: usize = 0;
    while i < a.len()
        invariant
            a.len() == b.len(),
            i <= a.len(),
            forall|j: int| 0 <= j < i ==> a@[j] == b@[j],
        decreases a.len() - i,
    {
        if a[i] != b[i] {
            return false;
        }
        i = i + 1;
    }
    assert(a@ =~= b@);
    true
}

/// The identifier of the state called `name`, giving it the next free one if
/// the name is new.
pub fn state_id(names: &mut Vec<Vec<char>>, name: Vec<char>) -> (r: usize)
    requires
        names_view(old(names)@).no_duplicates(),
    ensures
        names_view(final(names)@).no_duplicates(),
        names_extend(names_view(old(names)@), names_view(final(names)@)),
        r < final(names)@.len(),
        names_view(final(names)@)[r as int] == name@,
        names_view(old(names)@).contains(name@) ==> final(names)@ == old(names)@,
        !names_view(old(names)@).contains(name@) ==> names_view(final(names)@) == names_view(
            old(names)@,
        ).push(name@),
{
    let ghost v = names_view(names@);
    let mut i: usize = 0;
    while i < names.len()
        invariant
            v == names_view(names@),
            v.no_duplicates(),
            names@ == old(names)@,
            i <= names.len(),
            forall|j: int| 0 <= j < i ==> v[j] != name@,
        decreases names.len() - i,
    {
        if same_chars(&names[i], &name) {
            assert(v[i as int] == name@);
            assert(v.take(v.len() as int) =~= v);
            return i;
        }
        i = i + 1;
    }
    let r = names.len();
    names.push(name);
    proof {
        let w = names_view(names@);
        assert(w =~= v.push(name@));
        assert(w.take(v.len() as int) =~= v);
        assert forall|a: int, b: int| 0 <= a < w.len() && 0 <= b < w.len() && a != b implies w[a] != w[b] by {
            if a == v.len() {
                assert(v[b] == w[b]);
            } else if b == v.len() {
                assert(v[a] == w[a]);
            } else {
                assert(v[a] == w[a] && v[b] == w[b]);
            }
        }
    }
    r
}

/// The tokens of a line: the pieces between single spaces, each trimmed.
pub open spec fn line_tokens(line: Seq<char>) -> Seq<Seq<char>> {
    pieces(line, ' ').map_values(|t: Seq<char>| trimmed(t))
}

/// Reads one transition line `state symbol next_state output motion`, naming
/// the two states through `names`.
pub fn parse_transition_line(line: &Vec<char>, names: &mut Vec<Vec<char>>) -> (r: Result<
    (usize, char, Action),
    TransitionTableError,
>)
    requires
        names_view(old(names)@).no_duplicates(),
    ensures
        names_view(final(names)@).no_duplicates(),
        names_extend(names_view(old(names)@), names_view(final(names)@)),
        line_tokens(line@).len() != 5 ==> r == Err::<(usize, char, Action), TransitionTableError>(
            TransitionTableError::InvalidNumberOfTokens(line_tokens(line@).len() as usize),
        ),
        line_tokens(line@).len() == 5 && as_symbol(line_tokens(line@)[3]) is None ==> (r matches Err(
            TransitionTableError::TokenNotAChar(t),
        ) && t@ == line_tokens(line@)[3]),
        line_tokens(line@).len() == 5 && as_symbol(line_tokens(line@)[3]) is Some && as_motion(
            line_tokens(line@)[4],
        ) is None ==> (r matches Err(TransitionTableError::InvalidMotion(t)) && t@ == line_tokens(
            line@,
        )[4]),
        line_tokens(line@).len() == 5 && as_symbol(line_tokens(line@)[3]) is Some && as_motion(
            line_tokens(line@)[4],
        ) is Some && as_symbol(line_tokens(line@)[1]) is None ==> (r matches Err(
            TransitionTableError::TokenNotAChar(t),
        ) && t@ == line_tokens(line@)[1]),
        line_tokens(line@).len() == 5 && as_symbol(line_tokens(line@)[3]) is Some && as_motion(
            line_tokens(line@)[4],
        ) is Some && as_symbol(line_tokens(line@)[1]) is Some ==> (r matches Ok(
            (s, c, a),
        ) && s < final(names)@.len() && a.next_state < final(names)@.len() && names_view(
            final(names)@,
        )[s as int] == line_tokens(line@)[0] && names_view(final(names)@)[a.next_state as int]
            == line_tokens(line@)[2] && Some(c) == as_symbol(line_tokens(line@)[1]) && Some(
            a.tape_output,
        ) == as_symbol(line_tokens(line@)[3]) && Some(a.motion) == as_motion(
            line_tokens(line@)[4],
        )),
{
    let raw = split(line, ' ');
    proof {
        let v = names_view(names@);
        assert(v.take(v.len() as int) =~= v);
        assert(line_tokens(line@).len() == raw@.len());
    }
    if raw.len() != 5 {
        return Err(TransitionTableError::InvalidNumberOfTokens(raw.len()));
    }
    let start_state = trim(&raw[0]);
    let input_char = trim(&raw[1]);
    let next_state = trim(&raw[2]);
    let output_char = trim(&raw[3]);
    let motion_str = trim(&raw[4]);
    proof {
        assert(start_state@ == line_tokens(line@)[0]);
        assert(input_char@ == line_tokens(line@)[1]);
        assert(next_state@ == line_tokens(line@)[2]);
        assert(output_char@ == line_tokens(line@)[3]);
        assert(motion_str@ == line_tokens(line@)[4]);
    }
    let output = match token_symbol(&output_char) {
        Some(c) => c,
        None => {
            return Err(TransitionTableError::TokenNotAChar(output_char));
        },
    };
    let motion = match token_motion(&motion_str) {
        Some(m) => m,
        None => {
            return Err(TransitionTableError::InvalidMotion(motion_str));
        },
    };
    let input = match token_symbol(&input_char) {
        Some(c) => c,
        None => {
            return Err(TransitionTableError::TokenNotAChar(input_char));
        },
    };
    let ghost before = names_view(names@);
    let s = state_id(names, start_state);
    let ghost mid = names_view(names@);
    let n = state_id(names, next_state);
    proof {
        let after = names_view(names@);
        assert(after.take(mid.len() as int)[s as int] == mid[s as int]);
        assert(after.take(before.len() as int) =~= before) by {
            assert(after.take(mid.len() as int) == mid);
            assert(mid.take(before.len() as int) == before);
        }
    }
    Ok((s, input, Action::new(n, output, motion)))
}

/// The classification a state-line marker names: `+` accepting, `-` rejecting.
pub open spec fn state_marker(m: Seq<char>) -> Option<State> {
    if m == seq!['+'] {
        Some(State::Accepting)
    } else if m == seq!['-'] {
        Some(State::Rejecting)
    } else {
        None
    }
}

/// Reads one state line: a name, optionally followed by a marker.
pub fn parse_state_line(line: Vec<char>) -> (r: Result<(Vec<char>, State), StateError>)
    ensures
        line_tokens(line@).len() > 2 ==> (r matches Err(StateError::InvalidStateLine(l)) && l@
            == line@),
        line_tokens(line@).len() <= 2 && reserved_name(line_tokens(line@)[0]) ==> (r matches Err(
            StateError::InvalidStateName(n),
        ) && n@ == line_tokens(line@)[0]),
        line_tokens(line@).len() == 2 && !reserved_name(line_tokens(line@)[0]) && state_marker(
            line_tokens(line@)[1],
        ) is None ==> (r matches Err(StateError::InvalidStateSymbol(m)) && m@ == line_tokens(
            line@,
        )[1]),
        line_tokens(line@).len() == 2 && !reserved_name(line_tokens(line@)[0]) && state_marker(
            line_tokens(line@)[1],
        ) is Some ==> (r matches Ok((n, v)) && n@ == line_tokens(line@)[0] && Some(v)
            == state_marker(line_tokens(line@)[1])),
        line_tokens(line@).len() == 1 && !reserved_name(line_tokens(line@)[0]) ==> (r matches Ok(
            (n, v),
        ) && n@ == line_tokens(line@)[0] && v == State::Neutral),
{
    let tokens = split(&line, ' ');
    proof {
        lemma_pieces_nonempty(line@, ' ');
        assert(line_tokens(line@).len() == tokens@.len());
    }
    if tokens.len() > 2 {
        return Err(StateError::InvalidStateLine(line));
    }
    let name = trim(&tokens[0]);
    assert(name@ == line_tokens(line@)[0]);
    if is_reserved_name(&name) {
        return Err(StateError::InvalidStateName(name));
    }
    if tokens.len() == 2 {
        let marker = trim(&tokens[1]);
        assert(marker@ == line_tokens(line@)[1]);
        let plus = vec!['+'];
        let minus = vec!['-'];
        assert(plus@ =~= seq!['+']);
        assert(minus@ =~= seq!['-']);
        if same_chars(&marker, &plus) {
            Ok((name, State::Accepting))
        } else if same_chars(&marker, &minus) {
            Ok((name, State::Rejecting))
        } else {
            Err(StateError::InvalidStateSymbol(marker))
        }
    } else {
        Ok((name, State::Neutral))
    }
}

/// Whether an alphabet token stands for a symbol other than blank.
pub open spec fn symbol_ok(t: Seq<char>) -> bool {
    as_symbol(t) matches Some(c) && c != '_'
}

/// Reads the alphabet line `alphabet K s1 ... sn`: the declared count `K` and
/// the symbols, in order, or the first token that is no symbol or is blank.
pub fn parse_alphabet_line(line: &Vec<char>) -> (r: Result<(usize, Vec<char>), AlphabetError>)
    ensures
        !starts_with(line@, seq!['a', 'l', 'p', 'h', 'a', 'b', 'e', 't']) ==> r matches Err(
            AlphabetError::MissingAlphabetHeader,
        ),
        starts_with(line@, seq!['a', 'l', 'p', 'h', 'a', 'b', 'e', 't']) && line_tokens(
            line@,
        ).len() < 2 ==> r matches Err(AlphabetError::InvalidAlphabetHeader),
        starts_with(line@, seq!['a', 'l', 'p', 'h', 'a', 'b', 'e', 't']) && line_tokens(
            line@,
        ).len() >= 2 && as_count(line_tokens(line@)[1]) is None ==> r matches Err(
            AlphabetError::HeaderIntParsing,
        ),
        r matches Ok((k, symbols)) ==> {
            &&& starts_with(line@, seq!['a', 'l', 'p', 'h', 'a', 'b', 'e', 't'])
            &&& line_tokens(line@).len() >= 2
            &&& as_count(line_tokens(line@)[1]) == Some(k)
            &&& symbols@.len() + 2 == line_tokens(line@).len()
            &&& forall|i: int|
                0 <= i < symbols@.len() ==> as_symbol(line_tokens(line@)[i + 2]) == Some(
                    #[trigger] symbols@[i],
                ) && symbols@[i] != '_'
        },
        r is Err && starts_with(line@, seq!['a', 'l', 'p', 'h', 'a', 'b', 'e', 't'])
            && line_tokens(line@).len() >= 2 && as_count(line_tokens(line@)[1]) is Some ==> exists|
            j: int,
        |
            2 <= j < line_tokens(line@).len() && !symbol_ok(#[trigger] line_tokens(line@)[j]) && (
            forall|i: int| 2 <= i < j ==> symbol_ok(#[trigger] line_tokens(line@)[i])) && (
            as_symbol(line_tokens(line@)[j]) is None ==> (r matches Err(
                AlphabetError::TokenNotAChar(t),
            ) && t@ == line_tokens(line@)[j])) && (as_symbol(line_tokens(line@)[j]) is Some
                ==> r matches Err(AlphabetError::InvalidBlankSymbol)),
{
    let word = vec!['a', 'l', 'p', 'h', 'a', 'b', 'e', 't'];
    assert(word@ =~= seq!['a', 'l', 'p', 'h', 'a', 'b', 'e', 't']);
    if !begins_with(line, &word) {
        return Err(AlphabetError::MissingAlphabetHeader);
    }
    let tokens = split(line, ' ');
    let ghost toks = line_tokens(line@);
    assert(toks.len() == tokens@.len());
    if tokens.len() < 2 {
        return Err(AlphabetError::InvalidAlphabetHeader);
    }
    let count_token = trim(&tokens[1]);
    assert(count_token@ == toks[1]);
    let count = match token_count(&count_token) {
        Some(n) => n,
        None => {
            return Err(AlphabetError::HeaderIntParsing);
        },
    };
    let mut symbols: Vec<char> = Vec::new();
    let mut j: usize = 2;
    while j < tokens.len()
        invariant
            starts_with(line@, seq!['a', 'l', 'p', 'h', 'a', 'b', 'e', 't']),
            toks == line_tokens(line@),
            toks.len() == tokens@.len(),
            toks.len() >= 2,
            as_count(toks[1]) == Some(count),
            forall|i: int| 0 <= i < tokens@.len() ==> toks[i] == trimmed(#[trigger] tokens@[i]@),
            2 <= j <= tokens.len(),
            symbols@.len() + 2 == j,
            forall|i: int| 2 <= i < j ==> symbol_ok(#[trigger] toks[i]),
            forall|i: int|
                0 <= i < symbols@.len() ==> as_symbol(toks[i + 2]) == Some(#[trigger] symbols@[i])
                    && symbols@[i] != '_',
        decreases tokens.len() - j,
    {
        let token = trim(&tokens[j]);
        assert(token@ == toks[j as int]);
        let c = match token_symbol(&token) {
            Some(c) => c,
            None => {
                assert(!symbol_ok(toks[j as int]));
                return Err(AlphabetError::TokenNotAChar(token));
            },
        };
        if c == '_' {
            assert(!symbol_ok(toks[j as int]));
            return Err(AlphabetError::InvalidBlankSymbol);
        }
        symbols.push(c);
        assert(symbol_ok(toks[j as int]));
        j = j + 1;
    }
    Ok((count, symbols))
}

/// Line `k` of `text`, counting from 0; empty past the last line.
pub open spec fn line_of(text: Seq<char>, k: int) -> Seq<char> {
    if 0 <= k < pieces(text, '\n').len() {
        pieces(text, '\n')[k]
    } else {
        Seq::empty()
    }
}

/// Whether every identifier that `d` uses is below `n`.
pub open spec fn ids_below(d: MachineDescription, n: nat) -> bool {
    &&& forall|x: usize| d.declares(x) ==> x < n
    &&& forall|i: int|
        0 <= i < d.transitions.len() ==> (#[trigger] d.transitions[i]).0 < n
            && d.transitions[i].2.next_state < n
}

/// Whether the first line of `text` is a well-formed `states N` header.
pub open spec fn states_header_ok(text: Seq<char>) -> bool {
    &&& starts_with(line_of(text, 0), seq!['s', 't', 'a', 't', 'e', 's'])
    &&& line_tokens(line_of(text, 0)).len() == 2
    &&& as_count(line_tokens(line_of(text, 0))[1]) is Some
}

/// Identifiers stay below a bound when only the alphabet or the designations
/// change, or the bound grows.
proof fn lemma_ids_below_frame(a: MachineDescription, b: MachineDescription, n: nat, m: nat)
    requires
        ids_below(a, n),
        n <= m,
        b.states == a.states,
        b.transitions == a.transitions,
    ensures
        ids_below(b, m),
{
    assert forall|x: usize| b.declares(x) implies x < m by {
        assert(a.declares(x));
    }
}

/// A new transition line whose states are below the bound keeps identifiers
/// below it.
proof fn lemma_ids_below_push(
    a: MachineDescription,
    b: MachineDescription,
    line: (usize, char, Action),
    n: nat,
)
    requires
        ids_below(a, n),
        b.states == a.states,
        b.transitions == a.transitions.push(line),
        line.0 < n,
        line.2.next_state < n,
    ensures
        ids_below(b, n),
{
    assert forall|x: usize| b.declares(x) implies x < n by {
        assert(a.declares(x));
    }
    assert forall|i: int| 0 <= i < b.transitions.len() implies (#[trigger] b.transitions[i]).0 < n
        && b.transitions[i].2.next_state < n by {
        if i < a.transitions.len() {
            assert(b.transitions[i] == a.transitions[i]);
        }
    }
}

/// The number of states that the header of `text` declares.
pub open spec fn declared_count(text: Seq<char>) -> nat {
    as_count(line_tokens(line_of(text, 0))[1])->Some_0 as nat
}

/// The symbols that alphabet line `line` lists.
pub open spec fn listed_symbols(line: Seq<char>) -> Set<char> {
    Set::new(
        |c: char|
            exists|j: int|
                2 <= j < line_tokens(line).len() && as_symbol(#[trigger] line_tokens(line)[j])
                    == Some(c),
    )
}

/// The name on state line `k` (counting from 0) of `text`.
pub open spec fn state_name(text: Seq<char>, k: int) -> Seq<char> {
    line_tokens(line_of(text, k + 1))[0]
}

/// The classification that state line `k` of `text` gives.
pub open spec fn state_class(text: Seq<char>, k: int) -> State {
    if line_tokens(line_of(text, k + 1)).len() == 2 {
        state_marker(line_tokens(line_of(text, k + 1))[1])->Some_0
    } else {
        State::Neutral
    }
}

/// Whether state line `k` of `text` is a name that the format allows, with at
/// most a valid marker after it.
pub open spec fn state_line_ok(text: Seq<char>, k: int) -> bool {
    let toks = line_tokens(line_of(text, k + 1));
    &&& toks.len() <= 2
    &&& !reserved_name(toks[0])
    &&& toks.len() == 2 ==> state_marker(toks[1]) is Some
}

/// Whether the alphabet line `line` is well formed: its count is the number
/// of symbols it lists, each a symbol other than blank, each listed once.
pub open spec fn alphabet_line_ok(line: Seq<char>) -> bool {
    let toks = line_tokens(line);
    &&& starts_with(line, seq!['a', 'l', 'p', 'h', 'a', 'b', 'e', 't'])
    &&& toks.len() >= 2
    &&& as_count(toks[1]) == Some((toks.len() - 2) as usize)
    &&& forall|j: int| 2 <= j < toks.len() ==> symbol_ok(#[trigger] toks[j])
    &&& forall|i: int, j: int|
        2 <= i < j < toks.len() ==> as_symbol(#[trigger] toks[i]) != as_symbol(#[trigger] toks[j])
}

/// Whether line `line` is a well-formed transition line.
pub open spec fn transition_line_ok(line: Seq<char>) -> bool {
    let toks = line_tokens(line);
    &&& toks.len() == 5
    &&& as_symbol(toks[1]) is Some
    &&& as_symbol(toks[3]) is Some
    &&& as_motion(toks[4]) is Some
}

/// Whether `text` is a well-formed machine description: a `states N` header
/// with N at least one; N state lines with distinct names, valid markers, and
/// at least one accepting and one rejecting state; a well-formed alphabet
/// line; and well-formed transition lines after it.
pub open spec fn well_formed_text(text: Seq<char>) -> bool {
    let n = declared_count(text) as int;
    &&& states_header_ok(text)
    &&& n >= 1
    &&& forall|k: int| 0 <= k < n ==> #[trigger] state_line_ok(text, k)
    &&& forall|i: int, k: int|
        0 <= i < k < n ==> #[trigger] state_name(text, i) != #[trigger] state_name(text, k)
    &&& exists|k: int| 0 <= k < n && #[trigger] state_class(text, k) == State::Accepting
    &&& exists|k: int| 0 <= k < n && #[trigger] state_class(text, k) == State::Rejecting
    &&& alphabet_line_ok(line_of(text, n + 1))
    &&& forall|i: int| n + 2 <= i < line_count(text) ==> transition_line_ok(#[trigger] line_of(text, i))
}

/// The name on the first state line of `text`.
pub open spec fn first_state_name(text: Seq<char>) -> Seq<char> {
    line_tokens(line_of(text, 1))[0]
}

/// The number of lines of `text`; a final newline ends the last line and
/// starts none.
pub open spec fn line_count(text: Seq<char>) -> nat {
    let p = pieces(text, '\n');
    if p.len() > 0 && p.last().len() == 0 {
        (p.len() - 1) as nat
    } else {
        p.len()
    }
}

/// Whether `t` is the transition that line `line` gives, the states named
/// through `names`.
pub open spec fn transition_from_line(
    line: Seq<char>,
    t: (usize, char, Action),
    names: Seq<Seq<char>>,
) -> bool {
    let toks = line_tokens(line);
    &&& toks.len() == 5
    &&& t.0 < names.len() && names[t.0 as int] == toks[0]
    &&& t.2.next_state < names.len() && names[t.2.next_state as int] == toks[2]
    &&& Some(t.1) == as_symbol(toks[1])
    &&& Some(t.2.tape_output) == as_symbol(toks[3])
    &&& Some(t.2.motion) == as_motion(toks[4])
}

/// A copy of line `k` of the lines `lines`, or an empty line past the end.
fn line_at(lines: &Vec<Vec<char>>, k: usize) -> (r: Vec<char>)
    ensures
        k < lines@.len() ==> r@ == lines@[k as int]@,
        k >= lines@.len() ==> r@.len() == 0,
{
    if k < lines.len() {
        slice_of(&lines[k], 0, lines[k].len())
    } else {
        Vec::new()
    }
}

/// The words of the format that cannot name a state: `alphabet`, `+` and `-`.
pub open spec fn reserved_name(name: Seq<char>) -> bool {
    name == seq!['a', 'l', 'p', 'h', 'a', 'b', 'e', 't'] || name == seq!['+'] || name == seq!['-']
}

/// Whether `name` is a word of the format that cannot name a state.
fn is_reserved_name(name: &Vec<char>) -> (r: bool)
    ensures
        r == reserved_name(name@),
{
    let word = vec!['a', 'l', 'p', 'h', 'a', 'b', 'e', 't'];
    let plus = vec!['+'];
    let minus = vec!['-'];
    assert(word@ =~= seq!['a', 'l', 'p', 'h', 'a', 'b', 'e', 't']);
    assert(plus@ =~= seq!['+']);
    assert(minus@ =~= seq!['-']);
    same_chars(name, &word) || same_chars(name, &plus) || same_chars(name, &minus)
}

/// Reads a machine description in the text format: a line `states N`, then N
/// state lines, each a name with an optional `+` (accepting) or `-`
/// (rejecting) marker, the first being the starting state; a line
/// `alphabet K s1 ... sK`; then one transition line per remaining line.
/// States are numbered in order of first appearance, and the names come back
/// with the description.
pub fn parse(text: &Vec<char>) -> (r: Result<(MachineParser, Vec<Vec<char>>), ParsingError>)
    ensures
        !starts_with(line_of(text@, 0), seq!['s', 't', 'a', 't', 'e', 's']) ==> r matches Err(
            ParsingError::States(StateError::MissingStateHeader),
        ),
        starts_with(line_of(text@, 0), seq!['s', 't', 'a', 't', 'e', 's']) && line_tokens(
            line_of(text@, 0),
        ).len() != 2 ==> r matches Err(ParsingError::States(StateError::InvalidStateHeader)),
        starts_with(line_of(text@, 0), seq!['s', 't', 'a', 't', 'e', 's']) && line_tokens(
            line_of(text@, 0),
        ).len() == 2 && as_count(line_tokens(line_of(text@, 0))[1]) is None ==> r matches Err(
            ParsingError::States(StateError::HeaderIntParsing),
        ),
        well_formed_text(text@) ==> r is Ok,
        r matches Ok((b, names)) ==> {
            &&& b@.wf()
            &&& b@.designations_present()
            &&& b@.starting == Some(0usize)
            &&& b@.alphabet.contains('_')
            &&& names_view(names@).no_duplicates()
            &&& ids_below(b@, names@.len())
            &&& names@.len() > 0 && names_view(names@)[0] == first_state_name(text@)
            &&& b@.alphabet.to_set() == listed_symbols(
                line_of(text@, declared_count(text@) + 1int),
            ).insert('_')
            &&& b@.alphabet.len() == as_count(
                line_tokens(line_of(text@, declared_count(text@) + 1int))[1],
            )->Some_0 + 1
            &&& b@.transitions.len() + declared_count(text@) + 2 == line_count(text@) || (
            b@.transitions.len() == 0 && line_count(text@) <= declared_count(text@) + 2)
            &&& forall|i: int|
                0 <= i < b@.transitions.len() ==> transition_from_line(
                    line_of(text@, declared_count(text@) + 2 + i),
                    #[trigger] b@.transitions[i],
                    names_view(names@),
                )
        },
{
    let lines = split(text, '\n');
    proof {
        lemma_pieces_nonempty(text@, '\n');
    }
    let header = line_at(&lines, 0);
    assert(header@ == line_of(text@, 0));
    let states_word = vec!['s', 't', 'a', 't', 'e', 's'];
    assert(states_word@ =~= seq!['s', 't', 'a', 't', 'e', 's']);
    if !begins_with(&header, &states_word) {
        return Err(ParsingError::States(StateError::MissingStateHeader));
    }
    let header_tokens = split(&header, ' ');
    if header_tokens.len() != 2 {
        return Err(ParsingError::States(StateError::InvalidStateHeader));
    }
    let count_token = trim(&header_tokens[1]);
    assert(line_tokens(header@).len() == header_tokens@.len());
    assert(count_token@ == line_tokens(header@)[1]);
    let num_states = match token_count(&count_token) {
        Some(n) => n,
        None => {
            return Err(ParsingError::States(StateError::HeaderIntParsing));
        },
    };
    assert(states_header_ok(text@));
    let mut b = MachineParser::new();
    let mut names: Vec<Vec<char>> = Vec::new();
    let mut starting: Option<usize> = None;
    let mut k: usize = 0;
    assert(names_view(names@) =~= Seq::<Seq<char>>::empty());
    while k < num_states
        invariant
            states_header_ok(text@),
            k <= num_states,
            b@.wf(),
            names_view(names@).no_duplicates(),
            ids_below(b@, names@.len() as nat),
            b@.transitions.len() == 0,
            b@.alphabet.len() == 0,
            k > 0 ==> names@.len() > 0 && names_view(names@)[0] == first_state_name(text@),
            lines@.len() == pieces(text@, '\n').len(),
            forall|i: int| 0 <= i < lines@.len() ==> (#[trigger] lines@[i])@ == pieces(text@, '\n')[i],
            k == 0 ==> names@.len() == 0 && starting is None,
            starting is Some ==> starting == Some(0usize) && b@.declares(0),
            k > 0 ==> starting is Some,
            num_states == declared_count(text@),
            well_formed_text(text@) ==> names_view(names@) == Seq::new(
                k as nat,
                |j: int| state_name(text@, j),
            ),
            well_formed_text(text@) && (exists|j: int|
                0 <= j < k && #[trigger] state_class(text@, j) == State::Accepting)
                ==> b@.accepting is Some,
            well_formed_text(text@) && (exists|j: int|
                0 <= j < k && #[trigger] state_class(text@, j) == State::Rejecting)
                ==> b@.rejecting is Some,
        decreases num_states - k,
    {
        let line = line_at(&lines, k + 1);
        let ghost line_text = line@;
        assert(line_text == line_of(text@, k + 1));
        proof {
            lemma_pieces_nonempty(line_text, ' ');
            if well_formed_text(text@) {
                assert(state_line_ok(text@, k as int));
            }
        }
        let (name, acceptance) = match parse_state_line(line) {
            Ok(parsed) => parsed,
            Err(e) => {
                return Err(ParsingError::States(e));
            },
        };
        let ghost before = names@.len();
        let ghost pre_names = names_view(names@);
        proof {
            assert(name@ == line_tokens(line_text)[0]);
            assert(name@ == state_name(text@, k as int));
            assert(acceptance == state_class(text@, k as int));
            if well_formed_text(text@) {
                assert(!pre_names.contains(name@)) by {
                    if pre_names.contains(name@) {
                        let j = choose|j: int| 0 <= j < pre_names.len() && pre_names[j] == name@;
                        assert(pre_names[j] == state_name(text@, j));
                    }
                }
            }
            if k == 0 {
                assert(name@ == line_tokens(line_text)[0]);
                assert(name@ == first_state_name(text@));
            }
        }
        let id = state_id(&mut names, name);
        proof {
            if k > 0 {
                assert(names_view(names@).take(pre_names.len() as int)[0] == pre_names[0]);
            }
        }
        let ghost pre_b = b@;
        proof {
            if well_formed_text(text@) {
                assert(names_view(names@) == pre_names.push(name@));
                assert(id == k) by {
                    let nv = names_view(names@);
                    if id != k {
                        assert(nv[id as int] == nv[k as int]);
                    }
                }
                assert(names_view(names@) =~= Seq::new((k + 1) as nat, |j: int| state_name(text@, j)));
                assert(pre_b.accepting != Some(id)) by {
                    if pre_b.accepting == Some(id) {
                        assert(pre_b.classifies(id, State::Accepting));
                        let i = choose|i: int| 0 <= i < pre_b.states.len() && #[trigger] pre_b.states[i] == (id, State::Accepting);
                        assert(pre_b.states[i].0 == id);
                        assert(pre_b.declares(id));
                    }
                }
                assert(pre_b.rejecting != Some(id)) by {
                    if pre_b.rejecting == Some(id) {
                        let i = choose|i: int| 0 <= i < pre_b.states.len() && #[trigger] pre_b.states[i] == (id, State::Rejecting);
                        assert(pre_b.states[i].0 == id);
                        assert(pre_b.declares(id));
                    }
                }
            }
        }
        let _ = b.add_state(id, acceptance);
        proof {
            if well_formed_text(text@) {
                if exists|j: int| 0 <= j < k + 1 && #[trigger] state_class(text@, j) == State::Accepting {
                    let j = choose|j: int| 0 <= j < k + 1 && #[trigger] state_class(text@, j) == State::Accepting;
                    if j < k {
                        assert(pre_b.accepting is Some);
                    }
                }
                if exists|j: int| 0 <= j < k + 1 && #[trigger] state_class(text@, j) == State::Rejecting {
                    let j = choose|j: int| 0 <= j < k + 1 && #[trigger] state_class(text@, j) == State::Rejecting;
                    if j < k {
                        assert(pre_b.rejecting is Some);
                    }
                }
            }
        }
        if starting.is_none() {
            assert(id == 0);
            starting = Some(id);
        }
        k = k + 1;
    }
    let start = match starting {
        Some(s) => s,
        None => {
            return Err(ParsingError::States(StateError::MandatoryStatesNotSet));
        },
    };
    if !b.has_reject_state() || !b.has_accept_state() {
        return Err(ParsingError::States(StateError::MandatoryStatesNotSet));
    }
    let ghost before_start = b@;
    match b.add_starting_state(start) {
        Ok(()) => {},
        Err(e) => {
            return Err(e);
        },
    }
    proof {
        lemma_ids_below_frame(before_start, b@, names@.len() as nat, names@.len() as nat);
    }
    let alphabet_line = if num_states < usize::MAX {
        line_at(&lines, num_states + 1)
    } else {
        Vec::new()
    };
    let num_lines = lines.len();
    proof {
        let a = line_of(text@, num_states + 1int);
        assert(num_lines == pieces(text@, '\n').len());
        if num_states == usize::MAX {
            assert(a.len() == 0);
            assert(!starts_with(a, seq!['a', 'l', 'p', 'h', 'a', 'b', 'e', 't']));
        } else {
            assert(alphabet_line@ == a);
        }
        if well_formed_text(text@) {
            assert(alphabet_line_ok(a));
            assert(alphabet_line@ == a);
            let toks = line_tokens(a);
            assert(forall|j: int| 2 <= j < toks.len() ==> symbol_ok(#[trigger] toks[j]));
        }
    }
    let (num_symbols, symbols) = match parse_alphabet_line(&alphabet_line) {
        Ok(parsed) => parsed,
        Err(e) => {
            return Err(ParsingError::Alphabet(e));
        },
    };
    let ghost alpha_text = line_of(text@, declared_count(text@) + 1int);
    proof {
        assert(num_states < usize::MAX);
        assert(alphabet_line@ == alpha_text);
    }
    let ghost before_blank = b@;
    let _ = b.add_alphabet_symbol('_');
    proof {
        lemma_ids_below_frame(before_blank, b@, names@.len() as nat, names@.len() as nat);
        if !before_blank.alphabet.contains('_') {
            assert(b@.alphabet[before_blank.alphabet.len() as int] == '_');
        }
    }
    let mut j: usize = 0;
    proof {
        assert(before_blank.alphabet.len() == 0);
        assert(b@.alphabet =~= seq!['_']);
        assert(symbols@.take(0) =~= Seq::<char>::empty());
        assert forall|c: char| b@.alphabet.to_set().contains(c) <==> c == '_' by {
            if c == '_' {
                assert(b@.alphabet[0] == '_');
            }
        }
        assert(b@.alphabet.to_set() =~= symbols@.take(0).to_set().insert('_'));
    }
    let symbols_len = symbols.len();
    proof {
        if well_formed_text(text@) {
            let toks = line_tokens(alpha_text);
            assert(alphabet_line_ok(alpha_text));
            assert forall|x: int, y: int|
                0 <= x < symbols@.len() && 0 <= y < symbols@.len() && x != y implies symbols@[x]
                != symbols@[y] by {
                assert(as_symbol(toks[x + 2]) == Some(symbols@[x]));
                assert(as_symbol(toks[y + 2]) == Some(symbols@[y]));
                if x < y {
                    assert(as_symbol(toks[x + 2]) != as_symbol(toks[y + 2]));
                } else {
                    assert(as_symbol(toks[y + 2]) != as_symbol(toks[x + 2]));
                }
            }
            assert(!symbols@.contains('_')) by {
                if symbols@.contains('_') {
                    let x = choose|x: int| 0 <= x < symbols@.len() && symbols@[x] == '_';
                    assert(as_symbol(toks[x + 2]) == Some(symbols@[x]));
                }
            }
            assert(b@.alphabet =~= seq!['_'] + symbols@.take(0));
            assert(alphabet_line@ == alpha_text);
            assert(as_count(toks[1]) == Some(num_symbols));
            assert(symbols@.len() + 2 == toks.len());
            assert(symbols_len == symbols@.len());
            assert(((toks.len() - 2) as usize) == symbols_len);
            assert(num_symbols == symbols@.len());
            assert(symbols@.no_duplicates());
        }
    }
    while j < symbols.len()
        invariant
            j <= symbols.len(),
            b@.alphabet.to_set() == symbols@.take(j as int).to_set().insert('_'),
            well_formed_text(text@) ==> b@.alphabet == seq!['_'] + symbols@.take(j as int),
            well_formed_text(text@) ==> symbols@.no_duplicates() && !symbols@.contains('_')
                && num_symbols == symbols@.len(),
            states_header_ok(text@),
            b@.wf(),
            b@.designations_present(),
            b@.starting == Some(0usize),
            b@.alphabet.contains('_'),
            names_view(names@).no_duplicates(),
            ids_below(b@, names@.len() as nat),
            b@.transitions.len() == 0,
        decreases symbols.len() - j,
    {
        let ghost pre = b@.alphabet;
        let ghost pre_b = b@;
        proof {
            if well_formed_text(text@) {
                assert(!pre.contains(symbols@[j as int])) by {
                    if pre.contains(symbols@[j as int]) {
                        let x = choose|x: int| 0 <= x < pre.len() && pre[x] == symbols@[j as int];
                        if x == 0 {
                            assert(symbols@.contains('_'));
                        } else {
                            assert(symbols@[x - 1] == symbols@[j as int]);
                        }
                    }
                }
            }
        }
        let _ = b.add_alphabet_symbol(symbols[j]);
        proof {
            if well_formed_text(text@) {
                assert(b@.alphabet =~= seq!['_'] + symbols@.take(j + 1));
            }
            assert(symbols@.take(j + 1) =~= symbols@.take(j as int).push(symbols@[j as int]));
            assert(symbols@.take(j + 1).to_set() =~= symbols@.take(j as int).to_set().insert(symbols@[j as int])) by {
                let t = symbols@.take(j + 1);
                let u = symbols@.take(j as int);
                assert forall|c: char| t.contains(c) <==> u.contains(c) || c == symbols@[j as int] by {
                    if t.contains(c) {
                        let k = choose|k: int| 0 <= k < t.len() && t[k] == c;
                        if k < u.len() {
                            assert(u[k] == c);
                        }
                    }
                    if u.contains(c) {
                        let k = choose|k: int| 0 <= k < u.len() && u[k] == c;
                        assert(t[k] == c);
                    }
                    assert(t[j as int] == symbols@[j as int]);
                }
            }
            assert(b@.alphabet.to_set() =~= symbols@.take(j + 1).to_set().insert('_'));
            let i = choose|i: int| 0 <= i < pre.len() && pre[i] == '_';
            assert(b@.alphabet[i] == '_');
            lemma_ids_below_frame(pre_b, b@, names@.len() as nat, names@.len() as nat);
        }
        j = j + 1;
    }
    let num_elements = b.alphabet_len();
    if num_elements - 1 != num_symbols {
        return Err(ParsingError::Alphabet(AlphabetError::InvalidNumberOfElements(num_elements)));
    }
    proof {
        assert(symbols@.take(symbols@.len() as int) =~= symbols@);
        assert forall|c: char| symbols@.contains(c) <==> listed_symbols(alpha_text).contains(c) by {
            let toks = line_tokens(alpha_text);
            if symbols@.contains(c) {
                let k = choose|k: int| 0 <= k < symbols@.len() && symbols@[k] == c;
                assert(as_symbol(toks[k + 2]) == Some(symbols@[k]));
            }
            if listed_symbols(alpha_text).contains(c) {
                let j = choose|j: int| 2 <= j < toks.len() && as_symbol(#[trigger] toks[j]) == Some(c);
                assert(as_symbol(toks[(j - 2) + 2]) == Some(symbols@[j - 2]));
            }
        }
        assert(symbols@.to_set() =~= listed_symbols(alpha_text));
    }
    let ghost final_alphabet = b@.alphabet;
    let mut end = lines.len();
    if lines[end - 1].len() == 0 {
        end = end - 1;
    }
    assert(end == line_count(text@));
    let first_line: usize = if num_states < usize::MAX - 1 {
        num_states + 2
    } else {
        end
    };
    assert(num_states == declared_count(text@));
    let mut idx: usize = first_line;
    while idx < end
        invariant
            states_header_ok(text@),
            num_states == declared_count(text@),
            lines@.len() == pieces(text@, '\n').len(),
            forall|i: int| 0 <= i < lines@.len() ==> (#[trigger] lines@[i])@ == pieces(text@, '\n')[i],
            end == line_count(text@),
            end <= lines.len(),
            first_line <= idx,
            first_line == num_states + 2 || (first_line == end && num_states + 2 > end),
            b@.alphabet == final_alphabet,
            names@.len() > 0 && names_view(names@)[0] == first_state_name(text@),
            idx <= end || idx == first_line,
            b@.transitions.len() == idx - first_line,
            forall|i: int|
                0 <= i < b@.transitions.len() ==> transition_from_line(
                    line_of(text@, declared_count(text@) + 2 + i),
                    #[trigger] b@.transitions[i],
                    names_view(names@),
                ),
            b@.wf(),
            b@.designations_present(),
            b@.starting == Some(0usize),
            b@.alphabet.contains('_'),
            names_view(names@).no_duplicates(),
            ids_below(b@, names@.len() as nat),
        decreases end - idx,
    {
        let ghost pre = b@;
        let ghost pre_len = names@.len();
        let ghost pre_names = names_view(names@);
        proof {
            assert(lines@[idx as int]@ == line_of(text@, idx as int));
            if well_formed_text(text@) {
                assert(transition_line_ok(line_of(text@, idx as int)));
            }
        }
        let (s, c, a) = match parse_transition_line(&lines[idx], &mut names) {
            Ok(t) => t,
            Err(e) => {
                return Err(ParsingError::TransitionTable(e));
            },
        };
        proof {
            lemma_ids_below_frame(pre, pre, pre_len as nat, names@.len() as nat);
            assert(names_view(names@).take(pre_names.len() as int)[0] == pre_names[0]);
        }
        b.add_transition(s, c, a);
        proof {
            lemma_ids_below_push(pre, b@, (s, c, a), names@.len() as nat);
            let post_names = names_view(names@);
            assert(line_of(text@, idx as int) == lines@[idx as int]@);
            assert(idx as int == declared_count(text@) + 2 + pre.transitions.len());
            assert forall|i: int|
                0 <= i < b@.transitions.len() implies transition_from_line(
                    line_of(text@, declared_count(text@) + 2 + i),
                    #[trigger] b@.transitions[i],
                    post_names,
                ) by {
                if i < pre.transitions.len() {
                    assert(b@.transitions[i] == pre.transitions[i]);
                    let t = pre.transitions[i];
                    assert(transition_from_line(line_of(text@, declared_count(text@) + 2 + i), t, pre_names));
                    assert(post_names.take(pre_names.len() as int)[t.0 as int] == pre_names[t.0 as int]);
                    assert(post_names.take(pre_names.len() as int)[t.2.next_state as int] == pre_names[t.2.next_state as int]);
                } else {
                    assert(b@.transitions[i] == (s, c, a));
                }
            }
        }
        idx = idx + 1;
    }
    proof {
        if first_line < end {
            assert(idx == end);
        }
    }
    Ok((b, names))
}

} // verus!
