use vstd::prelude::*;

use crate::common::{same_action, Action};
use crate::hashed::{
    action_entries, action_map_get, action_map_insert, action_map_new, choice_entries,
    choice_map_get, choice_map_insert, choice_map_new, ActionMap, ChoiceMap,
};
use crate::machine_parser::MachineTableParser;

verus! {

/// The (state, symbol) key of a transition line.
pub open spec fn key_of(line: (usize, char, Action)) -> (usize, char) {
    (line.0, line.1)
}

/// Whether some line of `t` has key `k`.
pub open spec fn has_key(t: Seq<(usize, char, Action)>, k: (usize, char)) -> bool {
    exists|i: int| 0 <= i < t.len() && key_of(#[trigger] t[i]) == k
}

/// The key of the first line of `t` whose key an earlier line already has.
pub open spec fn first_repeat(t: Seq<(usize, char, Action)>) -> Option<(usize, char)>
    decreases t.len(),
{
    if t.len() == 0 {
        None
    } else {
        match first_repeat(t.drop_last()) {
            Some(k) => Some(k),
            None => if has_key(t.drop_last(), key_of(t.last())) {
                Some(key_of(t.last()))
            } else {
                None
            },
        }
    }
}

/// The partial function that the lines of `t` describe, one action per key.
pub open spec fn action_table(t: Seq<(usize, char, Action)>) -> Map<(usize, char), Action>
    decreases t.len(),
{
    if t.len() == 0 {
        Map::empty()
    } else {
        action_table(t.drop_last()).insert(key_of(t.last()), t.last().2)
    }
}

/// The set of actions that the lines of `t` give each key, each action once, in
/// order of first appearance.
pub open spec fn choice_table(t: Seq<(usize, char, Action)>) -> Map<(usize, char), Seq<Action>>
    decreases t.len(),
{
    if t.len() == 0 {
        Map::empty()
    } else {
        let m = choice_table(t.drop_last());
        let k = key_of(t.last());
        let a = t.last().2;
        let prev = if m.contains_key(k) {
            m[k]
        } else {
            Seq::empty()
        };
        m.insert(
            k,
            if prev.contains(a) {
                prev
            } else {
                prev.push(a)
            },
        )
    }
}

/// A key is in the table exactly when some line has it.
pub proof fn lemma_action_table_domain(t: Seq<(usize, char, Action)>, k: (usize, char))
    ensures
        action_table(t).contains_key(k) <==> has_key(t, k),
    decreases t.len(),
{
    if t.len() > 0 {
        lemma_action_table_domain(t.drop_last(), k);
        if has_key(t.drop_last(), k) {
            let i = choose|i: int| 0 <= i < t.drop_last().len() && key_of(#[trigger] t.drop_last()[i]) == k;
            assert(key_of(t[i]) == k);
        }
        if has_key(t, k) && key_of(t.last()) != k {
            let i = choose|i: int| 0 <= i < t.len() && key_of(#[trigger] t[i]) == k;
            assert(key_of(t.drop_last()[i]) == k);
        }
        assert(key_of(t[t.len() - 1]) == key_of(t.last()));
    }
}

/// Lines without a repeated key give every key of the choice table exactly the
/// one action that the deterministic table gives it.
pub proof fn lemma_choice_table_singletons(t: Seq<(usize, char, Action)>, k: (usize, char))
    requires
        first_repeat(t) is None,
    ensures
        choice_table(t).contains_key(k) == action_table(t).contains_key(k),
        action_table(t).contains_key(k) ==> choice_table(t)[k] == seq![action_table(t)[k]],
    decreases t.len(),
{
    if t.len() > 0 {
        let p = t.drop_last();
        assert(first_repeat(p) is None);
        lemma_choice_table_singletons(p, k);
        let kl = key_of(t.last());
        if kl == k {
            assert(!has_key(p, k));
            lemma_action_table_domain(p, k);
            assert(!choice_table(p).contains_key(k));
            assert(Seq::<Action>::empty().push(t.last().2) =~= seq![t.last().2]);
        }
    }
}

/// Each key of the choice table holds each action at most once.
pub proof fn lemma_choice_table_distinct(t: Seq<(usize, char, Action)>, k: (usize, char))
    requires
        choice_table(t).contains_key(k),
    ensures
        choice_table(t)[k].no_duplicates(),
    decreases t.len(),
{
    let m = choice_table(t.drop_last());
    if key_of(t.last()) != k {
        lemma_choice_table_distinct(t.drop_last(), k);
    } else if m.contains_key(k) {
        lemma_choice_table_distinct(t.drop_last(), k);
        let prev = m[k];
        let a = t.last().2;
        if !prev.contains(a) {
            let s = prev.push(a);
            assert forall|i: int, j: int| 0 <= i < s.len() && 0 <= j < s.len() && i != j implies s[i]
                != s[j] by {
                if i == prev.len() {
                    assert(s[j] == prev[j]);
                } else if j == prev.len() {
                    assert(s[i] == prev[i]);
                }
            }
        }
    } else {
        assert(Seq::<Action>::empty().push(t.last().2).len() == 1);
    }
}

/// A transition table that can be built from the transition lines of a raw
/// description.
pub trait TransitionTable: Sized {
    /// Why a table could not be built.
    type ErrorTy;

    /// Whether the lines can make a table.
    spec fn buildable(lines: Seq<(usize, char, Action)>) -> bool;

    /// Whether this table is the one that `lines` describe.
    spec fn describes(&self, lines: Seq<(usize, char, Action)>) -> bool;

    /// Whether `e` is the reason why `lines` make no table.
    spec fn refused(lines: Seq<(usize, char, Action)>, e: Self::ErrorTy) -> bool;

    /// Builds the table that the lines describe.
    fn from_builder(b: &MachineTableParser) -> (r: Result<Self, Self::ErrorTy>)
        ensures
            Self::buildable(b@) ==> (r matches Ok(t) && t.describes(b@)),
            !Self::buildable(b@) ==> (r matches Err(e) && Self::refused(b@, e)),
    ;
}

/// Why a deterministic table could not be built.
#[derive(Debug)]
pub enum TableCreationError {
    /// Two lines give an action for the same (state, symbol) key.
    DuplicateTransition((usize, char)),
}

/// The transition table of a deterministic machine: at most one action for
/// each (state, symbol) key.
pub struct DeterministicTransitionTable {
    transitions: ActionMap,
}

impl DeterministicTransitionTable {
    pub closed spec fn view(&self) -> Map<(usize, char), Action> {
        action_entries(self.transitions)
    }

    /// The action for `state` reading `input_char`, if the table has one.
    pub fn apply_transition_table(&self, state: usize, input_char: char) -> (r: Option<Action>)
        ensures
            self@.contains_key((state, input_char)) ==> r == Some(self@[(state, input_char)]),
            !self@.contains_key((state, input_char)) ==> r.is_none(),
    {
        action_map_get(&self.transitions, (state, input_char))
    }

}

impl TransitionTable for DeterministicTransitionTable {
    type ErrorTy = TableCreationError;

    /// No key has two lines.
    open spec fn buildable(lines: Seq<(usize, char, Action)>) -> bool {
        first_repeat(lines) is None
    }

    open spec fn describes(&self, lines: Seq<(usize, char, Action)>) -> bool {
        self@ == action_table(lines)
    }

    /// The error names the key of the first line whose key an earlier line has.
    open spec fn refused(lines: Seq<(usize, char, Action)>, e: TableCreationError) -> bool {
        e matches TableCreationError::DuplicateTransition(k) && first_repeat(lines) == Some(k)
    }

    /// Builds the table from the transition lines; a second line for a key that
    /// already has one is an error.
    fn from_builder(b: &MachineTableParser) -> (r: Result<Self, TableCreationError>) {
        let mut transitions = action_map_new();
        let n = b.len();
        let mut i: usize = 0;
        assert(action_entries(transitions) =~= action_table(b@.take(0)));
        while i < n
            invariant
                n == b@.len(),
                i <= n,
                first_repeat(b@.take(i as int)) is None,
                action_entries(transitions) == action_table(b@.take(i as int)),
            decreases n - i,
        {
            let line = b.get(i);
            let key = (line.0, line.1);
            proof {
                assert(b@.take(i + 1).drop_last() =~= b@.take(i as int));
                assert(b@.take(i + 1).last() == line);
                lemma_action_table_domain(b@.take(i as int), key);
            }
            let prev = action_map_insert(&mut transitions, key, line.2);
            if prev.is_some() {
                proof {
                    lemma_first_repeat_extends(b@, i as int + 1);
                }
                return Err(TableCreationError::DuplicateTransition(key));
            }
            i = i + 1;
        }
        proof {
            assert(b@.take(n as int) =~= b@);
        }
        Ok(DeterministicTransitionTable { transitions })
    }
}

/// Once a prefix of `t` holds a repeat, `t` holds that same first repeat.
pub proof fn lemma_first_repeat_extends(t: Seq<(usize, char, Action)>, i: int)
    requires
        0 <= i <= t.len(),
        first_repeat(t.take(i)) is Some,
    ensures
        first_repeat(t) == first_repeat(t.take(i)),
    decreases t.len() - i,
{
    if i < t.len() {
        assert(t.take(i + 1).drop_last() =~= t.take(i));
        lemma_first_repeat_extends(t, i + 1);
    } else {
        assert(t.take(i) =~= t);
    }
}

/// The transition table of a non-deterministic machine: a set of actions for
/// each (state, symbol) key, possibly empty.
pub struct NonDeterministicTransitionTable {
    transitions: ChoiceMap,
}

/// Whether `v` holds `a`.
fn contains_action(v: &Vec<Action>, a: &Action) -> (r: bool)
    ensures
        r == v@.contains(*a),
{
    let mut i: usize = 0;
    while i < v.len()
        invariant
            i <= v.len(),
            forall|j: int| 0 <= j < i ==> v@[j] != *a,
        decreases v.len() - i,
    {
        if same_action(&v[i], a) {
            return true;
        }
        i = i + 1;
    }
    false
}

impl NonDeterministicTransitionTable {
    pub closed spec fn view(&self) -> Map<(usize, char), Seq<Action>> {
        choice_entries(self.transitions)
    }

    /// The actions for `state` reading `input_char`, if the table lists any.
    pub fn apply_transition_table(&self, state: usize, input_char: char) -> (r: Option<
        Vec<Action>,
    >)
        ensures
            r is Some <==> self@.contains_key((state, input_char)),
            r matches Some(v) ==> v@ == self@[(state, input_char)],
    {
        choice_map_get(&self.transitions, (state, input_char))
    }
}

impl TransitionTable for NonDeterministicTransitionTable {
    type ErrorTy = ();

    /// Any lines make a table.
    open spec fn buildable(lines: Seq<(usize, char, Action)>) -> bool {
        true
    }

    open spec fn describes(&self, lines: Seq<(usize, char, Action)>) -> bool {
        self@ == choice_table(lines)
    }

    open spec fn refused(lines: Seq<(usize, char, Action)>, e: ()) -> bool {
        false
    }

    /// Builds the table from the transition lines; repeated lines for a key
    /// accumulate, each distinct action kept once.
    fn from_builder(b: &MachineTableParser) -> (r: Result<Self, ()>) {
        let mut transitions = choice_map_new();
        let n = b.len();
        let mut i: usize = 0;
        assert(choice_entries(transitions) =~= choice_table(b@.take(0)));
        while i < n
            invariant
                n == b@.len(),
                i <= n,
                choice_entries(transitions) == choice_table(b@.take(i as int)),
            decreases n - i,
        {
            let line = b.get(i);
            let key = (line.0, line.1);
            proof {
                assert(b@.take(i + 1).drop_last() =~= b@.take(i as int));
                assert(b@.take(i + 1).last() == line);
            }
            let mut actions = match choice_map_get(&transitions, key) {
                Some(v) => v,
                None => Vec::new(),
            };
            if !contains_action(&actions, &line.2) {
                actions.push(line.2);
            }
            choice_map_insert(&mut transitions, key, actions);
            i = i + 1;
        }
        proof {
            assert(b@.take(n as int) =~= b@);
        }
        Ok(NonDeterministicTransitionTable { transitions })
    }
}

} // verus!
