use vstd::prelude::*;

use crate::common::Action;
use hashbrown::{HashMap, HashSet};

verus! {

// The hash tables that hold transition tables, states and alphabets. Each
// function below makes one call into hashbrown, and its contract states what
// the call does to the contents named by `action_entries`, `choice_entries`,
// `state_members` and `symbol_members`.

/// hashbrown's HashMap, an opaque value whose contents the names below describe.
#[verifier::external_type_specification]
#[verifier::external_body]
#[verifier::reject_recursive_types(K)]
#[verifier::reject_recursive_types(V)]
#[verifier::reject_recursive_types(S)]
pub struct ExHashMap<K, V, S>(HashMap<K, V, S>);

/// The hasher that hashbrown's tables use by default, carried opaquely.
#[verifier::external_type_specification]
#[verifier::external_body]
pub struct ExDefaultHashBuilder(hashbrown::hash_map::DefaultHashBuilder);

/// hashbrown's HashSet, an opaque value whose contents the names below describe.
#[verifier::external_type_specification]
#[verifier::external_body]
#[verifier::reject_recursive_types(T)]
#[verifier::reject_recursive_types(S)]
pub struct ExHashSet<T, S>(HashSet<T, S>);

/// A map from (state, symbol) keys to single actions.
pub type ActionMap = HashMap<(usize, char), Action>;

/// A map from (state, symbol) keys to lists of actions.
pub type ChoiceMap = HashMap<(usize, char), Vec<Action>>;

/// What a map from (state, symbol) keys to single actions holds.
pub uninterp spec fn action_entries(m: ActionMap) -> Map<(usize, char), Action>;

/// What a map from (state, symbol) keys to lists of actions holds.
pub uninterp spec fn choice_entries(m: ChoiceMap) -> Map<
    (usize, char),
    Seq<Action>,
>;

/// What a set of state identifiers holds.
pub uninterp spec fn state_members(s: HashSet<usize>) -> Set<usize>;

/// What a set of symbols holds.
pub uninterp spec fn symbol_members(s: HashSet<char>) -> Set<char>;

/// Relies on hashbrown::HashMap::new: the new map is empty.
#[verifier::external_body]
pub(crate) fn action_map_new() -> (r: ActionMap)
    ensures
        forall|k: (usize, char)| !action_entries(r).contains_key(k),
{
    HashMap::new()
}

/// Relies on hashbrown::HashMap::insert: the key now maps to the value, and the
/// value it held before, if any, is handed back.
#[verifier::external_body]
pub(crate) fn action_map_insert(
    m: &mut ActionMap,
    k: (usize, char),
    v: Action,
) -> (r: Option<Action>)
    ensures
        action_entries(*final(m)) == action_entries(*old(m)).insert(k, v),
        action_entries(*old(m)).contains_key(k) ==> r == Some(action_entries(*old(m))[k]),
        !action_entries(*old(m)).contains_key(k) ==> r.is_none(),
{
    m.insert(k, v)
}

/// Relies on hashbrown::HashMap::get: the value under the key, if there is one.
#[verifier::external_body]
pub(crate) fn action_map_get(m: &ActionMap, k: (usize, char)) -> (r: Option<
    Action,
>)
    ensures
        action_entries(*m).contains_key(k) ==> r == Some(action_entries(*m)[k]),
        !action_entries(*m).contains_key(k) ==> r.is_none(),
{
    m.get(&k).copied()
}

/// Relies on hashbrown::HashMap::new: the new map is empty.
#[verifier::external_body]
pub(crate) fn choice_map_new() -> (r: ChoiceMap)
    ensures
        forall|k: (usize, char)| !choice_entries(r).contains_key(k),
{
    HashMap::new()
}

/// Relies on hashbrown::HashMap::insert: the key now maps to the list given.
#[verifier::external_body]
pub(crate) fn choice_map_insert(
    m: &mut ChoiceMap,
    k: (usize, char),
    v: Vec<Action>,
)
    ensures
        choice_entries(*final(m)) == choice_entries(*old(m)).insert(k, v@),
{
    m.insert(k, v);
}

/// Relies on hashbrown::HashMap::get: a copy of the list under the key, if there is one.
#[verifier::external_body]
pub(crate) fn choice_map_get(m: &ChoiceMap, k: (usize, char)) -> (r:
    Option<Vec<Action>>)
    ensures
        choice_entries(*m).contains_key(k) <==> r.is_some(),
        r is Some ==> r->Some_0@ == choice_entries(*m)[k],
{
    m.get(&k).cloned()
}

/// Relies on hashbrown::HashSet::new: the new set is empty.
#[verifier::external_body]
pub(crate) fn state_set_new() -> (r: HashSet<usize>)
    ensures
        state_members(r) == Set::<usize>::empty(),
{
    HashSet::new()
}

/// Relies on hashbrown::HashSet::insert: the value is a member afterwards.
#[verifier::external_body]
pub(crate) fn state_set_insert(s: &mut HashSet<usize>, v: usize)
    ensures
        state_members(*final(s)) == state_members(*old(s)).insert(v),
{
    s.insert(v);
}

/// Relies on hashbrown::HashSet::contains: membership of the value.
#[verifier::external_body]
pub(crate) fn state_set_contains(s: &HashSet<usize>, v: usize) -> (r: bool)
    ensures
        r == state_members(*s).contains(v),
{
    s.contains(&v)
}

/// Relies on hashbrown::HashSet::new: the new set is empty.
#[verifier::external_body]
pub(crate) fn symbol_set_new() -> (r: HashSet<char>)
    ensures
        symbol_members(r) == Set::<char>::empty(),
{
    HashSet::new()
}

/// Relies on hashbrown::HashSet::insert: the value is a member afterwards.
#[verifier::external_body]
pub(crate) fn symbol_set_insert(s: &mut HashSet<char>, v: char)
    ensures
        symbol_members(*final(s)) == symbol_members(*old(s)).insert(v),
{
    s.insert(v);
}

/// Relies on hashbrown::HashSet::contains: membership of the value.
#[verifier::external_body]
pub(crate) fn symbol_set_contains(s: &HashSet<char>, v: char) -> (r: bool)
    ensures
        r == symbol_members(*s).contains(v),
{
    s.contains(&v)
}

} // verus!
