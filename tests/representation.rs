use turing_machine::common::{Action, Motion, State};
use turing_machine::machine_parser::{MachineParser, ParsingError, StateError};
use turing_machine::representation::{
    DeterministicMachineRepresentation, NonDeterministicMachineRepresentation,
    RepresentationCreationError,
};
use turing_machine::transition_table::TableCreationError;

fn base() -> MachineParser {
    let mut b = MachineParser::new();
    b.add_state(0, State::Neutral).unwrap();
    b.add_state(1, State::Accepting).unwrap();
    b.add_state(2, State::Rejecting).unwrap();
    b.add_starting_state(0).unwrap();
    b.add_alphabet_symbol('_').unwrap();
    b.add_alphabet_symbol('a').unwrap();
    b
}

#[test]
fn valid_description_builds() {
    let mut b = base();
    b.add_transition(0, 'a', Action::new(1, 'a', Motion::Right));
    let r = DeterministicMachineRepresentation::from_builder(&b).unwrap();
    assert_eq!(*r.starting_state(), 0);
    assert_eq!(*r.accepting_state(), 1);
    assert_eq!(*r.rejecting_state(), 2);
    assert_eq!(r.states().len(), 3);
    assert!(r.states().contains(&0) && r.states().contains(&1) && r.states().contains(&2));
    assert_eq!(r.alphabet().len(), 2);
    assert!(r.alphabet().contains(&'a'));
    let act = r.transition_table().apply_transition_table(0, 'a').unwrap();
    assert_eq!(act, Action::new(1, 'a', Motion::Right));
    assert!(r.transition_table().apply_transition_table(0, '_').is_none());
    assert!(r.transition_table().apply_transition_table(1, 'a').is_none());
}

#[test]
fn missing_starting_state() {
    let mut b = MachineParser::new();
    b.add_state(1, State::Accepting).unwrap();
    b.add_state(2, State::Rejecting).unwrap();
    let r = DeterministicMachineRepresentation::from_builder(&b);
    assert!(matches!(r, Err(RepresentationCreationError::StartingStateNotSpecified)));
}

#[test]
fn missing_accepting_state() {
    let mut b = MachineParser::new();
    b.add_state(0, State::Neutral).unwrap();
    b.add_state(2, State::Rejecting).unwrap();
    b.add_starting_state(0).unwrap();
    let r = NonDeterministicMachineRepresentation::from_builder(&b);
    assert!(matches!(r, Err(RepresentationCreationError::AcceptStateNotSpecified)));
}

#[test]
fn missing_rejecting_state() {
    let mut b = MachineParser::new();
    b.add_state(0, State::Neutral).unwrap();
    b.add_state(1, State::Accepting).unwrap();
    b.add_starting_state(0).unwrap();
    let r = DeterministicMachineRepresentation::from_builder(&b);
    assert!(matches!(r, Err(RepresentationCreationError::RejectStateNotSpecified)));
}

#[test]
fn reclassified_state_loses_its_designation() {
    let mut b = base();
    b.add_state(1, State::Neutral).unwrap();
    assert!(!b.has_accept_state());
    assert!(b.has_reject_state());
    let r = DeterministicMachineRepresentation::from_builder(&b);
    assert!(matches!(r, Err(RepresentationCreationError::AcceptStateNotSpecified)));
}

#[test]
fn undeclared_starting_state_is_refused() {
    let mut b = MachineParser::new();
    let r = b.add_starting_state(4);
    assert!(matches!(r, Err(ParsingError::States(StateError::UndeclaredState(4)))));
    assert!(b.starting_state().is_none());
}

#[test]
fn every_undeclared_state_is_reported() {
    let mut b = base();
    b.add_transition(7, 'a', Action::new(1, 'a', Motion::Right));
    b.add_transition(0, 'a', Action::new(9, 'a', Motion::Right));
    b.add_transition(7, '_', Action::new(9, 'a', Motion::Right));
    let r = DeterministicMachineRepresentation::from_builder(&b);
    match r {
        Err(RepresentationCreationError::TransitionTableStateMismatch(mut v)) => {
            v.sort();
            assert_eq!(v, vec![7, 9]);
        }
        _ => panic!("expected a state mismatch"),
    }
}

#[test]
fn every_undeclared_symbol_is_reported() {
    let mut b = base();
    b.add_transition(0, 'x', Action::new(1, 'y', Motion::Right));
    b.add_transition(0, 'a', Action::new(1, 'x', Motion::Right));
    let r = NonDeterministicMachineRepresentation::from_builder(&b);
    match r {
        Err(RepresentationCreationError::TransitionTableAlphabetMismatch(mut v)) => {
            v.sort();
            assert_eq!(v, vec!['x', 'y']);
        }
        _ => panic!("expected an alphabet mismatch"),
    }
}

#[test]
fn state_check_comes_before_symbol_check() {
    let mut b = base();
    b.add_transition(5, 'x', Action::new(1, 'a', Motion::Right));
    let r = DeterministicMachineRepresentation::from_builder(&b);
    assert!(matches!(r, Err(RepresentationCreationError::TransitionTableStateMismatch(_))));
}

#[test]
fn duplicate_deterministic_transition() {
    let mut b = base();
    b.add_transition(0, 'a', Action::new(1, 'a', Motion::Right));
    b.add_transition(0, '_', Action::new(2, 'a', Motion::Right));
    b.add_transition(0, 'a', Action::new(2, '_', Motion::Left));
    let r = DeterministicMachineRepresentation::from_builder(&b);
    match r {
        Err(RepresentationCreationError::TableConstructionError(
            TableCreationError::DuplicateTransition(k),
        )) => assert_eq!(k, (0, 'a')),
        _ => panic!("expected a duplicate transition"),
    }
}

#[test]
fn repeated_non_deterministic_transitions_accumulate() {
    let mut b = base();
    b.add_transition(0, 'a', Action::new(1, 'a', Motion::Right));
    b.add_transition(0, 'a', Action::new(2, '_', Motion::Left));
    b.add_transition(0, 'a', Action::new(1, 'a', Motion::Right));
    let r = NonDeterministicMachineRepresentation::from_builder(&b).unwrap();
    let acts = r.transition_table().apply_transition_table(0, 'a').unwrap();
    assert_eq!(
        acts,
        vec![Action::new(1, 'a', Motion::Right), Action::new(2, '_', Motion::Left)]
    );
    assert!(r.transition_table().apply_transition_table(0, '_').is_none());
}

#[test]
fn table_builder_queries() {
    let mut b = base();
    b.add_transition(0, 'a', Action::new(1, 'a', Motion::Right));
    b.add_transition(2, 'a', Action::new(1, 'a', Motion::Right));
    b.add_transition(0, '_', Action::new(2, '_', Motion::Stay));
    let t = b.transition_table_builder();
    assert_eq!(t.states(), vec![0, 2]);
    assert_eq!(
        t.get_state_transitions(0),
        vec![('a', Action::new(1, 'a', Motion::Right)), ('_', Action::new(2, '_', Motion::Stay))]
    );
    assert!(t.get_state_transitions(1).is_empty());
    assert_eq!(b.alphabet_len(), 2);
    b.add_alphabet_symbol('a').unwrap();
    assert_eq!(b.alphabet_len(), 2);
}
