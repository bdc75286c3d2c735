use turing_machine::common::{Action, Motion, State};
use turing_machine::deterministic_tm::{DeterministicTuringMachine, MachineCreationError};
use turing_machine::limited::LimitedTuringMachineExt;
use turing_machine::machine_parser::MachineParser;
use turing_machine::non_deterministic_tm::NonDeterministicTuringMachine;
use turing_machine::representation::{
    DeterministicMachineRepresentation, NonDeterministicMachineRepresentation,
};
use turing_machine::stats::TuringMachineStatsExt;
use turing_machine::{run, TuringMachine};

fn description(
    states: &[(usize, State)],
    alphabet: &[char],
    transitions: &[(usize, char, usize, char, Motion)],
) -> MachineParser {
    let mut b = MachineParser::new();
    for (id, class) in states {
        b.add_state(*id, *class).unwrap();
    }
    b.add_starting_state(states[0].0).unwrap();
    for c in alphabet {
        b.add_alphabet_symbol(*c).unwrap();
    }
    for (s, c, n, o, m) in transitions {
        b.add_transition(*s, *c, Action::new(*n, *o, *m));
    }
    b
}

fn scenario_description() -> MachineParser {
    description(
        &[
            (0, State::Neutral),
            (1, State::Neutral),
            (2, State::Accepting),
            (3, State::Rejecting),
        ],
        &['_', 'a', 'b'],
        &[
            (0, 'a', 0, 'a', Motion::Right),
            (0, 'b', 1, 'b', Motion::Right),
            (0, '_', 2, '_', Motion::Stay),
            (1, 'b', 1, 'b', Motion::Right),
            (1, '_', 2, '_', Motion::Stay),
        ],
    )
}

fn det_machine(b: &MachineParser, tape: &str) -> DeterministicTuringMachine {
    let repr = DeterministicMachineRepresentation::from_builder(b).unwrap();
    DeterministicTuringMachine::new(repr, tape.chars().collect()).unwrap()
}

fn nd_machine(b: &MachineParser, tape: &str) -> NonDeterministicTuringMachine {
    let repr = NonDeterministicMachineRepresentation::from_builder(b).unwrap();
    NonDeterministicTuringMachine::new(repr, tape.chars().collect()).unwrap()
}

fn run_to_end<T: TuringMachine>(m: T) -> TuringMachineStatsExt<T> {
    let mut stats = TuringMachineStatsExt::new(m);
    let mut guard = 0;
    while !(stats.is_accepting() || stats.is_rejecting()) {
        stats.step();
        guard += 1;
        assert!(guard < 10_000);
    }
    stats
}

#[test]
fn scenario_result_through_counted_execution() {
    let result = TuringMachineStatsExt::new(det_machine(&scenario_description(), "ab"))
        .execute_and_get_result(1000);
    assert!(result.accepting);
    assert_eq!(result.num_steps, 3);
    let tape = result.tm.tape();
    assert_eq!(&tape[..3], &['a', 'b', '_']);
    assert!(tape[3..].iter().all(|c| *c == '_'));
    let short = TuringMachineStatsExt::new(det_machine(&scenario_description(), "ab"))
        .execute_and_get_result(2);
    assert!(!short.accepting);
    assert_eq!(short.num_steps, 2);
}

#[test]
fn scenario_accepts_ab_in_three_steps() {
    let stats = run_to_end(det_machine(&scenario_description(), "ab"));
    assert!(stats.is_accepting());
    assert!(!stats.is_rejecting());
    assert_eq!(stats.get_number_of_steps(), 3);
    let tape = stats.tape();
    assert_eq!(&tape[..3], &['a', 'b', '_']);
    assert!(tape[3..].iter().all(|c| *c == '_'));
}

#[test]
fn scenario_rejects_ba_through_missing_transition() {
    let stats = run_to_end(det_machine(&scenario_description(), "ba"));
    assert!(stats.is_rejecting());
    assert!(!stats.is_accepting());
    assert_eq!(stats.get_number_of_steps(), 2);
    // the missing (s1, a) entry rejects, writing blank and moving left
    assert_eq!(&stats.tape()[..2], &['b', '_']);
}

#[test]
fn replay_is_deterministic() {
    let b = scenario_description();
    let first = run_to_end(det_machine(&b, "aab"));
    let second = run_to_end(det_machine(&b, "aab"));
    assert_eq!(first.tape(), second.tape());
    assert_eq!(first.get_number_of_steps(), second.get_number_of_steps());
    assert_eq!(first.is_accepting(), second.is_accepting());
    assert!(first.is_accepting());
}

#[test]
fn verdicts_are_exclusive_at_every_step() {
    let mut m = det_machine(&scenario_description(), "abab");
    for _ in 0..10 {
        assert!(!(m.is_accepting() && m.is_rejecting()));
        m.step();
    }
    assert!(m.is_rejecting());
    let mut n = nd_machine(&scenario_description(), "abab");
    for _ in 0..10 {
        assert!(!(n.is_accepting() && n.is_rejecting()));
        n.step();
    }
    assert!(n.is_rejecting());
}

#[test]
fn deterministic_table_as_singleton_sets_gives_same_outcome() {
    let b = scenario_description();
    for input in ["", "a", "ab", "abb", "ba", "bba", "aabba", "abab"] {
        let d = run_to_end(det_machine(&b, input));
        let n = run_to_end(nd_machine(&b, input));
        assert_eq!(d.is_accepting(), n.is_accepting(), "input {}", input);
        assert_eq!(d.is_rejecting(), n.is_rejecting(), "input {}", input);
        assert_eq!(n.tape().len(), 1);
    }
}

#[test]
fn one_accepting_path_is_enough() {
    // path A loops in state 0 forever, path B accepts in one step
    let b = description(
        &[(0, State::Neutral), (1, State::Accepting), (2, State::Rejecting)],
        &['_'],
        &[(0, '_', 0, '_', Motion::Stay), (0, '_', 1, '_', Motion::Stay)],
    );
    let mut m = nd_machine(&b, "");
    assert!(!m.is_accepting());
    m.step();
    assert!(m.is_accepting());
    assert!(!m.is_rejecting());
    assert_eq!(m.num_paths(), 2);
    // once accepting, stepping changes nothing
    m.step();
    assert!(m.is_accepting());
    assert_eq!(m.num_paths(), 2);
}

#[test]
fn every_path_rejecting_rejects() {
    let b = description(
        &[
            (0, State::Neutral),
            (1, State::Neutral),
            (2, State::Neutral),
            (3, State::Accepting),
            (4, State::Rejecting),
        ],
        &['_', 'a'],
        &[(0, 'a', 1, 'a', Motion::Right), (0, 'a', 2, 'a', Motion::Right)],
    );
    let mut m = nd_machine(&b, "a");
    m.step();
    assert_eq!(m.num_paths(), 2);
    assert!(!m.is_rejecting());
    m.step();
    assert!(m.is_rejecting());
    assert!(!m.is_accepting());
    assert_eq!(m.num_paths(), 2);
}

#[test]
fn converging_paths_are_merged() {
    // both actions leave state 1, tape "a" and the head at 0
    let b = description(
        &[(0, State::Neutral), (1, State::Neutral), (2, State::Accepting), (3, State::Rejecting)],
        &['_', 'a'],
        &[(0, 'a', 1, 'a', Motion::Left), (0, 'a', 1, 'a', Motion::Stay)],
    );
    let mut m = nd_machine(&b, "a");
    m.step();
    assert!(m.num_paths() < 2);
    assert_eq!(m.num_paths(), 1);
    assert_eq!(m.tape()[0], vec!['a']);
}

#[test]
fn distinct_paths_are_kept() {
    let b = description(
        &[(0, State::Neutral), (1, State::Neutral), (2, State::Accepting), (3, State::Rejecting)],
        &['_', 'a', 'b'],
        &[(0, 'a', 1, 'a', Motion::Stay), (0, 'a', 1, 'b', Motion::Stay)],
    );
    let mut m = nd_machine(&b, "a");
    m.step();
    assert_eq!(m.num_paths(), 2);
    assert_eq!(m.tape()[0], vec!['a']);
    assert_eq!(m.tape()[1], vec!['b']);
}

#[test]
fn tape_outside_alphabet_is_refused() {
    let b = scenario_description();
    let repr = DeterministicMachineRepresentation::from_builder(&b).unwrap();
    let r = DeterministicTuringMachine::new(repr, vec!['a', 'c']);
    assert!(matches!(r, Err(MachineCreationError::TapeAlphabetMismatch)));
    let repr = NonDeterministicMachineRepresentation::from_builder(&b).unwrap();
    let r = NonDeterministicTuringMachine::new(repr, vec!['1']);
    assert!(matches!(r, Err(MachineCreationError::TapeAlphabetMismatch)));
}

#[test]
fn step_limit_forces_rejection() {
    let b = description(
        &[(0, State::Neutral), (1, State::Accepting), (2, State::Rejecting)],
        &['_'],
        &[(0, '_', 0, '_', Motion::Right)],
    );
    let m = LimitedTuringMachineExt::new_with_limit(det_machine(&b, ""), 5);
    let result = m.execute_and_get_result();
    assert!(!result.accepting);
    assert_eq!(result.num_steps, 6);
    assert!(result.num_steps <= 5 + 1);
    assert!(!result.tm.is_accepting());
}

#[test]
fn step_limit_leaves_fast_machines_alone() {
    let m = LimitedTuringMachineExt::new_with_limit(det_machine(&scenario_description(), "ab"), 100);
    let result = m.execute_and_get_result();
    assert!(result.accepting);
    assert_eq!(result.num_steps, 3);
}

#[test]
fn unlimited_decorator_forwards() {
    let mut m = LimitedTuringMachineExt::new(det_machine(&scenario_description(), "b"));
    while !(m.is_accepting() || m.is_rejecting()) {
        m.step();
    }
    assert!(m.is_accepting());
    assert_eq!(m.get_number_of_steps(), 2);
}

#[test]
fn shown_tape_drops_trailing_blanks() {
    let stats = run_to_end(det_machine(&scenario_description(), "ab"));
    let m = stats.into_inner();
    assert_eq!(m.tape_text(), vec!['a', 'b']);
    let empty = det_machine(&scenario_description(), "");
    assert_eq!(empty.tape_text(), vec!['_']);
}

#[test]
fn run_stops_at_verdict_or_fuel() {
    let mut m = det_machine(&scenario_description(), "aab");
    assert_eq!(run(&mut m, 2), 2);
    assert!(!m.is_accepting());
    assert_eq!(run(&mut m, 100), 2);
    assert!(m.is_accepting());
    assert_eq!(run(&mut m, 100), 0);
}

#[test]
fn run_on_looping_and_accepting_paths() {
    let b = description(
        &[(0, State::Neutral), (1, State::Accepting), (2, State::Rejecting)],
        &['_'],
        &[(0, '_', 0, '_', Motion::Stay), (0, '_', 1, '_', Motion::Stay)],
    );
    let mut m = nd_machine(&b, "");
    assert_eq!(run(&mut m, 50), 1);
    assert!(m.is_accepting());
}
