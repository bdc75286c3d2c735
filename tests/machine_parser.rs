use turing_machine::common::{Action, Motion, State};
use turing_machine::deterministic_tm::DeterministicTuringMachine;
use turing_machine::machine_parser::{
    parse, parse_alphabet_line, parse_state_line, parse_transition_line, AlphabetError,
    MachineParser, ParsingError, StateError, TransitionTableError,
};
use turing_machine::representation::{
    DeterministicMachineRepresentation, RepresentationCreationError,
};
use turing_machine::TuringMachine;

fn chars(s: &str) -> Vec<char> {
    s.chars().collect()
}

fn id_of(names: &[Vec<char>], name: &str) -> usize {
    names.iter().position(|n| *n == chars(name)).expect("Key should be present")
}

fn class_of(b: &MachineParser, id: usize) -> State {
    b.states().iter().find(|(s, _)| *s == id).expect("Key should be present").1
}

fn are_vecs_equal(a: &[(char, Action)], b: &[(char, Action)]) -> bool {
    if a.len() != b.len() {
        return false;
    }
    for (c1, action1) in a {
        let mut found = false;
        for (c2, action2) in b {
            if c1 == c2 && action1 == action2 {
                found = true;
                break;
            }
        }
        if !found {
            return false;
        }
    }
    true
}

#[test]
fn valid_example1() {
    let test_string = "states 4\ns0\ns1\ns2 +\nqr -\nalphabet 2 a b\ns0 a s0 a R\ns0 b s1 b R\ns0 _ s2 _ S\ns1 b s1 b R\ns1 _ s2 _ S";
    let result = parse(&chars(test_string));
    let (representation, names) = result.expect("The parse should have succeded");

    let states = representation.states();
    assert_eq!(states.len(), 4);

    let states_test_cases = [
        ("s0", State::Neutral),
        ("s1", State::Neutral),
        ("s2", State::Accepting),
        ("qr", State::Rejecting),
    ];
    for (e, a) in states_test_cases.iter() {
        assert_eq!(class_of(&representation, id_of(&names, e)), *a);
    }

    assert_eq!(names[representation.starting_state().unwrap()], chars("s0"));

    let alphabet = representation.alphabet();
    assert_eq!(alphabet.len(), 3);
    assert!(alphabet.contains(&'_'));
    assert!(alphabet.contains(&'a'));
    assert!(alphabet.contains(&'b'));

    let transitions_builder = representation.transition_table_builder();
    assert_eq!(transitions_builder.states().len(), 2);

    let s0 = id_of(&names, "s0");
    let s1 = id_of(&names, "s1");
    let s2 = id_of(&names, "s2");
    let s0_actions = transitions_builder.get_state_transitions(s0);
    let s1_actions = transitions_builder.get_state_transitions(s1);
    assert!(!s0_actions.is_empty(), "State not parsed");
    assert!(!s1_actions.is_empty(), "State not parsed");
    assert_eq!(s0_actions.len(), 3);
    assert_eq!(s1_actions.len(), 2);

    let s0_actions_tests_cases = [
        ('a', Action::new(s0, 'a', Motion::Right)),
        ('b', Action::new(s1, 'b', Motion::Right)),
        ('_', Action::new(s2, '_', Motion::Stay)),
    ];

    let s1_actions_tests_cases = [
        ('b', Action::new(s1, 'b', Motion::Right)),
        ('_', Action::new(s2, '_', Motion::Stay)),
    ];

    if !(are_vecs_equal(&s0_actions, &s0_actions_tests_cases[..])
        && are_vecs_equal(&s1_actions, &s1_actions_tests_cases[..]))
    {
        panic!("Comparision failed");
    }
}

#[test]
fn valid_example2() {
    let test_string = "states 4\nq0\nq1\nqr -\nqa +\nalphabet 2 a b\nq0 a q0 a R\nq0 _ qr _ L\nq0 b q1 b R\nq1 a qr a L\nq1 b qr a L\nq1 _ qa b L";
    let result = parse(&chars(test_string));
    let (representation, names) = result.expect("The parse should have succeded");

    let states = representation.states();
    assert_eq!(states.len(), 4);

    let states_test_cases = [
        ("q0", State::Neutral),
        ("q1", State::Neutral),
        ("qr", State::Rejecting),
        ("qa", State::Accepting),
    ];
    for (e, a) in states_test_cases.iter() {
        assert_eq!(class_of(&representation, id_of(&names, e)), *a);
    }

    assert_eq!(names[representation.starting_state().unwrap()], chars("q0"));

    let alphabet = representation.alphabet();
    assert_eq!(alphabet.len(), 3);
    assert!(alphabet.contains(&'_'));
    assert!(alphabet.contains(&'a'));
    assert!(alphabet.contains(&'b'));

    let transitions_builder = representation.transition_table_builder();
    assert_eq!(transitions_builder.states().len(), 2);

    let q0 = id_of(&names, "q0");
    let q1 = id_of(&names, "q1");
    let qr = id_of(&names, "qr");
    let qa = id_of(&names, "qa");
    let q0_actions = transitions_builder.get_state_transitions(q0);
    let q1_actions = transitions_builder.get_state_transitions(q1);
    assert!(!q0_actions.is_empty(), "State not parsed");
    assert!(!q1_actions.is_empty(), "State not parsed");
    assert_eq!(q0_actions.len(), 3);
    assert_eq!(q1_actions.len(), 3);

    let q0_actions_tests_cases = [
        ('a', Action::new(q0, 'a', Motion::Right)),
        ('b', Action::new(q1, 'b', Motion::Right)),
        ('_', Action::new(qr, '_', Motion::Left)),
    ];

    let q1_actions_tests_cases = [
        ('a', Action::new(qr, 'a', Motion::Left)),
        ('b', Action::new(qr, 'a', Motion::Left)),
        ('_', Action::new(qa, 'b', Motion::Left)),
    ];

    if !(are_vecs_equal(&q0_actions, &q0_actions_tests_cases[..])
        && are_vecs_equal(&q1_actions, &q1_actions_tests_cases[..]))
    {
        panic!("Comparision failed");
    }
}

#[test]
fn empty_repr() {
    let test_string = "";
    let result = parse(&chars(test_string));
    assert!(result.is_err());
    match result {
        Err(ParsingError::States(StateError::MissingStateHeader)) => {}
        _ => panic!("Invalid Enum Variant"),
    }
}

#[test]
fn parsed_scenario_runs() {
    let text = "states 4\ns0\ns1\ns2 +\nqr -\nalphabet 2 a b\ns0 a s0 a R\ns0 b s1 b R\ns0 _ s2 _ S\ns1 b s1 b R\ns1 _ s2 _ S\n";
    let (b, _names) = parse(&chars(text)).unwrap();
    let repr = DeterministicMachineRepresentation::from_builder(&b).unwrap();
    let mut m = DeterministicTuringMachine::new(repr, chars("aab")).unwrap();
    let mut steps = 0;
    while !(m.is_accepting() || m.is_rejecting()) {
        m.step();
        steps += 1;
    }
    assert!(m.is_accepting());
    assert_eq!(steps, 4);
}

#[test]
fn header_errors() {
    assert!(matches!(
        parse(&chars("states\ns0 +\n")),
        Err(ParsingError::States(StateError::InvalidStateHeader))
    ));
    assert!(matches!(
        parse(&chars("states x\n")),
        Err(ParsingError::States(StateError::HeaderIntParsing))
    ));
    assert!(matches!(
        parse(&chars("states 99999999999999999999999\n")),
        Err(ParsingError::States(StateError::HeaderIntParsing))
    ));
    assert!(matches!(
        parse(&chars("states 2\nq0 +\nq1\nalphabet 0\n")),
        Err(ParsingError::States(StateError::MandatoryStatesNotSet))
    ));
}

#[test]
fn state_line_errors() {
    match parse(&chars("states 1\na b c\n")) {
        Err(ParsingError::States(StateError::InvalidStateLine(l))) => assert_eq!(l, chars("a b c")),
        _ => panic!("expected an invalid state line"),
    }
    match parse(&chars("states 1\nalphabet\n")) {
        Err(ParsingError::States(StateError::InvalidStateName(n))) => {
            assert_eq!(n, chars("alphabet"))
        }
        _ => panic!("expected an invalid state name"),
    }
    match parse(&chars("states 1\nq0 *\n")) {
        Err(ParsingError::States(StateError::InvalidStateSymbol(m))) => assert_eq!(m, chars("*")),
        _ => panic!("expected an invalid state symbol"),
    }
}

#[test]
fn alphabet_errors() {
    let states = "states 3\nq0\nqa +\nqr -\n";
    let with = |rest: &str| parse(&chars(&format!("{}{}", states, rest)));
    assert!(matches!(
        with("letters 1 a\n"),
        Err(ParsingError::Alphabet(AlphabetError::MissingAlphabetHeader))
    ));
    assert!(matches!(
        with("alphabet\n"),
        Err(ParsingError::Alphabet(AlphabetError::InvalidAlphabetHeader))
    ));
    assert!(matches!(
        with("alphabet z a\n"),
        Err(ParsingError::Alphabet(AlphabetError::HeaderIntParsing))
    ));
    assert!(matches!(
        with("alphabet 1 _\n"),
        Err(ParsingError::Alphabet(AlphabetError::InvalidBlankSymbol))
    ));
    match with("alphabet 1 ab\n") {
        Err(ParsingError::Alphabet(AlphabetError::TokenNotAChar(t))) => assert_eq!(t, chars("ab")),
        _ => panic!("expected a token that is not a char"),
    }
    assert!(matches!(
        with("alphabet 3 a b\n"),
        Err(ParsingError::Alphabet(AlphabetError::InvalidNumberOfElements(3)))
    ));
    assert!(with("alphabet 2 a b\n").is_ok());
}

#[test]
fn transition_line_errors() {
    let mut names = Vec::new();
    assert!(matches!(
        parse_transition_line(&chars("q0 a q1 a"), &mut names),
        Err(TransitionTableError::InvalidNumberOfTokens(4))
    ));
    match parse_transition_line(&chars("q0 a q1 aa R"), &mut names) {
        Err(TransitionTableError::TokenNotAChar(t)) => assert_eq!(t, chars("aa")),
        _ => panic!("expected a token that is not a char"),
    }
    match parse_transition_line(&chars("q0 a q1 a X"), &mut names) {
        Err(TransitionTableError::InvalidMotion(t)) => assert_eq!(t, chars("X")),
        _ => panic!("expected an invalid motion"),
    }
    match parse_transition_line(&chars("q0 ab q1 a R"), &mut names) {
        Err(TransitionTableError::TokenNotAChar(t)) => assert_eq!(t, chars("ab")),
        _ => panic!("expected a token that is not a char"),
    }
    assert!(names.is_empty());
    let (s, c, a) = parse_transition_line(&chars("q0 a q1 b L\r"), &mut names).unwrap();
    assert_eq!(names, vec![chars("q0"), chars("q1")]);
    assert_eq!((s, c), (0, 'a'));
    assert_eq!(a, Action::new(1, 'b', Motion::Left));
    let (s, _, a) = parse_transition_line(&chars("q1 b q0 b S"), &mut names).unwrap();
    assert_eq!((s, a.next_state), (1, 0));
    assert_eq!(names.len(), 2);
}

#[test]
fn unknown_state_in_transitions_is_reported() {
    let text = "states 3\nq0\nqa +\nqr -\nalphabet 1 a\nq0 a q9 a R\n";
    let (b, names) = parse(&chars(text)).unwrap();
    match DeterministicMachineRepresentation::from_builder(&b) {
        Err(RepresentationCreationError::TransitionTableStateMismatch(v)) => {
            assert_eq!(v.len(), 1);
            assert_eq!(names[v[0]], chars("q9"));
        }
        _ => panic!("expected a state mismatch"),
    }
}

#[test]
fn state_lines() {
    let (n, v) = parse_state_line(chars("q7 +\r")).unwrap();
    assert_eq!((n, v), (chars("q7"), State::Accepting));
    let (n, v) = parse_state_line(chars("qr -")).unwrap();
    assert_eq!((n, v), (chars("qr"), State::Rejecting));
    let (n, v) = parse_state_line(chars("q0\t")).unwrap();
    assert_eq!((n, v), (chars("q0"), State::Neutral));
    // a leading space splits off an empty name, and the name becomes the marker
    assert!(matches!(parse_state_line(chars(" q0")), Err(StateError::InvalidStateSymbol(m)) if m == chars("q0")));
    assert!(matches!(parse_state_line(chars("q0 ")), Err(StateError::InvalidStateSymbol(m)) if m.is_empty()));
    assert!(matches!(parse_state_line(chars("-")), Err(StateError::InvalidStateName(_))));
}

#[test]
fn alphabet_lines() {
    let (k, syms) = parse_alphabet_line(&chars("alphabet 3 x y z")).unwrap();
    assert_eq!(k, 3);
    assert_eq!(syms, vec!['x', 'y', 'z']);
    let (k, syms) = parse_alphabet_line(&chars("alphabet +0")).unwrap();
    assert_eq!(k, 0);
    assert!(syms.is_empty());
    match parse_alphabet_line(&chars("alphabet 2 a bc _")) {
        Err(AlphabetError::TokenNotAChar(t)) => assert_eq!(t, chars("bc")),
        _ => panic!("expected the first bad token"),
    }
    assert!(matches!(
        parse_alphabet_line(&chars("alphabet 2 _ bc")),
        Err(AlphabetError::InvalidBlankSymbol)
    ));
}
