use turing_machine::common::{Action, Motion, State};
use turing_machine::text::tape_from_text;
use turing_machine::utils::apply_action;

#[test]
fn check_empty_vector() {
    let mut v = Vec::new();
    let mut s = 0;
    let mut pos = 0;
    let act = Action::new(1, '1', Motion::Right);
    apply_action(act, &mut v, &mut pos, &mut s);
    assert_eq!(v[0], '1');
    assert_eq!(s, 1);
    assert_eq!(pos, 1);
}

#[test]
fn growth_appends_length_plus_two_blanks() {
    let mut v = vec!['a', 'b'];
    let mut s = 0;
    let mut pos = 2;
    apply_action(Action::new(3, 'c', Motion::Stay), &mut v, &mut pos, &mut s);
    assert_eq!(v, vec!['a', 'b', 'c', '_', '_', '_']);
    assert_eq!(pos, 2);
    assert_eq!(s, 3);
}

#[test]
fn no_growth_inside_the_tape() {
    let mut v = vec!['a', 'b'];
    let mut s = 0;
    let mut pos = 1;
    apply_action(Action::new(0, 'x', Motion::Right), &mut v, &mut pos, &mut s);
    assert_eq!(v, vec!['a', 'x']);
    assert_eq!(pos, 2);
}

#[test]
fn growth_keeps_unwritten_cells_blank() {
    let mut v = vec!['a'];
    let mut s = 0;
    let mut pos = 1;
    apply_action(Action::new(0, 'b', Motion::Right), &mut v, &mut pos, &mut s);
    assert_eq!(v[0], 'a');
    assert_eq!(v[1], 'b');
    assert!(v[2..].iter().all(|c| *c == '_'));
}

#[test]
fn moving_left_at_first_cell_stays() {
    let mut v = vec!['a'];
    let mut s = 0;
    let mut pos = 0;
    apply_action(Action::new(2, 'z', Motion::Left), &mut v, &mut pos, &mut s);
    assert_eq!(pos, 0);
    assert_eq!(v[0], 'z');
    assert_eq!(s, 2);
}

#[test]
fn action_getters_and_motion_default() {
    let a = Action::new(7, 'q', Motion::Left);
    assert_eq!(*a.next_state(), 7);
    assert_eq!(*a.tape_output(), 'q');
    assert_eq!(*a.motion(), Motion::Left);
    assert_eq!(Motion::default(), Motion::Stay);
}

#[test]
fn state_classification() {
    assert!(State::Accepting.is_accepting());
    assert!(!State::Accepting.is_rejecting());
    assert!(State::Rejecting.is_rejecting());
    assert!(!State::Neutral.is_accepting());
    assert!(!State::Neutral.is_rejecting());
}

#[test]
fn tape_file_keeps_ascii_symbols_only() {
    let text: Vec<char> = "a b\n\tc\u{e9}d\r\n".chars().collect();
    assert_eq!(tape_from_text(&text), vec!['a', 'b', 'c', 'd']);
    assert!(tape_from_text(&Vec::new()).is_empty());
}
