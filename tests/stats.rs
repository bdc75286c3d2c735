use turing_machine::stats::TuringMachineStatsExt;
use turing_machine::TuringMachine;

/// A machine that never moves and never stops. Outside verification the
/// trait's specification functions are ordinary methods, so it gives them too.
struct MockMachine {
    tape: Vec<char>,
}

impl TuringMachine for MockMachine {
    type Tape = Vec<char>;

    fn inv(&self) -> bool {
        true
    }

    fn accepting(&self) -> bool {
        false
    }

    fn rejecting(&self) -> bool {
        false
    }

    fn can_step(&self) -> bool {
        true
    }

    fn steps_to(&self, next: Self) -> bool {
        next.tape == self.tape
    }

    fn tape_view(&self) -> Vec<char> {
        self.tape.clone()
    }

    fn step(&mut self) {}

    fn is_accepting(&self) -> bool {
        false
    }

    fn is_rejecting(&self) -> bool {
        false
    }

    fn has_room(&self) -> bool {
        true
    }

    fn tape(&self) -> &Vec<char> {
        &self.tape
    }
}

fn make_mock_machine(t: Vec<char>) -> MockMachine {
    MockMachine { tape: t }
}

#[test]
fn stats_check_initialization() {
    let stats = TuringMachineStatsExt::new(());
    assert_eq!(stats.get_number_of_steps(), 0);
}

#[test]
fn check_stepping() {
    let mock = make_mock_machine(vec!['1', '2', '3', '4']);
    let mut stats = TuringMachineStatsExt::new(mock);

    for i in 0..1000 {
        assert_eq!(stats.is_accepting(), false);
        assert_eq!(stats.is_rejecting(), false);
        assert_eq!(stats.get_number_of_steps(), i);
        assert_eq!(*stats.tape(), vec!['1', '2', '3', '4']);
        stats.step();
    }
}
