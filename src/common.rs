use vstd::prelude::*;

verus! {

/// Head displacement after a transition.
#[derive(Debug, Clone, Copy, PartialEq, Eq, Hash, Structural)]
pub enum Motion {
    Left,
    Right,
    Stay,
}

impl Default for Motion {
    fn default() -> (r: Self)
        ensures
            r == Motion::Stay,
    {
        Motion::Stay
    }
}

/// The classification a state can carry in a machine description.
#[derive(Debug, Clone, Copy, PartialEq, Eq, Hash, Structural)]
pub enum State {
    Accepting,
    Neutral,
    Rejecting,
}

impl State {
    /// Is the state an accepting state?
    pub fn is_accepting(&self) -> (r: bool)
        ensures
            r == (*self == State::Accepting),
    {
        match self {
            State::Accepting => true,
            _ => false,
        }
    }

    /// Is the state a rejecting state?
    pub fn is_rejecting(&self) -> (r: bool)
        ensures
            r == (*self == State::Rejecting),
    {
        match self {
            State::Rejecting => true,
            _ => false,
        }
    }
}

/// What a machine does on a single step: the state it moves to, the symbol it
/// writes under the head and the way the head moves afterwards.
#[derive(Debug, Clone, Copy, PartialEq, Eq, Hash, Structural)]
pub struct Action {
    pub next_state: usize,
    pub tape_output: char,
    pub motion: Motion,
}

impl Action {
    pub fn new(next_state: usize, tape_output: char, motion: Motion) -> (r: Self)
        ensures
            r == (Action { next_state, tape_output, motion }),
    {
        Action { next_state, tape_output, motion }
    }

    /// Get the next state to move to
    pub fn next_state(&self) -> (r: &usize)
        ensures
            *r == self.next_state,
    {
        &self.next_state
    }

    /// Get the symbol to write to the tape
    pub fn tape_output(&self) -> (r: &char)
        ensures
            *r == self.tape_output,
    {
        &self.tape_output
    }

    /// Get the direction of motion
    pub fn motion(&self) -> (r: &Motion)
        ensures
            *r == self.motion,
    {
        &self.motion
    }
}

/// Structural equality of two actions, decided field by field.
pub fn same_action(a: &Action, b: &Action) -> (r: bool)
    ensures
        r == (*a == *b),
{
    a.next_state == b.next_state && a.tape_output == b.tape_output && a.motion == b.motion
}

} // verus!
