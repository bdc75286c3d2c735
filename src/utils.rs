use vstd::prelude::*;

use crate::common::{Action, Motion};

verus! {

/// The symbol that fills every cell of the tape that was never written.
pub const BLANK: char = '_';

/// The symbol under position `pos` of tape `t`: cells past the end read as blank.
pub open spec fn cell(t: Seq<char>, pos: int) -> char {
    if 0 <= pos < t.len() {
        t[pos]
    } else {
        BLANK
    }
}

/// The tape after the growth that a write at `pos` needs: a write at or beyond
/// the end first appends `len + 2` blanks.
pub open spec fn grown(t: Seq<char>, pos: nat) -> Seq<char> {
    if pos >= t.len() {
        t + Seq::new((t.len() + 2) as nat, |i: int| BLANK)
    } else {
        t
    }
}

/// Whether the tape can still grow without its length leaving `usize`.
pub open spec fn has_room(t: Seq<char>) -> bool {
    2 * t.len() + 2 <= usize::MAX
}

/// The head position after a move; moving left at the first cell stays there.
pub open spec fn moved(pos: nat, m: Motion) -> nat {
    match m {
        Motion::Right => pos + 1,
        Motion::Left => if pos == 0 {
            0
        } else {
            (pos - 1) as nat
        },
        Motion::Stay => pos,
    }
}

/// One configuration of a single-tape machine: its state, its tape and the
/// position of its head.
pub struct Config {
    pub state: usize,
    pub tape: Seq<char>,
    pub head: nat,
}

/// The configuration after `act` is applied to `c`: grow the tape if needed,
/// write the action's output under the head, move the head, change state.
pub open spec fn applied(act: Action, c: Config) -> Config {
    Config {
        state: act.next_state,
        tape: grown(c.tape, c.head).update(c.head as int, act.tape_output),
        head: moved(c.head, act.motion),
    }
}

/// Growth never changes what any cell reads: a cell that was never written reads
/// as blank both before and after the tape grows.
pub proof fn lemma_growth_read_transparent(t: Seq<char>, pos: nat, i: int)
    ensures
        cell(grown(t, pos), i) == cell(t, i),
{
}

/// Appends `n` blanks to the tape.
fn extend_blank(tape: &mut Vec<char>, n: usize)
    ensures
        final(tape)@ == old(tape)@ + Seq::new(n as nat, |i: int| BLANK),
{
    let mut k: usize = 0;
    while k < n
        invariant
            k <= n,
            tape@ == old(tape)@ + Seq::new(k as nat, |i: int| BLANK),
        decreases n - k,
    {
        tape.push(BLANK);
        k = k + 1;
        assert(tape@ =~= old(tape)@ + Seq::new(k as nat, |i: int| BLANK));
    }
}

/// Applies `act` to the configuration held in `tape`, `position` and `state`.
pub fn apply_action(act: Action, tape: &mut Vec<char>, position: &mut usize, state: &mut usize)
    requires
        *old(position) <= old(tape).len(),
        has_room(old(tape)@),
    ensures
        applied(act, Config { state: *old(state), tape: old(tape)@, head: *old(position) as nat })
            == (Config { state: *final(state), tape: final(tape)@, head: *final(position) as nat }),
        *final(position) <= final(tape).len(),
{
    if *position >= tape.len() {
        let extra = tape.len() + 2;
        extend_blank(tape, extra);
    }
    tape.set(*position, act.tape_output);
    match act.motion {
        Motion::Right => *position = *position + 1,
        Motion::Left => *position = position.saturating_sub(1),
        Motion::Stay => {},
    }
    *state = act.next_state;
}

} // verus!
