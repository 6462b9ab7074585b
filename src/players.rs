//! Players: anything that picks a move for the player to move.

use vstd::prelude::*;

use crate::engine::{Action, PlayerHiddenState, PublicState};
use crate::moves::{action_list, MoveIter};

verus! {

/// A strategy: picks a move from what the player to move can see, at a
/// point where some move is open to them.
pub trait Player {
    fn choose_action(&self, public_state: &PublicState, hidden_state: &PlayerHiddenState) -> (r: Action)
        requires
            public_state.board@.len() <= 255,
            hidden_state.hand@.len() <= 255,
            action_list(public_state@, hidden_state.hand@).len() > 0,
    ;
}

/// Always plays the first move that the enumerator lists.
pub struct TrivialPlayer {}

impl Player for TrivialPlayer {
    fn choose_action(&self, public_state: &PublicState, hidden_state: &PlayerHiddenState) -> (r: Action)
        ensures
            r == action_list(public_state@, hidden_state.hand@)[0],
    {
        let mut move_iter = MoveIter::new(public_state, hidden_state);
        move_iter.next().unwrap()
    }
}

} // verus!
