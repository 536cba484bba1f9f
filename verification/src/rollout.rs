//! Rollouts: playing a position to the end with uniformly random moves.
//!
//! The caller plays the moves; the engine decides, position by position,
//! whether the rollout goes on and with which move.

use crate::node::ShallowNode;
use crate::random::choose_between;
use rand::rngs::StdRng;
use vstd::prelude::*;

verus! {

impl<S> ShallowNode<S> {
    /// The next step of a rollout that started at this node and has reached
    /// a position that `is_over` or not and offers `num_actions` legal moves
    /// to the player whose turn it is. The rollout stops where the game is
    /// over, and also where it is not but no move is legal; otherwise it goes
    /// on with the move at the index returned, drawn uniformly.
    pub fn simulate(&self, is_over: bool, num_actions: usize, rng: &mut StdRng) -> (step: Option<
        usize,
    >)
        ensures
            step is None <==> is_over || num_actions == 0,
            step matches Some(i) ==> i < num_actions,
    {
        if is_over {
            return None;
        }
        choose_between(rng, 0, num_actions)
    }
}

} // verus!
