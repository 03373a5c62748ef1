//! The session mode: either placing cells by hand or running the simulation.

use vstd::prelude::*;

verus! {

/// The two modes of an interactive session. In `Placing` mode the user edits
/// the live-cell set; in `Playing` mode the stepper runs once per frame.
#[derive(Clone, Copy, PartialEq, Eq, Structural, Debug)]
pub enum GameState {
    Placing,
    Playing,
}

impl GameState {
    /// Switch between the two modes.
    pub fn toggle(&mut self)
        ensures
            *old(self) is Placing ==> *final(self) is Playing,
            *old(self) is Playing ==> *final(self) is Placing,
    {
        match self {
            GameState::Placing => *self = GameState::Playing,
            GameState::Playing => *self = GameState::Placing,
        }
    }
}

} // verus!
