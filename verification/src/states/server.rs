//! The states of a server.

use vstd::prelude::*;

verus! {

/// What a server is doing.
#[derive(Copy, Clone, Debug, PartialEq, Eq, Hash, Structural)]
pub enum GameState {
    Running,
}

impl Default for GameState {
    /// A server starts running.
    fn default() -> (state: GameState)
        ensures
            state == GameState::Running,
    {
        GameState::Running
    }
}

} // verus!
