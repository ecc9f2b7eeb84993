//! The states of a client.

use vstd::prelude::*;

verus! {

/// The flow of the game at run time.
#[derive(Copy, Clone, Debug, PartialEq, Eq, Hash, Structural)]
pub enum GameState {
    /// The menu.
    Menu,
    /// The main game loop: the world exists, with the player in it.
    InGame,
    /// The credits screen.
    Credits,
}

impl Default for GameState {
    /// A client starts in the menu.
    fn default() -> (state: GameState)
        ensures
            state == GameState::Menu,
    {
        GameState::Menu
    }
}

impl GameState {
    /// The state that follows this one when the player asks to move on:
    /// from the menu into the game, from the game to the credits, from the
    /// credits back to the menu.
    pub open spec fn following(self) -> GameState {
        match self {
            GameState::Menu => GameState::InGame,
            GameState::Credits => GameState::Menu,
            GameState::InGame => GameState::Credits,
        }
    }

    /// The state to change to when the player asks to move on.
    pub fn input_state_change(self) -> (next: GameState)
        ensures
            next == self.following(),
    {
        match self {
            GameState::Menu => GameState::InGame,
            GameState::Credits => GameState::Menu,
            GameState::InGame => GameState::Credits,
        }
    }

    /// The state a client falls back to when the server has been silent
    /// for too long.
    pub fn on_timeout() -> (next: GameState)
        ensures
            next == GameState::Menu,
    {
        GameState::Menu
    }
}

} // verus!
