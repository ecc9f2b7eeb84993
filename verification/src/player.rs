//! What the synchronisation core knows of a player: where it stands and
//! what it last asked for.

use vstd::prelude::*;

verus! {

/// A player's position in block units. Each coordinate is held as the bit
/// pattern of a single-precision number; the core passes it on unread.
#[derive(Copy, Clone, Debug, PartialEq, Eq, Structural)]
pub struct PlayerPosition {
    pub x: u32,
    pub y: u32,
}

impl Default for PlayerPosition {
    fn default() -> (position: PlayerPosition)
        ensures
            position == (PlayerPosition { x: 0, y: 0 }),
    {
        PlayerPosition { x: 0, y: 0 }
    }
}

/// All inputs that a client tells the server.
#[derive(Copy, Clone, Debug, PartialEq, Eq, Structural)]
pub struct PlayerInput {
    pub left: bool,
    pub right: bool,
    pub jump: bool,
    /// Whether the block at (`block_x`, `block_y`) was clicked on.
    pub mine: bool,
    pub block_x: usize,
    pub block_y: usize,
}

impl PlayerInput {
    /// The input of a player who asks for nothing.
    pub open spec fn idle() -> PlayerInput {
        PlayerInput {
            left: false,
            right: false,
            jump: false,
            mine: false,
            block_x: 0,
            block_y: 0,
        }
    }
}

impl Default for PlayerInput {
    fn default() -> (input: PlayerInput)
        ensures
            input == PlayerInput::idle(),
    {
        PlayerInput { left: false, right: false, jump: false, mine: false, block_x: 0, block_y: 0 }
    }
}

} // verus!
