//! The plain values that the game around the terrain shares with it.

use vstd::prelude::*;

verus! {

/// Whether a door stands open or closed.
#[derive(Clone, Copy, Debug, PartialEq, Eq, Structural)]
pub enum DoorState {
    Open,
    Closed,
}

/// What is drawn for an entity.
#[derive(Clone, Copy, Debug, PartialEq, Eq, Structural)]
pub enum Tile {
    Player,
    Wall,
    DoorOpen,
    DoorClosed,
    Floor,
    CaveWall,
    CaveFloor,
    Water,
    Grass,
}

impl Tile {
    pub open spec fn spec_is_wall(&self) -> bool {
        *self == Tile::Wall || *self == Tile::DoorClosed || *self == Tile::DoorOpen
    }

    /// Whether the tile is drawn as part of a wall: a wall itself, or a door
    /// set into one, open or closed.
    #[verifier::when_used_as_spec(spec_is_wall)]
    pub fn is_wall(&self) -> (wall: bool)
        ensures
            wall == self.spec_is_wall(),
    {
        match self {
            Self::Wall | Self::DoorClosed | Self::DoorOpen => true,
            _ => false,
        }
    }
}

/// What the player has seen of one entity.
#[derive(Clone, Copy, Debug)]
pub struct VisibleEntityData {
    pub tile: Tile,
}

/// The settings that a game is started with.
#[derive(Clone, Copy, Debug)]
pub struct Config {
    /// The player sees the whole level at once.
    pub omniscient: bool,
    /// The seed of the level's random generator; none asks for a fresh one.
    pub rng_seed: Option<u64>,
}

/// The event by which an animated entity asks for its next colour.
#[derive(Clone, Copy, Debug)]
pub struct UpdateColourHint;

} // verus!
