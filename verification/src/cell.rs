//! The kinds of cell that a level is made of.

use vstd::prelude::*;

verus! {

/// A cell of a level. The maps of the earlier stages use only some of the
/// kinds: a rooms-and-corridors map or a cave map under construction holds
/// `Floor` and `Wall`, a finished rooms-and-corridors map may hold `Door`
/// too, and only the composed level holds the two cave kinds.
#[derive(Clone, Copy, Debug, PartialEq, Eq, Structural)]
pub enum LevelCell {
    Floor,
    Wall,
    Door,
    CaveFloor,
    CaveWall,
}

impl LevelCell {
    pub open spec fn spec_is_wall(&self) -> bool {
        *self == LevelCell::Wall || *self == LevelCell::CaveWall
    }

    /// Whether the cell blocks movement: a wall of a room or of a cave.
    #[verifier::when_used_as_spec(spec_is_wall)]
    pub fn is_wall(&self) -> (wall: bool)
        ensures
            wall == self.spec_is_wall(),
    {
        match self {
            Self::Wall | Self::CaveWall => true,
            _ => false,
        }
    }

    pub open spec fn spec_is_floor(&self) -> bool {
        *self == LevelCell::Floor || *self == LevelCell::CaveFloor
    }

    /// Whether the cell is open ground: the floor of a room or of a cave.
    #[verifier::when_used_as_spec(spec_is_floor)]
    pub fn is_floor(&self) -> (floor: bool)
        ensures
            floor == self.spec_is_floor(),
    {
        match self {
            Self::Floor | Self::CaveFloor => true,
            _ => false,
        }
    }

    /// A kind that a map of floor and wall may hold.
    pub open spec fn is_floor_or_wall(&self) -> bool {
        *self == LevelCell::Floor || *self == LevelCell::Wall
    }

    /// A kind that a rooms-and-corridors map may hold.
    pub open spec fn is_room_kind(&self) -> bool {
        *self == LevelCell::Floor || *self == LevelCell::Wall || *self == LevelCell::Door
    }
}

} // verus!
