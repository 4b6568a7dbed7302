//! Levels of rooms and corridors: the map that room placement leaves, with
//! doors on some of the door candidates, and the cell where the player
//! starts.

use crate::cell::LevelCell;
use crate::compose::is_room_map;
use crate::flood::{lemma_walk_back, lemma_walk_on, reachable};
use crate::geometry::{Coord, Rect, Size};
use crate::grid::{level_cells, level_set, level_size, mask_cells};
use crate::placement::{
    floor_mask, is_placement, is_room_tried, is_same_placement, joined_by_floor, on_a_ring,
    PlacementState, RoomPlacement,
};
use crate::random::{choose_room, gen_bool};
use crate::rooms::{lemma_centre_is_internal, Room};
use gridbugs::grid_2d::Grid;
use rand_isaac::Isaac64Rng;
use vstd::prelude::*;

verus! {

/// Why no level could be generated.
#[derive(Clone, Copy, Debug, PartialEq, Eq, Structural)]
pub enum GenerationError {
    /// Not one of the rooms that were tried could be placed.
    NoRoomsPlaced,
}

/// The number of rooms that are tried.
pub const NUM_ROOM_ATTEMPTS: usize = 50;

/// The least width of a room.
pub const MIN_ROOM_WIDTH: u32 = 5;

/// The least height of a room.
pub const MIN_ROOM_HEIGHT: u32 = 5;

/// The width that a room stays under.
pub const MAX_ROOM_WIDTH: u32 = 11;

/// The height that a room stays under.
pub const MAX_ROOM_HEIGHT: u32 = 9;

/// The cells of a map that are no wall, as a grid of flags.
pub open spec fn open_mask(cells: Map<Coord, LevelCell>, size: Size) -> Map<Coord, bool> {
    Map::new(|c: Coord| size.is_valid(c), |c: Coord| !cells[c].is_wall())
}

/// Whether a map and a starting cell make a sound level of rooms and
/// corridors: the map holds floor, wall and door only, and neither floor nor
/// door on its outermost ring; the player starts on floor; and a walk over
/// cells that are no wall leads from there to every such cell.
pub open spec fn is_rooms_level(cells: Map<Coord, LevelCell>, size: Size, spawn: Coord) -> bool {
    &&& size.fits()
    &&& is_room_map(cells, size)
    &&& forall|c: Coord| size.is_valid(c) && #[trigger] cells[c] != LevelCell::Wall ==> size.is_inner(c)
    &&& size.is_inner(spawn)
    &&& cells[spawn] == LevelCell::Floor
    &&& forall|c: Coord|
        size.is_valid(c) && #[trigger] cells[c] != LevelCell::Wall ==> reachable(
            open_mask(cells, size),
            size,
            set![spawn],
            c,
        )
}

/// Whether a level of rooms and corridors holds `rooms`: at least one and no
/// more than were tried, each of a size that is drawn, lying on the map,
/// with floor inside its ring; every door lies on the ring of one of them;
/// and the player starts in the centre of one of them.
pub open spec fn level_holds_rooms(
    cells: Map<Coord, LevelCell>,
    size: Size,
    spawn: Coord,
    rooms: Seq<Room>,
) -> bool {
    &&& 0 < rooms.len() <= NUM_ROOM_ATTEMPTS
    &&& forall|i: int|
        0 <= i < rooms.len() ==> {
            &&& (#[trigger] rooms[i]).rect.is_within(size)
            &&& MIN_ROOM_WIDTH <= rooms[i].rect.size.width < MAX_ROOM_WIDTH
            &&& MIN_ROOM_HEIGHT <= rooms[i].rect.size.height < MAX_ROOM_HEIGHT
        }
    &&& forall|i: int, c: Coord|
        0 <= i < rooms.len() && (#[trigger] rooms[i]).rect.is_internal(c) ==> #[trigger] cells[c]
            == LevelCell::Floor
    &&& forall|c: Coord|
        size.is_valid(c) && #[trigger] cells[c] == LevelCell::Door ==> on_a_ring(rooms, None, c)
    &&& exists|i: int| 0 <= i < rooms.len() && spawn == (#[trigger] rooms[i]).rect.spec_centre()
}

/// Whether `room` may be drawn for a map of extent `size`: it is of a size
/// that rooms have and lies on the map, a free column to its right and a
/// free row below it.
pub open spec fn is_drawn_room(room: Room, size: Size) -> bool {
    &&& MIN_ROOM_WIDTH <= room.rect.size.width < MAX_ROOM_WIDTH
    &&& MIN_ROOM_HEIGHT <= room.rect.size.height < MAX_ROOM_HEIGHT
    &&& room.rect.is_within(size)
    &&& room.rect.top_left.x + room.rect.size.width < size.width
    &&& room.rect.top_left.y + room.rect.size.height < size.height
}

/// Whether `after` is what one attempt makes of `before`: what trying a room
/// that may be drawn makes of it, or, on a map which not every room that may
/// be drawn fits, nothing.
pub open spec fn is_attempt(before: PlacementState, size: Size, after: PlacementState) -> bool {
    ||| (size.width < MAX_ROOM_WIDTH || size.height < MAX_ROOM_HEIGHT) && is_same_placement(
        before,
        after,
        size,
    )
    ||| exists|new_room: Room|
        is_drawn_room(new_room, size) && #[trigger] is_room_tried(before, size, new_room, after)
}

/// Whether `states` are the placements that the attempts lead through: the
/// first without rooms on a map of wall, each of the others what one attempt
/// makes of the one before.
pub open spec fn is_attempted(states: Seq<PlacementState>, size: Size) -> bool {
    &&& states.len() == NUM_ROOM_ATTEMPTS + 1
    &&& states[0].rooms.len() == 0
    &&& states[0].candidates.len() == 0
    &&& forall|c: Coord|
        size.is_valid(c) ==> (#[trigger] states[0].cells[c]) == LevelCell::Wall && !states[0].flags[c]
    &&& forall|i: int|
        0 <= i < NUM_ROOM_ATTEMPTS ==> is_attempt(#[trigger] states[i], size, states[i + 1])
}

/// Whether `cells` and `spawn` make a level of the placement `last`: each
/// cell is as placed, but that a door candidate may be a door; and the
/// player starts in the centre of a room.
pub open spec fn is_level_of(
    last: PlacementState,
    size: Size,
    cells: Map<Coord, LevelCell>,
    spawn: Coord,
) -> bool {
    &&& forall|c: Coord|
        size.is_valid(c) ==> #[trigger] cells[c] == last.cells[c] || (last.cells[c]
            == LevelCell::Floor && cells[c] == LevelCell::Door && last.candidates.contains(c))
    &&& exists|i: int|
        0 <= i < last.rooms.len() && spawn == (#[trigger] last.rooms[i]).rect.spec_centre()
}

/// Whether `cells` and `spawn` make a level that is generated by way of the
/// placements `states`.
pub open spec fn is_generated(
    states: Seq<PlacementState>,
    size: Size,
    cells: Map<Coord, LevelCell>,
    spawn: Coord,
) -> bool {
    is_attempted(states, size) && is_level_of(states.last(), size, cells, spawn)
}

/// Whether the attempts lead through `states` and end without a room.
pub open spec fn is_failed(states: Seq<PlacementState>, size: Size) -> bool {
    is_attempted(states, size) && states.last().rooms.len() == 0
}

/// A level of rooms and corridors: a map of floor, wall and door, and the
/// cell where the player starts.
pub struct RoomsAndCorridorsLevel {
    pub map: Grid<LevelCell>,
    pub player_spawn: Coord,
}

impl RoomsAndCorridorsLevel {
    /// The level is sound: see `is_rooms_level`.
    pub open spec fn wf(&self) -> bool {
        is_rooms_level(level_cells(self.map), level_size(self.map), self.player_spawn)
    }

    /// Whether the level holds `rooms`: see `level_holds_rooms`.
    pub open spec fn holds_rooms(&self, rooms: Seq<Room>) -> bool {
        level_holds_rooms(level_cells(self.map), level_size(self.map), self.player_spawn, rooms)
    }

    /// Generates a level of rooms and corridors. `NUM_ROOM_ATTEMPTS` rooms
    /// are tried, each a rectangle drawn with a width from `MIN_ROOM_WIDTH`
    /// to under `MAX_ROOM_WIDTH` and a height from `MIN_ROOM_HEIGHT` to under
    /// `MAX_ROOM_HEIGHT`; a room that cannot lie on the map is passed over.
    /// Then each door candidate becomes a door or stays floor by a random
    /// draw, and the player starts in the centre of a room drawn at random.
    ///
    /// A room is placed, and so a level returned, whenever the map is at
    /// least `MAX_ROOM_WIDTH` wide and `MAX_ROOM_HEIGHT` high. None is when
    /// the map is no wider than `MIN_ROOM_WIDTH` or no higher than
    /// `MIN_ROOM_HEIGHT`.
    pub fn generate(size: Size, rng: &mut Isaac64Rng) -> (level: Result<
        RoomsAndCorridorsLevel,
        GenerationError,
    >)
        requires
            size.fits(),
        ensures
            match level {
                Ok(level) => {
                    &&& level.wf()
                    &&& level_size(level.map) == size
                    &&& exists|rooms: Seq<Room>| level.holds_rooms(rooms)
                    &&& exists|states: Seq<PlacementState>|
                        is_generated(states, size, level_cells(level.map), level.player_spawn)
                },
                Err(error) => {
                    &&& error == GenerationError::NoRoomsPlaced
                    &&& size.width < MAX_ROOM_WIDTH || size.height < MAX_ROOM_HEIGHT
                    &&& exists|states: Seq<PlacementState>| is_failed(states, size)
                },
            },
            size.width <= MIN_ROOM_WIDTH || size.height <= MIN_ROOM_HEIGHT ==> level is Err,
    {
        let mut room_placement = RoomPlacement::new(size);
        let min_size = Size::new(MIN_ROOM_WIDTH, MIN_ROOM_HEIGHT);
        let max_size = Size::new(MAX_ROOM_WIDTH, MAX_ROOM_HEIGHT);
        let ghost mut states: Seq<PlacementState> = seq![room_placement.state()];
        let mut attempt: usize = 0;
        while attempt < NUM_ROOM_ATTEMPTS
            invariant
                0 <= attempt <= NUM_ROOM_ATTEMPTS,
                states.len() == attempt + 1,
                states[attempt as int] == room_placement.state(),
                states[0].rooms.len() == 0,
                states[0].candidates.len() == 0,
                forall|c: Coord|
                    size.is_valid(c) ==> (#[trigger] states[0].cells[c]) == LevelCell::Wall
                        && !states[0].flags[c],
                forall|i: int|
                    0 <= i < attempt ==> is_attempt(#[trigger] states[i], size, states[i + 1]),
                size.fits(),
                room_placement.wf(),
                room_placement.size() == size,
                min_size == Size::spec_new(MIN_ROOM_WIDTH, MIN_ROOM_HEIGHT),
                max_size == Size::spec_new(MAX_ROOM_WIDTH, MAX_ROOM_HEIGHT),
                attempt > 0 && size.width >= MAX_ROOM_WIDTH && size.height >= MAX_ROOM_HEIGHT
                    ==> room_placement.rooms@.len() > 0,
                size.width <= MIN_ROOM_WIDTH || size.height <= MIN_ROOM_HEIGHT
                    ==> room_placement.rooms@.len() == 0,
                room_placement.rooms@.len() <= attempt,
                forall|i: int|
                    0 <= i < room_placement.rooms@.len() ==> {
                        &&& MIN_ROOM_WIDTH <= (#[trigger] room_placement.rooms@[i]).rect.size.width
                            < MAX_ROOM_WIDTH
                        &&& MIN_ROOM_HEIGHT <= room_placement.rooms@[i].rect.size.height
                            < MAX_ROOM_HEIGHT
                    },
            decreases NUM_ROOM_ATTEMPTS - attempt,
        {
            let ghost before = room_placement.state();
            match Rect::pick(size, min_size, max_size, rng) {
                Some(rect) => {
                    let new_room = Room { rect };
                    proof {
                        if room_placement.rooms@.len() == 0 {
                            assert(!new_room.overlaps_floor(level_cells(room_placement.map)));
                        }
                    }
                    room_placement.try_add_room(new_room, rng);
                    proof {
                        assert(is_drawn_room(new_room, size));
                        assert(is_room_tried(before, size, new_room, room_placement.state()));
                    }
                },
                None => {
                    assert(is_same_placement(before, room_placement.state(), size));
                },
            }
            proof {
                let ghost earlier = states;
                states = states.push(room_placement.state());
                assert(is_attempt(before, size, room_placement.state()));
                assert forall|i: int| 0 <= i < attempt + 1 implies is_attempt(
                    #[trigger] states[i],
                    size,
                    states[i + 1],
                ) by {
                    if i < attempt {
                        assert(is_attempt(earlier[i], size, earlier[i + 1]));
                    }
                }
            }
            attempt += 1;
        }
        let RoomPlacement { rooms, edge_coords: _, door_candidates, map } = room_placement;
        let mut map = map;
        let ghost placed = level_cells(map);
        let ghost flags = mask_cells(room_placement.edge_coords);
        assert(states.last().rooms == rooms@ && states.last().candidates == door_candidates@
            && states.last().cells == placed);
        let mut j: usize = 0;
        while j < door_candidates.len()
            invariant
                0 <= j <= door_candidates.len(),
                level_size(map) == size,
                rooms@.len() <= NUM_ROOM_ATTEMPTS,
                forall|i: int|
                    0 <= i < rooms@.len() ==> {
                        &&& MIN_ROOM_WIDTH <= (#[trigger] rooms@[i]).rect.size.width
                            < MAX_ROOM_WIDTH
                        &&& MIN_ROOM_HEIGHT <= rooms@[i].rect.size.height < MAX_ROOM_HEIGHT
                    },
                is_placement(rooms@, flags, door_candidates@, placed, size, None),
                forall|c: Coord|
                    size.is_valid(c) ==> #[trigger] level_cells(map)[c] == placed[c] || (placed[c]
                        == LevelCell::Floor && level_cells(map)[c] == LevelCell::Door
                        && door_candidates@.contains(c)),
            decreases door_candidates.len() - j,
        {
            if gen_bool(rng) {
                assert(door_candidates@.contains(door_candidates[j as int]));
                level_set(&mut map, door_candidates[j], LevelCell::Door);
            }
            j += 1;
        }
        match choose_room(&rooms, rng) {
            Some(room) => {
                proof {
                    let cells = level_cells(map);
                    let spawn = room.rect.spec_centre();
                    let anchor = rooms@[0].rect.spec_centre();
                    let i = choose|i: int| 0 <= i < rooms@.len() && rooms@[i] == room;
                    assert(rooms@[i].fits_map(size));
                    lemma_centre_is_internal(room.rect);
                    lemma_centre_is_internal(rooms@[0].rect);
                    assert(rooms@[0].fits_map(size));
                    assert(placed[spawn] == LevelCell::Floor);
                    assert(placed[anchor] == LevelCell::Floor);
                    if cells[spawn] != placed[spawn] {
                        let q = choose|q: int|
                            0 <= q < door_candidates@.len() && door_candidates@[q] == spawn;
                        assert(!rooms@[i].rect.is_internal(door_candidates@[q]));
                    }
                    let floor = floor_mask(placed, size);
                    let open = open_mask(cells, size);
                    assert(open =~= floor);
                    assert(joined_by_floor(placed, size, anchor, spawn));
                    lemma_walk_back(floor, size, anchor, spawn);
                    assert forall|c: Coord|
                        size.is_valid(c) && #[trigger] cells[c] != LevelCell::Wall implies reachable(
                        open,
                        size,
                        set![spawn],
                        c,
                    ) by {
                        assert(placed[c] == LevelCell::Floor);
                        assert(joined_by_floor(placed, size, anchor, c));
                        lemma_walk_on(floor, size, set![spawn], anchor, c);
                    }
                }
                let level = RoomsAndCorridorsLevel { map, player_spawn: room.rect.centre() };
                proof {
                    let i = choose|i: int| 0 <= i < rooms@.len() && rooms@[i] == room;
                    assert(level.player_spawn == rooms@[i].rect.spec_centre());
                    assert forall|i: int, c: Coord|
                        0 <= i < rooms@.len() && (#[trigger] rooms@[i]).rect.is_internal(
                            c,
                        ) implies #[trigger] level_cells(level.map)[c] == LevelCell::Floor by {
                        assert(rooms@[i].fits_map(size));
                        assert(placed[c] == LevelCell::Floor);
                        if level_cells(level.map)[c] != placed[c] {
                            let q = choose|q: int|
                                0 <= q < door_candidates@.len() && door_candidates@[q] == c;
                            assert(!rooms@[i].rect.is_internal(door_candidates@[q]));
                        }
                    }
                    assert forall|c: Coord|
                        size.is_valid(c) && #[trigger] level_cells(level.map)[c]
                            == LevelCell::Door implies on_a_ring(rooms@, None, c) by {
                        let q = choose|q: int|
                            0 <= q < door_candidates@.len() && door_candidates@[q] == c;
                        assert(flags[door_candidates@[q]]);
                    }
                    assert(level.holds_rooms(rooms@));
                    assert(is_level_of(states.last(), size, level_cells(level.map), level.player_spawn));
                    assert(is_generated(states, size, level_cells(level.map), level.player_spawn));
                }
                Ok(level)
            },
            None => {
                assert(is_failed(states, size));
                Err(GenerationError::NoRoomsPlaced)
            },
        }
    }
}

} // verus!
