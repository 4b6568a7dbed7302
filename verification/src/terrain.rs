//! The finished terrain of a level: the composed map with its water and
//! grass, the cell where the player starts, and what stands on each cell.

use crate::cave::{generate_cave_map, is_cave_from};
use crate::cell::LevelCell;
use crate::compose::{
    combine_rooms_and_corridors_level_with_cave, combined_cell, is_closed_off, is_door_repaired,
    is_floor_or_wall_map, is_passable, lemma_closed_off_level_is_connected, passable,
    reachable_from_spawn, remove_invalid_doors, remove_unreachable_floor, surrounded_by_walls,
    valid_door_position,
};
use crate::flood::{lemma_reachable_monotone, reachable};
use crate::geometry::{comes_before, precedes, touching, Coord, Size};
use crate::grid::{
    level_cells, level_get, level_grid_size, level_size, mask_cells, mask_get, mask_size,
};
use crate::random::gen_range;
use crate::level::{
    is_generated, is_rooms_level, level_holds_rooms, open_mask, GenerationError,
    RoomsAndCorridorsLevel, MAX_ROOM_HEIGHT, MAX_ROOM_WIDTH, MIN_ROOM_HEIGHT, MIN_ROOM_WIDTH,
};
use crate::placement::PlacementState;
use crate::rooms::Room;
use crate::overlay::{leaks, make_grass_map, make_water_map};
use gridbugs::grid_2d::Grid;
use rand_isaac::Isaac64Rng;
use vstd::prelude::*;

verus! {

/// What the ground of a finished cell is.
#[derive(Clone, Copy, Debug, PartialEq, Eq, Structural)]
pub enum Ground {
    Floor,
    Wall,
    Door,
    CaveFloor,
    CaveWall,
    Water,
}

/// What stands on a finished cell: its ground, and whether grass grows on it.
#[derive(Clone, Copy, Debug, PartialEq, Eq, Structural)]
pub struct TerrainCell {
    pub ground: Ground,
    pub grass: bool,
}

/// Out of a hundred walls under water, the number that stay walls.
pub const WALLS_KEPT_OF_HUNDRED: u32 = 75;

/// What stands on a cell of the level. Under water a floor or a door is
/// water, a wall is a wall if `wall_stays` and water if not, and a cave cell
/// is water on which grass grows where `grass` is set. Off the water a cell
/// is what the level holds, and grass grows on cave floor where `grass` is
/// set.
pub open spec fn spec_terrain_cell(
    cell: LevelCell,
    water: bool,
    grass: bool,
    wall_stays: bool,
) -> TerrainCell {
    if water {
        match cell {
            LevelCell::Floor | LevelCell::Door => TerrainCell { ground: Ground::Water, grass: false },
            LevelCell::Wall => TerrainCell {
                ground: if wall_stays {
                    Ground::Wall
                } else {
                    Ground::Water
                },
                grass: false,
            },
            LevelCell::CaveFloor | LevelCell::CaveWall => TerrainCell { ground: Ground::Water, grass },
        }
    } else {
        match cell {
            LevelCell::Floor => TerrainCell { ground: Ground::Floor, grass: false },
            LevelCell::Wall => TerrainCell { ground: Ground::Wall, grass: false },
            LevelCell::Door => TerrainCell { ground: Ground::Door, grass: false },
            LevelCell::CaveFloor => TerrainCell { ground: Ground::CaveFloor, grass },
            LevelCell::CaveWall => TerrainCell { ground: Ground::CaveWall, grass: false },
        }
    }
}

/// What stands on a cell of the level, given what the level holds there,
/// whether it lies under water, whether grass may grow there, and whether a
/// wall under water stays a wall.
#[verifier::when_used_as_spec(spec_terrain_cell)]
pub fn terrain_cell(cell: LevelCell, water: bool, grass: bool, wall_stays: bool) -> (finished:
    TerrainCell)
    ensures
        finished == spec_terrain_cell(cell, water, grass, wall_stays),
{
    if water {
        match cell {
            LevelCell::Floor | LevelCell::Door => TerrainCell { ground: Ground::Water, grass: false },
            LevelCell::Wall => {
                if wall_stays {
                    TerrainCell { ground: Ground::Wall, grass: false }
                } else {
                    TerrainCell { ground: Ground::Water, grass: false }
                }
            },
            LevelCell::CaveFloor | LevelCell::CaveWall => TerrainCell { ground: Ground::Water, grass },
        }
    } else {
        match cell {
            LevelCell::Floor => TerrainCell { ground: Ground::Floor, grass: false },
            LevelCell::Wall => TerrainCell { ground: Ground::Wall, grass: false },
            LevelCell::Door => TerrainCell { ground: Ground::Door, grass: false },
            LevelCell::CaveFloor => TerrainCell { ground: Ground::CaveFloor, grass },
            LevelCell::CaveWall => TerrainCell { ground: Ground::CaveWall, grass: false },
        }
    }
}

/// Whether `finished` may stand on a cell: it is what `spec_terrain_cell`
/// gives for a wall under water that stays, or for one that does not.
pub open spec fn is_terrain_cell(
    finished: TerrainCell,
    cell: LevelCell,
    water: bool,
    grass: bool,
) -> bool {
    finished == spec_terrain_cell(cell, water, grass, true) || finished == spec_terrain_cell(
        cell,
        water,
        grass,
        false,
    )
}

/// The finished terrain of a level.
pub struct Terrain {
    /// The composed level after its repairs.
    pub map: Grid<LevelCell>,
    /// The cells under water.
    pub water_map: Grid<bool>,
    /// The cells where grass may grow.
    pub grass_map: Grid<bool>,
    /// The cell where the player starts.
    pub player_spawn: Coord,
    /// What stands on each cell, the cells walked row by row.
    pub cells: Vec<(Coord, TerrainCell)>,
}

impl Terrain {
    /// The extent of the terrain.
    pub open spec fn size(&self) -> Size {
        level_size(self.map)
    }

    /// The player starts on open ground off the outermost ring, and a walk
    /// from there, over cells that are no wall or lie under water, leads to
    /// every such cell.
    pub open spec fn is_connected(&self) -> bool {
        let level = level_cells(self.map);
        let water = mask_cells(self.water_map);
        &&& self.size().is_inner(self.player_spawn)
        &&& level[self.player_spawn].is_floor()
        &&& forall|c: Coord|
            self.size().is_valid(c) && #[trigger] is_passable(level, water, c)
                ==> reachable_from_spawn(level, water, self.size(), self.player_spawn, c)
    }

    /// Whether the level and its water are composed from `rooms`, the map of
    /// a generated level of rooms and corridors in which the player starts
    /// where they start here, and `cave`, a cave map made from some grid of
    /// live cells, with `noise` for the water.
    pub open spec fn is_composed_from(
        &self,
        rooms: Map<Coord, LevelCell>,
        cave: Map<Coord, LevelCell>,
        noise: Map<Coord, bool>,
    ) -> bool {
        &&& is_rooms_level(rooms, self.size(), self.player_spawn)
        &&& exists|placed: Seq<Room>|
            level_holds_rooms(rooms, self.size(), self.player_spawn, placed)
        &&& exists|states: Seq<PlacementState>|
            is_generated(states, self.size(), rooms, self.player_spawn)
        &&& exists|alive: Map<Coord, bool>| is_cave_from(cave, alive, self.size())
        &&& forall|c: Coord|
            #![trigger level_cells(self.map)[c]]
            #![trigger mask_cells(self.water_map)[c]]
            self.size().is_valid(c) ==> {
                &&& level_cells(self.map)[c] == composed_level(
                    rooms,
                    cave,
                    noise,
                    self.size(),
                    self.player_spawn,
                )[c]
                &&& mask_cells(self.water_map)[c] == composed_water(
                    rooms,
                    cave,
                    noise,
                    self.size(),
                    self.player_spawn,
                )[c]
            }
    }

    /// Every door stands in a frame: open ground on both sides along one
    /// axis and wall on both sides along the other.
    pub open spec fn doors_are_valid(&self) -> bool {
        forall|c: Coord|
            self.size().is_valid(c) && #[trigger] level_cells(self.map)[c] == LevelCell::Door
                ==> valid_door_position(level_cells(self.map), c)
    }

    /// Every plain wall touches a cell that is no wall: a wall with nothing
    /// but wall around it is cave wall.
    pub open spec fn walls_are_exposed(&self) -> bool {
        forall|c: Coord|
            self.size().is_valid(c) && #[trigger] level_cells(self.map)[c] == LevelCell::Wall
                ==> exists|n: Coord|
                touching(c, n) && self.size().is_valid(n) && !(#[trigger] level_cells(
                    self.map,
                )[n]).is_wall()
    }

    /// No cell on the outermost ring lies under water.
    pub open spec fn water_is_enclosed(&self) -> bool {
        forall|c: Coord|
            self.size().is_on_edge(c) ==> !#[trigger] mask_cells(self.water_map)[c]
    }

    /// `cells` lists every cell of the terrain once, row by row, each with
    /// what may stand on it given the level, the water and the grass.
    pub open spec fn lists_every_cell(&self) -> bool {
        &&& forall|i: int, j: int|
            0 <= i < j < self.cells@.len() ==> precedes(
                (#[trigger] self.cells@[i]).0,
                (#[trigger] self.cells@[j]).0,
            )
        &&& forall|c: Coord|
            self.size().is_valid(c) ==> exists|i: int|
                0 <= i < self.cells@.len() && (#[trigger] self.cells@[i]).0 == c
        &&& forall|i: int|
            0 <= i < self.cells@.len() ==> {
                let c = (#[trigger] self.cells@[i]).0;
                &&& self.size().is_valid(c)
                &&& is_terrain_cell(
                    self.cells@[i].1,
                    level_cells(self.map)[c],
                    mask_cells(self.water_map)[c],
                    mask_cells(self.grass_map)[c],
                )
            }
    }
}

/// Whether the player starts on open ground off the outermost ring and a
/// walk from there leads to every cell that is no wall or lies under water.
pub open spec fn is_connected_level(
    level: Map<Coord, LevelCell>,
    water: Map<Coord, bool>,
    size: Size,
    spawn: Coord,
) -> bool {
    &&& size.is_inner(spawn)
    &&& level[spawn].is_floor()
    &&& forall|c: Coord|
        size.is_valid(c) && #[trigger] is_passable(level, water, c) ==> reachable_from_spawn(
            level,
            water,
            size,
            spawn,
            c,
        )
}

/// Whether every plain wall of the level touches a cell that is no wall.
pub open spec fn has_exposed_walls(level: Map<Coord, LevelCell>, size: Size) -> bool {
    forall|c: Coord|
        size.is_valid(c) && #[trigger] level[c] == LevelCell::Wall ==> exists|n: Coord|
            touching(c, n) && size.is_valid(n) && !(#[trigger] level[n]).is_wall()
}

/// A level composed from a sound level of rooms and corridors and a cave
/// map, and then closed off, is connected, has its plain walls exposed and
/// its doors off the outermost ring.
proof fn lemma_closed_level(
    rooms: Map<Coord, LevelCell>,
    cave: Map<Coord, LevelCell>,
    size: Size,
    spawn: Coord,
    combined: Map<Coord, LevelCell>,
    drained: Map<Coord, bool>,
    closed: Map<Coord, LevelCell>,
    water: Map<Coord, bool>,
)
    requires
        size.fits(),
        forall|c: Coord| size.is_valid(c) ==> (#[trigger] rooms[c]).is_room_kind(),
        forall|c: Coord| size.is_valid(c) ==> (#[trigger] cave[c]).is_floor_or_wall(),
        forall|c: Coord| size.is_valid(c) && #[trigger] rooms[c] != LevelCell::Wall ==> size.is_inner(c),
        size.is_inner(spawn),
        rooms[spawn] == LevelCell::Floor,
        forall|c: Coord|
            size.is_valid(c) && #[trigger] rooms[c] != LevelCell::Wall ==> reachable(
                open_mask(rooms, size),
                size,
                set![spawn],
                c,
            ),
        forall|c: Coord|
            size.is_valid(c) ==> #[trigger] combined[c] == combined_cell(rooms, cave, size, c),
        is_closed_off(combined, drained, size, spawn, closed, water),
    ensures
        is_connected_level(closed, water, size, spawn),
        has_exposed_walls(closed, size),
        forall|c: Coord|
            size.is_valid(c) && #[trigger] closed[c] == LevelCell::Door ==> size.is_inner(c),
{
    let open = open_mask(rooms, size);
    let wide = passable(combined, drained, size);
    assert forall|d: Coord| size.is_valid(d) && #[trigger] open[d] implies wide[d] by {
        assert(combined[d] == combined_cell(rooms, cave, size, d));
    }
    assert forall|d: Coord|
        size.is_valid(d) && rooms[d] != LevelCell::Wall implies #[trigger] reachable_from_spawn(
        combined,
        drained,
        size,
        spawn,
        d,
    ) by {
        lemma_reachable_monotone(open, wide, size, set![spawn], set![spawn], d);
    }
    assert forall|d: Coord|
        size.is_valid(d) && rooms[d] != LevelCell::Wall implies closed[d] == combined[d]
        && !(#[trigger] closed[d]).is_wall() by {
        assert(reachable_from_spawn(combined, drained, size, spawn, d));
        assert(combined[d] == combined_cell(rooms, cave, size, d));
    }
    assert(closed[spawn].is_floor()) by {
        assert(combined[spawn] == combined_cell(rooms, cave, size, spawn));
    }
    assert forall|c: Coord|
        size.is_valid(c) && #[trigger] is_passable(closed, water, c) implies reachable_from_spawn(
        closed,
        water,
        size,
        spawn,
        c,
    ) by {
        assert forall|d: Coord|
            size.is_valid(d) && (#[trigger] combined[d] == LevelCell::Floor || combined[d]
                == LevelCell::Door) implies reachable_from_spawn(combined, drained, size, spawn, d) by {
            assert(combined[d] == combined_cell(rooms, cave, size, d));
            assert(rooms[d] != LevelCell::Wall);
        }
        lemma_closed_off_level_is_connected(combined, drained, size, spawn, closed, water, c);
    }
    assert forall|c: Coord| size.is_valid(c) && #[trigger] closed[c] == LevelCell::Wall implies exists|
        n: Coord,
    |
        touching(c, n) && size.is_valid(n) && !(#[trigger] closed[n]).is_wall() by {
        assert(combined[c] == combined_cell(rooms, cave, size, c));
        assert(rooms[c] == LevelCell::Wall);
        assert(!surrounded_by_walls(rooms, size, c));
        let n = choose|n: Coord| touching(c, n) && size.is_valid(n) && #[trigger] rooms[n] != LevelCell::Wall;
        assert(!closed[n].is_wall());
    }
    assert forall|c: Coord| size.is_valid(c) && #[trigger] closed[c] == LevelCell::Door implies size.is_inner(
        c,
    ) by {
        assert(combined[c] == combined_cell(rooms, cave, size, c));
        assert(rooms[c] == LevelCell::Door);
    }
}

/// Door repair keeps a level connected and its plain walls exposed: a door
/// that becomes floor stays open ground.
proof fn lemma_repaired_level(
    closed: Map<Coord, LevelCell>,
    water: Map<Coord, bool>,
    size: Size,
    spawn: Coord,
    repaired: Map<Coord, LevelCell>,
)
    requires
        is_connected_level(closed, water, size, spawn),
        has_exposed_walls(closed, size),
        is_door_repaired(closed, size, repaired),
    ensures
        is_connected_level(repaired, water, size, spawn),
        has_exposed_walls(repaired, size),
{
    assert(passable(repaired, water, size) =~= passable(closed, water, size)) by {
        assert forall|c: Coord| size.is_valid(c) implies is_passable(repaired, water, c)
            == is_passable(closed, water, c) by {
            assert(repaired[c] == repaired[c]);
        }
    }
    assert(repaired[spawn] == closed[spawn]);
    assert forall|c: Coord|
        size.is_valid(c) && #[trigger] is_passable(repaired, water, c) implies reachable_from_spawn(
        repaired,
        water,
        size,
        spawn,
        c,
    ) by {
        assert(repaired[c] == repaired[c]);
        assert(is_passable(closed, water, c));
    }
    assert forall|c: Coord| size.is_valid(c) && #[trigger] repaired[c] == LevelCell::Wall implies exists|
        n: Coord,
    |
        touching(c, n) && size.is_valid(n) && !(#[trigger] repaired[n]).is_wall() by {
        assert(closed[c] == LevelCell::Wall);
        let n = choose|n: Coord|
            touching(c, n) && size.is_valid(n) && !(#[trigger] closed[n]).is_wall();
        assert(!repaired[n].is_wall());
    }
}

/// The cave map laid over the rooms-and-corridors map.
pub open spec fn combined_map(
    rooms: Map<Coord, LevelCell>,
    cave: Map<Coord, LevelCell>,
    size: Size,
) -> Map<Coord, LevelCell> {
    Map::new(|c: Coord| size.is_valid(c), |c: Coord| combined_cell(rooms, cave, size, c))
}

/// The water that `noise` flags, less every pool that touches the edge.
pub open spec fn drained_water(noise: Map<Coord, bool>, size: Size) -> Map<Coord, bool> {
    Map::new(|c: Coord| size.is_valid(c), |c: Coord| noise[c] && !leaks(noise, size, c))
}

/// The level with the cave floor that no walk from `spawn` reaches turned
/// into cave wall.
pub open spec fn closed_map(
    level: Map<Coord, LevelCell>,
    water: Map<Coord, bool>,
    size: Size,
    spawn: Coord,
) -> Map<Coord, LevelCell> {
    Map::new(
        |c: Coord| size.is_valid(c),
        |c: Coord|
            if !reachable_from_spawn(level, water, size, spawn, c) && level[c]
                == LevelCell::CaveFloor {
                LevelCell::CaveWall
            } else {
                level[c]
            },
    )
}

/// The water that a walk from `spawn` reaches.
pub open spec fn closed_water(
    level: Map<Coord, LevelCell>,
    water: Map<Coord, bool>,
    size: Size,
    spawn: Coord,
) -> Map<Coord, bool> {
    Map::new(
        |c: Coord| size.is_valid(c),
        |c: Coord| water[c] && reachable_from_spawn(level, water, size, spawn, c),
    )
}

/// The level with every door that stands without a frame turned into floor.
pub open spec fn repaired_map(level: Map<Coord, LevelCell>, size: Size) -> Map<Coord, LevelCell> {
    Map::new(
        |c: Coord| size.is_valid(c),
        |c: Coord|
            if level[c] == LevelCell::Door && !valid_door_position(level, c) {
                LevelCell::Floor
            } else {
                level[c]
            },
    )
}

/// The level that is composed from a rooms-and-corridors map, a cave map and
/// water noise for a player who starts on `spawn`.
pub open spec fn composed_level(
    rooms: Map<Coord, LevelCell>,
    cave: Map<Coord, LevelCell>,
    noise: Map<Coord, bool>,
    size: Size,
    spawn: Coord,
) -> Map<Coord, LevelCell> {
    repaired_map(
        closed_map(combined_map(rooms, cave, size), drained_water(noise, size), size, spawn),
        size,
    )
}

/// The water of the level that is composed from a rooms-and-corridors map, a
/// cave map and water noise for a player who starts on `spawn`.
pub open spec fn composed_water(
    rooms: Map<Coord, LevelCell>,
    cave: Map<Coord, LevelCell>,
    noise: Map<Coord, bool>,
    size: Size,
    spawn: Coord,
) -> Map<Coord, bool> {
    closed_water(combined_map(rooms, cave, size), drained_water(noise, size), size, spawn)
}

/// The maps that the steps of composition give hold, cell by cell, what
/// `composed_level` and `composed_water` say.
proof fn lemma_steps_compose(
    rooms: Map<Coord, LevelCell>,
    cave: Map<Coord, LevelCell>,
    noise: Map<Coord, bool>,
    size: Size,
    spawn: Coord,
    combined: Map<Coord, LevelCell>,
    drained: Map<Coord, bool>,
    closed: Map<Coord, LevelCell>,
    water: Map<Coord, bool>,
    repaired: Map<Coord, LevelCell>,
)
    requires
        size.fits(),
        forall|c: Coord|
            size.is_valid(c) ==> #[trigger] combined[c] == combined_cell(rooms, cave, size, c),
        forall|c: Coord|
            size.is_valid(c) ==> (#[trigger] drained[c] <==> (noise[c] && !leaks(noise, size, c))),
        is_closed_off(combined, drained, size, spawn, closed, water),
        forall|c: Coord|
            size.is_valid(c) && #[trigger] closed[c] == LevelCell::Door ==> size.is_inner(c),
        is_door_repaired(closed, size, repaired),
    ensures
        forall|c: Coord|
            size.is_valid(c) ==> #[trigger] repaired[c] == composed_level(
                rooms,
                cave,
                noise,
                size,
                spawn,
            )[c],
        forall|c: Coord|
            size.is_valid(c) ==> #[trigger] water[c] == composed_water(
                rooms,
                cave,
                noise,
                size,
                spawn,
            )[c],
{
    let combined_spec = combined_map(rooms, cave, size);
    let drained_spec = drained_water(noise, size);
    let closed_spec = closed_map(combined_spec, drained_spec, size, spawn);
    assert(passable(combined, drained, size) =~= passable(combined_spec, drained_spec, size));
    assert forall|c: Coord| size.is_valid(c) implies #[trigger] closed[c] == closed_spec[c]
        && water[c] == composed_water(rooms, cave, noise, size, spawn)[c] by {
        assert(water[c] == water[c]);
    }
    assert forall|c: Coord| size.is_valid(c) implies #[trigger] repaired[c] == composed_level(
        rooms,
        cave,
        noise,
        size,
        spawn,
    )[c] by {
        assert(closed[c] == closed_spec[c]);
        if closed[c] == LevelCell::Door {
            assert(closed[c.offset(1, 0)] == closed_spec[c.offset(1, 0)]);
            assert(closed[c.offset(-1, 0)] == closed_spec[c.offset(-1, 0)]);
            assert(closed[c.offset(0, 1)] == closed_spec[c.offset(0, 1)]);
            assert(closed[c.offset(0, -1)] == closed_spec[c.offset(0, -1)]);
        }
    }
}

/// Composes a level from a level of rooms and corridors, a cave map and
/// water noise. The cave map is laid over the rooms-and-corridors map; every
/// pool of the noise that touches the edge of the map is drained; cave floor
/// and water that the player cannot reach are closed off; doors without a
/// frame become floor. The result is the level and its water.
///
/// Both are fixed by what is handed in. The level is connected, its doors
/// are valid, its plain walls are exposed and its water is enclosed.
pub fn compose_level(
    rooms_and_corridors: &RoomsAndCorridorsLevel,
    cave_map: &Grid<LevelCell>,
    water_noise: Grid<bool>,
) -> (composed: (Grid<LevelCell>, Grid<bool>))
    requires
        rooms_and_corridors.wf(),
        level_size(*cave_map) == level_size(rooms_and_corridors.map),
        mask_size(water_noise) == level_size(rooms_and_corridors.map),
        is_floor_or_wall_map(level_cells(*cave_map), level_size(*cave_map)),
    ensures
        level_size(composed.0) == level_size(*cave_map),
        mask_size(composed.1) == level_size(*cave_map),
        forall|c: Coord|
            level_size(*cave_map).is_valid(c) ==> #[trigger] level_cells(composed.0)[c]
                == composed_level(
                level_cells(rooms_and_corridors.map),
                level_cells(*cave_map),
                mask_cells(water_noise),
                level_size(*cave_map),
                rooms_and_corridors.player_spawn,
            )[c],
        forall|c: Coord|
            level_size(*cave_map).is_valid(c) ==> #[trigger] mask_cells(composed.1)[c]
                == composed_water(
                level_cells(rooms_and_corridors.map),
                level_cells(*cave_map),
                mask_cells(water_noise),
                level_size(*cave_map),
                rooms_and_corridors.player_spawn,
            )[c],
        is_connected_level(
            level_cells(composed.0),
            mask_cells(composed.1),
            level_size(*cave_map),
            rooms_and_corridors.player_spawn,
        ),
        has_exposed_walls(level_cells(composed.0), level_size(*cave_map)),
        forall|c: Coord|
            level_size(*cave_map).is_valid(c) && #[trigger] level_cells(composed.0)[c]
                == LevelCell::Door ==> valid_door_position(level_cells(composed.0), c),
        forall|c: Coord|
            level_size(*cave_map).is_on_edge(c) ==> !#[trigger] mask_cells(composed.1)[c],
        forall|c: Coord|
            level_size(*cave_map).is_valid(c) && #[trigger] mask_cells(composed.1)[c]
                ==> mask_cells(water_noise)[c],
{
    let ghost size = level_size(*cave_map);
    let ghost noise = mask_cells(water_noise);
    let player_spawn = rooms_and_corridors.player_spawn;
    let mut combined_map = combine_rooms_and_corridors_level_with_cave(
        &rooms_and_corridors.map,
        cave_map,
    );
    let mut water_map = make_water_map(water_noise);
    let ghost combined = level_cells(combined_map);
    let ghost drained = mask_cells(water_map);
    remove_unreachable_floor(&mut combined_map, &mut water_map, player_spawn);
    let ghost closed = level_cells(combined_map);
    proof {
        lemma_closed_level(
            level_cells(rooms_and_corridors.map),
            level_cells(*cave_map),
            size,
            player_spawn,
            combined,
            drained,
            closed,
            mask_cells(water_map),
        );
    }
    remove_invalid_doors(&mut combined_map);
    proof {
        lemma_repaired_level(
            closed,
            mask_cells(water_map),
            size,
            player_spawn,
            level_cells(combined_map),
        );
        lemma_steps_compose(
            level_cells(rooms_and_corridors.map),
            level_cells(*cave_map),
            noise,
            size,
            player_spawn,
            combined,
            drained,
            closed,
            mask_cells(water_map),
            level_cells(combined_map),
        );
        assert forall|c: Coord| size.is_on_edge(c) implies !#[trigger] mask_cells(water_map)[c] by {
            assert(!drained[c]);
        }
        assert forall|c: Coord|
            size.is_valid(c) && #[trigger] mask_cells(water_map)[c] implies noise[c] by {
            assert(drained[c]);
        }
    }
    (combined_map, water_map)
}

/// Composition leaves nothing open: two terrains of one extent that are
/// composed from the same rooms-and-corridors map, the same cave map and the
/// same water noise, for a player who starts on the same cell, hold the same
/// level and the same water.
pub proof fn lemma_composition_is_determined(
    first: Terrain,
    second: Terrain,
    rooms: Map<Coord, LevelCell>,
    cave: Map<Coord, LevelCell>,
    noise: Map<Coord, bool>,
    c: Coord,
)
    requires
        first.size() == second.size(),
        first.player_spawn == second.player_spawn,
        first.is_composed_from(rooms, cave, noise),
        second.is_composed_from(rooms, cave, noise),
        first.size().is_valid(c),
    ensures
        level_cells(first.map)[c] == level_cells(second.map)[c],
        mask_cells(first.water_map)[c] == mask_cells(second.water_map)[c],
{
}

/// Lists what stands on each cell of the level, the cells walked row by
/// row. For each wall under water a number under a hundred is drawn, and the
/// wall stays if the number is under `WALLS_KEPT_OF_HUNDRED`.
pub fn finish_cells(
    map: &Grid<LevelCell>,
    water_map: &Grid<bool>,
    grass_map: &Grid<bool>,
    rng: &mut Isaac64Rng,
) -> (cells: Vec<(Coord, TerrainCell)>)
    requires
        level_size(*map).fits(),
        mask_size(*water_map) == level_size(*map),
        mask_size(*grass_map) == level_size(*map),
    ensures
        forall|i: int, j: int|
            0 <= i < j < cells@.len() ==> precedes((#[trigger] cells@[i]).0, (#[trigger] cells@[j]).0),
        forall|c: Coord|
            level_size(*map).is_valid(c) ==> exists|i: int|
                0 <= i < cells@.len() && (#[trigger] cells@[i]).0 == c,
        forall|i: int|
            0 <= i < cells@.len() ==> {
                let c = (#[trigger] cells@[i]).0;
                &&& level_size(*map).is_valid(c)
                &&& is_terrain_cell(
                    cells@[i].1,
                    level_cells(*map)[c],
                    mask_cells(*water_map)[c],
                    mask_cells(*grass_map)[c],
                )
            },
{
    let size = level_grid_size(map);
    let width = size.width as i32;
    let height = size.height as i32;
    let mut cells: Vec<(Coord, TerrainCell)> = Vec::new();
    let mut x: i32 = 0;
    let mut y: i32 = 0;
    while y < height
        invariant
            size == level_size(*map),
            size == mask_size(*water_map),
            size == mask_size(*grass_map),
            size.fits(),
            width == size.width,
            height == size.height,
            0 <= x <= width,
            0 <= y <= height,
            forall|i: int, j: int|
                0 <= i < j < cells@.len() ==> precedes(
                    (#[trigger] cells@[i]).0,
                    (#[trigger] cells@[j]).0,
                ),
            forall|c: Coord|
                size.is_valid(c) && comes_before(c, x as int, y as int) ==> exists|i: int|
                    0 <= i < cells@.len() && (#[trigger] cells@[i]).0 == c,
            forall|i: int|
                0 <= i < cells@.len() ==> {
                    let c = (#[trigger] cells@[i]).0;
                    &&& size.is_valid(c)
                    &&& comes_before(c, x as int, y as int)
                    &&& is_terrain_cell(
                        cells@[i].1,
                        level_cells(*map)[c],
                        mask_cells(*water_map)[c],
                        mask_cells(*grass_map)[c],
                    )
                },
        decreases height - y, width - x,
    {
        if x < width {
            let here = Coord::new(x, y);
            let cell = level_get(map, here);
            let water = mask_get(water_map, here);
            let grass = mask_get(grass_map, here);
            let wall_stays = if water && cell == LevelCell::Wall {
                gen_range(rng, 0, 100) < WALLS_KEPT_OF_HUNDRED
            } else {
                true
            };
            let ghost listed = cells@;
            cells.push((here, terrain_cell(cell, water, grass, wall_stays)));
            proof {
                assert(cells@[listed.len() as int].0 == here);
                assert forall|i: int| 0 <= i < listed.len() implies #[trigger] cells@[i]
                    == listed[i] by {}
                assert forall|c: Coord|
                    size.is_valid(c) && comes_before(c, x + 1, y as int) implies exists|i: int|
                    0 <= i < cells@.len() && (#[trigger] cells@[i]).0 == c by {
                    if c != here {
                        let i = choose|i: int| 0 <= i < listed.len() && (#[trigger] listed[i]).0 == c;
                        assert(cells@[i].0 == c);
                    }
                }
            }
            x += 1;
        } else {
            x = 0;
            y += 1;
        }
    }
    cells
}

impl Terrain {
    /// Generates the terrain of a level of extent `world_size`.
    ///
    /// A level of rooms and corridors and a cave map are generated and
    /// composed. `water_noise` flags where water may stand and `grass_noise`
    /// where grass may grow; both come from noise that the caller makes.
    /// Every pool that touches the edge of the map is drained, what the
    /// player cannot reach is closed off, and doors without a frame become
    /// floor. Then the grass is drawn, and what stands on each cell is listed.
    ///
    /// The terrain is connected, its doors are valid, its plain walls are
    /// exposed and its water is enclosed. There is no terrain where no room
    /// could be placed: never on a map at least `MAX_ROOM_WIDTH` wide and
    /// `MAX_ROOM_HEIGHT` high, always on one no wider than `MIN_ROOM_WIDTH`
    /// or no higher than `MIN_ROOM_HEIGHT`.
    pub fn generate(
        world_size: Size,
        water_noise: Grid<bool>,
        grass_noise: &Grid<bool>,
        rng: &mut Isaac64Rng,
    ) -> (terrain: Result<Terrain, GenerationError>)
        requires
            world_size.fits(),
            world_size.width > 0,
            world_size.height > 0,
            mask_size(water_noise) == world_size,
            mask_size(*grass_noise) == world_size,
        ensures
            match terrain {
                Ok(terrain) => {
                    &&& terrain.size() == world_size
                    &&& mask_size(terrain.water_map) == world_size
                    &&& mask_size(terrain.grass_map) == world_size
                    &&& terrain.is_connected()
                    &&& terrain.doors_are_valid()
                    &&& terrain.walls_are_exposed()
                    &&& terrain.water_is_enclosed()
                    &&& terrain.lists_every_cell()
                    &&& exists|rooms: Map<Coord, LevelCell>, cave: Map<Coord, LevelCell>|
                        #[trigger] terrain.is_composed_from(rooms, cave, mask_cells(water_noise))
                    &&& forall|c: Coord|
                        world_size.is_valid(c) && #[trigger] mask_cells(terrain.water_map)[c]
                            ==> mask_cells(water_noise)[c]
                    &&& forall|c: Coord|
                        world_size.is_valid(c) && #[trigger] mask_cells(terrain.grass_map)[c]
                            ==> mask_cells(*grass_noise)[c]
                },
                Err(error) => error == GenerationError::NoRoomsPlaced && (world_size.width
                    < MAX_ROOM_WIDTH || world_size.height < MAX_ROOM_HEIGHT),
            },
            world_size.width <= MIN_ROOM_WIDTH || world_size.height <= MIN_ROOM_HEIGHT
                ==> terrain is Err,
    {
        let rooms_and_corridors = match RoomsAndCorridorsLevel::generate(world_size, rng) {
            Ok(level) => level,
            Err(error) => {
                return Err(error);
            },
        };
        let player_spawn = rooms_and_corridors.player_spawn;
        let cave_map = generate_cave_map(world_size, rng);
        let (map, water_map) = compose_level(&rooms_and_corridors, &cave_map, water_noise);
        let grass_map = make_grass_map(grass_noise, rng);
        let cells = finish_cells(&map, &water_map, &grass_map, rng);
        let terrain = Terrain { map, water_map, grass_map, player_spawn, cells };
        assert(terrain.is_composed_from(
            level_cells(rooms_and_corridors.map),
            level_cells(cave_map),
            mask_cells(water_noise),
        ));
        Ok(terrain)
    }
}

} // verus!
