//! Composition of a level from a rooms-and-corridors map and a cave map, and
//! the repairs that follow it: cave floor and water that cannot be reached
//! are closed off, and doors that have lost their frame become floor.

use crate::cell::LevelCell;
use crate::flood::{flood_fill, is_step, is_walk_to, lemma_reachable_monotone, reachable};
use crate::geometry::{
    around, comes_before, lemma_eight_around, lemma_push_contains, touching, Axis, Coord,
    Direction, Size,
};
use crate::grid::{
    level_cells, level_get, level_grid_size, level_set, level_size, mask_cells, mask_get,
    mask_set, mask_size, new_level_grid, new_mask,
};
use gridbugs::grid_2d::Grid;
use vstd::prelude::*;

verus! {

/// Every cell of the map is floor or wall.
pub open spec fn is_floor_or_wall_map(cells: Map<Coord, LevelCell>, size: Size) -> bool {
    forall|c: Coord| size.is_valid(c) ==> (#[trigger] cells[c]).is_floor_or_wall()
}

/// Every cell of the map is floor, wall or door.
pub open spec fn is_room_map(cells: Map<Coord, LevelCell>, size: Size) -> bool {
    forall|c: Coord| size.is_valid(c) ==> (#[trigger] cells[c]).is_room_kind()
}

/// Whether every cell of the map around `coord` is a wall of a room. Cells
/// beyond the edge of the map do not count.
pub open spec fn surrounded_by_walls(cells: Map<Coord, LevelCell>, size: Size, coord: Coord) -> bool {
    forall|n: Coord|
        touching(coord, n) && size.is_valid(n) ==> #[trigger] cells[n] == LevelCell::Wall
}

/// Whether the eight cells around `coord`, as far as they lie on the map,
/// are all walls of a room.
pub fn is_surrounded_by_walls(map: &Grid<LevelCell>, coord: Coord) -> (surrounded: bool)
    requires
        coord.can_offset(1, 1),
        coord.can_offset(-1, -1),
    ensures
        surrounded == surrounded_by_walls(level_cells(*map), level_size(*map), coord),
{
    let size = level_grid_size(map);
    let directions = Direction::all();
    let mut k: usize = 0;
    while k < 8
        invariant
            0 <= k <= 8,
            directions@ == Direction::spec_all(),
            size == level_size(*map),
            coord.can_offset(1, 1),
            coord.can_offset(-1, -1),
            forall|j: int|
                0 <= j < k && size.is_valid(#[trigger] around(coord, j)) ==> level_cells(
                    *map,
                )[around(coord, j)] == LevelCell::Wall,
        decreases 8 - k,
    {
        let next = coord.plus(directions[k].coord());
        assert(next == around(coord, k as int));
        if size.is_valid(next) && level_get(map, next) != LevelCell::Wall {
            assert(touching(coord, next));
            return false;
        }
        k += 1;
    }
    proof {
        assert forall|n: Coord| touching(coord, n) && size.is_valid(n) implies #[trigger] level_cells(
            *map,
        )[n] == LevelCell::Wall by {
            lemma_eight_around(coord, n);
            let j = choose|j: int| 0 <= j < 8 && n == #[trigger] around(coord, j);
            assert(size.is_valid(around(coord, j)));
        }
    }
    true
}

/// The cell of the composed level at `c`: cave floor where the cave is open;
/// elsewhere what the rooms-and-corridors map holds, but that a wall with
/// nothing but walls around it is cave rock.
pub open spec fn combined_cell(
    rooms: Map<Coord, LevelCell>,
    cave: Map<Coord, LevelCell>,
    size: Size,
    c: Coord,
) -> LevelCell {
    if cave[c] == LevelCell::Floor {
        LevelCell::CaveFloor
    } else if rooms[c] == LevelCell::Wall && surrounded_by_walls(rooms, size, c) {
        LevelCell::CaveWall
    } else {
        rooms[c]
    }
}

/// Lays the cave map over the rooms-and-corridors map. Where the cave is
/// open the level is cave floor. Elsewhere it keeps the floor, door or wall
/// of the rooms-and-corridors map, but that a wall whose surroundings in that
/// map are all wall becomes cave wall: in the composed level no such cell is
/// a plain wall.
pub fn combine_rooms_and_corridors_level_with_cave(
    rooms_and_corridors_level_map: &Grid<LevelCell>,
    cave_map: &Grid<LevelCell>,
) -> (level: Grid<LevelCell>)
    requires
        level_size(*cave_map).fits(),
        level_size(*rooms_and_corridors_level_map) == level_size(*cave_map),
        is_room_map(level_cells(*rooms_and_corridors_level_map), level_size(*cave_map)),
        is_floor_or_wall_map(level_cells(*cave_map), level_size(*cave_map)),
    ensures
        level_size(level) == level_size(*cave_map),
        forall|c: Coord|
            level_size(*cave_map).is_valid(c) ==> #[trigger] level_cells(level)[c] == combined_cell(
                level_cells(*rooms_and_corridors_level_map),
                level_cells(*cave_map),
                level_size(*cave_map),
                c,
            ),
        forall|c: Coord|
            level_size(*cave_map).is_valid(c) && level_cells(*rooms_and_corridors_level_map)[c]
                == LevelCell::Wall && surrounded_by_walls(
                level_cells(*rooms_and_corridors_level_map),
                level_size(*cave_map),
                c,
            ) ==> #[trigger] level_cells(level)[c] != LevelCell::Wall,
{
    let size = level_grid_size(cave_map);
    let width = size.width as i32;
    let height = size.height as i32;
    let mut level = new_level_grid(size, LevelCell::CaveFloor);
    let ghost rooms = level_cells(*rooms_and_corridors_level_map);
    let ghost cave = level_cells(*cave_map);
    let mut x: i32 = 0;
    let mut y: i32 = 0;
    while y < height
        invariant
            size == level_size(*cave_map),
            size == level_size(*rooms_and_corridors_level_map),
            size == level_size(level),
            size.fits(),
            rooms == level_cells(*rooms_and_corridors_level_map),
            cave == level_cells(*cave_map),
            width == size.width,
            height == size.height,
            0 <= x <= width,
            0 <= y <= height,
            forall|c: Coord|
                size.is_valid(c) && comes_before(c, x as int, y as int) ==> #[trigger] level_cells(
                    level,
                )[c] == combined_cell(rooms, cave, size, c),
        decreases height - y, width - x,
    {
        if x < width {
            let here = Coord::new(x, y);
            let cell = match level_get(cave_map, here) {
                LevelCell::Floor => LevelCell::CaveFloor,
                _ => match level_get(rooms_and_corridors_level_map, here) {
                    LevelCell::Wall => {
                        if is_surrounded_by_walls(rooms_and_corridors_level_map, here) {
                            LevelCell::CaveWall
                        } else {
                            LevelCell::Wall
                        }
                    },
                    other => other,
                },
            };
            level_set(&mut level, here, cell);
            x += 1;
        } else {
            x = 0;
            y += 1;
        }
    }
    level
}

/// Where a walk may go when unreachable floor is closed off: any cell that is
/// no wall, and any cell under water.
pub open spec fn is_passable(
    level: Map<Coord, LevelCell>,
    water: Map<Coord, bool>,
    c: Coord,
) -> bool {
    !level[c].is_wall() || water[c]
}

/// The cells where a walk may go, as a grid of flags.
pub open spec fn passable(
    level: Map<Coord, LevelCell>,
    water: Map<Coord, bool>,
    size: Size,
) -> Map<Coord, bool> {
    Map::new(|c: Coord| size.is_valid(c), |c: Coord| is_passable(level, water, c))
}

/// Whether a walk over passable cells leads from `spawn` to `c`.
pub open spec fn reachable_from_spawn(
    level: Map<Coord, LevelCell>,
    water: Map<Coord, bool>,
    size: Size,
    spawn: Coord,
    c: Coord,
) -> bool {
    reachable(passable(level, water, size), size, set![spawn], c)
}

/// What closing off does to a level and its water: a cell that no walk from
/// `spawn` reaches loses its water and, if it was cave floor, becomes cave
/// wall; every other cell is as before.
pub open spec fn is_closed_off(
    level: Map<Coord, LevelCell>,
    water: Map<Coord, bool>,
    size: Size,
    spawn: Coord,
    new_level: Map<Coord, LevelCell>,
    new_water: Map<Coord, bool>,
) -> bool {
    forall|c: Coord|
        #![trigger new_level[c]]
        #![trigger new_water[c]]
        size.is_valid(c) ==> {
            let reached = reachable_from_spawn(level, water, size, spawn, c);
            &&& new_level[c] == (if !reached && level[c] == LevelCell::CaveFloor {
                LevelCell::CaveWall
            } else {
                level[c]
            })
            &&& new_water[c] == (water[c] && reached)
        }
}

/// Closing off changes no walk from the spawn: the cells that a walk reaches
/// afterwards are those that one reached before.
pub proof fn lemma_closing_off_keeps_reach(
    level: Map<Coord, LevelCell>,
    water: Map<Coord, bool>,
    size: Size,
    spawn: Coord,
    new_level: Map<Coord, LevelCell>,
    new_water: Map<Coord, bool>,
    c: Coord,
)
    requires
        is_closed_off(level, water, size, spawn, new_level, new_water),
    ensures
        reachable_from_spawn(new_level, new_water, size, spawn, c) == reachable_from_spawn(
            level,
            water,
            size,
            spawn,
            c,
        ),
{
    let before = passable(level, water, size);
    let after = passable(new_level, new_water, size);
    let starts = set![spawn];
    if reachable(after, size, starts, c) {
        assert forall|d: Coord| size.is_valid(d) && #[trigger] after[d] implies before[d] by {
            assert(new_level[d] == new_level[d]);
            assert(new_water[d] == new_water[d]);
        }
        lemma_reachable_monotone(after, before, size, starts, starts, c);
    }
    if reachable(before, size, starts, c) {
        let path = choose|path: Seq<Coord>| is_walk_to(before, size, starts, path, c);
        assert forall|i: int| 0 < i < path.len() implies is_step(
            after,
            size,
            path[i - 1],
            #[trigger] path[i],
        ) by {
            assert(is_step(before, size, path[i - 1], path[i]));
            let prefix = path.take(i + 1);
            assert forall|j: int| 0 < j < prefix.len() implies is_step(
                before,
                size,
                prefix[j - 1],
                #[trigger] prefix[j],
            ) by {
                assert(is_step(before, size, path[j - 1], path[j]));
            }
            assert(is_walk_to(before, size, starts, prefix, path[i]));
            assert(reachable_from_spawn(level, water, size, spawn, path[i]));
            assert(new_level[path[i]] == level[path[i]]);
            assert(new_water[path[i]] == water[path[i]]);
        }
        assert(is_walk_to(after, size, starts, path, c));
    }
}

/// After closing off, every cell that is open ground or under water is
/// reached by a walk from the spawn over such cells, provided that the rooms
/// were: closing off takes no floor or door of a room away, so one that no
/// walk reached before is still cut off.
pub proof fn lemma_closed_off_level_is_connected(
    level: Map<Coord, LevelCell>,
    water: Map<Coord, bool>,
    size: Size,
    spawn: Coord,
    new_level: Map<Coord, LevelCell>,
    new_water: Map<Coord, bool>,
    c: Coord,
)
    requires
        is_closed_off(level, water, size, spawn, new_level, new_water),
        forall|d: Coord|
            size.is_valid(d) && (#[trigger] level[d] == LevelCell::Floor || level[d]
                == LevelCell::Door) ==> reachable_from_spawn(level, water, size, spawn, d),
        size.is_valid(c),
        is_passable(new_level, new_water, c),
    ensures
        reachable_from_spawn(new_level, new_water, size, spawn, c),
{
    lemma_closing_off_keeps_reach(level, water, size, spawn, new_level, new_water, c);
    assert(new_level[c] == new_level[c]);
    assert(new_water[c] == new_water[c]);
}

/// The cells where a walk may go, as a grid of flags.
fn passable_mask(map: &Grid<LevelCell>, water_map: &Grid<bool>) -> (open: Grid<bool>)
    requires
        level_size(*map).fits(),
        mask_size(*water_map) == level_size(*map),
    ensures
        mask_size(open) == level_size(*map),
        mask_cells(open) == passable(level_cells(*map), mask_cells(*water_map), level_size(*map)),
{
    let size = level_grid_size(map);
    let width = size.width as i32;
    let height = size.height as i32;
    let mut open = new_mask(size, false);
    let mut x: i32 = 0;
    let mut y: i32 = 0;
    while y < height
        invariant
            size == level_size(*map),
            size == mask_size(*water_map),
            size == mask_size(open),
            size.fits(),
            width == size.width,
            height == size.height,
            0 <= x <= width,
            0 <= y <= height,
            mask_cells(open).dom() == Set::new(|c: Coord| size.is_valid(c)),
            forall|c: Coord|
                size.is_valid(c) && comes_before(c, x as int, y as int) ==> #[trigger] mask_cells(
                    open,
                )[c] == is_passable(level_cells(*map), mask_cells(*water_map), c),
        decreases height - y, width - x,
    {
        if x < width {
            let here = Coord::new(x, y);
            let flag = !level_get(map, here).is_wall() || mask_get(water_map, here);
            mask_set(&mut open, here, flag);
            assert(mask_cells(open).dom() =~= Set::new(|c: Coord| size.is_valid(c)));
            x += 1;
        } else {
            x = 0;
            y += 1;
        }
    }
    assert(mask_cells(open) =~= passable(level_cells(*map), mask_cells(*water_map), size));
    open
}

/// Closes off what the player cannot reach. A walk starts on `player_spawn`
/// and goes, by steps to the four cells beside a cell, over any cell that is
/// no wall or lies under water. A cell that no such walk reaches loses its
/// water and, if it is cave floor, becomes cave wall. Nothing else changes,
/// so the same walks exist afterwards.
pub fn remove_unreachable_floor(
    map: &mut Grid<LevelCell>,
    water_map: &mut Grid<bool>,
    player_spawn: Coord,
)
    requires
        level_size(*old(map)).fits(),
        mask_size(*old(water_map)) == level_size(*old(map)),
        level_size(*old(map)).is_valid(player_spawn),
    ensures
        level_size(*final(map)) == level_size(*old(map)),
        mask_size(*final(water_map)) == level_size(*old(map)),
        is_closed_off(
            level_cells(*old(map)),
            mask_cells(*old(water_map)),
            level_size(*old(map)),
            player_spawn,
            level_cells(*final(map)),
            mask_cells(*final(water_map)),
        ),
        forall|c: Coord|
            level_size(*old(map)).is_valid(c) && (#[trigger] level_cells(*final(map))[c]
                == LevelCell::CaveFloor || mask_cells(*final(water_map))[c])
                ==> reachable_from_spawn(
                level_cells(*final(map)),
                mask_cells(*final(water_map)),
                level_size(*old(map)),
                player_spawn,
                c,
            ),
{
    let size = level_grid_size(map);
    let width = size.width as i32;
    let height = size.height as i32;
    let open = passable_mask(map, water_map);
    let mut starts: Vec<Coord> = Vec::new();
    starts.push(player_spawn);
    assert(starts@.to_set() =~= set![player_spawn]) by {
        assert(starts@[0] == player_spawn);
    }
    let seen = flood_fill(&open, &starts);
    let ghost level = level_cells(*map);
    let ghost water = mask_cells(*water_map);
    let mut x: i32 = 0;
    let mut y: i32 = 0;
    while y < height
        invariant
            size == level_size(*map),
            size == mask_size(*water_map),
            size == mask_size(seen),
            size.fits(),
            width == size.width,
            height == size.height,
            0 <= x <= width,
            0 <= y <= height,
            forall|c: Coord|
                size.is_valid(c) ==> (#[trigger] mask_cells(seen)[c] <==> reachable_from_spawn(
                    level,
                    water,
                    size,
                    player_spawn,
                    c,
                )),
            forall|c: Coord|
                #![trigger level_cells(*map)[c]]
                #![trigger mask_cells(*water_map)[c]]
                size.is_valid(c) ==> {
                    let shut = comes_before(c, x as int, y as int) && !mask_cells(seen)[c];
                    &&& level_cells(*map)[c] == (if shut && level[c] == LevelCell::CaveFloor {
                        LevelCell::CaveWall
                    } else {
                        level[c]
                    })
                    &&& mask_cells(*water_map)[c] == (water[c] && !shut)
                },
        decreases height - y, width - x,
    {
        if x < width {
            let here = Coord::new(x, y);
            if !mask_get(&seen, here) {
                mask_set(water_map, here, false);
                if level_get(map, here) == LevelCell::CaveFloor {
                    level_set(map, here, LevelCell::CaveWall);
                }
            }
            x += 1;
        } else {
            x = 0;
            y += 1;
        }
    }
    proof {
        let new_level = level_cells(*map);
        let new_water = mask_cells(*water_map);
        assert(is_closed_off(level, water, size, player_spawn, new_level, new_water));
        assert forall|c: Coord|
            size.is_valid(c) && (#[trigger] new_level[c] == LevelCell::CaveFloor
                || new_water[c]) implies reachable_from_spawn(
            new_level,
            new_water,
            size,
            player_spawn,
            c,
        ) by {
            lemma_closing_off_keeps_reach(level, water, size, player_spawn, new_level, new_water, c);
        }
    }
}

/// Whether `coord` has open ground on both sides along `axis` and wall on
/// both sides across it.
pub open spec fn valid_door_position_axis(
    cells: Map<Coord, LevelCell>,
    coord: Coord,
    axis: Axis,
) -> bool {
    let along = Coord::spec_new_axis(1, 0, axis);
    let across = Coord::spec_new_axis(0, 1, axis);
    &&& cells[coord.offset(along.x as int, along.y as int)].is_floor()
    &&& cells[coord.offset(-along.x, -along.y)].is_floor()
    &&& cells[coord.offset(across.x as int, across.y as int)].is_wall()
    &&& cells[coord.offset(-across.x, -across.y)].is_wall()
}

/// Whether a door at `coord` stands in a frame: open ground on both sides
/// along one axis and wall on both sides along the other.
pub open spec fn valid_door_position(cells: Map<Coord, LevelCell>, coord: Coord) -> bool {
    valid_door_position_axis(cells, coord, Axis::X) || valid_door_position_axis(
        cells,
        coord,
        Axis::Y,
    )
}

/// Whether `coord`, a cell off the outermost ring of the map, has open
/// ground on both sides along `axis` and wall on both sides across it.
pub fn is_valid_door_position_axis(map: &Grid<LevelCell>, coord: Coord, axis: Axis) -> (valid: bool)
    requires
        level_size(*map).fits(),
        level_size(*map).is_inner(coord),
    ensures
        valid == valid_door_position_axis(level_cells(*map), coord, axis),
{
    let axis_delta = Coord::new_axis(1, 0, axis);
    let other_axis_delta = Coord::new_axis(0, 1, axis);
    let floor_in_axis = level_get(map, coord.plus(axis_delta)).is_floor() && level_get(
        map,
        coord.minus(axis_delta),
    ).is_floor();
    let wall_in_other_axis = level_get(map, coord.plus(other_axis_delta)).is_wall() && level_get(
        map,
        coord.minus(other_axis_delta),
    ).is_wall();
    floor_in_axis && wall_in_other_axis
}

/// Whether a door at `coord`, a cell off the outermost ring of the map,
/// would stand in a frame.
pub fn is_valid_door_position(map: &Grid<LevelCell>, coord: Coord) -> (valid: bool)
    requires
        level_size(*map).fits(),
        level_size(*map).is_inner(coord),
    ensures
        valid == valid_door_position(level_cells(*map), coord),
{
    is_valid_door_position_axis(map, coord, Axis::X) || is_valid_door_position_axis(
        map,
        coord,
        Axis::Y,
    )
}

/// No door stands on the outermost ring of the map.
pub open spec fn doors_are_inner(cells: Map<Coord, LevelCell>, size: Size) -> bool {
    forall|c: Coord|
        size.is_valid(c) && #[trigger] cells[c] == LevelCell::Door ==> size.is_inner(c)
}

/// What door repair does to a level: a door without a frame becomes floor;
/// every other cell is as before.
pub open spec fn is_door_repaired(
    level: Map<Coord, LevelCell>,
    size: Size,
    new_level: Map<Coord, LevelCell>,
) -> bool {
    forall|c: Coord|
        size.is_valid(c) ==> #[trigger] new_level[c] == (if level[c] == LevelCell::Door
            && !valid_door_position(level, c) {
            LevelCell::Floor
        } else {
            level[c]
        })
}

/// After door repair every door stands in a frame. A door that stood in one
/// before has neither a door nor anything else that changes beside it.
pub proof fn lemma_repaired_doors_are_valid(
    level: Map<Coord, LevelCell>,
    size: Size,
    new_level: Map<Coord, LevelCell>,
    c: Coord,
)
    requires
        size.fits(),
        doors_are_inner(level, size),
        is_door_repaired(level, size, new_level),
        size.is_valid(c),
        new_level[c] == LevelCell::Door,
    ensures
        valid_door_position(new_level, c),
{
    assert(level[c] == LevelCell::Door);
    assert(size.is_inner(c));
    assert(valid_door_position(level, c));
    let east = c.offset(1, 0);
    let west = c.offset(-1, 0);
    let south = c.offset(0, 1);
    let north = c.offset(0, -1);
    assert(new_level[east] == level[east]);
    assert(new_level[west] == level[west]);
    assert(new_level[south] == level[south]);
    assert(new_level[north] == level[north]);
}

/// The doors of the level that stand without a frame, row by row.
fn invalid_doors(map: &Grid<LevelCell>) -> (doors: Vec<Coord>)
    requires
        level_size(*map).fits(),
        doors_are_inner(level_cells(*map), level_size(*map)),
    ensures
        forall|c: Coord|
            #[trigger] doors@.contains(c) <==> level_size(*map).is_valid(c) && level_cells(
                *map,
            )[c] == LevelCell::Door && !valid_door_position(level_cells(*map), c),
{
    let size = level_grid_size(map);
    let width = size.width as i32;
    let height = size.height as i32;
    let mut doors: Vec<Coord> = Vec::new();
    let mut x: i32 = 0;
    let mut y: i32 = 0;
    while y < height
        invariant
            size == level_size(*map),
            size.fits(),
            doors_are_inner(level_cells(*map), size),
            width == size.width,
            height == size.height,
            0 <= x <= width,
            0 <= y <= height,
            forall|c: Coord|
                #[trigger] doors@.contains(c) <==> size.is_valid(c) && comes_before(
                    c,
                    x as int,
                    y as int,
                ) && level_cells(*map)[c] == LevelCell::Door && !valid_door_position(
                    level_cells(*map),
                    c,
                ),
        decreases height - y, width - x,
    {
        if x < width {
            let here = Coord::new(x, y);
            if level_get(map, here) == LevelCell::Door && !is_valid_door_position(map, here) {
                let ghost before = doors@;
                doors.push(here);
                proof {
                    lemma_push_contains(before, here);
                }
            }
            x += 1;
        } else {
            x = 0;
            y += 1;
        }
    }
    doors
}

/// Turns every door that stands without a frame into floor. Whether a door
/// has a frame is judged on the level as it is handed in. Afterwards every
/// door of the level stands in a frame: open ground on both sides along one
/// axis and wall on both sides along the other.
pub fn remove_invalid_doors(map: &mut Grid<LevelCell>)
    requires
        level_size(*old(map)).fits(),
        doors_are_inner(level_cells(*old(map)), level_size(*old(map))),
    ensures
        level_size(*final(map)) == level_size(*old(map)),
        is_door_repaired(level_cells(*old(map)), level_size(*old(map)), level_cells(*final(map))),
        forall|c: Coord|
            level_size(*old(map)).is_valid(c) && #[trigger] level_cells(*final(map))[c]
                == LevelCell::Door ==> valid_door_position(level_cells(*final(map)), c),
{
    let ghost level = level_cells(*map);
    let ghost size = level_size(*map);
    let to_remove = invalid_doors(map);
    let mut i: usize = 0;
    while i < to_remove.len()
        invariant
            0 <= i <= to_remove.len(),
            size == level_size(*map),
            forall|c: Coord|
                #[trigger] to_remove@.contains(c) <==> size.is_valid(c) && level[c]
                    == LevelCell::Door && !valid_door_position(level, c),
            forall|j: int| 0 <= j < i ==> level_cells(*map)[#[trigger] to_remove[j]] == LevelCell::Floor,
            forall|c: Coord|
                size.is_valid(c) ==> #[trigger] level_cells(*map)[c] == level[c] || (level_cells(
                    *map,
                )[c] == LevelCell::Floor && to_remove@.contains(c)),
        decreases to_remove.len() - i,
    {
        let coord = to_remove[i];
        assert(to_remove@.contains(coord));
        level_set(map, coord, LevelCell::Floor);
        i += 1;
    }
    proof {
        let new_level = level_cells(*map);
        assert forall|c: Coord| size.is_valid(c) implies #[trigger] new_level[c] == (if level[c]
            == LevelCell::Door && !valid_door_position(level, c) {
            LevelCell::Floor
        } else {
            level[c]
        }) by {
            if to_remove@.contains(c) {
                let j = choose|j: int| 0 <= j < to_remove.len() && to_remove[j] == c;
                assert(new_level[to_remove[j]] == LevelCell::Floor);
            }
        }
        assert forall|c: Coord|
            size.is_valid(c) && #[trigger] new_level[c] == LevelCell::Door implies valid_door_position(
            new_level,
            c,
        ) by {
            lemma_repaired_doors_are_valid(level, size, new_level, c);
        }
    }
}

} // verus!
