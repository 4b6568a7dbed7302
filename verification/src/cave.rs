//! Caves grown by a cellular automaton on a grid of live and dead cells.

use crate::cell::LevelCell;
use crate::compose::is_floor_or_wall_map;
use crate::flood::{
    flood_fill, is_step, is_walk_to, lemma_start_reachable, lemma_step_reachable, reachable,
};
use crate::geometry::{around, comes_before, Coord, Direction, Size};
use crate::grid::{
    level_cells, level_get, level_grid_size, level_set, level_size, mask_cells, mask_get,
    mask_grid_size, mask_set, mask_size, new_level_grid, new_mask,
};
use crate::random::gen_bool;
use gridbugs::grid_2d::Grid;
use rand_isaac::Isaac64Rng;
use vstd::prelude::*;

verus! {

/// The rule of the automaton: a live cell stays alive with `survive_min` to
/// `survive_max` live cells around it, a dead cell comes alive with
/// `resurrect_min` to `resurrect_max`.
#[derive(Clone, Copy, Debug, PartialEq, Eq, Structural)]
pub struct GameOfLifeParams {
    pub survive_min: u8,
    pub survive_max: u8,
    pub resurrect_min: u8,
    pub resurrect_max: u8,
}

/// The number of generations that a cave is grown for.
pub const NUM_STEPS: usize = 10;

/// The rule that grows caves: it favours large open regions.
pub open spec fn cave_params() -> GameOfLifeParams {
    GameOfLifeParams { survive_min: 4, survive_max: 8, resurrect_min: 5, resurrect_max: 5 }
}

/// The number of live cells among the first `k` of the eight cells around
/// `c`. A cell beyond the edge of the grid counts as dead.
pub open spec fn live_around(cells: Map<Coord, bool>, size: Size, c: Coord, k: int) -> nat
    decreases k,
{
    if k <= 0 {
        0
    } else {
        let next = around(c, k - 1);
        let here: nat = if size.is_valid(next) && cells[next] {
            1
        } else {
            0
        };
        live_around(cells, size, c, k - 1) + here
    }
}

/// Whether the cell at `c` is alive in the next generation.
pub open spec fn next_alive(
    cells: Map<Coord, bool>,
    size: Size,
    params: GameOfLifeParams,
    c: Coord,
) -> bool {
    let n = live_around(cells, size, c, 8);
    if cells[c] {
        params.survive_min <= n <= params.survive_max
    } else {
        params.resurrect_min <= n <= params.resurrect_max
    }
}

/// The next generation of a grid.
pub open spec fn next_generation(
    cells: Map<Coord, bool>,
    size: Size,
    params: GameOfLifeParams,
) -> Map<Coord, bool> {
    Map::new(|c: Coord| size.is_valid(c), |c: Coord| next_alive(cells, size, params, c))
}

/// The grid after `steps` generations.
pub open spec fn evolve(
    cells: Map<Coord, bool>,
    size: Size,
    params: GameOfLifeParams,
    steps: nat,
) -> Map<Coord, bool>
    decreases steps,
{
    if steps == 0 {
        cells
    } else {
        next_generation(evolve(cells, size, params, (steps - 1) as nat), size, params)
    }
}

/// Two grids that agree on every cell have the same live cells around a cell.
proof fn lemma_live_around_agrees(
    a: Map<Coord, bool>,
    b: Map<Coord, bool>,
    size: Size,
    c: Coord,
    k: int,
)
    requires
        forall|d: Coord| size.is_valid(d) ==> a[d] == b[d],
    ensures
        live_around(a, size, c, k) == live_around(b, size, c, k),
    decreases k,
{
    if k > 0 {
        lemma_live_around_agrees(a, b, size, c, k - 1);
    }
}

/// The state of the automaton: the live cells, and a second grid of the same
/// size in which the next generation is built.
pub struct GameOfLife {
    pub alive: Grid<bool>,
    pub next: Grid<bool>,
}

impl GameOfLife {
    /// The extent of the automaton's grid.
    pub open spec fn size(&self) -> Size {
        mask_size(self.alive)
    }

    /// The two grids have the same extent, one that can be addressed.
    pub open spec fn wf(&self) -> bool {
        mask_size(self.next) == mask_size(self.alive) && mask_size(self.alive).fits()
    }

    /// An automaton in which each cell is alive or dead by a random draw, the
    /// cells drawn row by row.
    pub fn new(size: Size, rng: &mut Isaac64Rng) -> (life: GameOfLife)
        requires
            size.fits(),
        ensures
            life.wf(),
            life.size() == size,
    {
        let width = size.width as i32;
        let height = size.height as i32;
        let mut alive = new_mask(size, false);
        let mut x: i32 = 0;
        let mut y: i32 = 0;
        while y < height
            invariant
                size == mask_size(alive),
                size.fits(),
                width == size.width,
                height == size.height,
                0 <= x <= width,
                0 <= y <= height,
            decreases height - y, width - x,
        {
            if x < width {
                let flag = gen_bool(rng);
                mask_set(&mut alive, Coord::new(x, y), flag);
                x += 1;
            } else {
                x = 0;
                y += 1;
            }
        }
        let next = new_mask(size, false);
        GameOfLife { alive, next }
    }

    /// The number of live cells among the eight around `coord`.
    fn count_live_around(&self, coord: Coord) -> (n: u8)
        requires
            self.wf(),
            self.size().is_valid(coord),
        ensures
            n == live_around(mask_cells(self.alive), self.size(), coord, 8),
    {
        let size = mask_grid_size(&self.alive);
        let directions = Direction::all();
        let mut n: u8 = 0;
        let mut k: usize = 0;
        while k < 8
            invariant
                0 <= k <= 8,
                directions@ == Direction::spec_all(),
                size == mask_size(self.alive),
                size.fits(),
                size.is_valid(coord),
                n == live_around(mask_cells(self.alive), size, coord, k as int),
                n <= k,
            decreases 8 - k,
        {
            let next = coord.plus(directions[k].coord());
            assert(next == around(coord, k as int));
            if size.is_valid(next) && mask_get(&self.alive, next) {
                n += 1;
            }
            k += 1;
        }
        n
    }

    /// Advances the automaton by one generation: a live cell stays alive if
    /// the number of live cells around it lies from `survive_min` to
    /// `survive_max`, a dead cell comes alive if it lies from `resurrect_min`
    /// to `resurrect_max`, and every other cell is dead.
    pub fn step(&mut self, params: &GameOfLifeParams)
        requires
            old(self).wf(),
        ensures
            final(self).wf(),
            final(self).size() == old(self).size(),
            forall|c: Coord|
                old(self).size().is_valid(c) ==> #[trigger] mask_cells(final(self).alive)[c]
                    == next_alive(mask_cells(old(self).alive), old(self).size(), *params, c),
    {
        let size = mask_grid_size(&self.alive);
        let width = size.width as i32;
        let height = size.height as i32;
        let ghost cells = mask_cells(self.alive);
        let mut x: i32 = 0;
        let mut y: i32 = 0;
        while y < height
            invariant
                self.wf(),
                size == self.size(),
                cells == mask_cells(self.alive),
                width == size.width,
                height == size.height,
                0 <= x <= width,
                0 <= y <= height,
                forall|c: Coord|
                    size.is_valid(c) && comes_before(c, x as int, y as int) ==> #[trigger] mask_cells(
                        self.next,
                    )[c] == next_alive(cells, size, *params, c),
            decreases height - y, width - x,
        {
            if x < width {
                let here = Coord::new(x, y);
                let n = self.count_live_around(here);
                let alive_cell = mask_get(&self.alive, here);
                let flag = (alive_cell && n >= params.survive_min && n <= params.survive_max) || (
                !alive_cell && n >= params.resurrect_min && n <= params.resurrect_max);
                mask_set(&mut self.next, here, flag);
                x += 1;
            } else {
                x = 0;
                y += 1;
            }
        }
        std::mem::swap(&mut self.alive, &mut self.next);
    }
}

/// The cell of a cave map for a cell of the automaton: floor where it is
/// alive, wall where it is dead.
pub open spec fn cave_cell(alive: bool) -> LevelCell {
    if alive {
        LevelCell::Floor
    } else {
        LevelCell::Wall
    }
}

/// Grows a cave from the automaton's live cells: `NUM_STEPS` generations
/// under the rule `cave_params`, after which each live cell is floor and each
/// dead cell wall.
pub fn grow_cave_map(life: &mut GameOfLife) -> (map: Grid<LevelCell>)
    requires
        old(life).wf(),
    ensures
        final(life).wf(),
        final(life).size() == old(life).size(),
        level_size(map) == old(life).size(),
        forall|c: Coord|
            old(life).size().is_valid(c) ==> #[trigger] level_cells(map)[c] == cave_cell(
                evolve(mask_cells(old(life).alive), old(life).size(), cave_params(), NUM_STEPS as nat)[c],
            ),
        is_floor_or_wall_map(level_cells(map), level_size(map)),
{
    let params = GameOfLifeParams {
        survive_min: 4,
        survive_max: 8,
        resurrect_min: 5,
        resurrect_max: 5,
    };
    let size = mask_grid_size(&life.alive);
    let ghost start = mask_cells(life.alive);
    let mut i: usize = 0;
    while i < NUM_STEPS
        invariant
            0 <= i <= NUM_STEPS,
            life.wf(),
            life.size() == size,
            params == cave_params(),
            forall|c: Coord|
                size.is_valid(c) ==> #[trigger] mask_cells(life.alive)[c] == evolve(
                    start,
                    size,
                    params,
                    i as nat,
                )[c],
        decreases NUM_STEPS - i,
    {
        let ghost before = mask_cells(life.alive);
        life.step(&params);
        proof {
            let earlier = evolve(start, size, params, i as nat);
            assert forall|c: Coord| size.is_valid(c) implies #[trigger] mask_cells(life.alive)[c]
                == evolve(start, size, params, (i + 1) as nat)[c] by {
                lemma_live_around_agrees(before, earlier, size, c, 8);
            }
        }
        i += 1;
    }
    let width = size.width as i32;
    let height = size.height as i32;
    let mut map = new_level_grid(size, LevelCell::Wall);
    let mut x: i32 = 0;
    let mut y: i32 = 0;
    while y < height
        invariant
            size == mask_size(life.alive),
            size == level_size(map),
            size.fits(),
            width == size.width,
            height == size.height,
            0 <= x <= width,
            0 <= y <= height,
            forall|c: Coord| size.is_valid(c) ==> (#[trigger] level_cells(map)[c]).is_floor_or_wall(),
            forall|c: Coord|
                size.is_valid(c) && comes_before(c, x as int, y as int) ==> #[trigger] level_cells(
                    map,
                )[c] == cave_cell(mask_cells(life.alive)[c]),
        decreases height - y, width - x,
    {
        if x < width {
            let here = Coord::new(x, y);
            let cell = if mask_get(&life.alive, here) {
                LevelCell::Floor
            } else {
                LevelCell::Wall
            };
            level_set(&mut map, here, cell);
            x += 1;
        } else {
            x = 0;
            y += 1;
        }
    }
    map
}

/// The cave map that grows from the live cells `alive`.
pub open spec fn grown_cave(alive: Map<Coord, bool>, size: Size) -> Map<Coord, LevelCell> {
    Map::new(
        |c: Coord| size.is_valid(c),
        |c: Coord| cave_cell(evolve(alive, size, cave_params(), NUM_STEPS as nat)[c]),
    )
}

/// Whether `cells` is the cave map that grows from the live cells `alive`.
pub open spec fn is_grown_from(
    cells: Map<Coord, LevelCell>,
    alive: Map<Coord, bool>,
    size: Size,
) -> bool {
    forall|c: Coord| size.is_valid(c) ==> #[trigger] cells[c] == grown_cave(alive, size)[c]
}

/// A cave map grown from random live and dead cells: the map that grows
/// from some grid of live cells.
pub fn generate_initial_cave_map(size: Size, rng: &mut Isaac64Rng) -> (map: Grid<LevelCell>)
    requires
        size.fits(),
    ensures
        level_size(map) == size,
        is_floor_or_wall_map(level_cells(map), size),
        exists|alive: Map<Coord, bool>| is_grown_from(level_cells(map), alive, size),
{
    let mut game_of_life = GameOfLife::new(size, rng);
    let ghost alive = mask_cells(game_of_life.alive);
    let map = grow_cave_map(&mut game_of_life);
    assert(is_grown_from(level_cells(map), alive, size));
    map
}

/// Turns every cell on the outermost ring of the map into wall.
pub fn surround_map_with_walls(map: &mut Grid<LevelCell>)
    requires
        level_size(*old(map)).fits(),
    ensures
        level_size(*final(map)) == level_size(*old(map)),
        forall|c: Coord|
            level_size(*old(map)).is_valid(c) ==> #[trigger] level_cells(*final(map))[c] == (
            if level_size(*old(map)).is_on_edge(c) {
                LevelCell::Wall
            } else {
                level_cells(*old(map))[c]
            }),
{
    let size = level_grid_size(map);
    let width = size.width as i32;
    let height = size.height as i32;
    let ghost before = level_cells(*map);
    let mut x: i32 = 0;
    let mut y: i32 = 0;
    while y < height
        invariant
            size == level_size(*map),
            size.fits(),
            width == size.width,
            height == size.height,
            0 <= x <= width,
            0 <= y <= height,
            forall|c: Coord|
                size.is_valid(c) ==> #[trigger] level_cells(*map)[c] == (if comes_before(
                    c,
                    x as int,
                    y as int,
                ) && size.is_on_edge(c) {
                    LevelCell::Wall
                } else {
                    before[c]
                }),
        decreases height - y, width - x,
    {
        if x < width {
            if x == 0 || y == 0 || x == width - 1 || y == height - 1 {
                level_set(map, Coord::new(x, y), LevelCell::Wall);
            }
            x += 1;
        } else {
            x = 0;
            y += 1;
        }
    }
}

/// The wall cells of a map, as a grid of flags.
pub open spec fn walls(cells: Map<Coord, LevelCell>, size: Size) -> Map<Coord, bool> {
    Map::new(|c: Coord| size.is_valid(c), |c: Coord| cells[c] == LevelCell::Wall)
}

/// Whether a walk over wall cells leads from the top left corner of the map
/// to `c`.
pub open spec fn joined_to_corner(cells: Map<Coord, LevelCell>, size: Size, c: Coord) -> bool {
    reachable(walls(cells, size), size, set![Coord { x: 0, y: 0 }], c)
}

/// The wall cells of a map, as a grid of flags.
fn wall_mask(map: &Grid<LevelCell>) -> (mask: Grid<bool>)
    requires
        level_size(*map).fits(),
    ensures
        mask_size(mask) == level_size(*map),
        mask_cells(mask) == walls(level_cells(*map), level_size(*map)),
{
    let size = level_grid_size(map);
    let width = size.width as i32;
    let height = size.height as i32;
    let mut mask = new_mask(size, false);
    let mut x: i32 = 0;
    let mut y: i32 = 0;
    while y < height
        invariant
            size == level_size(*map),
            size == mask_size(mask),
            size.fits(),
            width == size.width,
            height == size.height,
            0 <= x <= width,
            0 <= y <= height,
            mask_cells(mask).dom() == Set::new(|c: Coord| size.is_valid(c)),
            forall|c: Coord|
                size.is_valid(c) && comes_before(c, x as int, y as int) ==> #[trigger] mask_cells(
                    mask,
                )[c] == (level_cells(*map)[c] == LevelCell::Wall),
        decreases height - y, width - x,
    {
        if x < width {
            let here = Coord::new(x, y);
            let flag = level_get(map, here) == LevelCell::Wall;
            mask_set(&mut mask, here, flag);
            assert(mask_cells(mask).dom() =~= Set::new(|c: Coord| size.is_valid(c)));
            x += 1;
        } else {
            x = 0;
            y += 1;
        }
    }
    assert(mask_cells(mask) =~= walls(level_cells(*map), size));
    mask
}

/// Turns into floor every clump of wall that no walk over wall cells joins
/// to the top left corner of the map, which must itself be wall. A walk goes
/// by steps to the four cells beside a cell.
pub fn remove_disconnected_walls(map: &mut Grid<LevelCell>)
    requires
        level_size(*old(map)).fits(),
        level_size(*old(map)).is_valid(Coord { x: 0, y: 0 }),
        level_cells(*old(map))[Coord { x: 0, y: 0 }] == LevelCell::Wall,
        is_floor_or_wall_map(level_cells(*old(map)), level_size(*old(map))),
    ensures
        level_size(*final(map)) == level_size(*old(map)),
        forall|c: Coord|
            level_size(*old(map)).is_valid(c) ==> #[trigger] level_cells(*final(map))[c] == (
            if joined_to_corner(level_cells(*old(map)), level_size(*old(map)), c) {
                LevelCell::Wall
            } else {
                LevelCell::Floor
            }),
        forall|c: Coord|
            level_size(*old(map)).is_valid(c) && #[trigger] level_cells(*final(map))[c]
                == LevelCell::Wall ==> level_cells(*old(map))[c] == LevelCell::Wall,
        is_floor_or_wall_map(level_cells(*final(map)), level_size(*old(map))),
{
    let size = level_grid_size(map);
    let width = size.width as i32;
    let height = size.height as i32;
    let open = wall_mask(map);
    let mut walls_to_visit: Vec<Coord> = Vec::new();
    walls_to_visit.push(Coord::new(0, 0));
    assert(walls_to_visit@.to_set() =~= set![Coord { x: 0, y: 0 }]) by {
        assert(walls_to_visit@[0] == Coord { x: 0, y: 0 });
    }
    let seen = flood_fill(&open, &walls_to_visit);
    let ghost before = level_cells(*map);
    proof {
        assert forall|c: Coord| size.is_valid(c) && joined_to_corner(before, size, c) implies before[c]
            == LevelCell::Wall by {
            let path = choose|path: Seq<Coord>|
                is_walk_to(
                    walls(before, size),
                    size,
                    set![Coord { x: 0, y: 0 }],
                    path,
                    c,
                );
            if path.len() > 1 {
                assert(is_step(
                    walls(before, size),
                    size,
                    path[path.len() - 2],
                    path[path.len() - 1],
                ));
            }
        }
    }
    let mut x: i32 = 0;
    let mut y: i32 = 0;
    while y < height
        invariant
            size == level_size(*map),
            size == mask_size(seen),
            size.fits(),
            width == size.width,
            height == size.height,
            0 <= x <= width,
            0 <= y <= height,
            forall|c: Coord|
                size.is_valid(c) ==> #[trigger] level_cells(*map)[c] == (if comes_before(
                    c,
                    x as int,
                    y as int,
                ) && !mask_cells(seen)[c] {
                    LevelCell::Floor
                } else {
                    before[c]
                }),
        decreases height - y, width - x,
    {
        if x < width {
            let here = Coord::new(x, y);
            if !mask_get(&seen, here) {
                level_set(map, here, LevelCell::Floor);
            }
            x += 1;
        } else {
            x = 0;
            y += 1;
        }
    }
}

/// The map with every cell on its outermost ring turned into wall.
pub open spec fn ringed(cells: Map<Coord, LevelCell>, size: Size) -> Map<Coord, LevelCell> {
    Map::new(
        |c: Coord| size.is_valid(c),
        |c: Coord|
            if size.is_on_edge(c) {
                LevelCell::Wall
            } else {
                cells[c]
            },
    )
}

/// The map with every wall that no walk over wall cells joins to the top
/// left corner turned into floor.
pub open spec fn cleared_of_loose_walls(
    cells: Map<Coord, LevelCell>,
    size: Size,
) -> Map<Coord, LevelCell> {
    Map::new(
        |c: Coord| size.is_valid(c),
        |c: Coord|
            if joined_to_corner(cells, size, c) {
                LevelCell::Wall
            } else {
                LevelCell::Floor
            },
    )
}

/// The cave map that is made from the live cells `alive`: grown, ringed with
/// wall, and cleared of every clump of wall that is not joined to that ring.
pub open spec fn cave_from(alive: Map<Coord, bool>, size: Size) -> Map<Coord, LevelCell> {
    cleared_of_loose_walls(ringed(grown_cave(alive, size), size), size)
}

/// Whether `cells` is the cave map that is made from the live cells `alive`.
pub open spec fn is_cave_from(
    cells: Map<Coord, LevelCell>,
    alive: Map<Coord, bool>,
    size: Size,
) -> bool {
    forall|c: Coord| size.is_valid(c) ==> #[trigger] cells[c] == cave_from(alive, size)[c]
}

/// The live cells that a cave is made from leave nothing open: two cave
/// maps made from the same live cells hold the same cells.
pub proof fn lemma_cave_is_determined(
    first: Map<Coord, LevelCell>,
    second: Map<Coord, LevelCell>,
    alive: Map<Coord, bool>,
    size: Size,
    c: Coord,
)
    requires
        is_cave_from(first, alive, size),
        is_cave_from(second, alive, size),
        size.is_valid(c),
    ensures
        first[c] == second[c],
{
}

/// In a map ringed with wall a walk over wall cells leads from the top left
/// corner to every cell of the ring.
pub proof fn lemma_ring_is_joined(cells: Map<Coord, LevelCell>, size: Size, c: Coord)
    requires
        size.fits(),
        forall|d: Coord| size.is_on_edge(d) ==> #[trigger] cells[d] == LevelCell::Wall,
        size.is_on_edge(c),
    ensures
        joined_to_corner(cells, size, c),
    decreases c.x + c.y,
{
    let corner = Coord { x: 0, y: 0 };
    let open = walls(cells, size);
    if c == corner {
        lemma_start_reachable(open, size, set![corner], c);
    } else {
        let before = if c.y == 0 {
            c.offset(-1, 0)
        } else if c.x == 0 {
            c.offset(0, -1)
        } else if c.x == size.width - 1 {
            c.offset(0, -1)
        } else {
            c.offset(-1, 0)
        };
        lemma_ring_is_joined(cells, size, before);
        assert(is_step(open, size, before, c));
        lemma_step_reachable(open, size, set![corner], before, c);
    }
}

/// A cave map: grown from random cells, ringed with wall, and cleared of
/// every clump of wall that is not joined to that ring. It is the map that
/// is made in this way from some grid of live cells. Its outermost ring is
/// wall, and a walk over wall cells leads from the top left corner to every
/// wall.
pub fn generate_cave_map(size: Size, rng: &mut Isaac64Rng) -> (map: Grid<LevelCell>)
    requires
        size.fits(),
        size.width > 0,
        size.height > 0,
    ensures
        level_size(map) == size,
        is_floor_or_wall_map(level_cells(map), size),
        exists|alive: Map<Coord, bool>| is_cave_from(level_cells(map), alive, size),
        forall|c: Coord| size.is_on_edge(c) ==> #[trigger] level_cells(map)[c] == LevelCell::Wall,
        forall|c: Coord|
            size.is_valid(c) && #[trigger] level_cells(map)[c] == LevelCell::Wall
                ==> joined_to_corner(level_cells(map), size, c),
{
    let mut map = generate_initial_cave_map(size, rng);
    let ghost initial = level_cells(map);
    surround_map_with_walls(&mut map);
    let ghost with_ring = level_cells(map);
    remove_disconnected_walls(&mut map);
    proof {
        let cleared = level_cells(map);
        assert forall|c: Coord| size.is_valid(c) && #[trigger] cleared[c] == LevelCell::Wall implies joined_to_corner(
            cleared,
            size,
            c,
        ) by {
            lemma_joined_walls_stay(with_ring, cleared, size, c);
        }
        assert forall|c: Coord| size.is_on_edge(c) implies #[trigger] cleared[c]
            == LevelCell::Wall by {
            lemma_ring_is_joined(with_ring, size, c);
        }
        let alive = choose|alive: Map<Coord, bool>| is_grown_from(initial, alive, size);
        let ring_spec = ringed(grown_cave(alive, size), size);
        assert(walls(with_ring, size) =~= walls(ring_spec, size)) by {
            assert forall|c: Coord| size.is_valid(c) implies with_ring[c] == ring_spec[c] by {
                assert(initial[c] == grown_cave(alive, size)[c]);
            }
        }
        assert(is_cave_from(cleared, alive, size));
    }
    map
}

/// Clearing the walls that are not joined to the corner leaves the others
/// joined to it: every cell of a walk over wall cells from the corner is
/// itself joined, so it stays wall.
proof fn lemma_joined_walls_stay(
    before: Map<Coord, LevelCell>,
    after: Map<Coord, LevelCell>,
    size: Size,
    c: Coord,
)
    requires
        forall|d: Coord|
            size.is_valid(d) ==> #[trigger] after[d] == (if joined_to_corner(before, size, d) {
                LevelCell::Wall
            } else {
                LevelCell::Floor
            }),
        size.is_valid(c),
        joined_to_corner(before, size, c),
    ensures
        joined_to_corner(after, size, c),
{
    let corner = set![Coord { x: 0, y: 0 }];
    let path = choose|path: Seq<Coord>|
        is_walk_to(walls(before, size), size, corner, path, c);
    assert forall|i: int| 0 < i < path.len() implies is_step(
        walls(after, size),
        size,
        path[i - 1],
        #[trigger] path[i],
    ) by {
        assert(is_step(walls(before, size), size, path[i - 1], path[i]));
        let prefix = path.take(i + 1);
        assert forall|j: int| 0 < j < prefix.len() implies is_step(
            walls(before, size),
            size,
            prefix[j - 1],
            #[trigger] prefix[j],
        ) by {
            assert(is_step(walls(before, size), size, path[j - 1], path[j]));
        }
        assert(is_walk_to(walls(before, size), size, corner, prefix, path[i]));
        assert(joined_to_corner(before, size, path[i]));
        assert(after[path[i]] == LevelCell::Wall);
    }
    assert(is_walk_to(walls(after, size), size, corner, path, c));
}

} // verus!
