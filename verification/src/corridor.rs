//! L-shaped corridors between two cells of a map of floor and wall, and the
//! corridor cells that are fit for a door.

use crate::cell::LevelCell;
use crate::geometry::{adjacent, sign, signum, Axis, Coord, Size};
use crate::grid::{level_cells, level_get, level_size, mask_cells, mask_get, mask_size};
use crate::random::gen_bool;
use gridbugs::grid_2d::Grid;
use rand_isaac::Isaac64Rng;
use vstd::prelude::*;

verus! {

/// Whether the cell at `coord` has floor on both sides along `axis` and wall
/// on both sides across it.
pub open spec fn in_corridor_axis(cells: Map<Coord, LevelCell>, coord: Coord, axis: Axis) -> bool {
    let along = Coord::spec_new_axis(1, 0, axis);
    let across = Coord::spec_new_axis(0, 1, axis);
    &&& cells[coord.offset(along.x as int, along.y as int)] == LevelCell::Floor
    &&& cells[coord.offset(-along.x, -along.y)] == LevelCell::Floor
    &&& cells[coord.offset(across.x as int, across.y as int)] == LevelCell::Wall
    &&& cells[coord.offset(-across.x, -across.y)] == LevelCell::Wall
}

/// Whether the cell at `coord` has the shape of a corridor around it: floor
/// on both sides along one axis and wall on both sides along the other.
pub open spec fn in_corridor(cells: Map<Coord, LevelCell>, coord: Coord) -> bool {
    in_corridor_axis(cells, coord, Axis::X) || in_corridor_axis(cells, coord, Axis::Y)
}

/// Whether one of the four cells beside `coord` is floor.
pub open spec fn beside_floor(cells: Map<Coord, LevelCell>, coord: Coord) -> bool {
    ||| cells[coord.offset(0, -1)] == LevelCell::Floor
    ||| cells[coord.offset(1, 0)] == LevelCell::Floor
    ||| cells[coord.offset(0, 1)] == LevelCell::Floor
    ||| cells[coord.offset(-1, 0)] == LevelCell::Floor
}

/// Whether `coord`, a cell off the outermost ring of the map, has floor on
/// both sides along `axis` and wall on both sides across it.
pub fn is_cell_in_corridor_axis(map: &Grid<LevelCell>, coord: Coord, axis: Axis) -> (inside: bool)
    requires
        level_size(*map).fits(),
        level_size(*map).is_inner(coord),
    ensures
        inside == in_corridor_axis(level_cells(*map), coord, axis),
{
    let axis_delta = Coord::new_axis(1, 0, axis);
    let other_axis_delta = Coord::new_axis(0, 1, axis);
    let floor_in_axis = level_get(map, coord.plus(axis_delta)) == LevelCell::Floor && level_get(
        map,
        coord.minus(axis_delta),
    ) == LevelCell::Floor;
    let wall_in_other_axis = level_get(map, coord.plus(other_axis_delta)) == LevelCell::Wall
        && level_get(map, coord.minus(other_axis_delta)) == LevelCell::Wall;
    floor_in_axis && wall_in_other_axis
}

/// Whether `coord`, a cell off the outermost ring of the map, has the shape
/// of a corridor around it, which makes it fit for a door.
pub fn is_cell_in_corridor(map: &Grid<LevelCell>, coord: Coord) -> (inside: bool)
    requires
        level_size(*map).fits(),
        level_size(*map).is_inner(coord),
    ensures
        inside == in_corridor(level_cells(*map), coord),
{
    is_cell_in_corridor_axis(map, coord, Axis::X) || is_cell_in_corridor_axis(map, coord, Axis::Y)
}

/// Whether one of the four cells beside `coord`, a cell off the outermost
/// ring of the map, is floor.
pub fn has_floor_neighbour(map: &Grid<LevelCell>, coord: Coord) -> (beside: bool)
    requires
        level_size(*map).fits(),
        level_size(*map).is_inner(coord),
    ensures
        beside == beside_floor(level_cells(*map), coord),
{
    level_get(map, Coord::new(coord.x, coord.y - 1)) == LevelCell::Floor || level_get(
        map,
        Coord::new(coord.x + 1, coord.y),
    ) == LevelCell::Floor || level_get(map, Coord::new(coord.x, coord.y + 1)) == LevelCell::Floor
        || level_get(map, Coord::new(coord.x - 1, coord.y)) == LevelCell::Floor
}

/// `n` steps in the direction of `d`: `n`, `-n` or nothing.
pub open spec fn toward(d: int, n: int) -> int {
    if d > 0 {
        n
    } else if d < 0 {
        -n
    } else {
        0
    }
}

/// The distance that `d` spans.
pub open spec fn span(d: int) -> int {
    if d < 0 {
        -d
    } else {
        d
    }
}

/// `from` moved by `a` along `axis` and by `b` across it.
pub open spec fn moved(from: Coord, axis: Axis, a: int, b: int) -> Coord {
    match axis {
        Axis::X => from.offset(a, b),
        Axis::Y => from.offset(b, a),
    }
}

/// The number of cells of the first leg of the L from `start` to `end`: the
/// cells strictly between the two along `first_axis`.
pub open spec fn first_leg(start: Coord, end: Coord, first_axis: Axis) -> int {
    let d = end.spec_get(first_axis) - start.spec_get(first_axis);
    if d == 0 {
        0
    } else {
        span(d) - 1
    }
}

/// The number of cells of the second leg of the L from `start` to `end`: the
/// corner and the cells between it and `end`.
pub open spec fn second_leg(start: Coord, end: Coord, first_axis: Axis) -> int {
    span(end.spec_get(first_axis.spec_other()) - start.spec_get(first_axis.spec_other()))
}

/// The cells of the L from `start` to `end` that runs along `first_axis`
/// first, in order: those strictly between `start` and the corner, then the
/// corner and those between it and `end`. Where `start` is level with `end`
/// along `first_axis` the corner is `start` itself.
#[verifier::opaque]
pub open spec fn l_path(start: Coord, end: Coord, first_axis: Axis) -> Seq<Coord> {
    let d1 = end.spec_get(first_axis) - start.spec_get(first_axis);
    let d2 = end.spec_get(first_axis.spec_other()) - start.spec_get(first_axis.spec_other());
    let n1 = first_leg(start, end, first_axis);
    let n2 = second_leg(start, end, first_axis);
    Seq::new(
        (n1 + n2) as nat,
        |i: int|
            if i < n1 {
                moved(start, first_axis, toward(d1, i + 1), 0)
            } else {
                moved(start, first_axis, d1, toward(d2, i - n1))
            },
    )
}

/// Whether `corridor` is what is carved of the L from `start` to `end`: its
/// cells in order up to and including the first one beside a floor cell, or
/// all of them if there is none.
pub open spec fn is_corridor(
    corridor: Seq<Coord>,
    start: Coord,
    end: Coord,
    cells: Map<Coord, LevelCell>,
    first_axis: Axis,
) -> bool {
    let path = l_path(start, end, first_axis);
    &&& corridor.len() <= path.len()
    &&& forall|i: int| 0 <= i < corridor.len() ==> #[trigger] corridor[i] == path[i]
    &&& forall|i: int| 0 <= i < corridor.len() - 1 ==> !beside_floor(cells, #[trigger] corridor[i])
    &&& corridor.len() < path.len() ==> corridor.len() > 0 && beside_floor(cells, corridor.last())
}

/// The cells of an L-shaped corridor from `start` to `end`, both off the
/// outermost ring of the map, in order. The corridor runs along `first_axis`
/// from the cell after `start` until it is level with `end`, then along the
/// other axis up to the cell before `end`; where it is level with `end` from
/// the outset it begins on `start`. It stops with the first cell that has a
/// floor cell beside it.
pub fn l_shaped_corridor_with_first_axis(
    start: Coord,
    end: Coord,
    map: &Grid<LevelCell>,
    first_axis: Axis,
) -> (corridor: Vec<Coord>)
    requires
        level_size(*map).fits(),
        level_size(*map).is_inner(start),
        level_size(*map).is_inner(end),
    ensures
        is_corridor(corridor@, start, end, level_cells(*map), first_axis),
{
    proof {
        reveal(l_path);
    }
    let ghost size = level_size(*map);
    let ghost cells = level_cells(*map);
    let ghost path = l_path(start, end, first_axis);
    let ghost d1 = end.spec_get(first_axis) - start.spec_get(first_axis);
    let ghost d2 = end.spec_get(first_axis.spec_other()) - start.spec_get(first_axis.spec_other());
    let ghost n1 = first_leg(start, end, first_axis);
    let ghost n2 = second_leg(start, end, first_axis);
    let mut ret: Vec<Coord> = Vec::new();
    let delta = end.minus(start);
    let step = Coord::new_axis(signum(delta.get(first_axis)), 0, first_axis);
    let mut current = start.plus(step);
    while current.get(first_axis) != end.get(first_axis)
        invariant
            size == level_size(*map),
            cells == level_cells(*map),
            size.fits(),
            size.is_inner(start),
            size.is_inner(end),
            path == l_path(start, end, first_axis),
            d1 == end.spec_get(first_axis) - start.spec_get(first_axis),
            d2 == end.spec_get(first_axis.spec_other()) - start.spec_get(first_axis.spec_other()),
            n1 == first_leg(start, end, first_axis),
            n2 == second_leg(start, end, first_axis),
            step == Coord::spec_new_axis(sign(d1) as i32, 0, first_axis),
            0 <= ret.len() <= n1,
            current == moved(start, first_axis, toward(d1, ret.len() + 1), 0),
            forall|i: int| 0 <= i < ret.len() ==> #[trigger] ret[i] == path[i],
            forall|i: int| 0 <= i < ret.len() ==> !beside_floor(cells, #[trigger] ret[i]),
        decreases n1 - ret.len(),
    {
        proof {
            reveal(l_path);
        }
        ret.push(current);
        if has_floor_neighbour(map, current) {
            return ret;
        }
        current = current.plus(step);
    }
    let step = Coord::new_axis(0, signum(delta.get(first_axis.other())), first_axis);
    while current != end
        invariant
            size == level_size(*map),
            cells == level_cells(*map),
            size.fits(),
            size.is_inner(start),
            size.is_inner(end),
            path == l_path(start, end, first_axis),
            d1 == end.spec_get(first_axis) - start.spec_get(first_axis),
            d2 == end.spec_get(first_axis.spec_other()) - start.spec_get(first_axis.spec_other()),
            n1 == first_leg(start, end, first_axis),
            n2 == second_leg(start, end, first_axis),
            step == Coord::spec_new_axis(0, sign(d2) as i32, first_axis),
            n1 <= ret.len() <= n1 + n2,
            current == moved(start, first_axis, d1, toward(d2, ret.len() - n1)),
            forall|i: int| 0 <= i < ret.len() ==> #[trigger] ret[i] == path[i],
            forall|i: int| 0 <= i < ret.len() ==> !beside_floor(cells, #[trigger] ret[i]),
        decreases n1 + n2 - ret.len(),
    {
        proof {
            reveal(l_path);
        }
        ret.push(current);
        if has_floor_neighbour(map, current) {
            return ret;
        }
        current = current.plus(step);
    }
    ret
}

/// The cells of an L-shaped corridor from `start` to `end`, both off the
/// outermost ring of the map, that runs first along an axis drawn at random.
pub fn l_shaped_corridor(start: Coord, end: Coord, map: &Grid<LevelCell>, rng: &mut Isaac64Rng) -> (corridor:
    Vec<Coord>)
    requires
        level_size(*map).fits(),
        level_size(*map).is_inner(start),
        level_size(*map).is_inner(end),
    ensures
        is_corridor(corridor@, start, end, level_cells(*map), Axis::X) || is_corridor(
            corridor@,
            start,
            end,
            level_cells(*map),
            Axis::Y,
        ),
{
    let axis = if gen_bool(rng) {
        Axis::X
    } else {
        Axis::Y
    };
    l_shaped_corridor_with_first_axis(start, end, map, axis)
}

/// What is carved of an L is fixed by its ends, its first axis and the map.
pub proof fn lemma_corridor_is_unique(
    a: Seq<Coord>,
    b: Seq<Coord>,
    start: Coord,
    end: Coord,
    cells: Map<Coord, LevelCell>,
    first_axis: Axis,
)
    requires
        is_corridor(a, start, end, cells, first_axis),
        is_corridor(b, start, end, cells, first_axis),
    ensures
        a == b,
{
    if a.len() < b.len() {
        assert(a[a.len() - 1] == b[a.len() - 1]);
        assert(!beside_floor(cells, b[a.len() - 1]));
    } else if b.len() < a.len() {
        assert(b[b.len() - 1] == a[b.len() - 1]);
        assert(!beside_floor(cells, a[b.len() - 1]));
    }
    assert(a =~= b);
}

/// What is carved of the L from `start` to `end` that runs along
/// `first_axis` first.
pub open spec fn corridor_of(
    start: Coord,
    end: Coord,
    cells: Map<Coord, LevelCell>,
    first_axis: Axis,
) -> Seq<Coord> {
    choose|corridor: Seq<Coord>| is_corridor(corridor, start, end, cells, first_axis)
}

/// The cells of the L from `start` to `end` lie between the two, each beside
/// the one before; the first is `start` or lies beside it, and the last lies
/// beside `end`.
pub proof fn lemma_l_path_shape(start: Coord, end: Coord, first_axis: Axis, size: Size, i: int)
    requires
        size.fits(),
        size.is_inner(start),
        size.is_inner(end),
        0 <= i < l_path(start, end, first_axis).len(),
    ensures
        size.is_inner(l_path(start, end, first_axis)[i]),
        i == 0 ==> l_path(start, end, first_axis)[0] == start || adjacent(
            start,
            l_path(start, end, first_axis)[0],
        ),
        i > 0 ==> adjacent(l_path(start, end, first_axis)[i - 1], l_path(start, end, first_axis)[i]),
        i == l_path(start, end, first_axis).len() - 1 ==> adjacent(
            l_path(start, end, first_axis)[i],
            end,
        ),
{
    reveal(l_path);
}

/// Where the L from `start` to `end` has no cell between its ends, the two
/// are the same cell or lie side by side.
pub proof fn lemma_empty_l_path(start: Coord, end: Coord, first_axis: Axis)
    requires
        l_path(start, end, first_axis).len() == 0,
    ensures
        start == end || adjacent(start, end),
{
    reveal(l_path);
}

/// Two maps that agree on every cell give the same corridor.
pub proof fn lemma_corridor_agrees(
    corridor: Seq<Coord>,
    start: Coord,
    end: Coord,
    a: Map<Coord, LevelCell>,
    b: Map<Coord, LevelCell>,
    size: Size,
    first_axis: Axis,
)
    requires
        size.fits(),
        size.is_inner(start),
        size.is_inner(end),
        forall|c: Coord| size.is_valid(c) ==> a[c] == b[c],
        is_corridor(corridor, start, end, a, first_axis),
    ensures
        is_corridor(corridor, start, end, b, first_axis),
        corridor_of(start, end, b, first_axis) == corridor,
{
    let path = l_path(start, end, first_axis);
    assert forall|i: int| 0 <= i < corridor.len() implies beside_floor(a, #[trigger] corridor[i])
        == beside_floor(b, corridor[i]) by {
        lemma_l_path_shape(start, end, first_axis, size, i);
        assert(corridor[i] == path[i]);
    }
    if corridor.len() > 0 {
        assert(beside_floor(a, corridor[corridor.len() - 1]) == beside_floor(
            b,
            corridor[corridor.len() - 1],
        ));
    }
    assert(is_corridor(corridor, start, end, b, first_axis));
    lemma_corridor_is_unique(
        corridor,
        corridor_of(start, end, b, first_axis),
        start,
        end,
        b,
        first_axis,
    );
}

/// The map with every cell of the corridor turned into floor.
pub open spec fn carved(
    cells: Map<Coord, LevelCell>,
    size: Size,
    corridor: Seq<Coord>,
) -> Map<Coord, LevelCell> {
    Map::new(
        |c: Coord| size.is_valid(c),
        |c: Coord|
            if corridor.contains(c) {
                LevelCell::Floor
            } else {
                cells[c]
            },
    )
}

/// Whether a corridor cell at `c` is fit for a door: it lies on the ring of
/// a room and has the shape of a corridor around it.
pub open spec fn is_door_site(cells: Map<Coord, LevelCell>, edges: Map<Coord, bool>, c: Coord) -> bool {
    edges[c] && in_corridor(cells, c)
}

/// Of the first `n` cells of a corridor, those that are fit for a door while
/// the cell before them is not: the first cell of each run of such cells.
pub open spec fn run_heads(
    corridor: Seq<Coord>,
    cells: Map<Coord, LevelCell>,
    edges: Map<Coord, bool>,
    n: int,
) -> Seq<Coord>
    decreases n,
{
    if n <= 0 {
        Seq::empty()
    } else {
        let earlier = run_heads(corridor, cells, edges, n - 1);
        if is_door_site(cells, edges, corridor[n - 1]) && (n == 1 || !is_door_site(
            cells,
            edges,
            corridor[n - 2],
        )) {
            earlier.push(corridor[n - 1])
        } else {
            earlier
        }
    }
}

/// Every head of a run is a cell of the corridor that is fit for a door.
pub proof fn lemma_run_heads_are_sites(
    corridor: Seq<Coord>,
    cells: Map<Coord, LevelCell>,
    edges: Map<Coord, bool>,
    n: int,
    j: int,
)
    requires
        0 <= n <= corridor.len(),
        0 <= j < run_heads(corridor, cells, edges, n).len(),
    ensures
        corridor.contains(run_heads(corridor, cells, edges, n)[j]),
        is_door_site(cells, edges, run_heads(corridor, cells, edges, n)[j]),
    decreases n,
{
    let earlier = run_heads(corridor, cells, edges, n - 1);
    if j < earlier.len() {
        lemma_run_heads_are_sites(corridor, cells, edges, n - 1, j);
    } else {
        assert(corridor[n - 1] == run_heads(corridor, cells, edges, n)[j]);
    }
}

/// Two maps that agree on every cell give the same door candidates.
pub proof fn lemma_run_heads_agree(
    corridor: Seq<Coord>,
    a: Map<Coord, LevelCell>,
    b: Map<Coord, LevelCell>,
    flags: Map<Coord, bool>,
    size: Size,
    n: int,
)
    requires
        size.fits(),
        forall|i: int| 0 <= i < corridor.len() ==> size.is_inner(#[trigger] corridor[i]),
        forall|c: Coord| size.is_valid(c) ==> a[c] == b[c],
        0 <= n <= corridor.len(),
    ensures
        run_heads(corridor, a, flags, n) == run_heads(corridor, b, flags, n),
    decreases n,
{
    if n > 0 {
        lemma_run_heads_agree(corridor, a, b, flags, size, n - 1);
        assert(size.is_inner(corridor[n - 1]));
        assert(is_door_site(a, flags, corridor[n - 1]) == is_door_site(b, flags, corridor[n - 1]));
        if n > 1 {
            assert(size.is_inner(corridor[n - 2]));
            assert(is_door_site(a, flags, corridor[n - 2]) == is_door_site(
                b,
                flags,
                corridor[n - 2],
            ));
        }
    }
}

/// Appends to `door_candidates`, for each run of corridor cells that are fit
/// for a door, the first cell of the run: a cell is fit if it lies on the
/// ring of a room and has floor on both sides along one axis and wall on
/// both sides along the other.
pub(crate) fn record_door_candidates(
    map: &Grid<LevelCell>,
    edges: &Grid<bool>,
    corridor: &Vec<Coord>,
    door_candidates: &mut Vec<Coord>,
)
    requires
        level_size(*map).fits(),
        mask_size(*edges) == level_size(*map),
        forall|i: int| 0 <= i < corridor.len() ==> level_size(*map).is_inner(#[trigger] corridor[i]),
    ensures
        final(door_candidates)@ == old(door_candidates)@ + run_heads(
            corridor@,
            level_cells(*map),
            mask_cells(*edges),
            corridor.len() as int,
        ),
{
    let ghost before = door_candidates@;
    let ghost cells = level_cells(*map);
    let ghost flags = mask_cells(*edges);
    let mut in_run = false;
    let mut i: usize = 0;
    while i < corridor.len()
        invariant
            0 <= i <= corridor.len(),
            level_size(*map).fits(),
            mask_size(*edges) == level_size(*map),
            cells == level_cells(*map),
            flags == mask_cells(*edges),
            forall|i: int|
                0 <= i < corridor.len() ==> level_size(*map).is_inner(#[trigger] corridor[i]),
            in_run == (i > 0 && is_door_site(cells, flags, corridor[i - 1])),
            door_candidates@ == before + run_heads(corridor@, cells, flags, i as int),
        decreases corridor.len() - i,
    {
        let coord = corridor[i];
        let fit = mask_get(edges, coord) && is_cell_in_corridor(map, coord);
        if fit && !in_run {
            door_candidates.push(coord);
        }
        assert(door_candidates@ =~= before + run_heads(corridor@, cells, flags, i + 1));
        in_run = fit;
        i += 1;
    }
}

} // verus!
