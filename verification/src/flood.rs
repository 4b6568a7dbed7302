//! Flood fill over a grid of flags, and what it computes: the cells that a
//! walk over open cells reaches from a set of starting cells.

use crate::geometry::{
    adjacent, lemma_four_neighbours, neighbour, CardinalDirection, Coord, Size,
};
use crate::grid::{mask_cells, mask_get, mask_grid_size, mask_set, mask_size, new_mask};
use gridbugs::grid_2d::Grid;
use vstd::prelude::*;

verus! {

/// One step of a walk: to a cell of the grid that is open and shares a side
/// with the cell before.
pub open spec fn is_step(open: Map<Coord, bool>, size: Size, from: Coord, to: Coord) -> bool {
    adjacent(from, to) && size.is_valid(to) && open[to]
}

/// A walk: a sequence of cells in which each cell after the first is a step
/// from the one before. Nothing is asked of the first cell.
pub open spec fn is_walk(open: Map<Coord, bool>, size: Size, path: Seq<Coord>) -> bool {
    &&& path.len() > 0
    &&& forall|i: int| 0 < i < path.len() ==> is_step(open, size, path[i - 1], #[trigger] path[i])
}

/// A walk from one of `starts` to `to`.
pub open spec fn is_walk_to(
    open: Map<Coord, bool>,
    size: Size,
    starts: Set<Coord>,
    path: Seq<Coord>,
    to: Coord,
) -> bool {
    is_walk(open, size, path) && starts.contains(path[0]) && path.last() == to
}

/// Whether some walk leads from one of `starts` to `to`.
pub open spec fn reachable(
    open: Map<Coord, bool>,
    size: Size,
    starts: Set<Coord>,
    to: Coord,
) -> bool {
    exists|path: Seq<Coord>| is_walk_to(open, size, starts, path, to)
}

/// Every step from `from` leads to a marked cell.
pub open spec fn is_settled(
    open: Map<Coord, bool>,
    size: Size,
    seen: Map<Coord, bool>,
    from: Coord,
) -> bool {
    forall|to: Coord| #[trigger] is_step(open, size, from, to) ==> seen[to]
}

/// A starting cell is reached by the walk that stays on it.
pub proof fn lemma_start_reachable(
    open: Map<Coord, bool>,
    size: Size,
    starts: Set<Coord>,
    start: Coord,
)
    requires
        starts.contains(start),
    ensures
        reachable(open, size, starts, start),
{
    let path = seq![start];
    assert(is_walk_to(open, size, starts, path, start));
}

/// A step from a reachable cell leads to a reachable cell.
pub proof fn lemma_step_reachable(
    open: Map<Coord, bool>,
    size: Size,
    starts: Set<Coord>,
    from: Coord,
    to: Coord,
)
    requires
        reachable(open, size, starts, from),
        is_step(open, size, from, to),
    ensures
        reachable(open, size, starts, to),
{
    let path = choose|path: Seq<Coord>| is_walk_to(open, size, starts, path, from);
    let longer = path.push(to);
    assert forall|i: int| 0 < i < longer.len() implies is_step(
        open,
        size,
        longer[i - 1],
        #[trigger] longer[i],
    ) by {
        if i < path.len() {
            assert(is_step(open, size, path[i - 1], path[i]));
        }
    }
    assert(is_walk_to(open, size, starts, longer, to));
}

/// A marking that holds the first cell of a walk and is settled on every
/// marked cell holds every cell of the walk.
pub proof fn lemma_settled_holds_walk(
    open: Map<Coord, bool>,
    size: Size,
    seen: Map<Coord, bool>,
    path: Seq<Coord>,
    i: int,
)
    requires
        is_walk(open, size, path),
        size.is_valid(path[0]),
        seen[path[0]],
        forall|c: Coord| size.is_valid(c) && #[trigger] seen[c] ==> is_settled(open, size, seen, c),
        0 <= i < path.len(),
    ensures
        size.is_valid(path[i]),
        seen[path[i]],
    decreases i,
{
    if i > 0 {
        lemma_settled_holds_walk(open, size, seen, path, i - 1);
        assert(is_settled(open, size, seen, path[i - 1]));
        assert(is_step(open, size, path[i - 1], path[i]));
    }
}

/// Reachability grows with the open cells and with the starting cells.
pub proof fn lemma_reachable_monotone(
    open: Map<Coord, bool>,
    wider: Map<Coord, bool>,
    size: Size,
    starts: Set<Coord>,
    more_starts: Set<Coord>,
    to: Coord,
)
    requires
        reachable(open, size, starts, to),
        forall|c: Coord| size.is_valid(c) && #[trigger] open[c] ==> wider[c],
        starts.subset_of(more_starts),
    ensures
        reachable(wider, size, more_starts, to),
{
    let path = choose|path: Seq<Coord>| is_walk_to(open, size, starts, path, to);
    assert forall|i: int| 0 < i < path.len() implies is_step(
        wider,
        size,
        path[i - 1],
        #[trigger] path[i],
    ) by {
        assert(is_step(open, size, path[i - 1], path[i]));
    }
    assert(is_walk_to(wider, size, more_starts, path, to));
}

/// A walk can be walked back: where a walk leads from an open cell of the
/// grid to `to`, one leads from `to` to that cell.
pub proof fn lemma_walk_back(open: Map<Coord, bool>, size: Size, from: Coord, to: Coord)
    requires
        reachable(open, size, set![from], to),
        size.is_valid(from),
        open[from],
    ensures
        reachable(open, size, set![to], from),
{
    let path = choose|path: Seq<Coord>| is_walk_to(open, size, set![from], path, to);
    let back = path.reverse();
    assert forall|i: int| 0 < i < back.len() implies is_step(
        open,
        size,
        back[i - 1],
        #[trigger] back[i],
    ) by {
        let j = path.len() - 1 - i;
        assert(back[i] == path[j]);
        assert(back[i - 1] == path[j + 1]);
        assert(is_step(open, size, path[j], path[j + 1]));
        if j > 0 {
            assert(is_step(open, size, path[j - 1], path[j]));
        }
    }
    assert(back[0] == path[path.len() - 1]);
    assert(back[back.len() - 1] == path[0]);
    assert(is_walk_to(open, size, set![to], back, from));
}

/// Two walks, the second from where the first ends, make one walk.
pub proof fn lemma_walk_on(
    open: Map<Coord, bool>,
    size: Size,
    starts: Set<Coord>,
    via: Coord,
    to: Coord,
)
    requires
        reachable(open, size, starts, via),
        reachable(open, size, set![via], to),
    ensures
        reachable(open, size, starts, to),
{
    let first = choose|path: Seq<Coord>| is_walk_to(open, size, starts, path, via);
    let second = choose|path: Seq<Coord>| is_walk_to(open, size, set![via], path, to);
    let whole = first + second.subrange(1, second.len() as int);
    assert forall|i: int| 0 < i < whole.len() implies is_step(
        open,
        size,
        whole[i - 1],
        #[trigger] whole[i],
    ) by {
        if i < first.len() {
            assert(is_step(open, size, first[i - 1], first[i]));
        } else {
            let j = i - first.len() + 1;
            assert(whole[i] == second[j]);
            assert(is_step(open, size, second[j - 1], second[j]));
            if i == first.len() {
                assert(whole[i - 1] == first[first.len() - 1]);
            } else {
                assert(whole[i - 1] == second[j - 1]);
            }
        }
    }
    assert(whole[0] == first[0]);
    assert(whole[whole.len() - 1] == to);
    assert(is_walk_to(open, size, starts, whole, to));
}

/// The number of cleared flags among the first `x` cells of row `y`.
pub open spec fn cleared_in_row(cells: Map<Coord, bool>, y: int, x: int) -> nat
    decreases x,
{
    if x <= 0 {
        0
    } else {
        let here: nat = if cells[Coord { x: (x - 1) as i32, y: y as i32 }] {
            0
        } else {
            1
        };
        cleared_in_row(cells, y, x - 1) + here
    }
}

/// The number of cleared flags in the first `y` rows of a grid `width` wide.
pub open spec fn cleared_in_rows(cells: Map<Coord, bool>, width: int, y: int) -> nat
    decreases y,
{
    if y <= 0 {
        0
    } else {
        cleared_in_rows(cells, width, y - 1) + cleared_in_row(cells, y - 1, width)
    }
}

/// The number of cleared flags in a grid.
pub open spec fn cleared(cells: Map<Coord, bool>, size: Size) -> nat {
    cleared_in_rows(cells, size.width as int, size.height as int)
}

proof fn lemma_set_flag_in_row(cells: Map<Coord, bool>, at: Coord, y: int, x: int)
    requires
        0 <= x <= i32::MAX,
        0 <= y <= i32::MAX,
        0 <= at.x,
        !cells[at],
    ensures
        cleared_in_row(cells.insert(at, true), y, x) == cleared_in_row(cells, y, x) - (if at.y == y
            && at.x < x {
            1int
        } else {
            0int
        }),
    decreases x,
{
    if x > 0 {
        lemma_set_flag_in_row(cells, at, y, x - 1);
    }
}

proof fn lemma_set_flag_in_rows(cells: Map<Coord, bool>, at: Coord, width: int, y: int)
    requires
        0 <= width <= i32::MAX,
        0 <= y <= i32::MAX,
        0 <= at.x < width,
        0 <= at.y,
        !cells[at],
    ensures
        cleared_in_rows(cells.insert(at, true), width, y) == cleared_in_rows(cells, width, y) - (
        if at.y < y {
            1int
        } else {
            0int
        }),
    decreases y,
{
    if y > 0 {
        lemma_set_flag_in_rows(cells, at, width, y - 1);
        lemma_set_flag_in_row(cells, at, y - 1, width);
    }
}

/// Setting a cleared flag of the grid leaves one cleared flag fewer.
pub proof fn lemma_set_flag(cells: Map<Coord, bool>, size: Size, at: Coord)
    requires
        size.fits(),
        size.is_valid(at),
        !cells[at],
    ensures
        cleared(cells.insert(at, true), size) == cleared(cells, size) - 1,
{
    lemma_set_flag_in_rows(cells, at, size.width as int, size.height as int);
}

/// What the fill keeps true of its marking and of the cells it has yet to
/// expand: every marked cell is reachable, every waiting cell is marked, and
/// every marked cell but `current` is settled or waiting.
spec fn fill_invariant(
    open: Map<Coord, bool>,
    size: Size,
    starts: Set<Coord>,
    seen: Map<Coord, bool>,
    waiting: Seq<Coord>,
    current: Option<Coord>,
) -> bool {
    &&& forall|c: Coord| size.is_valid(c) && #[trigger] seen[c] ==> reachable(open, size, starts, c)
    &&& forall|j: int|
        0 <= j < waiting.len() ==> size.is_valid(#[trigger] waiting[j]) && seen[waiting[j]]
    &&& forall|c: Coord|
        size.is_valid(c) && #[trigger] seen[c] && current != Some(c) ==> waiting.contains(c)
            || is_settled(open, size, seen, c)
}

/// Marks every cell that a walk over the cells flagged in `open` reaches from
/// one of `starts`. The starting cells are marked whether open or not.
pub fn flood_fill(open: &Grid<bool>, starts: &Vec<Coord>) -> (seen: Grid<bool>)
    requires
        mask_size(*open).fits(),
        forall|i: int| 0 <= i < starts.len() ==> mask_size(*open).is_valid(#[trigger] starts[i]),
    ensures
        mask_size(seen) == mask_size(*open),
        forall|c: Coord|
            mask_size(*open).is_valid(c) ==> (#[trigger] mask_cells(seen)[c] <==> reachable(
                mask_cells(*open),
                mask_size(*open),
                starts@.to_set(),
                c,
            )),
{
    let size = mask_grid_size(open);
    let mut seen = new_mask(size, false);
    let mut waiting: Vec<Coord> = Vec::new();
    let ghost cells = mask_cells(*open);
    let ghost from = starts@.to_set();
    let mut i: usize = 0;
    while i < starts.len()
        invariant
            0 <= i <= starts.len(),
            size == mask_size(*open),
            size == mask_size(seen),
            size.fits(),
            cells == mask_cells(*open),
            from == starts@.to_set(),
            forall|i: int| 0 <= i < starts.len() ==> size.is_valid(#[trigger] starts[i]),
            forall|j: int| 0 <= j < i ==> mask_cells(seen)[#[trigger] starts[j]],
            forall|c: Coord|
                size.is_valid(c) && #[trigger] mask_cells(seen)[c] ==> waiting@.contains(c),
            forall|j: int|
                0 <= j < waiting.len() ==> size.is_valid(#[trigger] waiting[j]) && mask_cells(
                    seen,
                )[waiting[j]] && from.contains(waiting[j]),
        decreases starts.len() - i,
    {
        let start = starts[i];
        if !mask_get(&seen, start) {
            let ghost before = waiting@;
            mask_set(&mut seen, start, true);
            waiting.push(start);
            proof {
                assert(waiting@[before.len() as int] == start);
                assert forall|c: Coord|
                    size.is_valid(c) && #[trigger] mask_cells(seen)[c] implies waiting@.contains(
                    c,
                ) by {
                    if c != start {
                        let j = choose|j: int| 0 <= j < before.len() && before[j] == c;
                        assert(waiting@[j] == c);
                    }
                }
            }
        }
        i += 1;
    }
    proof {
        assert forall|c: Coord|
            size.is_valid(c) && #[trigger] mask_cells(seen)[c] implies reachable(
            cells,
            size,
            from,
            c,
        ) by {
            let j = choose|j: int| 0 <= j < waiting.len() && waiting[j] == c;
            lemma_start_reachable(cells, size, from, waiting[j]);
        }
    }
    while waiting.len() > 0
        invariant
            size == mask_size(*open),
            size == mask_size(seen),
            size.fits(),
            cells == mask_cells(*open),
            from == starts@.to_set(),
            forall|i: int| 0 <= i < starts.len() ==> size.is_valid(#[trigger] starts[i]),
            forall|j: int| 0 <= j < starts.len() ==> mask_cells(seen)[#[trigger] starts[j]],
            fill_invariant(cells, size, from, mask_cells(seen), waiting@, None),
        decreases cleared(mask_cells(seen), size), waiting.len(),
    {
        let ghost seen_before = mask_cells(seen);
        let ghost waiting_before = waiting@;
        let current = waiting.pop().unwrap();
        let ghost base = waiting@;
        assert(current == waiting_before[waiting_before.len() - 1]);
        assert forall|c: Coord|
            size.is_valid(c) && #[trigger] seen_before[c] && c != current
                && !is_settled(cells, size, seen_before, c) implies base.contains(c) by {
            let j = choose|j: int| 0 <= j < waiting_before.len() && waiting_before[j] == c;
            assert(base[j] == c);
        }
        let directions = CardinalDirection::all();
        let mut k: usize = 0;
        while k < 4
            invariant
                0 <= k <= 4,
                directions@ == CardinalDirection::spec_all(),
                size == mask_size(*open),
                size == mask_size(seen),
                size.fits(),
                cells == mask_cells(*open),
                from == starts@.to_set(),
                size.is_valid(current),
                mask_cells(seen)[current],
                forall|j: int| 0 <= j < starts.len() ==> mask_cells(seen)[#[trigger] starts[j]],
                fill_invariant(cells, size, from, mask_cells(seen), waiting@, Some(current)),
                forall|j: int|
                    0 <= j < k && is_step(cells, size, current, #[trigger] neighbour(current, j))
                        ==> mask_cells(seen)[neighbour(current, j)],
                waiting.len() >= base.len(),
                cleared(mask_cells(seen), size) + (waiting.len() - base.len()) == cleared(
                    seen_before,
                    size,
                ),
            decreases 4 - k,
        {
            let delta = directions[k].coord();
            let next = current.plus(delta);
            assert(next == neighbour(current, k as int));
            if size.is_valid(next) && mask_get(open, next) && !mask_get(&seen, next) {
                let ghost marked = mask_cells(seen);
                let ghost queued = waiting@;
                mask_set(&mut seen, next, true);
                waiting.push(next);
                proof {
                    lemma_set_flag(marked, size, next);
                    lemma_step_reachable(cells, size, from, current, next);
                    assert(waiting@[queued.len() as int] == next);
                    assert forall|c: Coord|
                        size.is_valid(c) && #[trigger] mask_cells(seen)[c] && Some(current)
                            != Some(c) implies waiting@.contains(c) || is_settled(
                        cells,
                        size,
                        mask_cells(seen),
                        c,
                    ) by {
                        if c != next {
                            if queued.contains(c) {
                                let j = choose|j: int| 0 <= j < queued.len() && queued[j] == c;
                                assert(waiting@[j] == c);
                            } else {
                                assert(is_settled(cells, size, marked, c));
                            }
                        }
                    }
                }
            }
            k += 1;
        }
        proof {
            assert forall|to: Coord| #[trigger]
                is_step(cells, size, current, to) implies mask_cells(seen)[to] by {
                lemma_four_neighbours(current, to);
                let j = choose|j: int| 0 <= j < 4 && to == #[trigger] neighbour(current, j);
                assert(is_step(cells, size, current, neighbour(current, j)));
            }
            assert(is_settled(cells, size, mask_cells(seen), current));
        }
    }
    proof {
        assert forall|c: Coord| size.is_valid(c) && reachable(cells, size, from, c) implies #[trigger]
            mask_cells(seen)[c] by {
            let path = choose|path: Seq<Coord>| is_walk_to(cells, size, from, path, c);
            let j = choose|j: int| 0 <= j < starts.len() && starts[j] == path[0];
            assert(mask_cells(seen)[starts[j]]);
            assert forall|d: Coord|
                size.is_valid(d) && #[trigger] mask_cells(seen)[d] implies is_settled(
                cells,
                size,
                mask_cells(seen),
                d,
            ) by {
                assert(!waiting@.contains(d));
            }
            lemma_settled_holds_walk(cells, size, mask_cells(seen), path, path.len() - 1);
        }
    }
    seen
}

} // verus!
