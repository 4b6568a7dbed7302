//! Rooms: rectangles of the map whose outermost ring is wall and whose inside
//! is floor.

use crate::cell::LevelCell;
use crate::corridor::span;
use crate::flood::{is_step, lemma_step_reachable, reachable};
use crate::geometry::{touching, Coord, Rect, RectPart, Size};
use crate::grid::{level_cells, level_get, level_set, level_size, mask_cells, mask_set, mask_size};
use gridbugs::grid_2d::Grid;
use vstd::prelude::*;

verus! {

/// A room: the outermost ring of its rectangle is wall, the rest floor.
#[derive(Clone, Copy, Debug, PartialEq, Eq, Structural)]
pub struct Room {
    pub rect: Rect,
}

impl Room {
    /// A room of a map of extent `bounds`: its rectangle lies on the map and
    /// holds at least one floor cell inside its ring of wall.
    pub open spec fn fits_map(self, bounds: Size) -> bool {
        &&& self.rect.is_within(bounds)
        &&& self.rect.size.width >= 3
        &&& self.rect.size.height >= 3
    }

    /// Whether some cell of the room's rectangle is floor in `cells`.
    pub open spec fn overlaps_floor(self, cells: Map<Coord, LevelCell>) -> bool {
        exists|c: Coord| self.rect.contains(c) && #[trigger] cells[c] == LevelCell::Floor
    }

    /// Whether any cell of the room, wall or floor, is already floor in the
    /// map.
    pub fn overlaps_with_floor(&self, map: &Grid<LevelCell>) -> (overlaps: bool)
        requires
            level_size(*map).fits(),
            self.rect.is_within(level_size(*map)),
        ensures
            overlaps == self.overlaps_floor(level_cells(*map)),
    {
        let coords = self.rect.coords();
        let mut i: usize = 0;
        while i < coords.len()
            invariant
                0 <= i <= coords.len(),
                self.rect.is_within(level_size(*map)),
                self.rect.lists(RectPart::Whole, coords@),
                forall|j: int| 0 <= j < i ==> level_cells(*map)[#[trigger] coords[j]] != LevelCell::Floor,
            decreases coords.len() - i,
        {
            assert(coords@.contains(coords[i as int]));
            if level_get(map, coords[i]) == LevelCell::Floor {
                return true;
            }
            i += 1;
        }
        proof {
            assert forall|c: Coord| self.rect.contains(c) implies #[trigger] level_cells(*map)[c]
                != LevelCell::Floor by {
                assert(coords@.contains(c));
                let j = choose|j: int| 0 <= j < coords.len() && coords[j] == c;
                assert(level_cells(*map)[coords[j]] != LevelCell::Floor);
            }
        }
        false
    }

    /// Turns every cell of the room inside its ring of wall into floor.
    pub fn add_floor_to_map(&self, map: &mut Grid<LevelCell>)
        requires
            level_size(*old(map)).fits(),
            self.rect.is_within(level_size(*old(map))),
        ensures
            level_size(*final(map)) == level_size(*old(map)),
            forall|c: Coord|
                level_size(*old(map)).is_valid(c) ==> #[trigger] level_cells(*final(map))[c] == (
                if self.rect.is_internal(c) {
                    LevelCell::Floor
                } else {
                    level_cells(*old(map))[c]
                }),
    {
        let inside = self.rect.internal_coords();
        proof {
            assert forall|i: int| 0 <= i < inside.len() implies level_size(*map).is_valid(
                #[trigger] inside[i],
            ) by {
                assert(inside@.contains(inside[i]));
            }
        }
        turn_to_floor(map, &inside);
    }
}

/// Turns every cell of the list into floor.
pub(crate) fn turn_to_floor(map: &mut Grid<LevelCell>, cells: &Vec<Coord>)
    requires
        forall|i: int| 0 <= i < cells.len() ==> level_size(*old(map)).is_valid(#[trigger] cells[i]),
    ensures
        level_size(*final(map)) == level_size(*old(map)),
        forall|c: Coord|
            level_size(*old(map)).is_valid(c) ==> #[trigger] level_cells(*final(map))[c] == (
            if cells@.contains(c) {
                LevelCell::Floor
            } else {
                level_cells(*old(map))[c]
            }),
{
    let ghost before = level_cells(*map);
    let ghost size = level_size(*map);
    let mut i: usize = 0;
    while i < cells.len()
        invariant
            0 <= i <= cells.len(),
            size == level_size(*map),
            forall|i: int| 0 <= i < cells.len() ==> size.is_valid(#[trigger] cells[i]),
            forall|c: Coord|
                size.is_valid(c) ==> #[trigger] level_cells(*map)[c] == (if cells@.take(
                    i as int,
                ).contains(c) {
                    LevelCell::Floor
                } else {
                    before[c]
                }),
        decreases cells.len() - i,
    {
        let ghost done = cells@.take(i as int);
        level_set(map, cells[i], LevelCell::Floor);
        proof {
            lemma_take_one_more(cells@, i as int);
        }
        i += 1;
    }
    assert(cells@.take(cells.len() as int) =~= cells@);
}

/// The first `i + 1` items of a list are the first `i` and the item at `i`.
proof fn lemma_take_one_more(cells: Seq<Coord>, i: int)
    requires
        0 <= i < cells.len(),
    ensures
        forall|c: Coord|
            #[trigger] cells.take(i + 1).contains(c) <==> cells.take(i).contains(c) || c == cells[i],
{
    let done = cells.take(i);
    let more = cells.take(i + 1);
    assert(more[i] == cells[i]);
    assert forall|c: Coord| #[trigger] more.contains(c) <==> done.contains(c) || c == cells[i] by {
        if done.contains(c) {
            let j = choose|j: int| 0 <= j < done.len() && done[j] == c;
            assert(more[j] == c);
        }
        if more.contains(c) {
            let j = choose|j: int| 0 <= j < more.len() && more[j] == c;
            if j < i {
                assert(done[j] == c);
            }
        }
    }
}

/// Flags every cell on the outermost ring of `rect`.
pub(crate) fn mark_edge(edges: &mut Grid<bool>, rect: &Rect)
    requires
        mask_size(*old(edges)).fits(),
        rect.is_within(mask_size(*old(edges))),
    ensures
        mask_size(*final(edges)) == mask_size(*old(edges)),
        forall|c: Coord|
            mask_size(*old(edges)).is_valid(c) ==> #[trigger] mask_cells(*final(edges))[c] == (
            mask_cells(*old(edges))[c] || rect.spec_is_edge(c)),
{
    let ghost before = mask_cells(*edges);
    let ghost size = mask_size(*edges);
    let ring = rect.edge_coords();
    let mut i: usize = 0;
    while i < ring.len()
        invariant
            0 <= i <= ring.len(),
            size == mask_size(*edges),
            rect.is_within(size),
            rect.lists(RectPart::Edge, ring@),
            forall|c: Coord|
                size.is_valid(c) ==> #[trigger] mask_cells(*edges)[c] == (before[c] || ring@.take(
                    i as int,
                ).contains(c)),
        decreases ring.len() - i,
    {
        assert(ring@.contains(ring[i as int]));
        mask_set(edges, ring[i], true);
        proof {
            lemma_take_one_more(ring@, i as int);
        }
        i += 1;
    }
    assert(ring@.take(ring.len() as int) =~= ring@);
}

/// The centre of a rectangle at least three cells wide and high lies off its
/// outermost ring.
pub proof fn lemma_centre_is_internal(rect: Rect)
    requires
        rect.size.width >= 3,
        rect.size.height >= 3,
        rect.top_left.can_offset(rect.size.width as int, rect.size.height as int),
    ensures
        rect.is_internal(rect.spec_centre()),
{
}

/// A cell on the ring of a rectangle at least three cells wide and high
/// touches a cell inside the ring.
pub proof fn lemma_ring_touches_inside(rect: Rect, q: Coord) -> (n: Coord)
    requires
        rect.size.width >= 3,
        rect.size.height >= 3,
        rect.top_left.can_offset(rect.size.width as int, rect.size.height as int),
        rect.spec_is_edge(q),
    ensures
        rect.is_internal(n),
        touching(q, n),
{
    let left = rect.top_left.x;
    let top = rect.top_left.y;
    let right = left + rect.size.width - 1;
    let bottom = top + rect.size.height - 1;
    let x = if q.x == left {
        q.x + 1
    } else if q.x == right {
        q.x - 1
    } else {
        q.x as int
    };
    let y = if q.y == top {
        q.y + 1
    } else if q.y == bottom {
        q.y - 1
    } else {
        q.y as int
    };
    Coord { x: x as i32, y: y as i32 }
}

/// Inside a rectangle whose inner cells are all open, a walk that reaches
/// one inner cell reaches every inner cell.
pub proof fn lemma_rect_spreads(
    open: Map<Coord, bool>,
    size: Size,
    starts: Set<Coord>,
    rect: Rect,
    p: Coord,
    c: Coord,
)
    requires
        size.fits(),
        rect.is_within(size),
        forall|d: Coord| rect.is_internal(d) ==> #[trigger] open[d],
        rect.is_internal(p),
        rect.is_internal(c),
        reachable(open, size, starts, p),
    ensures
        reachable(open, size, starts, c),
    decreases span(c.x - p.x) + span(c.y - p.y),
{
    if c != p {
        let q = if c.x > p.x {
            c.offset(-1, 0)
        } else if c.x < p.x {
            c.offset(1, 0)
        } else if c.y > p.y {
            c.offset(0, -1)
        } else {
            c.offset(0, 1)
        };
        lemma_rect_spreads(open, size, starts, rect, p, q);
        assert(is_step(open, size, q, c));
        lemma_step_reachable(open, size, starts, q, c);
    }
}

} // verus!
