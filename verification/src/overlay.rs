//! The overlays of a level: where water stands and where grass grows. Both
//! start from a grid of flags that says where noise is high enough.

use crate::flood::{flood_fill, lemma_start_reachable, reachable};
use crate::geometry::{comes_before, lemma_push_contains, Coord, Size};
use crate::grid::{mask_cells, mask_get, mask_grid_size, mask_set, mask_size, new_mask};
use crate::random::gen_bool;
use gridbugs::grid_2d::Grid;
use rand_isaac::Isaac64Rng;
use vstd::prelude::*;

verus! {

/// The water cells on the outermost ring of the map.
pub open spec fn edge_water(water: Map<Coord, bool>, size: Size) -> Set<Coord> {
    Set::new(|c: Coord| size.is_on_edge(c) && water[c])
}

/// Whether the water at `c` belongs to a pool that touches the edge: a walk
/// over water cells leads to `c` from a water cell on the outermost ring.
pub open spec fn leaks(water: Map<Coord, bool>, size: Size, c: Coord) -> bool {
    reachable(water, size, edge_water(water, size), c)
}

/// The water cells on the outermost ring of the map, row by row.
fn edge_water_cells(map: &Grid<bool>) -> (cells: Vec<Coord>)
    requires
        mask_size(*map).fits(),
    ensures
        cells@.to_set() == edge_water(mask_cells(*map), mask_size(*map)),
        forall|i: int| 0 <= i < cells.len() ==> mask_size(*map).is_valid(#[trigger] cells[i]),
{
    let size = mask_grid_size(map);
    let width = size.width as i32;
    let height = size.height as i32;
    let mut cells: Vec<Coord> = Vec::new();
    let mut x: i32 = 0;
    let mut y: i32 = 0;
    while y < height
        invariant
            size == mask_size(*map),
            size.fits(),
            width == size.width,
            height == size.height,
            0 <= x <= width,
            0 <= y <= height,
            forall|c: Coord|
                #[trigger] cells@.contains(c) <==> size.is_on_edge(c) && mask_cells(*map)[c]
                    && comes_before(c, x as int, y as int),
        decreases height - y, width - x,
    {
        if x < width {
            let here = Coord::new(x, y);
            if size.is_on_edge(here) && mask_get(map, here) {
                let ghost before = cells@;
                cells.push(here);
                proof {
                    lemma_push_contains(before, here);
                }
            }
            x += 1;
        } else {
            x = 0;
            y += 1;
        }
    }
    proof {
        assert(cells@.to_set() =~= edge_water(mask_cells(*map), size));
        assert forall|i: int| 0 <= i < cells.len() implies size.is_valid(#[trigger] cells[i]) by {
            assert(cells@.contains(cells[i]));
        }
    }
    cells
}

/// Drains every pool that touches the edge of the map: a water cell stays
/// water unless a walk over water cells joins it to a water cell on the
/// outermost ring. No water is added, and none is left on that ring.
pub fn remove_edge_water(map: &mut Grid<bool>)
    requires
        mask_size(*old(map)).fits(),
    ensures
        mask_size(*final(map)) == mask_size(*old(map)),
        forall|c: Coord|
            mask_size(*old(map)).is_valid(c) ==> (#[trigger] mask_cells(*final(map))[c] <==> (
            mask_cells(*old(map))[c] && !leaks(mask_cells(*old(map)), mask_size(*old(map)), c))),
        forall|c: Coord|
            mask_size(*old(map)).is_on_edge(c) ==> !#[trigger] mask_cells(*final(map))[c],
{
    let size = mask_grid_size(map);
    let width = size.width as i32;
    let height = size.height as i32;
    let starts = edge_water_cells(map);
    let seen = flood_fill(map, &starts);
    let ghost before = mask_cells(*map);
    let mut x: i32 = 0;
    let mut y: i32 = 0;
    while y < height
        invariant
            size == mask_size(*map),
            size == mask_size(seen),
            size.fits(),
            width == size.width,
            height == size.height,
            0 <= x <= width,
            0 <= y <= height,
            forall|c: Coord|
                size.is_valid(c) ==> (#[trigger] mask_cells(*map)[c] <==> before[c] && !(
                comes_before(c, x as int, y as int) && mask_cells(seen)[c])),
        decreases height - y, width - x,
    {
        if x < width {
            let here = Coord::new(x, y);
            if mask_get(&seen, here) {
                mask_set(map, here, false);
            }
            x += 1;
        } else {
            x = 0;
            y += 1;
        }
    }
    proof {
        assert forall|c: Coord| size.is_on_edge(c) implies !#[trigger] mask_cells(*map)[c] by {
            if before[c] {
                assert(edge_water(before, size).contains(c));
                lemma_start_reachable(before, size, edge_water(before, size), c);
            }
        }
    }
}

/// The water of a level: the cells that `noise` flags, less every pool that
/// touches the edge of the map.
pub fn make_water_map(noise: Grid<bool>) -> (map: Grid<bool>)
    requires
        mask_size(noise).fits(),
    ensures
        mask_size(map) == mask_size(noise),
        forall|c: Coord|
            mask_size(noise).is_valid(c) ==> (#[trigger] mask_cells(map)[c] <==> (mask_cells(
                noise,
            )[c] && !leaks(mask_cells(noise), mask_size(noise), c))),
        forall|c: Coord| mask_size(noise).is_on_edge(c) ==> !#[trigger] mask_cells(map)[c],
{
    let mut map = noise;
    remove_edge_water(&mut map);
    map
}

/// The grass of a level: of the cells that `noise` flags, those for which a
/// random draw says so. A draw is made for each flagged cell, the cells
/// walked row by row, and for no other.
pub fn make_grass_map(noise: &Grid<bool>, rng: &mut Isaac64Rng) -> (map: Grid<bool>)
    requires
        mask_size(*noise).fits(),
    ensures
        mask_size(map) == mask_size(*noise),
        forall|c: Coord|
            mask_size(*noise).is_valid(c) && #[trigger] mask_cells(map)[c] ==> mask_cells(
                *noise,
            )[c],
{
    let size = mask_grid_size(noise);
    let width = size.width as i32;
    let height = size.height as i32;
    let mut map = new_mask(size, false);
    let mut x: i32 = 0;
    let mut y: i32 = 0;
    while y < height
        invariant
            size == mask_size(*noise),
            size == mask_size(map),
            size.fits(),
            width == size.width,
            height == size.height,
            0 <= x <= width,
            0 <= y <= height,
            forall|c: Coord|
                size.is_valid(c) && #[trigger] mask_cells(map)[c] ==> mask_cells(*noise)[c],
        decreases height - y, width - x,
    {
        if x < width {
            let here = Coord::new(x, y);
            if mask_get(noise, here) && gen_bool(rng) {
                mask_set(&mut map, here, true);
            }
            x += 1;
        } else {
            x = 0;
            y += 1;
        }
    }
    map
}

} // verus!
