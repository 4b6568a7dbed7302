//! Dense grids of cells, kept in `grid_2d::Grid`.
//!
//! Verus does not look inside a `Grid`. What a grid holds is named by the
//! functions `level_cells` and `mask_cells`, its extent by `level_size` and
//! `mask_size`; the functions below them say what each `Grid` method does to
//! those, and are believed, not proved.

use crate::cell::LevelCell;
use crate::geometry::{Coord, Size};
use gridbugs::grid_2d::Grid;
use vstd::prelude::*;

verus! {

/// `grid_2d::Grid`, of which the verifier knows the name only.
#[verifier::external_type_specification]
#[verifier::external_body]
#[verifier::reject_recursive_types(T)]
pub struct ExGrid<T>(gridbugs::grid_2d::Grid<T>);

/// The extent of a grid of level cells.
pub uninterp spec fn level_size(grid: Grid<LevelCell>) -> Size;

/// The cell that a grid of level cells holds at each coordinate inside it.
pub uninterp spec fn level_cells(grid: Grid<LevelCell>) -> Map<Coord, LevelCell>;

/// The extent of a grid of flags.
pub uninterp spec fn mask_size(grid: Grid<bool>) -> Size;

/// The flag that a grid of flags holds at each coordinate inside it.
pub uninterp spec fn mask_cells(grid: Grid<bool>) -> Map<Coord, bool>;

/// `Grid::new_copy`: a grid of the given size with `cell` everywhere.
/// Left out are the sizes whose cell count `Size::count` cannot compute.
#[verifier::external_body]
pub(crate) fn new_level_grid(size: Size, cell: LevelCell) -> (grid: Grid<LevelCell>)
    requires
        size.fits(),
    ensures
        level_size(grid) == size,
        level_cells(grid) == Map::new(|c: Coord| size.is_valid(c), |c: Coord| cell),
{
    Grid::new_copy(gridbugs::coord_2d::Size::new(size.width, size.height), cell)
}

/// `Grid::size`: the extent that the grid was made with.
#[verifier::external_body]
pub(crate) fn level_grid_size(grid: &Grid<LevelCell>) -> (size: Size)
    ensures
        size == level_size(*grid),
{
    let size = grid.size();
    Size { width: size.width(), height: size.height() }
}

/// `Grid::get_checked`: the cell at `coord`, which must lie inside the grid.
#[verifier::external_body]
pub(crate) fn level_get(grid: &Grid<LevelCell>, coord: Coord) -> (cell: LevelCell)
    requires
        level_size(*grid).is_valid(coord),
    ensures
        cell == level_cells(*grid)[coord],
{
    *grid.get_checked(gridbugs::coord_2d::Coord::new(coord.x, coord.y))
}

/// `Grid::get_checked_mut`, written through: the cell at `coord`, which must
/// lie inside the grid, becomes `cell`; nothing else changes.
#[verifier::external_body]
pub(crate) fn level_set(grid: &mut Grid<LevelCell>, coord: Coord, cell: LevelCell)
    requires
        level_size(*old(grid)).is_valid(coord),
    ensures
        level_size(*final(grid)) == level_size(*old(grid)),
        level_cells(*final(grid)) == level_cells(*old(grid)).insert(coord, cell),
{
    *grid.get_checked_mut(gridbugs::coord_2d::Coord::new(coord.x, coord.y)) = cell;
}

/// `Grid::new_copy`: a grid of the given size with `flag` everywhere.
/// Left out are the sizes whose cell count `Size::count` cannot compute.
#[verifier::external_body]
pub(crate) fn new_mask(size: Size, flag: bool) -> (grid: Grid<bool>)
    requires
        size.fits(),
    ensures
        mask_size(grid) == size,
        mask_cells(grid) == Map::new(|c: Coord| size.is_valid(c), |c: Coord| flag),
{
    Grid::new_copy(gridbugs::coord_2d::Size::new(size.width, size.height), flag)
}

/// `Grid::size`: the extent that the grid was made with.
#[verifier::external_body]
pub(crate) fn mask_grid_size(grid: &Grid<bool>) -> (size: Size)
    ensures
        size == mask_size(*grid),
{
    let size = grid.size();
    Size { width: size.width(), height: size.height() }
}

/// `Grid::get_checked`: the flag at `coord`, which must lie inside the grid.
#[verifier::external_body]
pub(crate) fn mask_get(grid: &Grid<bool>, coord: Coord) -> (flag: bool)
    requires
        mask_size(*grid).is_valid(coord),
    ensures
        flag == mask_cells(*grid)[coord],
{
    *grid.get_checked(gridbugs::coord_2d::Coord::new(coord.x, coord.y))
}

/// `Grid::get_checked_mut`, written through: the flag at `coord`, which must
/// lie inside the grid, becomes `flag`; nothing else changes.
#[verifier::external_body]
pub(crate) fn mask_set(grid: &mut Grid<bool>, coord: Coord, flag: bool)
    requires
        mask_size(*old(grid)).is_valid(coord),
    ensures
        mask_size(*final(grid)) == mask_size(*old(grid)),
        mask_cells(*final(grid)) == mask_cells(*old(grid)).insert(coord, flag),
{
    *grid.get_checked_mut(gridbugs::coord_2d::Coord::new(coord.x, coord.y)) = flag;
}

} // verus!
