//! Room placement: rooms are tried one after the other on a map of wall; a
//! room that is placed is joined to rooms placed before it by corridors, on
//! which door candidates are found.

use crate::cell::LevelCell;
use crate::compose::is_floor_or_wall_map;
use crate::corridor::{
    beside_floor, carved, corridor_of, is_corridor, l_path, l_shaped_corridor,
    lemma_corridor_agrees, lemma_empty_l_path, lemma_l_path_shape, lemma_run_heads_agree,
    lemma_run_heads_are_sites, record_door_candidates, run_heads,
};
use crate::flood::{
    is_step, lemma_reachable_monotone, lemma_start_reachable, lemma_step_reachable, reachable,
};
use crate::geometry::{adjacent, Axis, Coord, Size};
use crate::grid::{level_cells, level_size, mask_cells, mask_size, new_level_grid, new_mask};
use crate::random::{choose_rooms, is_selection, is_selection_at};
use crate::rooms::{
    lemma_centre_is_internal, lemma_rect_spreads, lemma_ring_touches_inside, mark_edge,
    turn_to_floor, Room,
};
use gridbugs::grid_2d::Grid;
use rand_isaac::Isaac64Rng;
use vstd::prelude::*;

verus! {

/// The floor cells of a map, as a grid of flags.
pub open spec fn floor_mask(cells: Map<Coord, LevelCell>, size: Size) -> Map<Coord, bool> {
    Map::new(|c: Coord| size.is_valid(c), |c: Coord| cells[c] == LevelCell::Floor)
}

/// Whether a walk over floor cells leads from `anchor` to `c`.
pub open spec fn joined_by_floor(
    cells: Map<Coord, LevelCell>,
    size: Size,
    anchor: Coord,
    c: Coord,
) -> bool {
    reachable(floor_mask(cells, size), size, set![anchor], c)
}

/// Whether a walk over floor cells leads from `anchor` to every floor cell.
pub open spec fn floor_joined(cells: Map<Coord, LevelCell>, size: Size, anchor: Coord) -> bool {
    forall|c: Coord|
        size.is_valid(c) && #[trigger] cells[c] == LevelCell::Floor ==> joined_by_floor(
            cells,
            size,
            anchor,
            c,
        )
}

/// Whether `c` lies on the ring of one of `rooms` or of `pending`.
pub open spec fn on_a_ring(rooms: Seq<Room>, pending: Option<Room>, c: Coord) -> bool {
    ||| exists|i: int| 0 <= i < rooms.len() && (#[trigger] rooms[i]).rect.spec_is_edge(c)
    ||| pending is Some && pending->0.rect.spec_is_edge(c)
}

/// What holds of the rooms, flags and map of a placement, with `pending`
/// standing for a room whose ring is flagged but which is not yet placed.
pub open spec fn is_placement(
    rooms: Seq<Room>,
    flags: Map<Coord, bool>,
    candidates: Seq<Coord>,
    cells: Map<Coord, LevelCell>,
    size: Size,
    pending: Option<Room>,
) -> bool {
    &&& size.fits()
    &&& is_floor_or_wall_map(cells, size)
    &&& forall|i: int| 0 <= i < rooms.len() ==> (#[trigger] rooms[i]).fits_map(size)
    &&& forall|i: int, c: Coord|
        0 <= i < rooms.len() && (#[trigger] rooms[i]).rect.is_internal(c) ==> #[trigger] cells[c]
            == LevelCell::Floor
    &&& forall|c: Coord| size.is_valid(c) && #[trigger] cells[c] == LevelCell::Floor ==> size.is_inner(c)
    &&& forall|j: int|
        0 <= j < candidates.len() ==> {
            &&& size.is_valid(#[trigger] candidates[j])
            &&& cells[candidates[j]] == LevelCell::Floor
            &&& flags[candidates[j]]
        }
    &&& forall|c: Coord|
        size.is_valid(c) && #[trigger] flags[c] ==> on_a_ring(rooms, pending, c)
    &&& forall|j: int, i: int|
        0 <= j < candidates.len() && 0 <= i < rooms.len() ==> !(#[trigger] rooms[i]).rect.is_internal(
            #[trigger] candidates[j],
        )
    &&& rooms.len() == 0 ==> forall|c: Coord| size.is_valid(c) ==> #[trigger] cells[c] != LevelCell::Floor
    &&& rooms.len() > 0 ==> floor_joined(cells, size, rooms[0].rect.spec_centre())
}

/// Whether `c` lies on the L from the centre of `new_room` to the centre of
/// `other` that runs along `first_axis` first.
pub open spec fn lies_between(new_room: Room, other: Room, first_axis: Axis, c: Coord) -> bool {
    l_path(new_room.rect.spec_centre(), other.rect.spec_centre(), first_axis).contains(c)
}

/// Whether `c` lies on an L from the centre of `new_room` to the centre of
/// one of `rooms`.
pub open spec fn on_corridor_to(rooms: Seq<Room>, new_room: Room, c: Coord) -> bool {
    exists|i: int, first_axis: Axis|
        0 <= i < rooms.len() && #[trigger] lies_between(new_room, rooms[i], first_axis, c)
}

/// The map and the door candidates after one corridor: the corridor from
/// `start` to `end` is carved, and of each run of its cells that are then
/// fit for a door the first is added to the candidates.
pub open spec fn joined(
    cells: Map<Coord, LevelCell>,
    candidates: Seq<Coord>,
    flags: Map<Coord, bool>,
    size: Size,
    start: Coord,
    end: Coord,
    first_axis: Axis,
) -> (Map<Coord, LevelCell>, Seq<Coord>) {
    let corridor = corridor_of(start, end, cells, first_axis);
    let after = carved(cells, size, corridor);
    (after, candidates + run_heads(corridor, after, flags, corridor.len() as int))
}

/// The map and the door candidates after the first `k` corridors of a new
/// room: one to each of `partners` in turn, the corridor to the `i`-th
/// running along `axes[i]` first.
#[verifier::opaque]
pub open spec fn joined_to(
    cells: Map<Coord, LevelCell>,
    candidates: Seq<Coord>,
    flags: Map<Coord, bool>,
    size: Size,
    new_room: Room,
    partners: Seq<Room>,
    axes: Seq<Axis>,
    k: int,
) -> (Map<Coord, LevelCell>, Seq<Coord>)
    decreases k,
{
    if k <= 0 {
        (cells, candidates)
    } else {
        let before = joined_to(cells, candidates, flags, size, new_room, partners, axes, k - 1);
        joined(
            before.0,
            before.1,
            flags,
            size,
            new_room.rect.spec_centre(),
            partners[k - 1].rect.spec_centre(),
            axes[k - 1],
        )
    }
}

/// Whether `new_cells` and `new_candidates` are what placing `new_room`
/// makes of `cells` and `candidates` when the room is joined to `partners`
/// in turn, the corridor to the `i`-th running along `axes[i]` first: the
/// corridors are carved and their door candidates added, then the inside of
/// the room becomes floor.
pub open spec fn is_room_added(
    cells: Map<Coord, LevelCell>,
    candidates: Seq<Coord>,
    flags: Map<Coord, bool>,
    size: Size,
    new_room: Room,
    partners: Seq<Room>,
    axes: Seq<Axis>,
    new_cells: Map<Coord, LevelCell>,
    new_candidates: Seq<Coord>,
) -> bool {
    let after = joined_to(
        cells,
        candidates,
        flags,
        size,
        new_room,
        partners,
        axes,
        partners.len() as int,
    );
    &&& axes.len() == partners.len()
    &&& new_candidates == after.1
    &&& forall|c: Coord|
        size.is_valid(c) ==> #[trigger] new_cells[c] == (if new_room.rect.is_internal(c) {
            LevelCell::Floor
        } else {
            after.0[c]
        })
}

/// Whether `new_cells` and `new_candidates` are what placing `new_room`
/// makes of `cells` and `candidates` when the room is joined to `partners`,
/// which are two of `rooms`, or all there are, from distinct positions.
pub open spec fn is_room_joined(
    rooms: Seq<Room>,
    cells: Map<Coord, LevelCell>,
    candidates: Seq<Coord>,
    flags: Map<Coord, bool>,
    size: Size,
    new_room: Room,
    partners: Seq<Room>,
    axes: Seq<Axis>,
    new_cells: Map<Coord, LevelCell>,
    new_candidates: Seq<Coord>,
) -> bool {
    &&& is_selection(partners, rooms)
    &&& partners.len() == (if rooms.len() < 2 {
        rooms.len()
    } else {
        2
    })
    &&& is_room_added(
        cells,
        candidates,
        flags,
        size,
        new_room,
        partners,
        axes,
        new_cells,
        new_candidates,
    )
}

/// The rooms that a new room is joined to and the axes that its corridors
/// run along first leave nothing open: two placements of the room with the
/// same of both give the same door candidates and the same cells.
pub proof fn lemma_joined_room_is_determined(
    cells: Map<Coord, LevelCell>,
    candidates: Seq<Coord>,
    flags: Map<Coord, bool>,
    size: Size,
    new_room: Room,
    partners: Seq<Room>,
    axes: Seq<Axis>,
    first_cells: Map<Coord, LevelCell>,
    first_candidates: Seq<Coord>,
    second_cells: Map<Coord, LevelCell>,
    second_candidates: Seq<Coord>,
    c: Coord,
)
    requires
        is_room_added(
            cells,
            candidates,
            flags,
            size,
            new_room,
            partners,
            axes,
            first_cells,
            first_candidates,
        ),
        is_room_added(
            cells,
            candidates,
            flags,
            size,
            new_room,
            partners,
            axes,
            second_cells,
            second_candidates,
        ),
        size.is_valid(c),
    ensures
        first_candidates == second_candidates,
        first_cells[c] == second_cells[c],
{
}

/// What a placement holds: the rooms placed, the flags of the cells on
/// their rings, the door candidates, and the cells of the map.
pub struct PlacementState {
    pub rooms: Seq<Room>,
    pub flags: Map<Coord, bool>,
    pub candidates: Seq<Coord>,
    pub cells: Map<Coord, LevelCell>,
}

/// Whether two placements hold the same rooms, candidates, cells and flags.
pub open spec fn is_same_placement(before: PlacementState, after: PlacementState, size: Size) -> bool {
    &&& after.rooms == before.rooms
    &&& after.candidates == before.candidates
    &&& forall|c: Coord| size.is_valid(c) ==> #[trigger] after.cells[c] == before.cells[c]
    &&& forall|c: Coord| size.is_valid(c) ==> #[trigger] after.flags[c] == before.flags[c]
}

/// Whether `after` is what trying `new_room` makes of `before`: nothing
/// changes if a cell of the room is already floor; else the room is placed,
/// its ring is flagged, and it is joined to two of the rooms placed before
/// it, or to all there are.
pub open spec fn is_room_tried(
    before: PlacementState,
    size: Size,
    new_room: Room,
    after: PlacementState,
) -> bool {
    if new_room.overlaps_floor(before.cells) {
        is_same_placement(before, after, size)
    } else {
        &&& after.rooms == before.rooms.push(new_room)
        &&& forall|c: Coord|
            size.is_valid(c) ==> #[trigger] after.flags[c] == (before.flags[c]
                || new_room.rect.spec_is_edge(c))
        &&& exists|partners: Seq<Room>, axes: Seq<Axis>|
            is_room_joined(
                before.rooms,
                before.cells,
                before.candidates,
                after.flags,
                size,
                new_room,
                partners,
                axes,
                after.cells,
                after.candidates,
            )
    }
}

/// The state of room placement: the rooms placed so far, a flag for every
/// cell on the ring of one of them, the corridor cells fit for a door, and
/// the map of floor and wall that rooms and corridors are carved into.
pub struct RoomPlacement {
    pub rooms: Vec<Room>,
    pub edge_coords: Grid<bool>,
    pub door_candidates: Vec<Coord>,
    pub map: Grid<LevelCell>,
}

impl RoomPlacement {
    /// The extent of the map.
    pub open spec fn size(&self) -> Size {
        level_size(self.map)
    }

    /// What the placement holds.
    pub open spec fn state(&self) -> PlacementState {
        PlacementState {
            rooms: self.rooms@,
            flags: mask_cells(self.edge_coords),
            candidates: self.door_candidates@,
            cells: level_cells(self.map),
        }
    }

    /// The placement is consistent: the map holds floor and wall only and
    /// no floor on its outermost ring; every room lies on the map and its
    /// inside is floor; every cell flagged as ring is on the ring of a room;
    /// every door candidate is a flagged floor cell outside the rooms; and a
    /// walk over floor cells leads from the centre of the first room to every
    /// floor cell.
    pub open spec fn wf(&self) -> bool {
        &&& mask_size(self.edge_coords) == self.size()
        &&& is_placement(
            self.rooms@,
            mask_cells(self.edge_coords),
            self.door_candidates@,
            level_cells(self.map),
            self.size(),
            None,
        )
    }

    /// A placement without rooms on a map of wall.
    pub fn new(size: Size) -> (placement: RoomPlacement)
        requires
            size.fits(),
        ensures
            placement.wf(),
            placement.size() == size,
            placement.rooms@.len() == 0,
            placement.door_candidates@.len() == 0,
            forall|c: Coord|
                size.is_valid(c) ==> #[trigger] level_cells(placement.map)[c] == LevelCell::Wall,
            forall|c: Coord| size.is_valid(c) ==> !#[trigger] mask_cells(placement.edge_coords)[c],
    {
        RoomPlacement {
            rooms: Vec::new(),
            edge_coords: new_mask(size, false),
            door_candidates: Vec::new(),
            map: new_level_grid(size, LevelCell::Wall),
        }
    }
}

/// Before the first corridor the map and the candidates are as they were.
proof fn lemma_joined_to_none(
    cells: Map<Coord, LevelCell>,
    candidates: Seq<Coord>,
    flags: Map<Coord, bool>,
    size: Size,
    new_room: Room,
    partners: Seq<Room>,
    axes: Seq<Axis>,
)
    ensures
        joined_to(cells, candidates, flags, size, new_room, partners, axes, 0) == (
            cells,
            candidates,
        ),
{
    reveal_with_fuel(joined_to, 1);
}

/// The first `k` corridors depend on the first `k` axes only.
proof fn lemma_joined_to_prefix(
    cells: Map<Coord, LevelCell>,
    candidates: Seq<Coord>,
    flags: Map<Coord, bool>,
    size: Size,
    new_room: Room,
    partners: Seq<Room>,
    axes: Seq<Axis>,
    more_axes: Seq<Axis>,
    k: int,
)
    requires
        0 <= k <= axes.len() <= more_axes.len(),
        forall|i: int| 0 <= i < axes.len() ==> axes[i] == more_axes[i],
    ensures
        joined_to(cells, candidates, flags, size, new_room, partners, axes, k) == joined_to(
            cells,
            candidates,
            flags,
            size,
            new_room,
            partners,
            more_axes,
            k,
        ),
    decreases k,
{
    reveal_with_fuel(joined_to, 2);
    if k > 0 {
        lemma_joined_to_prefix(
            cells,
            candidates,
            flags,
            size,
            new_room,
            partners,
            axes,
            more_axes,
            k - 1,
        );
    }
}

/// What carving one more corridor and recording its door candidates gives
/// is what `joined_to` says of one more corridor.
proof fn lemma_join_traced(
    base: Map<Coord, LevelCell>,
    old_candidates: Seq<Coord>,
    flags: Map<Coord, bool>,
    size: Size,
    new_room: Room,
    partners: Seq<Room>,
    axes: Seq<Axis>,
    k: int,
    cells: Map<Coord, LevelCell>,
    candidates: Seq<Coord>,
    first_axis: Axis,
    corridor: Seq<Coord>,
    new_cells: Map<Coord, LevelCell>,
    new_candidates: Seq<Coord>,
)
    requires
        size.fits(),
        0 <= k < partners.len(),
        axes.len() == k,
        size.is_inner(new_room.rect.spec_centre()),
        size.is_inner(partners[k].rect.spec_centre()),
        forall|c: Coord|
            size.is_valid(c) ==> #[trigger] cells[c] == joined_to(
                base,
                old_candidates,
                flags,
                size,
                new_room,
                partners,
                axes,
                k,
            ).0[c],
        candidates == joined_to(base, old_candidates, flags, size, new_room, partners, axes, k).1,
        is_corridor(
            corridor,
            new_room.rect.spec_centre(),
            partners[k].rect.spec_centre(),
            cells,
            first_axis,
        ),
        forall|c: Coord|
            size.is_valid(c) ==> #[trigger] new_cells[c] == (if corridor.contains(c) {
                LevelCell::Floor
            } else {
                cells[c]
            }),
        new_candidates == candidates + run_heads(corridor, new_cells, flags, corridor.len() as int),
    ensures
        forall|c: Coord|
            size.is_valid(c) ==> #[trigger] new_cells[c] == joined_to(
                base,
                old_candidates,
                flags,
                size,
                new_room,
                partners,
                axes.push(first_axis),
                k + 1,
            ).0[c],
        new_candidates == joined_to(
            base,
            old_candidates,
            flags,
            size,
            new_room,
            partners,
            axes.push(first_axis),
            k + 1,
        ).1,
{
    reveal_with_fuel(joined_to, 2);
    let start = new_room.rect.spec_centre();
    let end = partners[k].rect.spec_centre();
    let more_axes = axes.push(first_axis);
    let before = joined_to(base, old_candidates, flags, size, new_room, partners, axes, k);
    lemma_joined_to_prefix(
        base,
        old_candidates,
        flags,
        size,
        new_room,
        partners,
        axes,
        more_axes,
        k,
    );
    lemma_corridor_agrees(corridor, start, end, cells, before.0, size, first_axis);
    let after = carved(before.0, size, corridor);
    assert forall|i: int| 0 <= i < corridor.len() implies size.is_inner(#[trigger] corridor[i]) by {
        lemma_l_path_shape(start, end, first_axis, size, i);
        assert(corridor[i] == l_path(start, end, first_axis)[i]);
    }
    lemma_run_heads_agree(corridor, new_cells, after, flags, size, corridor.len() as int);
    assert(more_axes[k] == first_axis);
}

/// A corridor from the centre of a room that overlaps no floor of `base`
/// runs over cells that are not floor in `base`.
proof fn lemma_corridor_is_fresh(
    base: Map<Coord, LevelCell>,
    cells: Map<Coord, LevelCell>,
    size: Size,
    new_room: Room,
    end: Coord,
    first_axis: Axis,
    corridor: Seq<Coord>,
    i: int,
)
    requires
        size.fits(),
        new_room.fits_map(size),
        size.is_inner(end),
        !new_room.overlaps_floor(base),
        forall|c: Coord| size.is_valid(c) && #[trigger] base[c] == LevelCell::Floor ==> cells[c] == LevelCell::Floor,
        is_corridor(corridor, new_room.rect.spec_centre(), end, cells, first_axis),
        0 <= i < corridor.len(),
    ensures
        size.is_inner(corridor[i]),
        base[corridor[i]] != LevelCell::Floor,
        i > 0 ==> adjacent(corridor[i - 1], corridor[i]),
        i == 0 ==> corridor[0] == new_room.rect.spec_centre() || adjacent(
            new_room.rect.spec_centre(),
            corridor[0],
        ),
{
    let start = new_room.rect.spec_centre();
    lemma_centre_is_internal(new_room.rect);
    lemma_l_path_shape(start, end, first_axis, size, i);
    assert(corridor[i] == l_path(start, end, first_axis)[i]);
    if i == 0 {
        assert(new_room.rect.contains(corridor[0]));
    } else {
        assert(corridor[i - 1] == l_path(start, end, first_axis)[i - 1]);
        assert(!beside_floor(cells, corridor[i - 1]));
        lemma_l_path_shape(start, end, first_axis, size, i - 1);
        assert(cells[corridor[i]] != LevelCell::Floor);
    }
}

/// Once a corridor is carved, a walk over floor cells leads from the anchor
/// to each of its cells: its last cell lies beside a floor cell that such a
/// walk reached before.
proof fn lemma_corridor_is_joined(
    cells: Map<Coord, LevelCell>,
    carved: Map<Coord, LevelCell>,
    size: Size,
    anchor: Coord,
    start: Coord,
    end: Coord,
    first_axis: Axis,
    corridor: Seq<Coord>,
    i: int,
)
    requires
        size.fits(),
        size.is_inner(start),
        size.is_inner(end),
        cells[end] == LevelCell::Floor,
        floor_joined(cells, size, anchor),
        is_corridor(corridor, start, end, cells, first_axis),
        forall|c: Coord|
            size.is_valid(c) ==> #[trigger] carved[c] == (if corridor.contains(c) {
                LevelCell::Floor
            } else {
                cells[c]
            }),
        0 <= i < corridor.len(),
    ensures
        joined_by_floor(carved, size, anchor, corridor[i]),
    decreases corridor.len() - i,
{
    let path = l_path(start, end, first_axis);
    let before = floor_mask(cells, size);
    let after = floor_mask(carved, size);
    let here = corridor[i];
    lemma_l_path_shape(start, end, first_axis, size, i);
    assert(here == path[i]);
    assert(corridor.contains(here));
    assert(carved[here] == LevelCell::Floor);
    let from = if i < corridor.len() - 1 {
        corridor[i + 1]
    } else if corridor.len() < path.len() {
        if cells[here.offset(0, -1)] == LevelCell::Floor {
            here.offset(0, -1)
        } else if cells[here.offset(1, 0)] == LevelCell::Floor {
            here.offset(1, 0)
        } else if cells[here.offset(0, 1)] == LevelCell::Floor {
            here.offset(0, 1)
        } else {
            here.offset(-1, 0)
        }
    } else {
        end
    };
    if i < corridor.len() - 1 {
        lemma_corridor_is_joined(cells, carved, size, anchor, start, end, first_axis, corridor, i + 1);
        lemma_l_path_shape(start, end, first_axis, size, i + 1);
        assert(corridor[i + 1] == path[i + 1]);
    } else {
        assert(cells[from] == LevelCell::Floor);
        assert(size.is_valid(from));
        assert(joined_by_floor(cells, size, anchor, from));
        assert forall|c: Coord| size.is_valid(c) && #[trigger] before[c] implies after[c] by {
            assert(carved[c] == LevelCell::Floor);
        }
        lemma_reachable_monotone(before, after, size, set![anchor], set![anchor], from);
    }
    assert(adjacent(from, here));
    assert(is_step(after, size, from, here));
    lemma_step_reachable(after, size, set![anchor], from, here);
}

/// Carving a corridor for a pending room and recording its door candidates
/// keeps the placement consistent, and leaves a floor cell on or beside the
/// centre of the pending room.
proof fn lemma_carved_corridor(
    rooms: Seq<Room>,
    flags: Map<Coord, bool>,
    candidates: Seq<Coord>,
    cells: Map<Coord, LevelCell>,
    size: Size,
    new_room: Room,
    base: Map<Coord, LevelCell>,
    old_count: int,
    partner: int,
    end: Coord,
    first_axis: Axis,
    corridor: Seq<Coord>,
    carved: Map<Coord, LevelCell>,
    new_candidates: Seq<Coord>,
) -> (hook: Coord)
    requires
        is_placement(rooms, flags, candidates, cells, size, Some(new_room)),
        new_room.fits_map(size),
        0 <= partner < rooms.len(),
        end == rooms[partner].rect.spec_centre(),
        forall|c: Coord|
            size.is_valid(c) && #[trigger] cells[c] == LevelCell::Floor && base[c]
                != LevelCell::Floor ==> on_corridor_to(rooms, new_room, c),
        forall|j: int|
            0 <= j < candidates.len() && base[#[trigger] candidates[j]] == LevelCell::Floor
                ==> j < old_count,
        !new_room.overlaps_floor(base),
        forall|c: Coord| size.is_valid(c) && #[trigger] base[c] == LevelCell::Floor ==> cells[c] == LevelCell::Floor,
        forall|i: int, c: Coord|
            0 <= i < rooms.len() && (#[trigger] rooms[i]).rect.is_internal(c) ==> #[trigger] base[c]
                == LevelCell::Floor,
        forall|j: int| 0 <= j < candidates.len() ==> !new_room.rect.is_internal(#[trigger] candidates[j]),
        size.is_inner(end),
        cells[end] == LevelCell::Floor,
        is_corridor(corridor, new_room.rect.spec_centre(), end, cells, first_axis),
        forall|c: Coord|
            size.is_valid(c) ==> #[trigger] carved[c] == (if corridor.contains(c) {
                LevelCell::Floor
            } else {
                cells[c]
            }),
        new_candidates == candidates + run_heads(corridor, carved, flags, corridor.len() as int),
    ensures
        is_placement(rooms, flags, new_candidates, carved, size, Some(new_room)),
        forall|c: Coord| size.is_valid(c) && #[trigger] base[c] == LevelCell::Floor ==> carved[c] == LevelCell::Floor,
        forall|c: Coord|
            size.is_valid(c) && #[trigger] carved[c] == LevelCell::Floor && base[c]
                != LevelCell::Floor ==> on_corridor_to(rooms, new_room, c),
        forall|j: int|
            0 <= j < new_candidates.len() && base[#[trigger] new_candidates[j]]
                == LevelCell::Floor ==> j < old_count,
        forall|j: int|
            0 <= j < new_candidates.len() ==> !new_room.rect.is_internal(#[trigger] new_candidates[j]),
        size.is_valid(hook),
        carved[hook] == LevelCell::Floor,
        hook == new_room.rect.spec_centre() || adjacent(hook, new_room.rect.spec_centre()),
{
    let start = new_room.rect.spec_centre();
    let anchor = rooms[0].rect.spec_centre();
    let heads = run_heads(corridor, carved, flags, corridor.len() as int);
    lemma_centre_is_internal(new_room.rect);
    assert forall|c: Coord| size.is_valid(c) && #[trigger] carved[c] == LevelCell::Floor implies size.is_inner(
        c,
    ) by {
        if corridor.contains(c) {
            let i = choose|i: int| 0 <= i < corridor.len() && corridor[i] == c;
            lemma_corridor_is_fresh(base, cells, size, new_room, end, first_axis, corridor, i);
        } else {
            assert(cells[c] == LevelCell::Floor);
        }
    }
    assert forall|j: int| 0 <= j < new_candidates.len() implies {
        &&& size.is_valid(#[trigger] new_candidates[j])
        &&& carved[new_candidates[j]] == LevelCell::Floor
        &&& flags[new_candidates[j]]
        &&& !new_room.rect.is_internal(new_candidates[j])
        &&& forall|i: int|
            0 <= i < rooms.len() ==> !(#[trigger] rooms[i]).rect.is_internal(new_candidates[j])
    } by {
        let q = new_candidates[j];
        if j < candidates.len() {
            assert(q == candidates[j]);
            assert(cells[q] == LevelCell::Floor);
        } else {
            let h = j - candidates.len();
            assert(q == heads[h]);
            lemma_run_heads_are_sites(corridor, carved, flags, corridor.len() as int, h);
            let i = choose|i: int| 0 <= i < corridor.len() && corridor[i] == q;
            lemma_corridor_is_fresh(base, cells, size, new_room, end, first_axis, corridor, i);
            assert(on_a_ring(rooms, Some(new_room), q));
            if new_room.rect.is_internal(q) {
                let r = choose|r: int| 0 <= r < rooms.len() && (#[trigger] rooms[r]).rect.spec_is_edge(q);
                assert(rooms[r].fits_map(size));
                let n = lemma_ring_touches_inside(rooms[r].rect, q);
                assert(base[n] == LevelCell::Floor);
                assert(new_room.rect.contains(n));
                assert(false);
            }
        }
    }
    assert forall|c: Coord|
        size.is_valid(c) && #[trigger] carved[c] == LevelCell::Floor implies joined_by_floor(
        carved,
        size,
        anchor,
        c,
    ) by {
        if corridor.contains(c) {
            let i = choose|i: int| 0 <= i < corridor.len() && corridor[i] == c;
            lemma_corridor_is_joined(
                cells,
                carved,
                size,
                anchor,
                start,
                end,
                first_axis,
                corridor,
                i,
            );
        } else {
            let before = floor_mask(cells, size);
            let after = floor_mask(carved, size);
            assert forall|d: Coord| size.is_valid(d) && #[trigger] before[d] implies after[d] by {
                assert(carved[d] == LevelCell::Floor);
            }
            assert(joined_by_floor(cells, size, anchor, c));
            lemma_reachable_monotone(before, after, size, set![anchor], set![anchor], c);
        }
    }
    assert forall|c: Coord|
        size.is_valid(c) && #[trigger] carved[c] == LevelCell::Floor && base[c]
            != LevelCell::Floor implies on_corridor_to(rooms, new_room, c) by {
        if corridor.contains(c) {
            let i = choose|i: int| 0 <= i < corridor.len() && corridor[i] == c;
            assert(l_path(start, end, first_axis)[i] == c);
            assert(lies_between(new_room, rooms[partner], first_axis, c));
        } else {
            assert(cells[c] == LevelCell::Floor);
        }
    }
    assert forall|j: int|
        0 <= j < new_candidates.len() && base[#[trigger] new_candidates[j]]
            == LevelCell::Floor implies j < old_count by {
        if j >= candidates.len() {
            let h = j - candidates.len();
            assert(new_candidates[j] == heads[h]);
            lemma_run_heads_are_sites(corridor, carved, flags, corridor.len() as int, h);
            let i = choose|i: int| 0 <= i < corridor.len() && corridor[i] == new_candidates[j];
            lemma_corridor_is_fresh(base, cells, size, new_room, end, first_axis, corridor, i);
        } else {
            assert(new_candidates[j] == candidates[j]);
        }
    }
    if corridor.len() > 0 {
        lemma_corridor_is_fresh(base, cells, size, new_room, end, first_axis, corridor, 0);
        assert(corridor.contains(corridor[0]));
        corridor[0]
    } else {
        lemma_empty_l_path(start, end, first_axis);
        end
    }
}

/// Placing the pending room, once its corridors are carved, keeps the
/// placement consistent: its floor is joined to the rest by the floor cell on
/// or beside its centre.
proof fn lemma_room_placed(
    rooms: Seq<Room>,
    flags: Map<Coord, bool>,
    candidates: Seq<Coord>,
    cells: Map<Coord, LevelCell>,
    size: Size,
    new_room: Room,
    hook: Coord,
    floored: Map<Coord, LevelCell>,
)
    requires
        is_placement(rooms, flags, candidates, cells, size, Some(new_room)),
        new_room.fits_map(size),
        forall|j: int| 0 <= j < candidates.len() ==> !new_room.rect.is_internal(#[trigger] candidates[j]),
        rooms.len() > 0 ==> {
            &&& size.is_valid(hook)
            &&& cells[hook] == LevelCell::Floor
            &&& (hook == new_room.rect.spec_centre() || adjacent(hook, new_room.rect.spec_centre()))
        },
        forall|c: Coord|
            size.is_valid(c) ==> #[trigger] floored[c] == (if new_room.rect.is_internal(c) {
                LevelCell::Floor
            } else {
                cells[c]
            }),
    ensures
        is_placement(rooms.push(new_room), flags, candidates, floored, size, None),
{
    let placed = rooms.push(new_room);
    let centre = new_room.rect.spec_centre();
    let anchor = placed[0].rect.spec_centre();
    let before = floor_mask(cells, size);
    let after = floor_mask(floored, size);
    lemma_centre_is_internal(new_room.rect);
    assert forall|i: int| 0 <= i < placed.len() implies (#[trigger] placed[i]).fits_map(size) by {
        if i < rooms.len() {
            assert(placed[i] == rooms[i]);
        }
    }
    assert forall|i: int, c: Coord|
        0 <= i < placed.len() && (#[trigger] placed[i]).rect.is_internal(c) implies #[trigger] floored[c]
        == LevelCell::Floor by {
        if i < rooms.len() {
            assert(placed[i] == rooms[i]);
            assert(rooms[i].fits_map(size));
            assert(cells[c] == LevelCell::Floor);
        }
    }
    assert forall|c: Coord| size.is_valid(c) && #[trigger] flags[c] implies on_a_ring(
        placed,
        None,
        c,
    ) by {
        assert(on_a_ring(rooms, Some(new_room), c));
        if exists|i: int| 0 <= i < rooms.len() && (#[trigger] rooms[i]).rect.spec_is_edge(c) {
            let i = choose|i: int| 0 <= i < rooms.len() && (#[trigger] rooms[i]).rect.spec_is_edge(c);
            assert(placed[i] == rooms[i]);
        } else {
            assert(placed[rooms.len() as int] == new_room);
        }
    }
    assert forall|j: int, i: int|
        0 <= j < candidates.len() && 0 <= i < placed.len() implies !(#[trigger] placed[i]).rect.is_internal(
        #[trigger] candidates[j],
    ) by {
        if i < rooms.len() {
            assert(placed[i] == rooms[i]);
        }
    }
    assert forall|j: int| 0 <= j < candidates.len() implies floored[#[trigger] candidates[j]]
        == LevelCell::Floor by {
        assert(cells[candidates[j]] == LevelCell::Floor);
    }
    assert forall|d: Coord| size.is_valid(d) && #[trigger] before[d] implies after[d] by {
        assert(floored[d] == LevelCell::Floor);
    }
    assert forall|d: Coord| new_room.rect.is_internal(d) implies #[trigger] after[d] by {
        assert(floored[d] == LevelCell::Floor);
    }
    if rooms.len() == 0 {
        assert(anchor == centre);
        lemma_start_reachable(after, size, set![anchor], centre);
    } else {
        assert(placed[0] == rooms[0]);
        assert(joined_by_floor(cells, size, anchor, hook));
        lemma_reachable_monotone(before, after, size, set![anchor], set![anchor], hook);
        if hook != centre {
            assert(is_step(after, size, hook, centre));
            lemma_step_reachable(after, size, set![anchor], hook, centre);
        }
    }
    assert forall|c: Coord|
        size.is_valid(c) && #[trigger] floored[c] == LevelCell::Floor implies joined_by_floor(
        floored,
        size,
        anchor,
        c,
    ) by {
        if new_room.rect.is_internal(c) {
            lemma_rect_spreads(after, size, set![anchor], new_room.rect, centre, c);
        } else {
            assert(cells[c] == LevelCell::Floor);
            assert(joined_by_floor(cells, size, anchor, c));
            lemma_reachable_monotone(before, after, size, set![anchor], set![anchor], c);
        }
    }
}

impl RoomPlacement {
    /// Places `new_room` unless one of its cells is already floor. The ring
    /// of a room that is placed is flagged; the room is joined to two of the
    /// rooms placed before it, drawn at random, or to the one there is, each
    /// by an L-shaped corridor from its centre to theirs that stops beside
    /// the first floor it meets; along each corridor the first cell of every
    /// run of cells fit for a door becomes a door candidate; then the inside
    /// of the room becomes floor. No floor is ever taken away.
    pub fn try_add_room(&mut self, new_room: Room, rng: &mut Isaac64Rng)
        requires
            old(self).wf(),
            new_room.fits_map(old(self).size()),
        ensures
            final(self).wf(),
            final(self).size() == old(self).size(),
            is_room_tried(old(self).state(), old(self).size(), new_room, final(self).state()),
            !new_room.overlaps_floor(level_cells(old(self).map)) ==> {
                &&& old(self).door_candidates@.is_prefix_of(final(self).door_candidates@)
                &&& forall|c: Coord|
                    old(self).size().is_valid(c) && #[trigger] level_cells(old(self).map)[c]
                        == LevelCell::Floor ==> level_cells(final(self).map)[c] == LevelCell::Floor
                &&& forall|c: Coord|
                    old(self).size().is_valid(c) && #[trigger] level_cells(final(self).map)[c]
                        == LevelCell::Floor && level_cells(old(self).map)[c] != LevelCell::Floor
                        ==> new_room.rect.is_internal(c) || on_corridor_to(
                        old(self).rooms@,
                        new_room,
                        c,
                    )
                &&& forall|j: int|
                    old(self).door_candidates@.len() <= j < final(self).door_candidates@.len()
                        ==> level_cells(old(self).map)[#[trigger] final(self).door_candidates@[j]]
                        != LevelCell::Floor
            },
    {
        if new_room.overlaps_with_floor(&self.map) {
            assert(is_same_placement(self.state(), self.state(), self.size()));
            return;
        }
        let ghost size = self.size();
        let ghost base = level_cells(self.map);
        let ghost old_candidates = self.door_candidates@;
        let ghost old_flags = mask_cells(self.edge_coords);
        mark_edge(&mut self.edge_coords, &new_room.rect);
        let ghost flags = mask_cells(self.edge_coords);
        let chosen = choose_rooms(&self.rooms, rng, 2);
        let start = new_room.rect.centre();
        let ghost hook = start;
        let ghost mut axes: Seq<Axis> = Seq::empty();
        proof {
            lemma_joined_to_none(base, old_candidates, flags, size, new_room, chosen@, axes);
        }
        proof {
            lemma_centre_is_internal(new_room.rect);
            assert forall|c: Coord| size.is_valid(c) && #[trigger] flags[c] implies on_a_ring(
                self.rooms@,
                Some(new_room),
                c,
            ) by {
                if !new_room.rect.spec_is_edge(c) {
                    assert(old_flags[c]);
                    assert(on_a_ring(self.rooms@, None, c));
                }
            }
            assert forall|j: int| 0 <= j < old_candidates.len() implies !new_room.rect.is_internal(
                #[trigger] old_candidates[j],
            ) by {
                assert(base[old_candidates[j]] == LevelCell::Floor);
            }
        }
        let mut k: usize = 0;
        while k < chosen.len()
            invariant
                0 <= k <= chosen.len(),
                size == self.size(),
                mask_size(self.edge_coords) == size,
                flags == mask_cells(self.edge_coords),
                self.rooms@ == old(self).rooms@,
                is_selection(chosen@, self.rooms@),
                new_room.fits_map(size),
                start == new_room.rect.spec_centre(),
                size.is_inner(start),
                is_placement(
                    self.rooms@,
                    flags,
                    self.door_candidates@,
                    level_cells(self.map),
                    size,
                    Some(new_room),
                ),
                !new_room.overlaps_floor(base),
                forall|c: Coord|
                    size.is_valid(c) && #[trigger] base[c] == LevelCell::Floor ==> level_cells(
                        self.map,
                    )[c] == LevelCell::Floor,
                forall|i: int, c: Coord|
                    0 <= i < self.rooms@.len() && (#[trigger] self.rooms@[i]).rect.is_internal(c)
                        ==> #[trigger] base[c] == LevelCell::Floor,
                forall|j: int|
                    0 <= j < self.door_candidates@.len() ==> !new_room.rect.is_internal(
                        #[trigger] self.door_candidates@[j],
                    ),
                old_candidates.is_prefix_of(self.door_candidates@),
                forall|c: Coord|
                    size.is_valid(c) && #[trigger] level_cells(self.map)[c] == LevelCell::Floor
                        && base[c] != LevelCell::Floor ==> on_corridor_to(
                        self.rooms@,
                        new_room,
                        c,
                    ),
                forall|j: int|
                    0 <= j < self.door_candidates@.len() && base[#[trigger] self.door_candidates@[j]]
                        == LevelCell::Floor ==> j < old_candidates.len(),
                k > 0 ==> {
                    &&& size.is_valid(hook)
                    &&& level_cells(self.map)[hook] == LevelCell::Floor
                    &&& (hook == start || adjacent(hook, start))
                },
                axes.len() == k,
                forall|c: Coord|
                    size.is_valid(c) ==> #[trigger] level_cells(self.map)[c] == joined_to(
                        base,
                        old_candidates,
                        flags,
                        size,
                        new_room,
                        chosen@,
                        axes,
                        k as int,
                    ).0[c],
                self.door_candidates@ == joined_to(
                    base,
                    old_candidates,
                    flags,
                    size,
                    new_room,
                    chosen@,
                    axes,
                    k as int,
                ).1,
            decreases chosen.len() - k,
        {
            let existing_room = chosen[k];
            let ghost cells = level_cells(self.map);
            let ghost candidates = self.door_candidates@;
            let ghost mut partner = 0int;
            proof {
                let positions = choose|positions: Seq<int>|
                    is_selection_at(chosen@, self.rooms@, positions);
                let p = positions[k as int];
                partner = p;
                assert(existing_room == self.rooms@[p]);
                assert(self.rooms@[p].fits_map(size));
                lemma_centre_is_internal(existing_room.rect);
                assert(cells[existing_room.rect.spec_centre()] == LevelCell::Floor);
            }
            let end = existing_room.rect.centre();
            let corridor = l_shaped_corridor(start, end, &self.map, rng);
            let ghost first_axis = if is_corridor(corridor@, start, end, cells, Axis::X) {
                Axis::X
            } else {
                Axis::Y
            };
            proof {
                assert forall|i: int| 0 <= i < corridor.len() implies size.is_inner(
                    #[trigger] corridor[i],
                ) by {
                    lemma_corridor_is_fresh(
                        base,
                        cells,
                        size,
                        new_room,
                        end,
                        first_axis,
                        corridor@,
                        i,
                    );
                }
            }
            turn_to_floor(&mut self.map, &corridor);
            record_door_candidates(
                &self.map,
                &self.edge_coords,
                &corridor,
                &mut self.door_candidates,
            );
            proof {
                hook =
                lemma_carved_corridor(
                    self.rooms@,
                    flags,
                    candidates,
                    cells,
                    size,
                    new_room,
                    base,
                    old_candidates.len() as int,
                    partner,
                    end,
                    first_axis,
                    corridor@,
                    level_cells(self.map),
                    self.door_candidates@,
                );
                lemma_join_traced(
                    base,
                    old_candidates,
                    flags,
                    size,
                    new_room,
                    chosen@,
                    axes,
                    k as int,
                    cells,
                    candidates,
                    first_axis,
                    corridor@,
                    level_cells(self.map),
                    self.door_candidates@,
                );
                axes = axes.push(first_axis);
            }
            k += 1;
        }
        let ghost cells = level_cells(self.map);
        new_room.add_floor_to_map(&mut self.map);
        proof {
            lemma_room_placed(
                self.rooms@,
                flags,
                self.door_candidates@,
                cells,
                size,
                new_room,
                hook,
                level_cells(self.map),
            );
        }
        self.rooms.push(new_room);
        proof {
            let before = old(self).state();
            let after = self.state();
            assert(is_room_joined(
                before.rooms,
                before.cells,
                before.candidates,
                after.flags,
                size,
                new_room,
                chosen@,
                axes,
                after.cells,
                after.candidates,
            ));
            assert(is_room_tried(before, size, new_room, after));
        }
    }
}

} // verus!
