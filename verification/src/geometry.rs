//! Integer geometry on the map: coordinates, sizes, directions and rectangles.

use crate::random::gen_range;
use rand_isaac::Isaac64Rng;
use vstd::prelude::*;

verus! {

/// One of the two axes of the map.
#[derive(Clone, Copy, Debug, PartialEq, Eq, Structural)]
pub enum Axis {
    X,
    Y,
}

impl Axis {
    pub open spec fn spec_other(self) -> Axis {
        match self {
            Axis::X => Axis::Y,
            Axis::Y => Axis::X,
        }
    }

    /// The axis perpendicular to this one.
    #[verifier::when_used_as_spec(spec_other)]
    pub fn other(self) -> (axis: Axis)
        ensures
            axis == self.spec_other(),
    {
        match self {
            Axis::X => Axis::Y,
            Axis::Y => Axis::X,
        }
    }
}

/// A cell position. `x` grows to the east and `y` to the south.
#[derive(Clone, Copy, Debug, PartialEq, Eq, Structural)]
pub struct Coord {
    pub x: i32,
    pub y: i32,
}

impl Coord {
    pub open spec fn spec_new(x: i32, y: i32) -> Coord {
        Coord { x, y }
    }

    #[verifier::when_used_as_spec(spec_new)]
    pub fn new(x: i32, y: i32) -> (coord: Coord)
        ensures
            coord == Coord::spec_new(x, y),
    {
        Coord { x, y }
    }

    pub open spec fn spec_get(self, axis: Axis) -> i32 {
        match axis {
            Axis::X => self.x,
            Axis::Y => self.y,
        }
    }

    /// The component of this coordinate along `axis`.
    #[verifier::when_used_as_spec(spec_get)]
    pub fn get(self, axis: Axis) -> (v: i32)
        ensures
            v == self.spec_get(axis),
    {
        match axis {
            Axis::X => self.x,
            Axis::Y => self.y,
        }
    }

    pub open spec fn spec_new_axis(this_axis: i32, other_axis: i32, axis: Axis) -> Coord {
        match axis {
            Axis::X => Coord { x: this_axis, y: other_axis },
            Axis::Y => Coord { x: other_axis, y: this_axis },
        }
    }

    /// The coordinate whose component along `axis` is `this_axis` and whose
    /// other component is `other_axis`.
    #[verifier::when_used_as_spec(spec_new_axis)]
    pub fn new_axis(this_axis: i32, other_axis: i32, axis: Axis) -> (coord: Coord)
        ensures
            coord == Coord::spec_new_axis(this_axis, other_axis, axis),
    {
        match axis {
            Axis::X => Coord { x: this_axis, y: other_axis },
            Axis::Y => Coord { x: other_axis, y: this_axis },
        }
    }

    /// This coordinate moved by `(dx, dy)`.
    pub open spec fn offset(self, dx: int, dy: int) -> Coord {
        Coord { x: (self.x + dx) as i32, y: (self.y + dy) as i32 }
    }

    /// Whether `(dx, dy)` can be added without leaving the range of `i32`.
    pub open spec fn can_offset(self, dx: int, dy: int) -> bool {
        &&& i32::MIN <= self.x + dx <= i32::MAX
        &&& i32::MIN <= self.y + dy <= i32::MAX
    }

    /// This coordinate moved by `delta`.
    pub fn plus(self, delta: Coord) -> (coord: Coord)
        requires
            self.can_offset(delta.x as int, delta.y as int),
        ensures
            coord == self.offset(delta.x as int, delta.y as int),
    {
        Coord { x: self.x + delta.x, y: self.y + delta.y }
    }

    /// This coordinate moved against `delta`.
    pub fn minus(self, delta: Coord) -> (coord: Coord)
        requires
            self.can_offset(-(delta.x as int), -(delta.y as int)),
        ensures
            coord == self.offset(-(delta.x as int), -(delta.y as int)),
    {
        Coord { x: self.x - delta.x, y: self.y - delta.y }
    }
}

/// Two cells that share a side.
pub open spec fn adjacent(a: Coord, b: Coord) -> bool {
    ||| a.x == b.x && (a.y - b.y == 1 || b.y - a.y == 1)
    ||| a.y == b.y && (a.x - b.x == 1 || b.x - a.x == 1)
}

/// Two distinct cells that share a side or a corner.
pub open spec fn touching(a: Coord, b: Coord) -> bool {
    &&& a != b
    &&& -1 <= a.x - b.x <= 1
    &&& -1 <= a.y - b.y <= 1
}

/// Whether `c` comes before column `x` of row `y` when the cells are walked
/// row by row.
pub open spec fn comes_before(c: Coord, x: int, y: int) -> bool {
    c.y < y || (c.y == y && c.x < x)
}

/// Whether `a` comes before `b` when the cells are walked row by row.
pub open spec fn precedes(a: Coord, b: Coord) -> bool {
    comes_before(a, b.x as int, b.y as int)
}

/// A list with one more cell holds the cells it held and that cell.
pub proof fn lemma_push_contains(cells: Seq<Coord>, cell: Coord)
    ensures
        forall|c: Coord| #[trigger] cells.push(cell).contains(c) <==> cells.contains(c) || c == cell,
{
    let more = cells.push(cell);
    assert(more[cells.len() as int] == cell);
    assert forall|c: Coord| #[trigger] more.contains(c) <==> cells.contains(c) || c == cell by {
        if cells.contains(c) {
            let j = choose|j: int| 0 <= j < cells.len() && cells[j] == c;
            assert(more[j] == c);
        }
        if more.contains(c) {
            let j = choose|j: int| 0 <= j < more.len() && more[j] == c;
            if j < cells.len() {
                assert(cells[j] == c);
            }
        }
    }
}

/// The sign of `v`: -1, 0 or 1.
pub open spec fn sign(v: int) -> int {
    if v > 0 {
        1
    } else if v < 0 {
        -1
    } else {
        0
    }
}

/// The sign of `v` as -1, 0 or 1.
pub fn signum(v: i32) -> (s: i32)
    ensures
        s == sign(v as int),
{
    if v > 0 {
        1
    } else if v < 0 {
        -1
    } else {
        0
    }
}

/// The four directions along the axes.
#[derive(Clone, Copy, Debug, PartialEq, Eq, Structural)]
pub enum CardinalDirection {
    North,
    East,
    South,
    West,
}

impl CardinalDirection {
    pub open spec fn spec_coord(self) -> Coord {
        match self {
            CardinalDirection::North => Coord { x: 0, y: -1i32 },
            CardinalDirection::East => Coord { x: 1, y: 0 },
            CardinalDirection::South => Coord { x: 0, y: 1 },
            CardinalDirection::West => Coord { x: -1i32, y: 0 },
        }
    }

    /// The unit step in this direction.
    #[verifier::when_used_as_spec(spec_coord)]
    pub fn coord(self) -> (delta: Coord)
        ensures
            delta == self.spec_coord(),
    {
        match self {
            CardinalDirection::North => Coord { x: 0, y: -1 },
            CardinalDirection::East => Coord { x: 1, y: 0 },
            CardinalDirection::South => Coord { x: 0, y: 1 },
            CardinalDirection::West => Coord { x: -1, y: 0 },
        }
    }

    /// The four directions, clockwise from north.
    pub open spec fn spec_all() -> Seq<CardinalDirection> {
        seq![
            CardinalDirection::North,
            CardinalDirection::East,
            CardinalDirection::South,
            CardinalDirection::West,
        ]
    }

    /// The four directions, clockwise from north.
    pub fn all() -> (directions: [CardinalDirection; 4])
        ensures
            directions@ == CardinalDirection::spec_all(),
    {
        let directions = [
            CardinalDirection::North,
            CardinalDirection::East,
            CardinalDirection::South,
            CardinalDirection::West,
        ];
        assert(directions@ =~= CardinalDirection::spec_all());
        directions
    }
}

/// The eight directions to the cells around a cell.
#[derive(Clone, Copy, Debug, PartialEq, Eq, Structural)]
pub enum Direction {
    North,
    NorthEast,
    East,
    SouthEast,
    South,
    SouthWest,
    West,
    NorthWest,
}

impl Direction {
    pub open spec fn spec_coord(self) -> Coord {
        match self {
            Direction::North => Coord { x: 0, y: -1i32 },
            Direction::NorthEast => Coord { x: 1, y: -1i32 },
            Direction::East => Coord { x: 1, y: 0 },
            Direction::SouthEast => Coord { x: 1, y: 1 },
            Direction::South => Coord { x: 0, y: 1 },
            Direction::SouthWest => Coord { x: -1i32, y: 1 },
            Direction::West => Coord { x: -1i32, y: 0 },
            Direction::NorthWest => Coord { x: -1i32, y: -1i32 },
        }
    }

    /// The unit step in this direction.
    #[verifier::when_used_as_spec(spec_coord)]
    pub fn coord(self) -> (delta: Coord)
        ensures
            delta == self.spec_coord(),
    {
        match self {
            Direction::North => Coord { x: 0, y: -1 },
            Direction::NorthEast => Coord { x: 1, y: -1 },
            Direction::East => Coord { x: 1, y: 0 },
            Direction::SouthEast => Coord { x: 1, y: 1 },
            Direction::South => Coord { x: 0, y: 1 },
            Direction::SouthWest => Coord { x: -1, y: 1 },
            Direction::West => Coord { x: -1, y: 0 },
            Direction::NorthWest => Coord { x: -1, y: -1 },
        }
    }

    /// The eight directions, clockwise from north.
    pub open spec fn spec_all() -> Seq<Direction> {
        seq![
            Direction::North,
            Direction::NorthEast,
            Direction::East,
            Direction::SouthEast,
            Direction::South,
            Direction::SouthWest,
            Direction::West,
            Direction::NorthWest,
        ]
    }

    /// The eight directions, clockwise from north.
    pub fn all() -> (directions: [Direction; 8])
        ensures
            directions@ == Direction::spec_all(),
    {
        let directions = [
            Direction::North,
            Direction::NorthEast,
            Direction::East,
            Direction::SouthEast,
            Direction::South,
            Direction::SouthWest,
            Direction::West,
            Direction::NorthWest,
        ];
        assert(directions@ =~= Direction::spec_all());
        directions
    }
}

/// The neighbour of `from` in direction `k` of the four.
pub open spec fn neighbour(from: Coord, k: int) -> Coord {
    from.offset(
        CardinalDirection::spec_all()[k].spec_coord().x as int,
        CardinalDirection::spec_all()[k].spec_coord().y as int,
    )
}

/// The four cells that share a side with `from` are its only neighbours.
pub proof fn lemma_four_neighbours(from: Coord, to: Coord)
    requires
        adjacent(from, to),
        from.can_offset(1, 1),
        from.can_offset(-1, -1),
    ensures
        exists|k: int| 0 <= k < 4 && to == #[trigger] neighbour(from, k),
{
    if to.y - from.y == -1 {
        assert(to == neighbour(from, 0));
    } else if to.x - from.x == 1 {
        assert(to == neighbour(from, 1));
    } else if to.y - from.y == 1 {
        assert(to == neighbour(from, 2));
    } else {
        assert(to == neighbour(from, 3));
    }
}

/// The cell around `from` in direction `k` of the eight.
pub open spec fn around(from: Coord, k: int) -> Coord {
    from.offset(
        Direction::spec_all()[k].spec_coord().x as int,
        Direction::spec_all()[k].spec_coord().y as int,
    )
}

/// The eight cells around `from` are the only ones that touch it.
pub proof fn lemma_eight_around(from: Coord, to: Coord)
    requires
        touching(from, to),
        from.can_offset(1, 1),
        from.can_offset(-1, -1),
    ensures
        exists|k: int| 0 <= k < 8 && to == #[trigger] around(from, k),
{
    let dx = to.x - from.x;
    let dy = to.y - from.y;
    if dx == 0 && dy == -1 {
        assert(to == around(from, 0));
    } else if dx == 1 && dy == -1 {
        assert(to == around(from, 1));
    } else if dx == 1 && dy == 0 {
        assert(to == around(from, 2));
    } else if dx == 1 && dy == 1 {
        assert(to == around(from, 3));
    } else if dx == 0 && dy == 1 {
        assert(to == around(from, 4));
    } else if dx == -1 && dy == 1 {
        assert(to == around(from, 5));
    } else if dx == -1 && dy == 0 {
        assert(to == around(from, 6));
    } else {
        assert(to == around(from, 7));
    }
}

/// The extent of a grid or rectangle in cells.
#[derive(Clone, Copy, Debug, PartialEq, Eq, Structural)]
pub struct Size {
    pub width: u32,
    pub height: u32,
}

impl Size {
    pub open spec fn spec_new(width: u32, height: u32) -> Size {
        Size { width, height }
    }

    #[verifier::when_used_as_spec(spec_new)]
    pub fn new(width: u32, height: u32) -> (size: Size)
        ensures
            size == Size::spec_new(width, height),
    {
        Size { width, height }
    }

    /// The number of cells of a grid of this size.
    pub open spec fn area(self) -> int {
        self.width * self.height
    }

    /// A size whose cells and their neighbours can be addressed by `i32`
    /// coordinates and counted in an `i32`.
    pub open spec fn fits(self) -> bool {
        &&& self.width <= i32::MAX
        &&& self.height <= i32::MAX
        &&& self.area() <= i32::MAX
    }

    pub open spec fn spec_is_valid(self, coord: Coord) -> bool {
        0 <= coord.x < self.width && 0 <= coord.y < self.height
    }

    /// Whether `coord` names a cell of a grid of this size.
    #[verifier::when_used_as_spec(spec_is_valid)]
    pub fn is_valid(self, coord: Coord) -> (valid: bool)
        ensures
            valid == self.spec_is_valid(coord),
    {
        coord.x >= 0 && coord.y >= 0 && (coord.x as u32) < self.width && (coord.y as u32)
            < self.height
    }

    pub open spec fn spec_is_on_edge(self, coord: Coord) -> bool {
        &&& self.spec_is_valid(coord)
        &&& (coord.x == 0 || coord.x == self.width - 1 || coord.y == 0 || coord.y == self.height
            - 1)
    }

    /// Whether `coord` lies on the outermost ring of a grid of this size.
    #[verifier::when_used_as_spec(spec_is_on_edge)]
    pub fn is_on_edge(self, coord: Coord) -> (on_edge: bool)
        ensures
            on_edge == self.spec_is_on_edge(coord),
    {
        self.is_valid(coord) && (coord.x == 0 || coord.x as u32 == self.width - 1 || coord.y == 0
            || coord.y as u32 == self.height - 1)
    }

    pub open spec fn spec_is_inner(self, coord: Coord) -> bool {
        0 < coord.x < self.width - 1 && 0 < coord.y < self.height - 1
    }

    /// Whether `coord` is a cell of the grid off its outermost ring.
    #[verifier::when_used_as_spec(spec_is_inner)]
    pub fn is_inner(self, coord: Coord) -> (inner: bool)
        ensures
            inner == self.spec_is_inner(coord),
    {
        self.is_valid(coord) && !self.is_on_edge(coord)
    }
}

/// A part of a rectangle: all of it, its outermost ring, or what lies inside
/// that ring.
#[derive(Clone, Copy, Debug, PartialEq, Eq, Structural)]
pub enum RectPart {
    Whole,
    Edge,
    Inside,
}

/// An axis-aligned rectangle of cells.
#[derive(Clone, Copy, Debug, PartialEq, Eq, Structural)]
pub struct Rect {
    pub top_left: Coord,
    pub size: Size,
}

impl Rect {
    /// Whether `c` is a cell of the rectangle.
    pub open spec fn contains(self, c: Coord) -> bool {
        &&& self.top_left.x <= c.x < self.top_left.x + self.size.width
        &&& self.top_left.y <= c.y < self.top_left.y + self.size.height
    }

    /// Whether the rectangle lies inside a grid of extent `bounds`.
    pub open spec fn is_within(self, bounds: Size) -> bool {
        &&& 0 <= self.top_left.x
        &&& 0 <= self.top_left.y
        &&& self.top_left.x + self.size.width <= bounds.width
        &&& self.top_left.y + self.size.height <= bounds.height
    }

    pub open spec fn spec_is_edge(&self, c: Coord) -> bool {
        &&& self.contains(c)
        &&& (c.x == self.top_left.x || c.x == self.top_left.x + self.size.width - 1 || c.y
            == self.top_left.y || c.y == self.top_left.y + self.size.height - 1)
    }

    /// Whether `c` is a cell of the rectangle off its outermost ring.
    pub open spec fn is_internal(self, c: Coord) -> bool {
        self.contains(c) && !self.spec_is_edge(c)
    }

    pub open spec fn spec_centre(&self) -> Coord {
        self.top_left.offset(self.size.width as int / 2, self.size.height as int / 2)
    }

    /// Draws a rectangle inside a grid of extent `bounds`. Its width is drawn
    /// from `min_size.width` up to, but not including, `max_size.width`, and
    /// its height likewise; its top left corner is then drawn among the
    /// positions that leave at least one free column to the right of the
    /// rectangle and one free row below it. Where the size drawn leaves no
    /// such position there is no rectangle: never when `max_size` fits into
    /// `bounds`, always when `min_size` does not leave that column and row.
    pub fn pick(bounds: Size, min_size: Size, max_size: Size, rng: &mut Isaac64Rng) -> (rect:
        Option<Rect>)
        requires
            bounds.fits(),
            min_size.width < max_size.width,
            min_size.height < max_size.height,
        ensures
            match rect {
                Some(rect) => {
                    &&& min_size.width <= rect.size.width < max_size.width
                    &&& min_size.height <= rect.size.height < max_size.height
                    &&& rect.is_within(bounds)
                    &&& rect.top_left.x + rect.size.width < bounds.width
                    &&& rect.top_left.y + rect.size.height < bounds.height
                },
                None => max_size.width > bounds.width || max_size.height > bounds.height,
            },
            min_size.width >= bounds.width || min_size.height >= bounds.height ==> rect is None,
    {
        let width = gen_range(rng, min_size.width, max_size.width);
        let height = gen_range(rng, min_size.height, max_size.height);
        if width >= bounds.width || height >= bounds.height {
            return None;
        }
        let left = gen_range(rng, 0, bounds.width - width);
        let top = gen_range(rng, 0, bounds.height - height);
        Some(Rect { top_left: Coord::new(left as i32, top as i32), size: Size::new(width, height) })
    }

    /// Whether `coord` lies on the outermost ring of the rectangle.
    #[verifier::when_used_as_spec(spec_is_edge)]
    pub fn is_edge(&self, coord: Coord) -> (edge: bool)
        requires
            self.size.width <= i32::MAX,
            self.size.height <= i32::MAX,
            self.top_left.can_offset(self.size.width as int, self.size.height as int),
        ensures
            edge == self.spec_is_edge(coord),
    {
        let right = self.top_left.x + self.size.width as i32;
        let bottom = self.top_left.y + self.size.height as i32;
        let inside = self.top_left.x <= coord.x && coord.x < right && self.top_left.y <= coord.y
            && coord.y < bottom;
        inside && (coord.x == self.top_left.x || coord.x == right - 1 || coord.y
            == self.top_left.y || coord.y == bottom - 1)
    }

    /// The cell in the middle of the rectangle; where the width or the height
    /// is even, the one to the right of or below the middle.
    #[verifier::when_used_as_spec(spec_centre)]
    pub fn centre(&self) -> (centre: Coord)
        requires
            self.size.width <= i32::MAX,
            self.size.height <= i32::MAX,
            self.top_left.can_offset(self.size.width as int, self.size.height as int),
        ensures
            centre == self.spec_centre(),
    {
        Coord::new(
            self.top_left.x + (self.size.width / 2) as i32,
            self.top_left.y + (self.size.height / 2) as i32,
        )
    }
}

impl Rect {
    /// Whether `c` is a cell of the given part of the rectangle.
    pub open spec fn has_in(self, part: RectPart, c: Coord) -> bool {
        match part {
            RectPart::Whole => self.contains(c),
            RectPart::Edge => self.spec_is_edge(c),
            RectPart::Inside => self.is_internal(c),
        }
    }

    /// Whether `cells` lists the cells of the given part of the rectangle,
    /// each once, row by row.
    pub open spec fn lists(self, part: RectPart, cells: Seq<Coord>) -> bool {
        &&& forall|i: int, j: int|
            0 <= i < j < cells.len() ==> precedes(#[trigger] cells[i], #[trigger] cells[j])
        &&& forall|c: Coord| #[trigger] cells.contains(c) <==> self.has_in(part, c)
    }

    /// The cells of the given part of the rectangle, row by row.
    pub fn part_coords(&self, part: RectPart) -> (cells: Vec<Coord>)
        requires
            self.size.width <= i32::MAX,
            self.size.height <= i32::MAX,
            self.top_left.can_offset(self.size.width as int, self.size.height as int),
        ensures
            self.lists(part, cells@),
    {
        let left = self.top_left.x;
        let top = self.top_left.y;
        let right = left + self.size.width as i32;
        let bottom = top + self.size.height as i32;
        let mut cells: Vec<Coord> = Vec::new();
        let mut x: i32 = left;
        let mut y: i32 = top;
        while y < bottom
            invariant
                self.size.width <= i32::MAX,
                self.size.height <= i32::MAX,
                self.top_left.can_offset(self.size.width as int, self.size.height as int),
                left == self.top_left.x,
                top == self.top_left.y,
                right == left + self.size.width,
                bottom == top + self.size.height,
                left <= x <= right,
                top <= y <= bottom,
                forall|i: int, j: int|
                    0 <= i < j < cells@.len() ==> precedes(#[trigger] cells@[i], #[trigger] cells@[j]),
                forall|c: Coord|
                    #[trigger] cells@.contains(c) <==> self.has_in(part, c) && comes_before(
                        c,
                        x as int,
                        y as int,
                    ),
            decreases bottom - y, right - x,
        {
            if x < right {
                let here = Coord::new(x, y);
                let wanted = match part {
                    RectPart::Whole => true,
                    RectPart::Edge => self.is_edge(here),
                    RectPart::Inside => !self.is_edge(here),
                };
                if wanted {
                    let ghost before = cells@;
                    cells.push(here);
                    proof {
                        lemma_push_contains(before, here);
                        assert forall|i: int, j: int| 0 <= i < j < cells@.len() implies precedes(
                            #[trigger] cells@[i],
                            #[trigger] cells@[j],
                        ) by {
                            assert(cells@[i] == before[i]);
                            assert(before.contains(before[i]));
                            if j < before.len() {
                                assert(cells@[j] == before[j]);
                            }
                        }
                    }
                }
                x += 1;
            } else {
                x = left;
                y += 1;
            }
        }
        cells
    }

    /// All cells of the rectangle, row by row.
    pub fn coords(&self) -> (cells: Vec<Coord>)
        requires
            self.size.width <= i32::MAX,
            self.size.height <= i32::MAX,
            self.top_left.can_offset(self.size.width as int, self.size.height as int),
        ensures
            self.lists(RectPart::Whole, cells@),
    {
        self.part_coords(RectPart::Whole)
    }

    /// The cells on the outermost ring of the rectangle, row by row.
    pub fn edge_coords(&self) -> (cells: Vec<Coord>)
        requires
            self.size.width <= i32::MAX,
            self.size.height <= i32::MAX,
            self.top_left.can_offset(self.size.width as int, self.size.height as int),
        ensures
            self.lists(RectPart::Edge, cells@),
    {
        self.part_coords(RectPart::Edge)
    }

    /// The cells of the rectangle off its outermost ring, row by row.
    pub fn internal_coords(&self) -> (cells: Vec<Coord>)
        requires
            self.size.width <= i32::MAX,
            self.size.height <= i32::MAX,
            self.top_left.can_offset(self.size.width as int, self.size.height as int),
        ensures
            self.lists(RectPart::Inside, cells@),
    {
        self.part_coords(RectPart::Inside)
    }
}

} // verus!
