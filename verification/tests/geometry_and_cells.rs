use roguelike_terrain::cell::LevelCell;
use roguelike_terrain::game::{DoorState, Tile, VisibleEntityData};
use roguelike_terrain::geometry::{
    signum, Axis, CardinalDirection, Coord, Direction, Rect, RectPart, Size,
};

use rand::SeedableRng;
use rand_isaac::Isaac64Rng;

fn at(x: i32, y: i32) -> Coord {
    Coord::new(x, y)
}

#[test]
fn signum_gives_the_sign() {
    assert_eq!(signum(17), 1);
    assert_eq!(signum(-4), -1);
    assert_eq!(signum(0), 0);
    assert_eq!(signum(i32::MIN), -1);
    assert_eq!(signum(i32::MAX), 1);
}

#[test]
fn axis_other_swaps() {
    assert_eq!(Axis::X.other(), Axis::Y);
    assert_eq!(Axis::Y.other(), Axis::X);
}

#[test]
fn coord_components_by_axis() {
    let c = at(3, 7);
    assert_eq!(c.get(Axis::X), 3);
    assert_eq!(c.get(Axis::Y), 7);
    assert_eq!(Coord::new_axis(1, 0, Axis::X), at(1, 0));
    assert_eq!(Coord::new_axis(1, 0, Axis::Y), at(0, 1));
    assert_eq!(Coord::new_axis(-2, 5, Axis::Y), at(5, -2));
}

#[test]
fn coord_plus_and_minus() {
    assert_eq!(at(3, 7).plus(at(-1, 2)), at(2, 9));
    assert_eq!(at(3, 7).minus(at(-1, 2)), at(4, 5));
    assert_eq!(at(0, 0).minus(at(1, 1)), at(-1, -1));
}

#[test]
fn cardinal_directions_are_unit_steps() {
    assert_eq!(CardinalDirection::North.coord(), at(0, -1));
    assert_eq!(CardinalDirection::East.coord(), at(1, 0));
    assert_eq!(CardinalDirection::South.coord(), at(0, 1));
    assert_eq!(CardinalDirection::West.coord(), at(-1, 0));
    assert_eq!(
        CardinalDirection::all(),
        [
            CardinalDirection::North,
            CardinalDirection::East,
            CardinalDirection::South,
            CardinalDirection::West
        ]
    );
}

#[test]
fn eight_directions_are_the_cells_around() {
    let all = Direction::all();
    assert_eq!(all.len(), 8);
    assert_eq!(Direction::North.coord(), at(0, -1));
    assert_eq!(Direction::NorthEast.coord(), at(1, -1));
    assert_eq!(Direction::East.coord(), at(1, 0));
    assert_eq!(Direction::SouthEast.coord(), at(1, 1));
    assert_eq!(Direction::South.coord(), at(0, 1));
    assert_eq!(Direction::SouthWest.coord(), at(-1, 1));
    assert_eq!(Direction::West.coord(), at(-1, 0));
    assert_eq!(Direction::NorthWest.coord(), at(-1, -1));
    for (i, a) in all.iter().enumerate() {
        assert_ne!(a.coord(), at(0, 0));
        for b in all.iter().skip(i + 1) {
            assert_ne!(a.coord(), b.coord());
        }
    }
}

#[test]
fn size_validity() {
    let size = Size::new(3, 5);
    assert!(size.is_valid(at(0, 0)));
    assert!(size.is_valid(at(2, 4)));
    assert!(!size.is_valid(at(3, 4)));
    assert!(!size.is_valid(at(2, 5)));
    assert!(!size.is_valid(at(-1, 0)));
    assert!(!size.is_valid(at(0, -1)));
    assert!(!Size::new(0, 5).is_valid(at(0, 0)));
}

#[test]
fn size_edge_membership() {
    let size = Size::new(3, 5);
    assert!(size.is_on_edge(at(0, 0)));
    assert!(size.is_on_edge(at(2, 0)));
    assert!(size.is_on_edge(at(0, 3)));
    assert!(size.is_on_edge(at(0, 4)));
    assert!(size.is_on_edge(at(1, 4)));
    assert!(!size.is_on_edge(at(1, 5)));
    assert!(!size.is_on_edge(at(1, 1)));
    assert!(!size.is_on_edge(at(1, 3)));
    assert!(!size.is_on_edge(at(-1, 0)));
}

#[test]
fn size_inner_cells() {
    let size = Size::new(3, 5);
    assert!(size.is_inner(at(1, 1)));
    assert!(size.is_inner(at(1, 3)));
    assert!(!size.is_inner(at(0, 1)));
    assert!(!size.is_inner(at(1, 4)));
    assert!(!size.is_inner(at(3, 3)));
    assert!(!Size::new(2, 2).is_inner(at(0, 0)));
    assert!(!Size::new(2, 2).is_inner(at(1, 1)));
}

#[test]
fn rect_centre_and_edge() {
    let rect = Rect { top_left: at(2, 3), size: Size::new(5, 6) };
    assert_eq!(rect.centre(), at(4, 6));
    assert!(rect.is_edge(at(2, 3)));
    assert!(rect.is_edge(at(6, 8)));
    assert!(rect.is_edge(at(4, 3)));
    assert!(rect.is_edge(at(2, 5)));
    assert!(!rect.is_edge(at(3, 4)));
    assert!(!rect.is_edge(at(4, 6)));
    assert!(!rect.is_edge(at(7, 3)));
    assert!(!rect.is_edge(at(1, 3)));
    let odd = Rect { top_left: at(0, 0), size: Size::new(11, 9) };
    assert_eq!(odd.centre(), at(5, 4));
}

#[test]
fn rect_lists_its_cells_row_by_row() {
    let rect = Rect { top_left: at(1, 2), size: Size::new(3, 3) };
    assert_eq!(
        rect.coords(),
        vec![
            at(1, 2),
            at(2, 2),
            at(3, 2),
            at(1, 3),
            at(2, 3),
            at(3, 3),
            at(1, 4),
            at(2, 4),
            at(3, 4)
        ]
    );
    assert_eq!(
        rect.edge_coords(),
        vec![at(1, 2), at(2, 2), at(3, 2), at(1, 3), at(3, 3), at(1, 4), at(2, 4), at(3, 4)]
    );
    assert_eq!(rect.internal_coords(), vec![at(2, 3)]);
    assert_eq!(rect.part_coords(RectPart::Inside), vec![at(2, 3)]);
}

#[test]
fn rect_without_inside() {
    let thin = Rect { top_left: at(0, 0), size: Size::new(2, 3) };
    assert_eq!(thin.coords().len(), 6);
    assert_eq!(thin.edge_coords().len(), 6);
    assert!(thin.internal_coords().is_empty());
    let empty = Rect { top_left: at(4, 4), size: Size::new(0, 3) };
    assert!(empty.coords().is_empty());
    assert!(empty.edge_coords().is_empty());
}

#[test]
fn rect_pick_stays_inside_bounds() {
    let mut rng = Isaac64Rng::seed_from_u64(7);
    let bounds = Size::new(60, 45);
    let min_size = Size::new(5, 5);
    let max_size = Size::new(11, 9);
    let mut widths = std::collections::BTreeSet::new();
    for _ in 0..500 {
        let rect = Rect::pick(bounds, min_size, max_size, &mut rng).unwrap();
        assert!(rect.size.width >= 5 && rect.size.width < 11);
        assert!(rect.size.height >= 5 && rect.size.height < 9);
        assert!(rect.top_left.x >= 0 && rect.top_left.y >= 0);
        assert!(rect.top_left.x as u32 + rect.size.width < 60);
        assert!(rect.top_left.y as u32 + rect.size.height < 45);
        widths.insert(rect.size.width);
    }
    assert!(widths.len() > 1);
}

#[test]
fn rect_pick_fails_where_nothing_fits() {
    let mut rng = Isaac64Rng::seed_from_u64(7);
    for _ in 0..50 {
        assert!(Rect::pick(Size::new(4, 4), Size::new(5, 5), Size::new(11, 9), &mut rng).is_none());
        assert!(Rect::pick(Size::new(5, 45), Size::new(5, 5), Size::new(11, 9), &mut rng).is_none());
        assert!(Rect::pick(Size::new(60, 5), Size::new(5, 5), Size::new(11, 9), &mut rng).is_none());
    }
}

#[test]
fn rect_pick_always_succeeds_where_the_largest_fits() {
    let mut rng = Isaac64Rng::seed_from_u64(3);
    for _ in 0..200 {
        let rect = Rect::pick(Size::new(11, 9), Size::new(5, 5), Size::new(11, 9), &mut rng);
        let rect = rect.unwrap();
        assert!(rect.top_left.x as u32 + rect.size.width < 11);
        assert!(rect.top_left.y as u32 + rect.size.height < 9);
    }
}

#[test]
fn level_cell_walls_and_floors() {
    assert!(LevelCell::Wall.is_wall());
    assert!(LevelCell::CaveWall.is_wall());
    assert!(!LevelCell::Floor.is_wall());
    assert!(!LevelCell::Door.is_wall());
    assert!(!LevelCell::CaveFloor.is_wall());
    assert!(LevelCell::Floor.is_floor());
    assert!(LevelCell::CaveFloor.is_floor());
    assert!(!LevelCell::Door.is_floor());
    assert!(!LevelCell::Wall.is_floor());
    assert!(!LevelCell::CaveWall.is_floor());
}

#[test]
fn tile_walls() {
    assert!(Tile::Wall.is_wall());
    assert!(Tile::DoorClosed.is_wall());
    assert!(Tile::DoorOpen.is_wall());
    assert!(!Tile::Player.is_wall());
    assert!(!Tile::Floor.is_wall());
    assert!(!Tile::CaveWall.is_wall());
    assert!(!Tile::CaveFloor.is_wall());
    assert!(!Tile::Water.is_wall());
    assert!(!Tile::Grass.is_wall());
    let seen = VisibleEntityData { tile: Tile::DoorOpen };
    assert!(seen.tile.is_wall());
    assert_ne!(DoorState::Open, DoorState::Closed);
}
