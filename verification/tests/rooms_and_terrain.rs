use gridbugs::coord_2d::{Coord as GridCoord, Size as GridSize};
use gridbugs::grid_2d::Grid;
use gridbugs::perlin2::Perlin2;
use roguelike_terrain::cave::generate_cave_map;
use roguelike_terrain::cell::LevelCell;
use roguelike_terrain::compose::{
    combine_rooms_and_corridors_level_with_cave, is_valid_door_position, remove_invalid_doors,
    remove_unreachable_floor,
};
use roguelike_terrain::flood::flood_fill;
use roguelike_terrain::geometry::{Axis, Coord, Rect, Size};
use roguelike_terrain::corridor::{
    has_floor_neighbour, is_cell_in_corridor, is_cell_in_corridor_axis, l_shaped_corridor,
    l_shaped_corridor_with_first_axis,
};
use roguelike_terrain::level::{GenerationError, RoomsAndCorridorsLevel};
use roguelike_terrain::placement::RoomPlacement;
use roguelike_terrain::rooms::Room;
use roguelike_terrain::terrain::{
    compose_level, finish_cells, terrain_cell, Ground, Terrain, TerrainCell,
};

use rand::SeedableRng;
use rand_isaac::Isaac64Rng;

fn xy(x: i32, y: i32) -> Coord {
    Coord::new(x, y)
}

fn path(cells: &[(i32, i32)]) -> Vec<Coord> {
    cells.iter().map(|&(x, y)| Coord::new(x, y)).collect()
}

fn rows_to_level(rows: &[&str]) -> Grid<LevelCell> {
    let height = rows.len() as u32;
    let width = rows[0].len() as u32;
    Grid::new_fn(GridSize::new(width, height), |c| {
        match rows[c.y as usize].as_bytes()[c.x as usize] {
            b'.' => LevelCell::Floor,
            b'#' => LevelCell::Wall,
            b'+' => LevelCell::Door,
            b',' => LevelCell::CaveFloor,
            b'%' => LevelCell::CaveWall,
            other => panic!("no cell is written {}", other as char),
        }
    })
}

fn level_to_rows(grid: &Grid<LevelCell>) -> Vec<String> {
    grid.rows()
        .map(|row| {
            row.iter()
                .map(|cell| match cell {
                    LevelCell::Floor => '.',
                    LevelCell::Wall => '#',
                    LevelCell::Door => '+',
                    LevelCell::CaveFloor => ',',
                    LevelCell::CaveWall => '%',
                })
                .collect()
        })
        .collect()
}

fn all_wall(width: u32, height: u32) -> Grid<LevelCell> {
    Grid::new_copy(GridSize::new(width, height), LevelCell::Wall)
}

fn room(x: i32, y: i32, width: u32, height: u32) -> Room {
    Room { rect: Rect { top_left: Coord::new(x, y), size: Size::new(width, height) } }
}

fn water_noise(size: GridSize, seed: u64) -> Grid<bool> {
    let mut rng = Isaac64Rng::seed_from_u64(seed);
    let perlin = Perlin2::new(&mut rng);
    Grid::new_fn(size, |c| perlin.noise01((c.x as f64 / 7., c.y as f64 / 7.)) > 0.65)
}

fn grass_noise(size: GridSize, seed: u64) -> Grid<bool> {
    let mut rng = Isaac64Rng::seed_from_u64(seed);
    let perlin = Perlin2::new(&mut rng);
    Grid::new_fn(size, |c| perlin.noise((c.x as f64 / 10., c.y as f64 / 10.)) > 0.)
}

fn count(grid: &Grid<LevelCell>, kind: LevelCell) -> usize {
    grid.iter().filter(|cell| **cell == kind).count()
}

fn reached_from(level: &Grid<LevelCell>, water: &Grid<bool>, spawn: Coord) -> Grid<bool> {
    let open: Grid<bool> =
        Grid::new_fn(level.size(), |c| !level.get_checked(c).is_wall() || *water.get_checked(c));
    flood_fill(&open, &vec![spawn])
}

fn generate(seed: u64) -> Terrain {
    let size = GridSize::new(60, 45);
    let mut rng = Isaac64Rng::seed_from_u64(seed);
    let water = water_noise(size, seed + 1000);
    let grass = grass_noise(size, seed + 2000);
    Terrain::generate(Size::new(60, 45), water, &grass, &mut rng).unwrap()
}

#[test]
fn floor_beside_a_cell() {
    let map = rows_to_level(&[
        "#####", //
        "#.###", //
        "#####", //
        "###+#", //
        "#####", //
    ]);
    assert!(has_floor_neighbour(&map, xy(1, 2)));
    assert!(has_floor_neighbour(&map, xy(2, 1)));
    assert!(!has_floor_neighbour(&map, xy(2, 2)));
    assert!(!has_floor_neighbour(&map, xy(1, 1)));
    // a door is no floor
    assert!(!has_floor_neighbour(&map, xy(3, 2)));
    assert!(!has_floor_neighbour(&map, xy(3, 3)));
}

#[test]
fn corridor_shape_around_a_cell() {
    let map = rows_to_level(&[
        "#####", //
        "#...#", //
        "##.##", //
        "#...#", //
        "#####", //
    ]);
    assert!(is_cell_in_corridor_axis(&map, xy(2, 2), Axis::Y));
    assert!(!is_cell_in_corridor_axis(&map, xy(2, 2), Axis::X));
    assert!(is_cell_in_corridor(&map, xy(2, 2)));
    assert!(!is_cell_in_corridor(&map, xy(2, 1)));
    assert!(!is_cell_in_corridor(&map, xy(1, 2)));
    let across = rows_to_level(&["###", "...", "###"]);
    assert!(is_cell_in_corridor_axis(&across, xy(1, 1), Axis::X));
    assert!(is_cell_in_corridor(&across, xy(1, 1)));
}

#[test]
fn corridor_runs_along_the_first_axis_first() {
    let map = all_wall(10, 10);
    assert_eq!(
        l_shaped_corridor_with_first_axis(xy(2, 2), xy(6, 5), &map, Axis::X),
        path(&[(3, 2), (4, 2), (5, 2), (6, 2), (6, 3), (6, 4)])
    );
    assert_eq!(
        l_shaped_corridor_with_first_axis(xy(2, 2), xy(6, 5), &map, Axis::Y),
        path(&[(2, 3), (2, 4), (2, 5), (3, 5), (4, 5), (5, 5)])
    );
    assert_eq!(
        l_shaped_corridor_with_first_axis(xy(6, 5), xy(2, 2), &map, Axis::X),
        path(&[(5, 5), (4, 5), (3, 5), (2, 5), (2, 4), (2, 3)])
    );
}

#[test]
fn corridor_between_level_cells_starts_on_the_start() {
    let map = all_wall(10, 10);
    assert_eq!(
        l_shaped_corridor_with_first_axis(xy(2, 2), xy(2, 6), &map, Axis::X),
        path(&[(2, 2), (2, 3), (2, 4), (2, 5)])
    );
    assert_eq!(
        l_shaped_corridor_with_first_axis(xy(2, 2), xy(2, 6), &map, Axis::Y),
        path(&[(2, 3), (2, 4), (2, 5)])
    );
    assert_eq!(l_shaped_corridor_with_first_axis(xy(2, 2), xy(3, 2), &map, Axis::X), path(&[]));
    assert_eq!(
        l_shaped_corridor_with_first_axis(xy(2, 2), xy(3, 2), &map, Axis::Y),
        path(&[(2, 2)])
    );
    assert_eq!(l_shaped_corridor_with_first_axis(xy(2, 2), xy(2, 2), &map, Axis::X), path(&[]));
}

#[test]
fn corridor_stops_beside_the_first_floor() {
    let mut map = all_wall(10, 10);
    *map.get_checked_mut(GridCoord::new(4, 1)) = LevelCell::Floor;
    assert_eq!(
        l_shaped_corridor_with_first_axis(xy(2, 2), xy(6, 5), &map, Axis::X),
        path(&[(3, 2), (4, 2)])
    );
    assert_eq!(
        l_shaped_corridor_with_first_axis(xy(2, 2), xy(6, 5), &map, Axis::Y),
        path(&[(2, 3), (2, 4), (2, 5), (3, 5), (4, 5), (5, 5)])
    );
    *map.get_checked_mut(GridCoord::new(2, 1)) = LevelCell::Floor;
    assert_eq!(
        l_shaped_corridor_with_first_axis(xy(2, 2), xy(2, 6), &map, Axis::X),
        path(&[(2, 2)])
    );
}

#[test]
fn corridor_with_a_drawn_axis_is_one_of_the_two() {
    let map = all_wall(10, 10);
    let by_x = l_shaped_corridor_with_first_axis(xy(2, 2), xy(6, 5), &map, Axis::X);
    let by_y = l_shaped_corridor_with_first_axis(xy(2, 2), xy(6, 5), &map, Axis::Y);
    let mut rng = Isaac64Rng::seed_from_u64(1);
    let mut seen_x = false;
    let mut seen_y = false;
    for _ in 0..64 {
        let corridor = l_shaped_corridor(xy(2, 2), xy(6, 5), &map, &mut rng);
        assert!(corridor == by_x || corridor == by_y);
        seen_x = seen_x || corridor == by_x;
        seen_y = seen_y || corridor == by_y;
    }
    assert!(seen_x && seen_y);
}

#[test]
fn room_overlap_and_floor() {
    let mut map = all_wall(8, 8);
    let first = room(1, 1, 4, 5);
    assert!(!first.overlaps_with_floor(&map));
    first.add_floor_to_map(&mut map);
    assert_eq!(
        level_to_rows(&map),
        vec![
            "########", "########", "##..####", "##..####", "##..####", "########", "########",
            "########"
        ]
    );
    assert!(first.overlaps_with_floor(&map));
    // sharing a wall is no overlap
    assert!(!room(4, 1, 3, 3).overlaps_with_floor(&map));
    // the ring of the new room on the floor of the old is
    assert!(room(3, 3, 4, 4).overlaps_with_floor(&map));
    assert!(!room(4, 4, 4, 4).overlaps_with_floor(&map));
}

#[test]
fn placement_starts_as_a_map_of_wall() {
    let placement = RoomPlacement::new(Size::new(7, 4));
    assert_eq!(placement.map.width(), 7);
    assert_eq!(placement.map.height(), 4);
    assert_eq!(placement.edge_coords.width(), 7);
    assert_eq!(placement.edge_coords.height(), 4);
    assert!(placement.map.iter().all(|cell| *cell == LevelCell::Wall));
    assert!(placement.edge_coords.iter().all(|flag| !*flag));
    assert!(placement.rooms.is_empty());
    assert!(placement.door_candidates.is_empty());
}

#[test]
fn first_room_is_placed_without_a_corridor() {
    let mut rng = Isaac64Rng::seed_from_u64(1);
    let mut placement = RoomPlacement::new(Size::new(9, 7));
    placement.try_add_room(room(1, 1, 5, 5), &mut rng);
    assert_eq!(placement.rooms, vec![room(1, 1, 5, 5)]);
    assert!(placement.door_candidates.is_empty());
    assert_eq!(
        level_to_rows(&placement.map),
        vec![
            "#########",
            "#########",
            "##...####",
            "##...####",
            "##...####",
            "#########",
            "#########"
        ]
    );
    for (coord, &flag) in placement.edge_coords.enumerate() {
        let on_ring = (1..=5).contains(&coord.x)
            && (1..=5).contains(&coord.y)
            && (coord.x == 1 || coord.x == 5 || coord.y == 1 || coord.y == 5);
        assert_eq!(flag, on_ring);
    }
}

#[test]
fn overlapping_room_is_not_placed() {
    let mut rng = Isaac64Rng::seed_from_u64(1);
    let mut placement = RoomPlacement::new(Size::new(12, 8));
    placement.try_add_room(room(1, 1, 5, 5), &mut rng);
    let map = placement.map.clone();
    let edges = placement.edge_coords.clone();
    placement.try_add_room(room(4, 2, 5, 5), &mut rng);
    assert_eq!(placement.rooms.len(), 1);
    assert_eq!(placement.map, map);
    assert_eq!(placement.edge_coords, edges);
    assert!(placement.door_candidates.is_empty());
}

#[test]
fn second_room_is_joined_by_a_corridor_with_doors_at_both_ends() {
    for seed in 0..8 {
        let mut rng = Isaac64Rng::seed_from_u64(seed);
        let mut placement = RoomPlacement::new(Size::new(16, 7));
        placement.try_add_room(room(1, 1, 5, 5), &mut rng);
        placement.try_add_room(room(10, 1, 5, 5), &mut rng);
        assert_eq!(placement.rooms, vec![room(1, 1, 5, 5), room(10, 1, 5, 5)]);
        assert_eq!(
            level_to_rows(&placement.map),
            vec![
                "################",
                "################",
                "##...######...##",
                "##............##",
                "##...######...##",
                "################",
                "################"
            ]
        );
        assert_eq!(placement.door_candidates, path(&[(10, 3), (5, 3)]));
    }
}

#[test]
fn run_of_door_sites_gives_its_first_cell() {
    for seed in 0..8 {
        let mut rng = Isaac64Rng::seed_from_u64(seed);
        let mut placement = RoomPlacement::new(Size::new(13, 7));
        placement.try_add_room(room(1, 1, 5, 5), &mut rng);
        placement.try_add_room(room(6, 1, 5, 5), &mut rng);
        assert_eq!(placement.rooms.len(), 2);
        assert_eq!(
            level_to_rows(&placement.map),
            vec![
                "#############",
                "#############",
                "##...##...###",
                "##........###",
                "##...##...###",
                "#############",
                "#############"
            ]
        );
        assert_eq!(placement.door_candidates, path(&[(6, 3)]));
    }
}

#[test]
fn third_room_is_joined_to_both_others() {
    for seed in 0..8 {
        let mut rng = Isaac64Rng::seed_from_u64(seed);
        let mut placement = RoomPlacement::new(Size::new(20, 20));
        placement.try_add_room(room(1, 1, 5, 5), &mut rng);
        placement.try_add_room(room(13, 1, 5, 5), &mut rng);
        placement.try_add_room(room(7, 12, 5, 5), &mut rng);
        assert_eq!(placement.rooms.len(), 3);
        let open: Grid<bool> =
            Grid::new_grid_map_ref(&placement.map, |cell| *cell == LevelCell::Floor);
        let seen = flood_fill(&open, &vec![xy(3, 3)]);
        for (coord, &flag) in open.enumerate() {
            assert_eq!(flag, *seen.get_checked(coord));
        }
        for candidate in placement.door_candidates.iter() {
            let at = GridCoord::new(candidate.x, candidate.y);
            assert_eq!(*placement.map.get_checked(at), LevelCell::Floor);
            assert!(*placement.edge_coords.get_checked(at));
        }
    }
}

#[test]
fn new_room_is_joined_to_two_rooms_and_no_more() {
    let is_floor = |placement: &RoomPlacement, x: i32, y: i32| {
        *placement.map.get_checked(GridCoord::new(x, y)) == LevelCell::Floor
    };
    let mut tried = 0;
    let mut most_exits = 0;
    for seed in 0..400 {
        let mut rng = Isaac64Rng::seed_from_u64(seed);
        let mut placement = RoomPlacement::new(Size::new(40, 40));
        // one room to the left of the middle, one above it, one to the right and below
        placement.try_add_room(room(1, 17, 5, 5), &mut rng);
        placement.try_add_room(room(17, 1, 5, 5), &mut rng);
        placement.try_add_room(room(34, 30, 5, 5), &mut rng);
        let middle = room(17, 17, 5, 5);
        if placement.rooms.len() != 3 || middle.overlaps_with_floor(&placement.map) {
            continue;
        }
        placement.try_add_room(middle, &mut rng);
        assert_eq!(placement.rooms.len(), 4);
        tried += 1;
        // a corridor leaves the middle room to the left only for the first room, upwards
        // only for the second, to the right or downwards only for the third
        let left = is_floor(&placement, 16, 19);
        let up = is_floor(&placement, 19, 16);
        let right_or_down = is_floor(&placement, 22, 19) || is_floor(&placement, 19, 22);
        let exits = [left, up, right_or_down].iter().filter(|exit| **exit).count();
        assert!(exits >= 1 && exits <= 2);
        most_exits = most_exits.max(exits);
    }
    assert!(tried > 10);
    assert_eq!(most_exits, 2);
}

#[test]
fn player_starts_in_the_middle_of_a_room() {
    for seed in 0..20 {
        let mut rng = Isaac64Rng::seed_from_u64(seed);
        let level = RoomsAndCorridorsLevel::generate(Size::new(60, 45), &mut rng).unwrap();
        for dy in -1..=1 {
            for dx in -1..=1 {
                let at = GridCoord::new(level.player_spawn.x + dx, level.player_spawn.y + dy);
                assert_eq!(*level.map.get_checked(at), LevelCell::Floor);
            }
        }
    }
    let mut spawns = std::collections::BTreeSet::new();
    for seed in 0..20 {
        let mut rng = Isaac64Rng::seed_from_u64(seed);
        let level = RoomsAndCorridorsLevel::generate(Size::new(60, 45), &mut rng).unwrap();
        spawns.insert((level.player_spawn.x, level.player_spawn.y));
    }
    assert!(spawns.len() > 5);
}

#[test]
fn rooms_and_corridors_level_is_sound() {
    for seed in 0..10 {
        let mut rng = Isaac64Rng::seed_from_u64(seed);
        let level = RoomsAndCorridorsLevel::generate(Size::new(60, 45), &mut rng).unwrap();
        assert_eq!(level.map.width(), 60);
        assert_eq!(level.map.height(), 45);
        let spawn = GridCoord::new(level.player_spawn.x, level.player_spawn.y);
        assert_eq!(*level.map.get_checked(spawn), LevelCell::Floor);
        let open: Grid<bool> = Grid::new_grid_map_ref(&level.map, |cell| *cell != LevelCell::Wall);
        let seen = flood_fill(&open, &vec![level.player_spawn]);
        for (coord, cell) in level.map.enumerate() {
            assert!(
                *cell == LevelCell::Floor || *cell == LevelCell::Wall || *cell == LevelCell::Door
            );
            if *cell != LevelCell::Wall {
                assert!(coord.x > 0 && coord.y > 0 && coord.x < 59 && coord.y < 44);
                assert!(*seen.get_checked(coord));
            }
        }
        assert!(count(&level.map, LevelCell::Floor) >= 2 * 9);
    }
}

#[test]
fn rooms_and_corridors_level_for_a_seed() {
    let mut rng = Isaac64Rng::seed_from_u64(2);
    let level = RoomsAndCorridorsLevel::generate(Size::new(60, 45), &mut rng).unwrap();
    assert_eq!(count(&level.map, LevelCell::Door), 18);
    assert_eq!(count(&level.map, LevelCell::Floor), 596);
    assert_eq!(level.player_spawn, xy(25, 17));
}

#[test]
fn no_room_fits_a_small_map() {
    let mut rng = Isaac64Rng::seed_from_u64(4);
    for size in [Size::new(4, 4), Size::new(5, 45), Size::new(60, 5), Size::new(1, 1)] {
        let level = RoomsAndCorridorsLevel::generate(size, &mut rng);
        assert!(matches!(level, Err(GenerationError::NoRoomsPlaced)));
        let water: Grid<bool> = Grid::new_copy(GridSize::new(size.width, size.height), false);
        let grass = water.clone();
        let terrain = Terrain::generate(size, water, &grass, &mut rng);
        assert!(matches!(terrain, Err(GenerationError::NoRoomsPlaced)));
    }
}

#[test]
fn a_room_always_fits_a_map_as_large_as_the_largest_room() {
    for seed in 0..20 {
        let mut rng = Isaac64Rng::seed_from_u64(seed);
        let level = RoomsAndCorridorsLevel::generate(Size::new(11, 9), &mut rng);
        assert!(level.is_ok());
    }
}

#[test]
fn small_map_without_rooms_still_gives_a_reachable_cave() {
    for seed in 0..10 {
        let mut rng = Isaac64Rng::seed_from_u64(seed);
        let mut placement = RoomPlacement::new(Size::new(4, 4));
        for _ in 0..50 {
            let rect = Rect::pick(Size::new(4, 4), Size::new(5, 5), Size::new(11, 9), &mut rng);
            if let Some(rect) = rect {
                placement.try_add_room(Room { rect }, &mut rng);
            }
        }
        assert!(placement.rooms.is_empty());
        assert!(placement.map.iter().all(|cell| *cell == LevelCell::Wall));
        let cave = generate_cave_map(Size::new(4, 4), &mut rng);
        let mut level = combine_rooms_and_corridors_level_with_cave(&placement.map, &cave);
        let mut water = water_noise(GridSize::new(4, 4), seed);
        let spawn = xy(1, 1);
        remove_unreachable_floor(&mut level, &mut water, spawn);
        remove_invalid_doors(&mut level);
        let seen = reached_from(&level, &water, spawn);
        for (coord, cell) in level.enumerate() {
            let open = !cell.is_wall() || *water.get_checked(coord);
            if open {
                assert!(*seen.get_checked(coord));
            }
            if coord.x == 0 || coord.y == 0 || coord.x == 3 || coord.y == 3 {
                assert_eq!(*cell, LevelCell::CaveWall);
            }
        }
    }
}

#[test]
fn terrain_end_to_end() {
    let terrain = generate(7);
    assert_eq!(terrain.map.width(), 60);
    assert_eq!(terrain.map.height(), 45);
    assert!(count(&terrain.map, LevelCell::Door) >= 1);
    assert!(count(&terrain.map, LevelCell::Floor) >= 2 * 9);
    let spawn = GridCoord::new(terrain.player_spawn.x, terrain.player_spawn.y);
    let at_spawn = *terrain.map.get_checked(spawn);
    assert!(at_spawn == LevelCell::Floor || at_spawn == LevelCell::CaveFloor);
    let seen = reached_from(&terrain.map, &terrain.water_map, terrain.player_spawn);
    let mut unreachable = 0;
    for (coord, cell) in terrain.map.enumerate() {
        if !cell.is_wall() && !*seen.get_checked(coord) {
            unreachable += 1;
        }
    }
    assert_eq!(unreachable, 0);
    assert_eq!(count(&terrain.map, LevelCell::Door), 15);
    assert_eq!(count(&terrain.map, LevelCell::Floor), 412);
    assert_eq!(count(&terrain.map, LevelCell::CaveFloor), 636);
    assert_eq!(terrain.player_spawn, xy(18, 28));
}

#[test]
fn every_open_cell_is_reachable_from_the_spawn() {
    for seed in 0..12 {
        let terrain = generate(seed);
        let seen = reached_from(&terrain.map, &terrain.water_map, terrain.player_spawn);
        for (coord, cell) in terrain.map.enumerate() {
            let open = !cell.is_wall() || *terrain.water_map.get_checked(coord);
            assert_eq!(open, *seen.get_checked(coord));
        }
    }
}

#[test]
fn every_door_stands_in_a_frame() {
    for seed in 0..12 {
        let terrain = generate(seed);
        for (coord, cell) in terrain.map.enumerate() {
            if *cell == LevelCell::Door {
                assert!(is_valid_door_position(&terrain.map, xy(coord.x, coord.y)));
                let east = terrain.map.get_checked(coord + GridCoord::new(1, 0));
                let west = terrain.map.get_checked(coord - GridCoord::new(1, 0));
                let south = terrain.map.get_checked(coord + GridCoord::new(0, 1));
                let north = terrain.map.get_checked(coord - GridCoord::new(0, 1));
                let along_x =
                    east.is_floor() && west.is_floor() && south.is_wall() && north.is_wall();
                let along_y =
                    south.is_floor() && north.is_floor() && east.is_wall() && west.is_wall();
                assert!(along_x || along_y);
            }
        }
    }
}

#[test]
fn every_plain_wall_touches_open_ground() {
    for seed in 0..12 {
        let terrain = generate(seed);
        for (coord, cell) in terrain.map.enumerate() {
            if *cell == LevelCell::Wall {
                let mut exposed = false;
                for dy in -1..=1 {
                    for dx in -1..=1 {
                        if let Some(other) = terrain.map.get(coord + GridCoord::new(dx, dy)) {
                            exposed = exposed || !other.is_wall();
                        }
                    }
                }
                assert!(exposed);
            }
        }
    }
}

#[test]
fn terrain_water_keeps_off_the_edge() {
    for seed in 0..12 {
        let terrain = generate(seed);
        let noise = water_noise(GridSize::new(60, 45), seed + 1000);
        for (coord, &flag) in terrain.water_map.enumerate() {
            if coord.x == 0 || coord.y == 0 || coord.x == 59 || coord.y == 44 {
                assert!(!flag);
            }
            if flag {
                assert!(*noise.get_checked(coord));
            }
        }
    }
}

#[test]
fn same_seed_same_terrain() {
    for seed in [0, 7, 99] {
        let first = generate(seed);
        let second = generate(seed);
        assert_eq!(first.map, second.map);
        assert_eq!(first.water_map, second.water_map);
        assert_eq!(first.player_spawn, second.player_spawn);
        assert_eq!(first.cells, second.cells);
    }
    let other = generate(8);
    assert_ne!(generate(7).map, other.map);
}

#[test]
fn composition_is_the_steps_one_after_the_other() {
    let rooms = rows_to_level(&[
        "##########", //
        "#...######", //
        "#...+...##", //
        "#...###.##", //
        "#######.##", //
        "#######+##", //
        "######...#", //
        "######...#", //
        "##########", //
    ]);
    let cave = rows_to_level(&[
        "##########", //
        "##.....###", //
        "#####..###", //
        "##########", //
        "###....###", //
        "###....###", //
        "##########", //
        "#......###", //
        "##########", //
    ]);
    let noise: Grid<bool> = Grid::new_fn(GridSize::new(10, 9), |c| c.y == 1 || c.x == 8);
    let level = RoomsAndCorridorsLevel { map: rooms.clone(), player_spawn: xy(2, 2) };
    let (map, water) = compose_level(&level, &cave, noise.clone());
    let mut by_hand = combine_rooms_and_corridors_level_with_cave(&rooms, &cave);
    let mut water_by_hand = roguelike_terrain::overlay::make_water_map(noise);
    remove_unreachable_floor(&mut by_hand, &mut water_by_hand, xy(2, 2));
    remove_invalid_doors(&mut by_hand);
    assert_eq!(map, by_hand);
    assert_eq!(water, water_by_hand);
    assert_eq!(
        level_to_rows(&map),
        vec![
            "#####%%%%%",
            "#.,,,,,##%",
            "#....,,.#%",
            "#...###.#%",
            "###,,,,.#%",
            "%%%,,,,.##",
            "%%%%%#...#",
            "%,,,,,,..#",
            "%%%%%#####"
        ]
    );
    assert!(water.iter().all(|flag| !*flag));
}

#[test]
fn terrain_grass_grows_only_where_the_noise_allows() {
    for seed in 0..6 {
        let terrain = generate(seed);
        let noise = grass_noise(GridSize::new(60, 45), seed + 2000);
        let mut grown = 0;
        for (coord, &flag) in terrain.grass_map.enumerate() {
            if flag {
                assert!(*noise.get_checked(coord));
                grown += 1;
            }
        }
        assert!(grown > 0);
    }
}

#[test]
fn terrain_lists_every_cell_once_row_by_row() {
    let terrain = generate(3);
    let grass = terrain.grass_map.clone();
    assert_eq!(terrain.cells.len(), 60 * 45);
    for (i, (coord, finished)) in terrain.cells.iter().enumerate() {
        assert_eq!(*coord, xy((i % 60) as i32, (i / 60) as i32));
        let at = GridCoord::new(coord.x, coord.y);
        let cell = *terrain.map.get_checked(at);
        let water = *terrain.water_map.get_checked(at);
        let grows = *grass.get_checked(at);
        assert!(
            *finished == terrain_cell(cell, water, grows, true)
                || *finished == terrain_cell(cell, water, grows, false)
        );
    }
}

#[test]
fn what_stands_on_a_cell() {
    let plain = |ground| TerrainCell { ground, grass: false };
    let grown = |ground| TerrainCell { ground, grass: true };
    for stays in [true, false] {
        for grass in [true, false] {
            assert_eq!(terrain_cell(LevelCell::Floor, true, grass, stays), plain(Ground::Water));
            assert_eq!(terrain_cell(LevelCell::Door, true, grass, stays), plain(Ground::Water));
            assert_eq!(terrain_cell(LevelCell::Floor, false, grass, stays), plain(Ground::Floor));
            assert_eq!(terrain_cell(LevelCell::Door, false, grass, stays), plain(Ground::Door));
            assert_eq!(terrain_cell(LevelCell::Wall, false, grass, stays), plain(Ground::Wall));
            assert_eq!(
                terrain_cell(LevelCell::CaveWall, false, grass, stays),
                plain(Ground::CaveWall)
            );
        }
        assert_eq!(terrain_cell(LevelCell::CaveFloor, true, true, stays), grown(Ground::Water));
        assert_eq!(terrain_cell(LevelCell::CaveFloor, true, false, stays), plain(Ground::Water));
        assert_eq!(terrain_cell(LevelCell::CaveWall, true, true, stays), grown(Ground::Water));
        assert_eq!(terrain_cell(LevelCell::CaveWall, true, false, stays), plain(Ground::Water));
        assert_eq!(
            terrain_cell(LevelCell::CaveFloor, false, true, stays),
            grown(Ground::CaveFloor)
        );
        assert_eq!(
            terrain_cell(LevelCell::CaveFloor, false, false, stays),
            plain(Ground::CaveFloor)
        );
    }
    for grass in [true, false] {
        assert_eq!(terrain_cell(LevelCell::Wall, true, grass, true), plain(Ground::Wall));
        assert_eq!(terrain_cell(LevelCell::Wall, true, grass, false), plain(Ground::Water));
    }
}

#[test]
fn three_of_four_walls_under_water_stay() {
    let mut rng = Isaac64Rng::seed_from_u64(12);
    let map = all_wall(40, 25);
    let water: Grid<bool> = Grid::new_copy(GridSize::new(40, 25), true);
    let grass: Grid<bool> = Grid::new_copy(GridSize::new(40, 25), true);
    let cells = finish_cells(&map, &water, &grass, &mut rng);
    assert_eq!(cells.len(), 1000);
    let mut walls = 0;
    for (i, (coord, finished)) in cells.iter().enumerate() {
        assert_eq!(*coord, xy((i % 40) as i32, (i / 40) as i32));
        assert!(!finished.grass);
        assert!(finished.ground == Ground::Wall || finished.ground == Ground::Water);
        if finished.ground == Ground::Wall {
            walls += 1;
        }
    }
    assert!(walls > 650 && walls < 850);
    let dry: Grid<bool> = Grid::new_copy(GridSize::new(40, 25), false);
    let cells = finish_cells(&map, &dry, &grass, &mut rng);
    assert!(cells.iter().all(|(_, finished)| *finished
        == TerrainCell { ground: Ground::Wall, grass: false }));
}
