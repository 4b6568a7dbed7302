use gridbugs::coord_2d::{Coord as GridCoord, Size as GridSize};
use gridbugs::grid_2d::Grid;
use roguelike_terrain::cave::{
    generate_cave_map, grow_cave_map, remove_disconnected_walls, surround_map_with_walls,
    GameOfLife, GameOfLifeParams,
};
use roguelike_terrain::cell::LevelCell;
use roguelike_terrain::compose::{
    combine_rooms_and_corridors_level_with_cave, is_surrounded_by_walls, is_valid_door_position,
    is_valid_door_position_axis, remove_invalid_doors, remove_unreachable_floor,
};
use roguelike_terrain::flood::flood_fill;
use roguelike_terrain::geometry::{Axis, Coord, Size};
use roguelike_terrain::overlay::{make_grass_map, make_water_map, remove_edge_water};

use rand::SeedableRng;
use rand_isaac::Isaac64Rng;

fn level_from(rows: &[&str]) -> Grid<LevelCell> {
    let height = rows.len() as u32;
    let width = rows[0].len() as u32;
    Grid::new_fn(GridSize::new(width, height), |c| {
        match rows[c.y as usize].as_bytes()[c.x as usize] {
            b'.' => LevelCell::Floor,
            b'#' => LevelCell::Wall,
            b'+' => LevelCell::Door,
            b',' => LevelCell::CaveFloor,
            b'%' => LevelCell::CaveWall,
            other => panic!("no cell is written {}", other as char),
        }
    })
}

fn level_rows(grid: &Grid<LevelCell>) -> Vec<String> {
    grid.rows()
        .map(|row| {
            row.iter()
                .map(|cell| match cell {
                    LevelCell::Floor => '.',
                    LevelCell::Wall => '#',
                    LevelCell::Door => '+',
                    LevelCell::CaveFloor => ',',
                    LevelCell::CaveWall => '%',
                })
                .collect()
        })
        .collect()
}

fn mask_from(rows: &[&str]) -> Grid<bool> {
    let height = rows.len() as u32;
    let width = rows[0].len() as u32;
    Grid::new_fn(GridSize::new(width, height), |c| {
        rows[c.y as usize].as_bytes()[c.x as usize] == b'1'
    })
}

fn mask_rows(grid: &Grid<bool>) -> Vec<String> {
    grid.rows().map(|row| row.iter().map(|&flag| if flag { '1' } else { '0' }).collect()).collect()
}

#[test]
fn flood_fill_stays_within_open_cells() {
    let open = mask_from(&[
        "11000", //
        "01011", //
        "01000", //
        "00011", //
    ]);
    let seen = flood_fill(&open, &vec![Coord::new(0, 0)]);
    assert_eq!(mask_rows(&seen), vec!["11000", "01000", "01000", "00000"]);
}

#[test]
fn flood_fill_marks_a_closed_start_and_goes_on_from_it() {
    let open = mask_from(&[
        "010", //
        "101", //
        "010", //
    ]);
    let seen = flood_fill(&open, &vec![Coord::new(1, 1)]);
    assert_eq!(mask_rows(&seen), vec!["010", "111", "010"]);
}

#[test]
fn flood_fill_does_not_step_across_corners() {
    let open = mask_from(&[
        "100", //
        "010", //
        "001", //
    ]);
    let seen = flood_fill(&open, &vec![Coord::new(0, 0)]);
    assert_eq!(mask_rows(&seen), vec!["100", "000", "000"]);
}

#[test]
fn flood_fill_from_several_starts_and_from_none() {
    let open = mask_from(&[
        "1101011", //
        "0001000", //
    ]);
    let seen = flood_fill(&open, &vec![Coord::new(6, 0), Coord::new(0, 0), Coord::new(6, 0)]);
    assert_eq!(mask_rows(&seen), vec!["1100011", "0000000"]);
    let none = flood_fill(&open, &Vec::new());
    assert_eq!(mask_rows(&none), vec!["0000000", "0000000"]);
}

#[test]
fn edge_water_is_drained_with_its_pool() {
    let mut water = mask_from(&[
        "000000", //
        "011010", //
        "010011", //
        "000000", //
        "001100", //
    ]);
    remove_edge_water(&mut water);
    assert_eq!(mask_rows(&water), vec!["000000", "011000", "010000", "000000", "000000"]);
}

#[test]
fn water_never_touches_the_edge() {
    let mut rng = Isaac64Rng::seed_from_u64(11);
    for _ in 0..20 {
        let noise = GameOfLife::new(Size::new(13, 9), &mut rng).alive;
        let mut water = noise.clone();
        remove_edge_water(&mut water);
        for (coord, &flag) in water.enumerate() {
            if coord.x == 0 || coord.y == 0 || coord.x == 12 || coord.y == 8 {
                assert!(!flag);
            }
            if flag {
                assert!(*noise.get_checked(coord));
            }
        }
    }
}

#[test]
fn water_in_the_middle_stays() {
    let mut water = mask_from(&[
        "000", //
        "010", //
        "000", //
    ]);
    remove_edge_water(&mut water);
    assert_eq!(mask_rows(&water), vec!["000", "010", "000"]);
    let mut all = mask_from(&["111", "111", "111"]);
    remove_edge_water(&mut all);
    assert_eq!(mask_rows(&all), vec!["000", "000", "000"]);
}

#[test]
fn game_of_life_step_counts_the_eight_cells_around() {
    let alive = mask_from(&[
        "111", //
        "111", //
        "111", //
    ]);
    let next = mask_from(&["000", "000", "000"]);
    let mut life = GameOfLife { alive, next };
    let params =
        GameOfLifeParams { survive_min: 4, survive_max: 8, resurrect_min: 5, resurrect_max: 5 };
    life.step(&params);
    // corners have 3 live cells around them, sides 5, the middle 8
    assert_eq!(mask_rows(&life.alive), vec!["010", "111", "010"]);
    life.step(&params);
    // now corners have 3 again but are dead, sides have 3, the middle 4
    assert_eq!(mask_rows(&life.alive), vec!["000", "010", "000"]);
    life.step(&params);
    assert_eq!(mask_rows(&life.alive), vec!["000", "000", "000"]);
}

#[test]
fn game_of_life_resurrects_on_exactly_five() {
    let alive = mask_from(&[
        "110", //
        "101", //
        "011", //
    ]);
    let next = mask_from(&["000", "000", "000"]);
    let mut life = GameOfLife { alive, next };
    let params =
        GameOfLifeParams { survive_min: 4, survive_max: 8, resurrect_min: 5, resurrect_max: 5 };
    life.step(&params);
    // the middle is dead with 6 around it: it stays dead; no live cell has 4
    assert_eq!(mask_rows(&life.alive), vec!["000", "000", "000"]);
    let alive = mask_from(&[
        "111", //
        "101", //
        "010", //
    ]);
    let mut life = GameOfLife { alive, next: mask_from(&["000", "000", "000"]) };
    life.step(&params);
    // the middle is dead with 6 around it; (1,0) is alive with 4, the others with 3
    assert_eq!(mask_rows(&life.alive), vec!["010", "000", "000"]);
    let alive = mask_from(&[
        "111", //
        "101", //
        "000", //
    ]);
    let mut life = GameOfLife { alive, next: mask_from(&["000", "000", "000"]) };
    life.step(&params);
    // the middle is dead with exactly 5 around it: it comes alive; (1,0) has 4
    assert_eq!(mask_rows(&life.alive), vec!["010", "010", "000"]);
}

#[test]
fn game_of_life_new_has_the_size_asked_for() {
    let mut rng = Isaac64Rng::seed_from_u64(5);
    let life = GameOfLife::new(Size::new(20, 10), &mut rng);
    assert_eq!(life.alive.width(), 20);
    assert_eq!(life.alive.height(), 10);
    assert_eq!(life.next.width(), 20);
    assert_eq!(life.next.height(), 10);
    let live = life.alive.iter().filter(|&&flag| flag).count();
    assert!(live > 0 && live < 200);
}

#[test]
fn cave_grows_for_ten_generations() {
    let alive = mask_from(&[
        "11111", //
        "11111", //
        "11111", //
        "11111", //
        "11111", //
    ]);
    let mut by_hand = GameOfLife { alive: alive.clone(), next: alive.clone() };
    let params =
        GameOfLifeParams { survive_min: 4, survive_max: 8, resurrect_min: 5, resurrect_max: 5 };
    for _ in 0..10 {
        by_hand.step(&params);
    }
    let mut life = GameOfLife { alive: alive.clone(), next: alive };
    let map = grow_cave_map(&mut life);
    for (coord, cell) in map.enumerate() {
        let expected =
            if *by_hand.alive.get_checked(coord) { LevelCell::Floor } else { LevelCell::Wall };
        assert_eq!(*cell, expected);
    }
    assert_eq!(
        level_rows(&map),
        vec!["#...#", ".....", ".....", ".....", "#...#"]
    );
}

#[test]
fn map_is_surrounded_with_walls() {
    let mut map = level_from(&[
        "....", //
        "....", //
        "..#.", //
        "....", //
    ]);
    surround_map_with_walls(&mut map);
    assert_eq!(level_rows(&map), vec!["####", "#..#", "#.##", "####"]);
    let mut thin = level_from(&["...", "..."]);
    surround_map_with_walls(&mut thin);
    assert_eq!(level_rows(&thin), vec!["###", "###"]);
}

#[test]
fn disconnected_walls_become_floor() {
    let mut map = level_from(&[
        "#######", //
        "#.....#", //
        "#.##..#", //
        "#.#..##", //
        "#.....#", //
        "#######", //
    ]);
    remove_disconnected_walls(&mut map);
    assert_eq!(
        level_rows(&map),
        vec!["#######", "#.....#", "#.....#", "#....##", "#.....#", "#######"]
    );
}

#[test]
fn walls_joined_only_by_a_corner_are_disconnected() {
    let mut map = level_from(&[
        "##...", //
        "#.#..", //
        ".....", //
    ]);
    remove_disconnected_walls(&mut map);
    assert_eq!(level_rows(&map), vec!["##...", "#....", "....."]);
}

#[test]
fn cave_map_is_ringed_and_its_walls_hang_together() {
    let mut rng = Isaac64Rng::seed_from_u64(42);
    let map = generate_cave_map(Size::new(30, 20), &mut rng);
    assert_eq!(map.width(), 30);
    assert_eq!(map.height(), 20);
    for (coord, cell) in map.enumerate() {
        assert!(*cell == LevelCell::Floor || *cell == LevelCell::Wall);
        if coord.x == 0 || coord.y == 0 || coord.x == 29 || coord.y == 19 {
            assert_eq!(*cell, LevelCell::Wall);
        }
    }
    let walls: Grid<bool> = Grid::new_grid_map_ref(&map, |cell| *cell == LevelCell::Wall);
    let seen = flood_fill(&walls, &vec![Coord::new(0, 0)]);
    for (coord, cell) in map.enumerate() {
        assert_eq!(*cell == LevelCell::Wall, *seen.get_checked(coord));
    }
    assert!(map.iter().any(|cell| *cell == LevelCell::Floor));
}

#[test]
fn surrounded_by_walls_ignores_cells_off_the_map() {
    let map = level_from(&[
        "###.", //
        "###.", //
        "###+", //
        "####", //
    ]);
    assert!(is_surrounded_by_walls(&map, Coord::new(0, 0)));
    assert!(is_surrounded_by_walls(&map, Coord::new(1, 1)));
    assert!(is_surrounded_by_walls(&map, Coord::new(0, 3)));
    assert!(!is_surrounded_by_walls(&map, Coord::new(2, 1)));
    assert!(!is_surrounded_by_walls(&map, Coord::new(2, 3)));
    assert!(!is_surrounded_by_walls(&map, Coord::new(3, 3)));
    assert!(is_surrounded_by_walls(&map, Coord::new(1, 3)));
    // the cell itself does not count
    assert!(!is_surrounded_by_walls(&map, Coord::new(3, 0)));
    let lone = level_from(&["###", "#.#", "###"]);
    assert!(is_surrounded_by_walls(&lone, Coord::new(1, 1)));
}

#[test]
fn composition_prefers_the_cave_and_hides_buried_walls() {
    let rooms = level_from(&[
        "######", //
        "#..+.#", //
        "#..###", //
        "######", //
        "######", //
    ]);
    let cave = level_from(&[
        "######", //
        "#.####", //
        "####.#", //
        "######", //
        "##.###", //
    ]);
    let level = combine_rooms_and_corridors_level_with_cave(&rooms, &cave);
    assert_eq!(
        level_rows(&level),
        vec!["######", "#,.+.#", "#..#,#", "####%%", "%%,%%%"]
    );
}

#[test]
fn buried_wall_is_never_a_plain_wall() {
    let mut rng = Isaac64Rng::seed_from_u64(9);
    let rooms = level_from(&[
        "########", //
        "########", //
        "##...###", //
        "##...###", //
        "########", //
        "########", //
    ]);
    let cave = generate_cave_map(Size::new(8, 6), &mut rng);
    let level = combine_rooms_and_corridors_level_with_cave(&rooms, &cave);
    for (coord, cell) in level.enumerate() {
        let here = Coord::new(coord.x, coord.y);
        if *rooms.get_checked(coord) == LevelCell::Wall && is_surrounded_by_walls(&rooms, here) {
            assert!(*cell == LevelCell::CaveWall || *cell == LevelCell::CaveFloor);
        }
    }
    assert_eq!(*level.get_checked(GridCoord::new(0, 0)), LevelCell::CaveWall);
    assert_eq!(*level.get_checked(GridCoord::new(7, 5)), LevelCell::CaveWall);
    assert_eq!(*level.get_checked(GridCoord::new(1, 1)), LevelCell::Wall);
}

#[test]
fn unreachable_cave_floor_and_water_are_closed_off() {
    let mut level = level_from(&[
        "########", //
        "#..#,,##", //
        "#..#####", //
        "#+##,#.#", //
        "#,,,,###", //
        "########", //
    ]);
    let mut water = mask_from(&[
        "00000000", //
        "00001000", //
        "01000000", //
        "00000010", //
        "00001100", //
        "00000000", //
    ]);
    remove_unreachable_floor(&mut level, &mut water, Coord::new(1, 1));
    assert_eq!(
        level_rows(&level),
        vec!["########", "#..#%%##", "#..#####", "#+##,#.#", "#,,,,###", "########"]
    );
    assert_eq!(
        mask_rows(&water),
        vec!["00000000", "00000000", "01000000", "00000000", "00001100", "00000000"]
    );
}

#[test]
fn water_carries_a_walk_through_walls() {
    let mut level = level_from(&[
        "#####", //
        "#.#,#", //
        "#####", //
    ]);
    let mut water = mask_from(&[
        "00000", //
        "00100", //
        "00000", //
    ]);
    remove_unreachable_floor(&mut level, &mut water, Coord::new(1, 1));
    assert_eq!(level_rows(&level), vec!["#####", "#.#,#", "#####"]);
    assert_eq!(mask_rows(&water), vec!["00000", "00100", "00000"]);
    let mut dry = mask_from(&["00000", "00000", "00000"]);
    remove_unreachable_floor(&mut level, &mut dry, Coord::new(1, 1));
    assert_eq!(level_rows(&level), vec!["#####", "#.#%#", "#####"]);
}

#[test]
fn closing_off_agrees_with_a_second_flood_fill() {
    let mut rng = Isaac64Rng::seed_from_u64(21);
    let rooms = level_from(&[
        "############", //
        "#....#######", //
        "#....+...###", //
        "#....###.###", //
        "########.###", //
        "############", //
        "############", //
        "############", //
    ]);
    let cave = generate_cave_map(Size::new(12, 8), &mut rng);
    let mut level = combine_rooms_and_corridors_level_with_cave(&rooms, &cave);
    let mut water = GameOfLife::new(Size::new(12, 8), &mut rng).alive;
    remove_edge_water(&mut water);
    let spawn = Coord::new(2, 2);
    remove_unreachable_floor(&mut level, &mut water, spawn);
    let open: Grid<bool> = Grid::new_fn(level.size(), |c| {
        !level.get_checked(c).is_wall() || *water.get_checked(c)
    });
    let seen = flood_fill(&open, &vec![spawn]);
    for (coord, &flag) in open.enumerate() {
        if flag {
            assert!(*seen.get_checked(coord));
        }
    }
}

#[test]
fn room_floor_that_is_cut_off_is_left_as_it_is() {
    let mut level = level_from(&[
        "#######", //
        "#.#.+,#", //
        "#######", //
    ]);
    let mut water = mask_from(&[
        "0000000", //
        "0001000", //
        "0000000", //
    ]);
    remove_unreachable_floor(&mut level, &mut water, Coord::new(1, 1));
    assert_eq!(level_rows(&level), vec!["#######", "#.#.+%#", "#######"]);
    assert_eq!(mask_rows(&water), vec!["0000000", "0000000", "0000000"]);
}

#[test]
fn door_needs_floor_along_one_axis_and_wall_along_the_other() {
    let map = level_from(&[
        "#####", //
        "###.#", //
        ".+,+#", //
        "#%#.#", //
        "#####", //
    ]);
    assert!(is_valid_door_position_axis(&map, Coord::new(1, 2), Axis::X));
    assert!(!is_valid_door_position_axis(&map, Coord::new(1, 2), Axis::Y));
    assert!(!is_valid_door_position(&map, Coord::new(2, 2)));
    assert!(is_valid_door_position(&map, Coord::new(1, 2)));
    assert!(!is_valid_door_position_axis(&map, Coord::new(3, 2), Axis::X));
    assert!(!is_valid_door_position_axis(&map, Coord::new(3, 2), Axis::Y));
    let upright = level_from(&[
        "#.#", //
        "#+#", //
        "#,#", //
    ]);
    assert!(is_valid_door_position_axis(&upright, Coord::new(1, 1), Axis::Y));
    assert!(!is_valid_door_position_axis(&upright, Coord::new(1, 1), Axis::X));
    assert!(is_valid_door_position(&upright, Coord::new(1, 1)));
}

#[test]
fn doors_without_a_frame_become_floor() {
    let mut map = level_from(&[
        "#######", //
        "#.+.#.#", //
        "###+#+#", //
        "#.++.,#", //
        "#######", //
    ]);
    remove_invalid_doors(&mut map);
    assert_eq!(
        level_rows(&map),
        vec!["#######", "#.+.#.#", "###.#+#", "#....,#", "#######"]
    );
    for (coord, cell) in map.enumerate() {
        if *cell == LevelCell::Door {
            assert!(is_valid_door_position(&map, Coord::new(coord.x, coord.y)));
        }
    }
}

#[test]
fn doors_side_by_side_are_both_judged_on_the_level_as_it_was() {
    let mut map = level_from(&[
        "#####", //
        ".++.#", //
        "#####", //
    ]);
    // after the first door became floor the second would stand in a frame
    remove_invalid_doors(&mut map);
    assert_eq!(level_rows(&map), vec!["#####", "....#", "#####"]);
}

#[test]
fn water_map_is_the_noise_without_its_edge_pools() {
    let noise = mask_from(&[
        "000100", //
        "011100", //
        "000000", //
        "001101", //
        "000000", //
    ]);
    let water = make_water_map(noise);
    assert_eq!(mask_rows(&water), vec!["000000", "000000", "000000", "001100", "000000"]);
}

#[test]
fn grass_grows_only_where_the_noise_allows() {
    let mut rng = Isaac64Rng::seed_from_u64(17);
    let noise = mask_from(&[
        "11110000", //
        "11110000", //
        "11110000", //
        "11110000", //
    ]);
    let mut grown = 0;
    for _ in 0..50 {
        let grass = make_grass_map(&noise, &mut rng);
        assert_eq!(grass.width(), 8);
        assert_eq!(grass.height(), 4);
        for (coord, &flag) in grass.enumerate() {
            if flag {
                assert!(*noise.get_checked(coord));
                grown += 1;
            }
        }
    }
    // half of the 16 flagged cells, fifty times over
    assert!(grown > 300 && grown < 500);
    let bare = mask_from(&["000", "000"]);
    let grass = make_grass_map(&bare, &mut rng);
    assert_eq!(mask_rows(&grass), vec!["000", "000"]);
}
