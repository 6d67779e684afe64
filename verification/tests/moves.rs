use game2048::game::{spawn_value, step_coord};
use game2048::{Direction, GameManager, Tile};

fn game_with(size: usize, tiles: &[((usize, usize), isize)]) -> GameManager {
    let mut gm = GameManager::new(size);
    for (pos, value) in tiles {
        gm.grid.insert_tile(Tile::new(*pos, *value));
    }
    gm
}

fn values(gm: &GameManager) -> Vec<Vec<isize>> {
    let mut all = Vec::new();
    for x in 0..gm.size {
        let mut column = Vec::new();
        for y in 0..gm.size {
            column.push(gm.grid.cell_content((x, y)).map_or(0, |t| t.value));
        }
        all.push(column);
    }
    all
}

fn tile_count(gm: &GameManager) -> usize {
    values(gm).iter().flatten().filter(|v| **v != 0).count()
}

// A full board on which no two neighbours are equal.
fn stuck_game() -> GameManager {
    let mut gm = GameManager::new(4);
    for x in 0..4 {
        for y in 0..4 {
            let value = if (x + y) % 2 == 0 { 2 } else { 4 };
            gm.grid.insert_tile(Tile::new((x, y), value));
        }
    }
    gm
}

fn is_power_of_two(v: isize) -> bool {
    v >= 2 && v & (v - 1) == 0
}

#[test]
fn new_game_is_empty_and_not_running() {
    let gm = GameManager::new(4);
    assert_eq!(gm.size, 4);
    assert_eq!(gm.start_tiles, 2);
    assert_eq!(gm.score, 0);
    assert!(!gm.playing);
    assert_eq!(gm.grid.size, 4);
    assert_eq!(tile_count(&gm), 0);
    assert!(gm.is_sound());
    assert!(gm.has_headroom());
}

#[test]
fn two_equal_tiles_merge_at_the_edge() {
    // The two tiles share the column x = 0, and `Up` is the direction whose
    // vector (0, -1) pushes along that column towards y = 0.
    let mut gm = game_with(4, &[((0, 0), 2), ((0, 1), 2)]);
    assert!(gm.move_to(Direction::Up));
    let merged = gm.grid.cell_content((0, 0)).unwrap();
    assert_eq!(merged.value, 4);
    assert_eq!(merged.merged_from, Some(((0, 1), (0, 0))));
    assert_eq!(merged.prev_pos, None);
    assert_eq!((merged.x, merged.y), (0, 0));
    assert_eq!(gm.score, 4);
    // One new tile has appeared, somewhere else.
    assert_eq!(tile_count(&gm), 2);
    let v = values(&gm);
    let total: isize = v.iter().flatten().sum();
    assert!(total == 6 || total == 8);
}

#[test]
fn left_pushes_along_the_x_axis() {
    let mut gm = game_with(4, &[((0, 0), 2), ((1, 0), 2)]);
    assert!(gm.move_to(Direction::Left));
    let merged = gm.grid.cell_content((0, 0)).unwrap();
    assert_eq!(merged.value, 4);
    assert_eq!(merged.merged_from, Some(((1, 0), (0, 0))));
    assert_eq!(gm.score, 4);
    assert_eq!(tile_count(&gm), 2);
}

#[test]
fn tiles_in_one_column_do_not_move_left() {
    // Both tiles stand at x = 0 already: `Left`, with the vector (-1, 0),
    // has nowhere to push them.
    let mut gm = game_with(4, &[((0, 0), 2), ((0, 1), 2)]);
    assert!(!gm.move_to(Direction::Left));
    assert_eq!(gm.score, 0);
    assert_eq!(tile_count(&gm), 2);
    assert_eq!(gm.grid.cell_content((0, 0)).unwrap().value, 2);
    assert_eq!(gm.grid.cell_content((0, 1)).unwrap().value, 2);
}

#[test]
fn stuck_board_does_not_move() {
    for dir in Direction::all_directions() {
        let mut gm = stuck_game();
        gm.score = 100;
        let before = values(&gm);
        assert!(!gm.move_to(dir));
        assert_eq!(values(&gm), before);
        assert_eq!(gm.score, 100);
        assert!(!gm.moves_available());
    }
}

#[test]
fn three_equal_tiles_merge_once() {
    let mut gm = game_with(4, &[((0, 0), 2), ((0, 1), 2), ((0, 2), 2)]);
    assert!(gm.slide_tiles(Direction::Up));
    assert_eq!(values(&gm)[0], vec![4, 2, 0, 0]);
    assert_eq!(gm.score, 4);
    let slid = gm.grid.cell_content((0, 1)).unwrap();
    assert_eq!(slid.prev_pos, Some((0, 2)));
    assert_eq!(slid.merged_from, None);
}

#[test]
fn three_equal_tiles_merge_once_in_a_move() {
    let mut gm = game_with(4, &[((0, 0), 2), ((0, 1), 2), ((0, 2), 2)]);
    assert!(gm.move_to(Direction::Up));
    assert_eq!(gm.grid.cell_content((0, 0)).unwrap().value, 4);
    assert_eq!(gm.grid.cell_content((0, 1)).unwrap().value, 2);
    assert_eq!(gm.score, 4);
    assert_eq!(tile_count(&gm), 3);
}

#[test]
fn three_equal_tiles_in_a_row_merge_once_to_the_left() {
    let mut gm = game_with(4, &[((0, 0), 2), ((1, 0), 2), ((2, 0), 2)]);
    assert!(gm.slide_tiles(Direction::Left));
    let v = values(&gm);
    assert_eq!((v[0][0], v[1][0], v[2][0], v[3][0]), (4, 2, 0, 0));
}

#[test]
fn merged_tile_does_not_merge_again() {
    let mut gm = game_with(4, &[((0, 0), 2), ((0, 1), 2), ((0, 2), 4)]);
    assert!(gm.slide_tiles(Direction::Up));
    assert_eq!(values(&gm)[0], vec![4, 4, 0, 0]);
    assert_eq!(gm.score, 4);
}

#[test]
fn four_equal_tiles_merge_in_pairs() {
    let mut gm = game_with(4, &[((1, 0), 2), ((1, 1), 2), ((1, 2), 2), ((1, 3), 2)]);
    assert!(gm.slide_tiles(Direction::Down));
    assert_eq!(values(&gm)[1], vec![0, 0, 4, 4]);
    assert_eq!(gm.score, 8);
    let upper = gm.grid.cell_content((1, 2)).unwrap();
    let lower = gm.grid.cell_content((1, 3)).unwrap();
    assert_eq!(lower.merged_from, Some(((1, 2), (1, 3))));
    assert_eq!(upper.merged_from, Some(((1, 0), (1, 2))));
}

#[test]
fn merge_needs_no_gap_and_crosses_gaps() {
    let mut gm = game_with(4, &[((0, 3), 8), ((3, 3), 8)]);
    assert!(gm.slide_tiles(Direction::Right));
    let v = values(&gm);
    assert_eq!((v[0][3], v[1][3], v[2][3], v[3][3]), (0, 0, 0, 16));
    assert_eq!(gm.score, 16);
    assert_eq!(
        gm.grid.cell_content((3, 3)).unwrap().merged_from,
        Some(((0, 3), (3, 3)))
    );
}

#[test]
fn unequal_tiles_slide_and_keep_their_order() {
    let mut gm = game_with(4, &[((0, 2), 2), ((2, 2), 4), ((3, 2), 8)]);
    assert!(gm.slide_tiles(Direction::Right));
    let v = values(&gm);
    assert_eq!((v[0][2], v[1][2], v[2][2], v[3][2]), (0, 2, 4, 8));
    assert_eq!(gm.score, 0);
    let moved = gm.grid.cell_content((1, 2)).unwrap();
    assert_eq!(moved.prev_pos, Some((0, 2)));
    assert_eq!((moved.x, moved.y), (1, 2));
    let stayed = gm.grid.cell_content((3, 2)).unwrap();
    assert_eq!(stayed.prev_pos, Some((3, 2)));
}

#[test]
fn lanes_are_independent() {
    let mut gm = game_with(
        3,
        &[((0, 0), 2), ((2, 0), 2), ((1, 1), 4), ((0, 2), 2), ((1, 2), 4)],
    );
    assert!(gm.slide_tiles(Direction::Left));
    assert_eq!(values(&gm), vec![vec![4, 4, 2], vec![0, 0, 4], vec![0, 0, 0]]);
    assert_eq!(gm.score, 4);
}

#[test]
fn slide_without_change_returns_false() {
    let mut gm = game_with(4, &[((0, 0), 2), ((1, 0), 4)]);
    let before = values(&gm);
    assert!(!gm.slide_tiles(Direction::Left));
    assert_eq!(values(&gm), before);
    assert_eq!(gm.score, 0);
    // Only the records of the tiles are as a move leaves them.
    assert_eq!(gm.grid.cell_content((1, 0)).unwrap().prev_pos, Some((1, 0)));
}

#[test]
fn move_clears_the_records_of_the_move_before() {
    let mut gm = game_with(4, &[((0, 0), 2), ((0, 1), 2), ((3, 3), 8)]);
    assert!(gm.slide_tiles(Direction::Up));
    assert!(gm.grid.cell_content((0, 0)).unwrap().merged_from.is_some());
    assert!(gm.slide_tiles(Direction::Left));
    let t = gm.grid.cell_content((0, 0)).unwrap();
    assert_eq!(t.value, 4);
    assert_eq!(t.merged_from, None);
    assert_eq!(t.prev_pos, Some((0, 0)));
}

#[test]
fn prepare_tiles_resets_every_record() {
    let mut gm = GameManager::new(2);
    let mut t = Tile::new((1, 1), 4);
    t.merged_from = Some(((0, 1), (1, 1)));
    gm.grid.insert_tile(t);
    gm.grid.insert_tile(Tile::new((0, 0), 2));
    gm.prepare_tiles();
    let a = gm.grid.cell_content((1, 1)).unwrap();
    assert_eq!(a.merged_from, None);
    assert_eq!(a.prev_pos, Some((1, 1)));
    assert_eq!(a.value, 4);
    let b = gm.grid.cell_content((0, 0)).unwrap();
    assert_eq!(b.prev_pos, Some((0, 0)));
    assert_eq!(gm.grid.cell_content((0, 1)), None);
}

#[test]
fn move_tile_clears_the_old_cell_and_fills_the_new() {
    let mut gm = game_with(3, &[((0, 0), 2)]);
    let t = gm.grid.cell_content((0, 0)).unwrap();
    gm.move_tile(t, (2, 1));
    assert_eq!(gm.grid.cell_content((0, 0)), None);
    assert_eq!(gm.grid.cell_content((2, 1)), Some(Tile::new((2, 1), 2)));
    assert!(gm.is_sound());
}

#[test]
fn farthest_position_stops_before_an_obstacle() {
    let gm = game_with(4, &[((0, 0), 2), ((3, 0), 4)]);
    assert_eq!(
        gm.find_farthest_position((3, 0), Direction::Left.to_vector()),
        ((1, 0), (0, 0))
    );
    assert_eq!(
        gm.find_farthest_position((0, 0), Direction::Right.to_vector()),
        ((2, 0), (3, 0))
    );
}

#[test]
fn farthest_position_stops_at_the_edge() {
    let gm = game_with(4, &[((1, 1), 2)]);
    assert_eq!(
        gm.find_farthest_position((1, 1), Direction::Down.to_vector()),
        ((1, 3), (1, 4))
    );
    assert_eq!(
        gm.find_farthest_position((1, 1), Direction::Up.to_vector()),
        ((1, 0), (1, usize::MAX))
    );
    assert_eq!(
        gm.find_farthest_position((1, 1), Direction::Left.to_vector()),
        ((0, 1), (usize::MAX, 1))
    );
}

#[test]
fn farthest_position_of_a_blocked_tile_is_its_own() {
    let gm = game_with(4, &[((0, 0), 2), ((1, 0), 4)]);
    assert_eq!(
        gm.find_farthest_position((1, 0), Direction::Left.to_vector()),
        ((1, 0), (0, 0))
    );
}

#[test]
fn step_coord_wraps_below_zero() {
    assert_eq!(step_coord(0, -1), usize::MAX);
    assert_eq!(step_coord(0, 1), 1);
    assert_eq!(step_coord(5, 0), 5);
    assert_eq!(step_coord(5, -1), 4);
    assert_eq!(step_coord(usize::MAX, 1), 0);
}

#[test]
fn moves_available_with_an_empty_cell() {
    let mut gm = stuck_game();
    gm.grid.remove_tile(Tile::new((2, 2), 2));
    assert!(!gm.tile_matches_available());
    assert!(gm.moves_available());
}

#[test]
fn moves_available_with_equal_neighbours() {
    let mut gm = stuck_game();
    gm.grid.insert_tile(Tile::new((3, 3), 4));
    assert!(!gm.grid.cells_available());
    assert!(gm.tile_matches_available());
    assert!(gm.moves_available());
}

#[test]
fn no_match_across_the_edge_of_the_board() {
    // Equal values at opposite ends of a column are no neighbours.
    let gm = game_with(2, &[((0, 0), 2), ((0, 1), 4), ((1, 0), 8), ((1, 1), 2)]);
    assert!(!gm.tile_matches_available());
    assert!(!gm.moves_available());
}

#[test]
fn empty_board_has_moves_but_no_matches() {
    let gm = GameManager::new(4);
    assert!(!gm.tile_matches_available());
    assert!(gm.moves_available());
}

#[test]
fn spawn_value_is_two_for_nine_draws_in_ten() {
    for draw in 0..9 {
        assert_eq!(spawn_value(draw), 2);
    }
    assert_eq!(spawn_value(9), 4);
    assert_eq!(spawn_value(10), 2);
    assert_eq!(spawn_value(18), 2);
    assert_eq!(spawn_value(19), 4);
    assert_eq!(spawn_value(usize::MAX), if usize::MAX % 10 < 9 { 2 } else { 4 });
}

#[test]
fn add_random_tile_fills_one_empty_cell() {
    let mut gm = game_with(3, &[((1, 1), 8)]);
    gm.add_random_tile();
    assert_eq!(tile_count(&gm), 2);
    assert_eq!(gm.grid.cell_content((1, 1)), Some(Tile::new((1, 1), 8)));
    for x in 0..3 {
        for y in 0..3 {
            if (x, y) != (1, 1) {
                if let Some(t) = gm.grid.cell_content((x, y)) {
                    assert!(t.value == 2 || t.value == 4);
                    assert_eq!(t, Tile::new((x, y), t.value));
                }
            }
        }
    }
    assert_eq!(gm.score, 0);
}

#[test]
fn add_random_tile_on_a_full_board_changes_nothing() {
    let mut gm = stuck_game();
    let before = gm.grid.clone();
    gm.add_random_tile();
    assert_eq!(gm.grid, before);
    assert_eq!(gm.score, 0);
}

#[test]
fn add_random_tile_takes_the_last_empty_cell() {
    let mut gm = stuck_game();
    gm.grid.remove_tile(Tile::new((3, 1), 2));
    gm.add_random_tile();
    let t = gm.grid.cell_content((3, 1)).unwrap();
    assert!(t.value == 2 || t.value == 4);
    assert!(!gm.grid.cells_available());
}

#[test]
fn setup_starts_the_game_with_two_tiles() {
    let mut gm = GameManager::new(4);
    gm.setup();
    assert!(gm.playing);
    assert_eq!(tile_count(&gm), 2);
    assert_eq!(gm.score, 0);
    for v in values(&gm).iter().flatten() {
        assert!(*v == 0 || *v == 2 || *v == 4);
    }
    assert!(gm.is_sound());
    assert!(gm.has_headroom());
}

#[test]
fn add_start_tiles_adds_as_many_as_asked() {
    let mut gm = GameManager::new(4);
    gm.start_tiles = 5;
    gm.add_start_tiles();
    assert_eq!(tile_count(&gm), 5);
    assert!(!gm.playing);
}

#[test]
fn setup_on_a_tiny_board_fills_what_there_is() {
    let mut gm = GameManager::new(1);
    gm.setup();
    assert_eq!(tile_count(&gm), 1);
}

#[test]
fn build_traversal_goes_over_the_board_of_the_game() {
    let gm = GameManager::new(3);
    let mut walk = gm.build_traversal(Direction::Right);
    assert_eq!(walk.next(), Some((2, 0)));
    let mut rest = 0;
    while walk.next().is_some() {
        rest += 1;
    }
    assert_eq!(rest, 8);
}

#[test]
fn soundness_and_headroom_tests() {
    let mut gm = game_with(2, &[((0, 0), 2)]);
    assert!(gm.is_sound());
    assert!(gm.has_headroom());
    gm.score = usize::MAX - 1;
    assert!(!gm.has_headroom());
    gm.score = usize::MAX - 2;
    assert!(gm.has_headroom());
    gm.score = 0;
    gm.grid.insert_tile(Tile::new((1, 1), isize::MAX));
    assert!(!gm.has_headroom());
    gm.grid.insert_tile(Tile::new((1, 1), isize::MAX - 2));
    assert!(gm.has_headroom());
    gm.grid.insert_tile(Tile::new((1, 1), 0));
    assert!(!gm.has_headroom());
    gm.grid.insert_tile(Tile::new((1, 1), -4));
    assert!(!gm.has_headroom());
    gm.size = 3;
    assert!(!gm.is_sound());
}

#[test]
fn many_moves_keep_the_board_in_order() {
    let dirs = Direction::all_directions();
    let mut gm = GameManager::new(4);
    gm.setup();
    for round in 0..400 {
        if !gm.moves_available() {
            break;
        }
        assert!(gm.is_sound());
        assert!(gm.has_headroom());
        let before = values(&gm);
        let score = gm.score;
        let count = tile_count(&gm);
        let moved = gm.move_to(dirs[round % 4]);
        // Every tile stands on the cell whose coordinates it carries, and
        // its value is a power of two.
        let mut merged_sum = 0;
        let mut merged_count = 0;
        for x in 0..4 {
            for y in 0..4 {
                if let Some(t) = gm.grid.cell_content((x, y)) {
                    assert_eq!((t.x, t.y), (x, y));
                    assert!(is_power_of_two(t.value));
                    if t.merged_from.is_some() {
                        merged_sum += t.value as usize;
                        merged_count += 1;
                    }
                }
            }
        }
        // The score grows by the values of the merged tiles, and by nothing
        // else.
        assert_eq!(gm.score, score + merged_sum);
        if moved {
            // Each merge takes one tile away, and one new tile appears.
            assert_eq!(tile_count(&gm), count - merged_count + 1);
        } else {
            assert_eq!(values(&gm), before);
            assert_eq!(merged_count, 0);
        }
    }
}
