use game2048::grid::pick_cell;
use game2048::{Grid, Tile};

fn full_grid(size: usize) -> Grid {
    let mut grid = Grid::new(size);
    for x in 0..size {
        for y in 0..size {
            grid.insert_tile(Tile::new((x, y), 2));
        }
    }
    grid
}

#[test]
fn new_tile_has_no_history() {
    let t = Tile::new((1, 2), 8);
    assert_eq!(t.x, 1);
    assert_eq!(t.y, 2);
    assert_eq!(t.value, 8);
    assert_eq!(t.prev_pos, None);
    assert_eq!(t.merged_from, None);
    assert_eq!(t.pos(), (1, 2));
}

#[test]
fn save_position_records_the_current_cell() {
    let mut t = Tile::new((1, 2), 8);
    t.save_position();
    assert_eq!(t.prev_pos, Some((1, 2)));
    t.update_position((3, 0));
    assert_eq!(t.pos(), (3, 0));
    assert_eq!(t.prev_pos, Some((1, 2)));
    assert_eq!(t.value, 8);
}

#[test]
fn new_grid_is_empty() {
    let grid = Grid::new(3);
    assert_eq!(grid.size, 3);
    assert!(grid.is_sound());
    for x in 0..3 {
        for y in 0..3 {
            assert_eq!(grid.cell_content((x, y)), None);
            assert!(grid.cell_available((x, y)));
        }
    }
    assert!(grid.cells_available());
    assert_eq!(grid.available_cells().len(), 9);
}

#[test]
fn grid_of_size_zero_has_no_cells() {
    let grid = Grid::new(0);
    assert!(grid.is_sound());
    assert!(!grid.cells_available());
    assert_eq!(grid.random_available_cell(), None);
    assert_eq!(grid.cell_content((0, 0)), None);
}

#[test]
fn within_bounds_tests_both_coordinates() {
    let grid = Grid::new(4);
    assert!(grid.within_bounds((0, 0)));
    assert!(grid.within_bounds((3, 3)));
    assert!(!grid.within_bounds((4, 0)));
    assert!(!grid.within_bounds((0, 4)));
    assert!(!grid.within_bounds((usize::MAX, 0)));
}

#[test]
fn cell_content_outside_the_grid_is_none() {
    let grid = full_grid(2);
    assert_eq!(grid.cell_content((2, 0)), None);
    assert_eq!(grid.cell_content((0, 2)), None);
    assert_eq!(grid.cell_content((usize::MAX, usize::MAX)), None);
    assert_eq!(grid.cell_content((1, 1)), Some(Tile::new((1, 1), 2)));
}

#[test]
fn insert_overwrites_and_remove_clears() {
    let mut grid = Grid::new(2);
    grid.insert_tile(Tile::new((1, 0), 2));
    assert_eq!(grid.cell_content((1, 0)), Some(Tile::new((1, 0), 2)));
    assert!(!grid.cell_available((1, 0)));
    grid.insert_tile(Tile::new((1, 0), 16));
    assert_eq!(grid.cell_content((1, 0)), Some(Tile::new((1, 0), 16)));
    grid.remove_tile(Tile::new((1, 0), 2));
    assert_eq!(grid.cell_content((1, 0)), None);
    assert!(grid.is_sound());
}

#[test]
fn remove_goes_by_the_coordinates_of_the_tile() {
    let mut grid = Grid::new(2);
    grid.insert_tile(Tile::new((0, 0), 2));
    grid.insert_tile(Tile::new((1, 1), 4));
    let mut t = Tile::new((0, 0), 2);
    t.update_position((1, 1));
    grid.remove_tile(t);
    assert_eq!(grid.cell_content((0, 0)), Some(Tile::new((0, 0), 2)));
    assert_eq!(grid.cell_content((1, 1)), None);
}

#[test]
fn available_cells_in_row_major_order() {
    let mut grid = Grid::new(3);
    grid.insert_tile(Tile::new((0, 1), 2));
    grid.insert_tile(Tile::new((2, 2), 2));
    grid.insert_tile(Tile::new((1, 0), 2));
    assert_eq!(
        grid.available_cells(),
        vec![(0, 0), (0, 2), (1, 1), (1, 2), (2, 0), (2, 1)]
    );
}

#[test]
fn full_grid_has_no_available_cell() {
    let grid = full_grid(3);
    assert!(grid.available_cells().is_empty());
    assert!(!grid.cells_available());
    assert_eq!(grid.random_available_cell(), None);
}

#[test]
fn random_available_cell_is_an_empty_cell() {
    let mut grid = full_grid(3);
    grid.remove_tile(Tile::new((1, 2), 2));
    grid.remove_tile(Tile::new((2, 0), 2));
    for _ in 0..50 {
        let c = grid.random_available_cell().unwrap();
        assert!(c == (1, 2) || c == (2, 0));
    }
}

#[test]
fn only_empty_cell_is_always_chosen() {
    let mut grid = full_grid(2);
    grid.remove_tile(Tile::new((0, 1), 2));
    for _ in 0..20 {
        assert_eq!(grid.random_available_cell(), Some((0, 1)));
    }
}

#[test]
fn pick_cell_takes_the_draw_modulo_the_length() {
    let cells = vec![(0, 0), (0, 2), (1, 1)];
    assert_eq!(pick_cell(&cells, 0), (0, 0));
    assert_eq!(pick_cell(&cells, 1), (0, 2));
    assert_eq!(pick_cell(&cells, 2), (1, 1));
    assert_eq!(pick_cell(&cells, 3), (0, 0));
    assert_eq!(pick_cell(&cells, 10), (0, 2));
    assert_eq!(pick_cell(&cells, usize::MAX), cells[usize::MAX % 3]);
}

#[test]
fn each_cell_visits_row_major() {
    let mut grid = Grid::new(2);
    grid.insert_tile(Tile::new((1, 0), 4));
    let mut seen = Vec::new();
    grid.each_cell(|x, y, tile| seen.push((x, y, tile.map(|t| t.value))));
    assert_eq!(
        seen,
        vec![(0, 0, None), (0, 1, None), (1, 0, Some(4)), (1, 1, None)]
    );
}

#[test]
fn each_mut_cell_can_change_every_cell() {
    let mut grid = Grid::new(2);
    let mut order = Vec::new();
    grid.each_mut_cell(|x, y, cell| {
        order.push((x, y));
        *cell = Some(Tile::new((x, y), 2));
    });
    assert_eq!(order, vec![(0, 0), (0, 1), (1, 0), (1, 1)]);
    assert!(!grid.cells_available());
    assert!(grid.is_sound());
    assert_eq!(grid.cell_content((1, 0)), Some(Tile::new((1, 0), 2)));
}

#[test]
fn is_sound_finds_a_misplaced_tile() {
    let mut grid = Grid::new(2);
    grid.cells[0][1] = Some(Tile::new((1, 1), 2));
    assert!(!grid.is_sound());
}

#[test]
fn is_sound_finds_a_wrong_shape() {
    let mut grid = Grid::new(2);
    grid.size = 3;
    assert!(!grid.is_sound());
    let mut grid = Grid::new(2);
    grid.cells[1].push(None);
    assert!(!grid.is_sound());
}
