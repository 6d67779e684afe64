use game2048::{Direction, Traversal};

fn walk(size: usize, dir: Direction) -> Vec<(usize, usize)> {
    let mut t = Traversal::new(size, dir);
    let mut cells = Vec::new();
    while let Some(c) = t.next() {
        cells.push(c);
    }
    cells
}

#[test]
fn vectors_of_the_four_directions() {
    assert_eq!(Direction::Up.to_vector(), (0, -1));
    assert_eq!(Direction::Right.to_vector(), (1, 0));
    assert_eq!(Direction::Down.to_vector(), (0, 1));
    assert_eq!(Direction::Left.to_vector(), (-1, 0));
}

#[test]
fn all_directions_clockwise_from_up() {
    assert_eq!(
        Direction::all_directions(),
        vec![Direction::Up, Direction::Right, Direction::Down, Direction::Left]
    );
}

#[test]
fn right_starts_in_the_last_column() {
    let mut t = Traversal::new(4, Direction::Right);
    assert_eq!(t.next(), Some((3, 0)));
    assert_eq!(t.next(), Some((3, 1)));
}

#[test]
fn right_visits_columns_in_descending_order() {
    assert_eq!(walk(2, Direction::Right), vec![(1, 0), (1, 1), (0, 0), (0, 1)]);
}

#[test]
fn down_visits_rows_in_descending_order() {
    assert_eq!(walk(2, Direction::Down), vec![(0, 1), (0, 0), (1, 1), (1, 0)]);
}

#[test]
fn up_and_left_visit_in_ascending_order() {
    let ascending = vec![(0, 0), (0, 1), (1, 0), (1, 1)];
    assert_eq!(walk(2, Direction::Up), ascending);
    assert_eq!(walk(2, Direction::Left), ascending);
}

#[test]
fn every_cell_is_visited_once() {
    for dir in Direction::all_directions() {
        let cells = walk(4, dir);
        assert_eq!(cells.len(), 16);
        for x in 0..4 {
            for y in 0..4 {
                assert_eq!(cells.iter().filter(|c| **c == (x, y)).count(), 1);
            }
        }
    }
}

#[test]
fn order_is_x_outer_and_y_inner() {
    let cells = walk(3, Direction::Down);
    for (i, c) in cells.iter().enumerate() {
        assert_eq!(*c, (i / 3, 2 - i % 3));
    }
}

#[test]
fn finished_walk_stays_finished() {
    let mut t = Traversal::new(1, Direction::Up);
    assert_eq!(t.next(), Some((0, 0)));
    assert_eq!(t.next(), None);
    assert_eq!(t.next(), None);
}

#[test]
fn walk_over_an_empty_board_is_empty() {
    let mut t = Traversal::new(0, Direction::Left);
    assert_eq!(t.next(), None);
}
