use vstd::prelude::*;
use crate::board::{Board, in_bounds, is_square, stepped};
use crate::direction::Direction;
use crate::tile::Tile;

verus! {

// A move treats the board as `n` independent lanes: the lines of cells that
// run along the direction of the move. Cell 0 of a lane is the one at the
// edge that the tiles are pushed against.

/// The board cell that is cell `k` of lane `l`.
pub open spec fn lane_cell(n: int, dir: Direction, l: int, k: int) -> (int, int) {
    match dir {
        Direction::Up => (l, k),
        Direction::Down => (l, n - 1 - k),
        Direction::Left => (k, l),
        Direction::Right => (n - 1 - k, l),
    }
}

/// The lane `l` and the place `k` in it of the board cell `(x, y)`.
pub open spec fn lane_of(n: int, dir: Direction, x: int, y: int) -> (int, int) {
    match dir {
        Direction::Up => (x, y),
        Direction::Down => (x, n - 1 - y),
        Direction::Left => (y, x),
        Direction::Right => (y, n - 1 - x),
    }
}

/// The content of cell `k` of lane `l`.
pub open spec fn lane_tile(b: Board, dir: Direction, l: int, k: int) -> Option<Tile> {
    let c = lane_cell(b.len() as int, dir, l, k);
    b[c.0][c.1]
}

/// The tile that results when `mover` runs into a tile of its own value
/// that stands on `(x, y)`.
pub open spec fn merged_tile(mover: Tile, x: int, y: int) -> Tile {
    Tile {
        x: x as usize,
        y: y as usize,
        value: (2 * mover.value) as isize,
        prev_pos: None,
        merged_from: Some(((mover.x, mover.y), (x as usize, y as usize))),
    }
}

/// Whether a tile that is pushed against the tiles `before` merges with the
/// last of them: that one has the same value and is not the result of a
/// merge.
pub open spec fn merges(before: Seq<Tile>, t: Tile) -> bool {
    before.len() > 0 && before.last().value == t.value && before.last().merged_from is None
}

/// The tiles that the first `k` cells of lane `l` leave behind once they
/// have been pushed against the edge, listed from the edge outwards.
///
/// Cell by cell, a tile either merges with the last tile of the list, if
/// that one has the same value and is not itself the result of a merge, or
/// comes to stand right behind it.
pub open spec fn settled(b: Board, dir: Direction, l: int, k: nat) -> Seq<Tile>
    decreases k,
{
    if k == 0 {
        Seq::empty()
    } else {
        let before = settled(b, dir, l, (k - 1) as nat);
        match lane_tile(b, dir, l, k - 1) {
            None => before,
            Some(t) => {
                if merges(before, t) {
                    let c = lane_cell(b.len() as int, dir, l, before.len() - 1);
                    before.drop_last().push(merged_tile(t, c.0, c.1))
                } else {
                    let c = lane_cell(b.len() as int, dir, l, before.len() as int);
                    before.push(t.moved_to(c.0 as usize, c.1 as usize))
                }
            },
        }
    }
}

/// The content of cell `k` of a lane of length `n` that holds the tiles
/// `tiles` pushed against the edge.
pub open spec fn packed(tiles: Seq<Tile>, k: int) -> Option<Tile> {
    if 0 <= k < tiles.len() {
        Some(tiles[k])
    } else {
        None
    }
}

/// The board after all tiles have been pushed in direction `dir`.
pub open spec fn slid(b: Board, dir: Direction) -> Board {
    let n = b.len() as int;
    Seq::new(
        n as nat,
        |x: int|
            Seq::new(
                n as nat,
                |y: int|
                    {
                        let p = lane_of(n, dir, x, y);
                        packed(settled(b, dir, p.0, n as nat), p.1)
                    },
            ),
    )
}

/// `lane_of` and `lane_cell` undo each other, and both stay on the board.
pub proof fn lemma_lanes(n: int, dir: Direction, a: int, c: int)
    requires
        in_bounds(n, a, c),
    ensures
        lane_of(n, dir, lane_cell(n, dir, a, c).0, lane_cell(n, dir, a, c).1) == (a, c),
        lane_cell(n, dir, lane_of(n, dir, a, c).0, lane_of(n, dir, a, c).1) == (a, c),
        in_bounds(n, lane_cell(n, dir, a, c).0, lane_cell(n, dir, a, c).1),
        in_bounds(n, lane_of(n, dir, a, c).0, lane_of(n, dir, a, c).1),
{
}

/// Stepping along the direction of the move is stepping down the lane.
pub proof fn lemma_stepped_lane(n: int, dir: Direction, l: int, k: int, j: int)
    ensures
        ({
            let c = lane_cell(n, dir, l, k);
            let v = dir.vector();
            stepped(c.0, c.1, v.0, v.1, j) == lane_cell(n, dir, l, k - j)
        }),
{
}

/// Pushing `k` cells leaves at most `k` tiles.
pub proof fn lemma_settled_len(b: Board, dir: Direction, l: int, k: nat)
    ensures
        settled(b, dir, l, k).len() <= k,
    decreases k,
{
    if k > 0 {
        lemma_settled_len(b, dir, l, (k - 1) as nat);
    }
}

/// Every tile that a lane leaves behind stands on the cell that it has
/// come to.
pub proof fn lemma_settled_placed(b: Board, dir: Direction, l: int, k: nat)
    requires
        is_square(b, b.len() as int),
        b.len() <= usize::MAX,
        0 <= l < b.len(),
        k <= b.len(),
    ensures
        forall|j: int|
            0 <= j < settled(b, dir, l, k).len() ==> ({
                let t = #[trigger] settled(b, dir, l, k)[j];
                let c = lane_cell(b.len() as int, dir, l, j);
                t.x == c.0 && t.y == c.1
            }),
    decreases k,
{
    if k > 0 {
        lemma_settled_placed(b, dir, l, (k - 1) as nat);
        lemma_settled_len(b, dir, l, (k - 1) as nat);
        let before = settled(b, dir, l, (k - 1) as nat);
        let n = b.len() as int;
        if before.len() >= 1 {
            lemma_lanes(n, dir, l, before.len() - 1);
        }
        lemma_lanes(n, dir, l, before.len() as int);
    }
}

} // verus!
