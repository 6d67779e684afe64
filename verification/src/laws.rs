use vstd::prelude::*;
use crate::board::{
    Board, in_bounds, is_square, is_placed, is_prepared, has_room, prepared, spawned, drawn_cell,
    available, lemma_available,
};
use crate::direction::Direction;
use crate::slide::{
    lane_cell, lane_of, lane_tile, merges, packed, settled, slid, lemma_lanes, lemma_settled_len,
    lemma_settled_placed,
};

verus! {

/// The place in its lane at which the tile of cell `k` ends the move, be it
/// as itself or as part of a merged tile.
pub open spec fn landing(b: Board, dir: Direction, l: int, k: int) -> int {
    settled(b, dir, l, (k + 1) as nat).len() - 1
}

/// Pushing more cells of a lane never leaves fewer tiles.
pub proof fn lemma_settled_grows(b: Board, dir: Direction, l: int, k1: nat, k2: nat)
    requires
        k1 <= k2,
    ensures
        settled(b, dir, l, k1).len() <= settled(b, dir, l, k2).len(),
    decreases k2,
{
    if k1 < k2 {
        lemma_settled_grows(b, dir, l, k1, (k2 - 1) as nat);
    }
}

/// A tile that is pushed either lengthens the list of settled tiles by one,
/// or merges with the last of them, which then carries the record of the
/// merge.
pub proof fn lemma_push_or_merge(b: Board, dir: Direction, l: int, k: nat)
    requires
        lane_tile(b, dir, l, k as int) is Some,
    ensures
        ({
            let before = settled(b, dir, l, k);
            let after = settled(b, dir, l, k + 1);
            let t = lane_tile(b, dir, l, k as int)->0;
            if merges(before, t) {
                after.len() == before.len() && after.last().merged_from is Some
            } else {
                after.len() == before.len() + 1
            }
        }),
{
    assert(((k + 1) as nat - 1) as nat == k);
}

/// While the list of settled tiles ends in a merged tile and does not grow,
/// it does not change: no tile merges into a merged tile.
proof fn lemma_merged_stays(b: Board, dir: Direction, l: int, k1: nat, k2: nat)
    requires
        k1 <= k2,
        settled(b, dir, l, k1).len() > 0,
        settled(b, dir, l, k1).last().merged_from is Some,
        settled(b, dir, l, k2).len() == settled(b, dir, l, k1).len(),
    ensures
        settled(b, dir, l, k2) == settled(b, dir, l, k1),
    decreases k2,
{
    if k1 < k2 {
        let k = (k2 - 1) as nat;
        lemma_settled_grows(b, dir, l, k1, k);
        lemma_settled_grows(b, dir, l, k, k2);
        lemma_merged_stays(b, dir, l, k1, k);
        if lane_tile(b, dir, l, k as int) is Some {
            lemma_push_or_merge(b, dir, l, k);
        }
    }
}

/// No tile takes part in two merges of one move: of the tiles that stand in
/// one lane before the move, no three end the move on the same cell.
pub proof fn lemma_single_merge(b: Board, dir: Direction, l: int, k1: int, k2: int, k3: int)
    requires
        0 <= k1 < k2 < k3,
        lane_tile(b, dir, l, k1) is Some,
        lane_tile(b, dir, l, k2) is Some,
        lane_tile(b, dir, l, k3) is Some,
    ensures
        !(landing(b, dir, l, k1) == landing(b, dir, l, k2) && landing(b, dir, l, k2) == landing(
            b,
            dir,
            l,
            k3,
        )),
{
    if landing(b, dir, l, k1) == landing(b, dir, l, k2) && landing(b, dir, l, k2) == landing(
        b,
        dir,
        l,
        k3,
    ) {
        let first = (k1 + 1) as nat;
        let second = (k2 + 1) as nat;
        lemma_settled_grows(b, dir, l, first, k2 as nat);
        lemma_settled_grows(b, dir, l, k2 as nat, second);
        lemma_push_or_merge(b, dir, l, k1 as nat);
        lemma_push_or_merge(b, dir, l, k2 as nat);
        // The second tile has merged into the first.
        assert(settled(b, dir, l, second).last().merged_from is Some);
        lemma_settled_grows(b, dir, l, second, k3 as nat);
        lemma_settled_grows(b, dir, l, k3 as nat, (k3 + 1) as nat);
        lemma_merged_stays(b, dir, l, second, k3 as nat);
        // So the third tile cannot merge, and comes to stand behind them.
        lemma_push_or_merge(b, dir, l, k3 as nat);
        assert(false);
    }
}


/// After a move every tile stands on the cell whose coordinates it carries:
/// pushing the tiles yields a square board on which this holds, and the
/// tile that appears afterwards keeps it so.
pub proof fn lemma_move_keeps_places(
    b: Board,
    dir: Direction,
    value_draw: usize,
    cell_draw: usize,
)
    requires
        is_square(b, b.len() as int),
        b.len() <= usize::MAX,
    ensures
        is_square(slid(b, dir), b.len() as int),
        is_placed(slid(b, dir)),
        is_square(spawned(slid(b, dir), value_draw, cell_draw), b.len() as int),
        is_placed(spawned(slid(b, dir), value_draw, cell_draw)),
{
    let n = b.len() as int;
    let pushed = slid(b, dir);
    assert forall|x: int, y: int| in_bounds(pushed.len() as int, x, y) implies match #[trigger] pushed[x][y] {
        Some(t) => t.x == x && t.y == y,
        None => true,
    } by {
        let p = lane_of(n, dir, x, y);
        lemma_lanes(n, dir, x, y);
        lemma_settled_placed(b, dir, p.0, n as nat);
    }
    lemma_available(pushed);
    let after = spawned(pushed, value_draw, cell_draw);
    match drawn_cell(pushed, cell_draw) {
        Some(c) => {
            let free = available(pushed);
            let i = cell_draw as int % free.len() as int;
            assert(c == free[i]);
            assert(in_bounds(n, c.0 as int, c.1 as int));
            assert forall|x: int, y: int| in_bounds(after.len() as int, x, y) implies match #[trigger] after[x][y] {
                Some(t) => t.x == x && t.y == y,
                None => true,
            } by {
                if (x, y) != (c.0 as int, c.1 as int) {
                    assert(after[x][y] == pushed[x][y]);
                }
            }
        },
        None => {},
    }
}

/// A board that is as `prepared` leaves it is not changed by preparing it
/// once more.
pub proof fn lemma_prepared_again(b: Board)
    requires
        is_square(b, b.len() as int),
        is_prepared(b),
    ensures
        prepared(b) == b,
{
    let p = prepared(b);
    assert forall|x: int| 0 <= x < b.len() implies #[trigger] p[x] == b[x] by {
        assert forall|y: int| 0 <= y < b.len() implies #[trigger] p[x][y] == b[x][y] by {
            assert(in_bounds(b.len() as int, x, y));
        }
        assert(p[x] =~= b[x]);
    }
    assert(p =~= b);
}

/// A lane that is still full after its first `k` cells have been pushed is
/// as it was: no tile has merged and none has moved.
proof fn lemma_full_lane_unchanged(b: Board, dir: Direction, l: int, k: nat)
    requires
        is_square(b, b.len() as int),
        is_placed(b),
        b.len() <= usize::MAX,
        0 <= l < b.len(),
        k <= b.len(),
        settled(b, dir, l, k).len() == k,
    ensures
        forall|j: int| 0 <= j < k ==> lane_tile(b, dir, l, j) == Some(#[trigger] settled(b, dir, l, k)[j]),
    decreases k,
{
    if k > 0 {
        let n = b.len() as int;
        let before = settled(b, dir, l, (k - 1) as nat);
        lemma_settled_len(b, dir, l, (k - 1) as nat);
        lemma_lanes(n, dir, l, k - 1);
        if before.len() >= 1 {
            lemma_lanes(n, dir, l, before.len() - 1);
        }
        lemma_full_lane_unchanged(b, dir, l, (k - 1) as nat);
    }
}

/// A move that changes the board leaves room for the tile that is to
/// appear: where pushing the tiles yields a full board, the board is as it
/// was before.
pub proof fn lemma_change_leaves_room(b: Board, dir: Direction)
    requires
        is_square(b, b.len() as int),
        is_placed(b),
        b.len() <= usize::MAX,
        slid(b, dir) != b,
    ensures
        has_room(slid(b, dir)),
{
    let n = b.len() as int;
    let pushed = slid(b, dir);
    if !has_room(pushed) {
        assert forall|x: int| 0 <= x < n implies #[trigger] pushed[x] == b[x] by {
            assert forall|y: int| 0 <= y < n implies #[trigger] pushed[x][y] == b[x][y] by {
                let p = lane_of(n, dir, x, y);
                lemma_lanes(n, dir, x, y);
                let l = p.0;
                let tiles = settled(b, dir, l, n as nat);
                lemma_settled_len(b, dir, l, n as nat);
                if tiles.len() < n {
                    let c = lane_cell(n, dir, l, n - 1);
                    lemma_lanes(n, dir, l, n - 1);
                    assert(pushed[c.0][c.1] == packed(tiles, n - 1));
                    assert(in_bounds(pushed.len() as int, c.0, c.1) && pushed[c.0][c.1] is None);
                    assert(false);
                }
                lemma_full_lane_unchanged(b, dir, l, n as nat);
                assert(lane_tile(b, dir, l, p.1) == Some(tiles[p.1]));
            }
            assert(pushed[x] =~= b[x]);
        }
        assert(pushed =~= b);
    }
}

} // verus!
