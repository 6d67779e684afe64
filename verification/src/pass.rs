use vstd::prelude::*;
use vstd::arithmetic::div_mod::{lemma_fundamental_div_mod, lemma_fundamental_div_mod_converse};
use crate::board::{
    Board, in_bounds, is_square, is_placed, is_prepared, with_cell, cell_at, is_open, stepped,
    slides_by,
};
use crate::direction::Direction;
use crate::slide::{
    lane_cell, lane_of, lane_tile, merged_tile, merges, settled, packed, slid, lemma_lanes,
    lemma_stepped_lane, lemma_settled_len, lemma_settled_placed,
};
use crate::tile::Tile;
use crate::traversal::visiting_order;

verus! {

// A move visits the cells one by one and pushes the tile that it finds on
// each. This file follows the board through the visits, and shows that the
// board after the last of them is the board that `slid` describes.

/// The lane and the place in it of the cell that a move in direction `dir`
/// visits after `i` others.
pub open spec fn visit_lane(n: int, dir: Direction, i: int) -> (int, int) {
    if dir.is_vertical() {
        (i / n, i % n)
    } else {
        (i % n, i / n)
    }
}

/// The cell that a move in direction `dir` visits after `i` others.
pub open spec fn visit_cell(n: int, dir: Direction, i: int) -> (int, int) {
    let p = visit_lane(n, dir, i);
    lane_cell(n, dir, p.0, p.1)
}

/// How many cells of lane `l` are among the first `i` that a move in
/// direction `dir` visits. They are the cells of the lane nearest the edge.
pub open spec fn visited(n: int, dir: Direction, i: int, l: int) -> int {
    if dir.is_vertical() {
        if l < i / n {
            n
        } else if l == i / n {
            i % n
        } else {
            0
        }
    } else {
        if l < i % n {
            i / n + 1
        } else {
            i / n
        }
    }
}

/// The content of cell `k` of lane `l` once the first `p` cells of the lane
/// have been pushed against the edge and the others have not been touched.
pub open spec fn lane_after(b: Board, dir: Direction, l: int, p: int, k: int) -> Option<Tile> {
    let tiles = settled(b, dir, l, p as nat);
    if 0 <= k < tiles.len() {
        Some(tiles[k])
    } else if k < p {
        None
    } else {
        lane_tile(b, dir, l, k)
    }
}

/// The board once a move in direction `dir` has visited `i` cells.
#[verifier::opaque]
pub open spec fn board_after(b: Board, dir: Direction, i: int) -> Board {
    let n = b.len() as int;
    Seq::new(
        n as nat,
        |x: int|
            Seq::new(
                n as nat,
                |y: int|
                    {
                        let p = lane_of(n, dir, x, y);
                        lane_after(b, dir, p.0, visited(n, dir, i, p.0), p.1)
                    },
            ),
    )
}

/// The board after the `i`-th visit, told by what the visit does to the
/// board before it: nothing, a merge into the cell beyond the free run, or a
/// slide to the end of the free run.
pub open spec fn visit_result(b: Board, dir: Direction, i: int) -> Board {
    let n = b.len() as int;
    let g = board_after(b, dir, i);
    let p = visit_lane(n, dir, i);
    let c = lane_cell(n, dir, p.0, p.1);
    let before = settled(b, dir, p.0, p.1 as nat);
    let f = before.len() as int;
    match g[c.0][c.1] {
        None => g,
        Some(t) => if merges(before, t) {
            let d = lane_cell(n, dir, p.0, f - 1);
            with_cell(
                with_cell(g, d.0, d.1, Some(merged_tile(t, d.0, d.1))),
                c.0,
                c.1,
                None,
            )
        } else if f != p.1 {
            let d = lane_cell(n, dir, p.0, f);
            with_cell(
                with_cell(g, c.0, c.1, None),
                d.0,
                d.1,
                Some(t.moved_to(d.0 as usize, d.1 as usize)),
            )
        } else {
            g
        },
    }
}

/// Whether tile `t` merges with what it runs into: a tile of the same value
/// that is not itself the result of a merge.
pub open spec fn merges_into(hit: Option<Tile>, t: Tile) -> bool {
    match hit {
        Some(o) => o.value == t.value && o.merged_from is None,
        None => false,
    }
}

/// The `i`-th cell that a move visits is the first cell of its lane that
/// the move has not visited before, and the visit leaves the count of every
/// other lane as it was.
pub proof fn lemma_visit(n: int, dir: Direction, i: int)
    requires
        0 <= n <= usize::MAX,
        0 <= i < n * n,
    ensures
        ({
            let p = visit_lane(n, dir, i);
            let c = lane_cell(n, dir, p.0, p.1);
            &&& in_bounds(n, p.0, p.1)
            &&& visiting_order(n, dir)[i] == (c.0 as usize, c.1 as usize)
            &&& visited(n, dir, i, p.0) == p.1
            &&& visited(n, dir, i + 1, p.0) == p.1 + 1
            &&& forall|l: int|
                0 <= l < n && l != p.0 ==> visited(n, dir, i + 1, l) == visited(n, dir, i, l)
        }),
{
    assert(n > 0) by (nonlinear_arith)
        requires
            0 <= n,
            0 <= i < n * n,
    ;
    let c = i / n;
    let r = i % n;
    lemma_fundamental_div_mod(i, n);
    assert(0 <= r < n);
    assert(0 <= c < n) by (nonlinear_arith)
        requires
            i == n * c + r,
            0 <= r < n,
            0 <= i < n * n,
    ;
    if r + 1 < n {
        lemma_fundamental_div_mod_converse(i + 1, n, c, r + 1);
    } else {
        assert(i + 1 == (c + 1) * n + 0) by (nonlinear_arith)
            requires
                i == n * c + r,
                r + 1 == n,
        ;
        lemma_fundamental_div_mod_converse(i + 1, n, c + 1, 0);
    }
}

/// The shape of `board_after`, and its content cell by cell.
pub proof fn lemma_board_after_cell(b: Board, dir: Direction, i: int, x: int, y: int)
    requires
        in_bounds(b.len() as int, x, y),
    ensures
        board_after(b, dir, i).len() == b.len(),
        board_after(b, dir, i)[x].len() == b.len(),
        ({
            let q = lane_of(b.len() as int, dir, x, y);
            board_after(b, dir, i)[x][y] == lane_after(
                b,
                dir,
                q.0,
                visited(b.len() as int, dir, i, q.0),
                q.1,
            )
        }),
{
    reveal(board_after);
}

/// Before the first visit the board is untouched.
pub proof fn lemma_board_after_none(b: Board, dir: Direction)
    requires
        is_square(b, b.len() as int),
    ensures
        board_after(b, dir, 0) == b,
{
    reveal(board_after);
    let n = b.len() as int;
    let a = board_after(b, dir, 0);
    assert forall|x: int| 0 <= x < n implies #[trigger] a[x] == b[x] by {
        assert forall|y: int| 0 <= y < n implies #[trigger] a[x][y] == b[x][y] by {
            lemma_lanes(n, dir, x, y);
        }
        assert(a[x] =~= b[x]);
    }
    assert(a =~= b);
}

/// After the last visit all tiles have been pushed.
pub proof fn lemma_board_after_all(b: Board, dir: Direction)
    requires
        is_square(b, b.len() as int),
    ensures
        board_after(b, dir, (b.len() * b.len()) as int) == slid(b, dir),
{
    reveal(board_after);
    let n = b.len() as int;
    let a = board_after(b, dir, n * n);
    let s = slid(b, dir);
    if n > 0 {
        lemma_fundamental_div_mod_converse(n * n, n, n, 0);
    }
    assert forall|x: int| 0 <= x < n implies #[trigger] a[x] == s[x] by {
        assert forall|y: int| 0 <= y < n implies #[trigger] a[x][y] == s[x][y] by {
            lemma_lanes(n, dir, x, y);
        }
        assert(a[x] =~= s[x]);
    }
    assert(a =~= s);
}

/// What the visit of cell `k` of lane `l` does to the lane, cell by cell.
pub proof fn lemma_lane_step(b: Board, dir: Direction, l: int, k: int)
    requires
        0 <= k,
    ensures
        ({
            let n = b.len() as int;
            let before = settled(b, dir, l, k as nat);
            let f = before.len() as int;
            &&& f <= k
            &&& match lane_tile(b, dir, l, k) {
                None => forall|j: int| #[trigger]
                    lane_after(b, dir, l, k + 1, j) == lane_after(b, dir, l, k, j),
                Some(t) => if merges(before, t) {
                    let d = lane_cell(n, dir, l, f - 1);
                    forall|j: int| #[trigger]
                        lane_after(b, dir, l, k + 1, j) == if j == f - 1 {
                            Some(merged_tile(t, d.0, d.1))
                        } else if j == k {
                            None
                        } else {
                            lane_after(b, dir, l, k, j)
                        }
                } else {
                    let d = lane_cell(n, dir, l, f);
                    forall|j: int| #[trigger]
                        lane_after(b, dir, l, k + 1, j) == if j == f {
                            Some(t.moved_to(d.0 as usize, d.1 as usize))
                        } else if j == k {
                            None
                        } else {
                            lane_after(b, dir, l, k, j)
                        }
                },
            }
        }),
{
    lemma_settled_len(b, dir, l, k as nat);
    assert(((k + 1) as nat - 1) as nat == k as nat);
}

/// The visited cell is part of the board, and untouched so far.
proof fn lemma_visit_untouched(b: Board, dir: Direction, i: int)
    requires
        is_square(b, b.len() as int),
        b.len() <= usize::MAX,
        0 <= i < b.len() * b.len(),
    ensures
        ({
            let n = b.len() as int;
            let p = visit_lane(n, dir, i);
            let c = lane_cell(n, dir, p.0, p.1);
            &&& in_bounds(n, p.0, p.1)
            &&& in_bounds(n, c.0, c.1)
            &&& board_after(b, dir, i)[c.0][c.1] == lane_tile(b, dir, p.0, p.1)
        }),
{
    let n = b.len() as int;
    let p = visit_lane(n, dir, i);
    let c = lane_cell(n, dir, p.0, p.1);
    lemma_visit(n, dir, i);
    lemma_lanes(n, dir, p.0, p.1);
    lemma_settled_len(b, dir, p.0, p.1 as nat);
    lemma_board_after_cell(b, dir, i, c.0, c.1);
}

/// One visit takes a cell from what `board_after(.., i)` holds there to
/// what `board_after(.., i + 1)` holds there.
#[verifier::rlimit(40)]
proof fn lemma_visit_step_cell(b: Board, dir: Direction, i: int, x: int, y: int)
    requires
        is_square(b, b.len() as int),
        is_placed(b),
        b.len() <= usize::MAX,
        0 <= i < b.len() * b.len(),
        in_bounds(b.len() as int, x, y),
    ensures
        visit_result(b, dir, i).len() == b.len(),
        visit_result(b, dir, i)[x].len() == b.len(),
        visit_result(b, dir, i)[x][y] == board_after(b, dir, i + 1)[x][y],
{
    let n = b.len() as int;
    let g = board_after(b, dir, i);
    let r = visit_result(b, dir, i);
    let p = visit_lane(n, dir, i);
    let l = p.0;
    let k = p.1;
    let c = lane_cell(n, dir, l, k);
    let q = lane_of(n, dir, x, y);
    let before = settled(b, dir, l, k as nat);
    let f = before.len() as int;
    lemma_visit(n, dir, i);
    lemma_visit_untouched(b, dir, i);
    lemma_lanes(n, dir, x, y);
    lemma_lanes(n, dir, l, k);
    lemma_lane_step(b, dir, l, k);
    lemma_board_after_cell(b, dir, i, x, y);
    lemma_board_after_cell(b, dir, i + 1, x, y);
    lemma_board_after_cell(b, dir, i, c.0, c.1);
    let old_cell = lane_after(b, dir, q.0, visited(n, dir, i, q.0), q.1);
    let new_cell = lane_after(b, dir, q.0, visited(n, dir, i + 1, q.0), q.1);
    assert(g[x][y] == old_cell);
    assert(board_after(b, dir, i + 1)[x][y] == new_cell);
    if q.0 != l {
        assert(new_cell == old_cell);
        assert((x, y) != c);
    } else {
        assert(new_cell == lane_after(b, dir, l, k + 1, q.1));
        assert(old_cell == lane_after(b, dir, l, k, q.1));
        assert((x, y) == lane_cell(n, dir, l, q.1));
    }
    match g[c.0][c.1] {
        None => {
            assert(r == g);
        },
        Some(t) => {
            assert(b[c.0][c.1] == Some(t));
            if merges(before, t) {
                let d = lane_cell(n, dir, l, f - 1);
                lemma_lanes(n, dir, l, f - 1);
                lemma_board_after_cell(b, dir, i, d.0, d.1);
                let g1 = with_cell(g, d.0, d.1, Some(merged_tile(t, d.0, d.1)));
                assert(r == with_cell(g1, c.0, c.1, None));
                assert(g1.len() == n && g1[x].len() == n);
                if (x, y) == c {
                    assert(r[x][y] == None::<Tile>);
                } else if (x, y) == d {
                    assert(g1[x][y] == Some(merged_tile(t, d.0, d.1)));
                    assert(r[x][y] == g1[x][y]);
                } else {
                    assert(g1[x][y] == g[x][y]);
                    assert(r[x][y] == g1[x][y]);
                }
            } else if f != k {
                let d = lane_cell(n, dir, l, f);
                lemma_lanes(n, dir, l, f);
                lemma_board_after_cell(b, dir, i, d.0, d.1);
                let moved = t.moved_to(d.0 as usize, d.1 as usize);
                let g1 = with_cell(g, c.0, c.1, None);
                assert(r == with_cell(g1, d.0, d.1, Some(moved)));
                assert(g1.len() == n && g1[x].len() == n);
                if (x, y) == d {
                    assert(r[x][y] == Some(moved));
                } else if (x, y) == c {
                    assert(g1[x][y] == None::<Tile>);
                    assert(r[x][y] == g1[x][y]);
                } else {
                    assert(g1[x][y] == g[x][y]);
                    assert(r[x][y] == g1[x][y]);
                }
            } else {
                assert(r == g);
                assert(t.moved_to(c.0 as usize, c.1 as usize) == t);
            }
        },
    }
}

/// One visit takes the board from `board_after(.., i)` to
/// `board_after(.., i + 1)`.
pub proof fn lemma_visit_step(b: Board, dir: Direction, i: int)
    requires
        is_square(b, b.len() as int),
        is_placed(b),
        b.len() <= usize::MAX,
        0 <= i < b.len() * b.len(),
    ensures
        visit_result(b, dir, i) == board_after(b, dir, i + 1),
{
    let n = b.len() as int;
    let r = visit_result(b, dir, i);
    let a = board_after(b, dir, i + 1);
    assert(n > 0) by (nonlinear_arith)
        requires
            0 <= n,
            0 <= i < n * n,
    ;
    lemma_visit_step_cell(b, dir, i, 0, 0);
    lemma_board_after_cell(b, dir, i + 1, 0, 0);
    assert forall|x: int| 0 <= x < n implies #[trigger] r[x] == a[x] by {
        lemma_visit_step_cell(b, dir, i, x, 0);
        lemma_board_after_cell(b, dir, i + 1, x, 0);
        assert forall|y: int| 0 <= y < n implies #[trigger] r[x][y] == a[x][y] by {
            lemma_visit_step_cell(b, dir, i, x, y);
        }
        assert(r[x] =~= a[x]);
    }
    assert(r =~= a);
}

/// Where the free run of the visited tile ends: at the first cell of its
/// lane that the tiles pushed before it have left free. The cell beyond
/// holds the last of those tiles, or lies outside the board if there is
/// none.
#[verifier::rlimit(40)]
pub proof fn lemma_free_run(b: Board, dir: Direction, i: int, m: int)
    requires
        is_square(b, b.len() as int),
        b.len() <= usize::MAX,
        0 <= i < b.len() * b.len(),
        ({
            let n = b.len() as int;
            let g = board_after(b, dir, i);
            let p = visit_lane(n, dir, i);
            let c = lane_cell(n, dir, p.0, p.1);
            let v = dir.vector();
            slides_by(g, c.0, c.1, v.0, v.1, m)
        }),
    ensures
        ({
            let n = b.len() as int;
            let g = board_after(b, dir, i);
            let p = visit_lane(n, dir, i);
            let before = settled(b, dir, p.0, p.1 as nat);
            let f = before.len() as int;
            let d = lane_cell(n, dir, p.0, f - 1);
            &&& m == p.1 - f
            &&& cell_at(g, d.0, d.1) == packed(before, f - 1)
            &&& f == 0 ==> !in_bounds(n, d.0, d.1)
        }),
{
    reveal(board_after);
    let n = b.len() as int;
    let g = board_after(b, dir, i);
    let p = visit_lane(n, dir, i);
    let l = p.0;
    let k = p.1;
    let c = lane_cell(n, dir, l, k);
    let v = dir.vector();
    let before = settled(b, dir, l, k as nat);
    let f = before.len() as int;
    lemma_visit(n, dir, i);
    lemma_settled_len(b, dir, l, k as nat);
    let d = lane_cell(n, dir, l, f - 1);
    if f >= 1 {
        lemma_lanes(n, dir, l, f - 1);
        assert(g[d.0][d.1] == lane_after(b, dir, l, k, f - 1));
        assert(!is_open(g, d));
    } else {
        assert(!in_bounds(n, d.0, d.1));
        assert(!is_open(g, d));
    }
    lemma_stepped_lane(n, dir, l, k, k - f + 1);
    if m < k - f {
        lemma_stepped_lane(n, dir, l, k, m + 1);
        let e = lane_cell(n, dir, l, k - m - 1);
        lemma_lanes(n, dir, l, k - m - 1);
        assert(g[e.0][e.1] == lane_after(b, dir, l, k, k - m - 1));
        assert(is_open(g, e));
        assert(false);
    }
    if m > k - f {
        assert(is_open(g, stepped(c.0, c.1, v.0, v.1, k - f + 1)));
        assert(false);
    }
}

/// The visited cell lies on the board and is still as the move found it;
/// if it is empty, the visit changes nothing.
pub proof fn lemma_visit_cell(b: Board, dir: Direction, i: int)
    requires
        is_square(b, b.len() as int),
        is_placed(b),
        is_prepared(b),
        b.len() <= usize::MAX,
        0 <= i < b.len() * b.len(),
    ensures
        ({
            let n = b.len() as int;
            let c = visit_cell(n, dir, i);
            let g = board_after(b, dir, i);
            &&& in_bounds(n, c.0, c.1)
            &&& is_square(g, n)
            &&& visiting_order(n, dir)[i] == (c.0 as usize, c.1 as usize)
            &&& match g[c.0][c.1] {
                None => board_after(b, dir, i + 1) == g,
                Some(t) => t.x == c.0 && t.y == c.1 && t.merged_from is None,
            }
        }),
{
    reveal(board_after);
    let n = b.len() as int;
    let p = visit_lane(n, dir, i);
    let c = lane_cell(n, dir, p.0, p.1);
    lemma_visit(n, dir, i);
    lemma_lanes(n, dir, p.0, p.1);
    lemma_settled_len(b, dir, p.0, p.1 as nat);
    lemma_visit_step(b, dir, i);
    assert(board_after(b, dir, i)[c.0][c.1] == b[c.0][c.1]);
}

/// Where the free run of the visited tile `t` ends, in terms of its lane:
/// on the first cell that the tiles pushed before it have left free. The
/// cell beyond holds the last of those tiles, if there is one.
#[verifier::rlimit(40)]
proof fn lemma_run_ends(b: Board, dir: Direction, i: int, t: Tile, m: int)
    requires
        is_square(b, b.len() as int),
        is_placed(b),
        b.len() <= usize::MAX,
        0 <= i < b.len() * b.len(),
        ({
            let c = visit_cell(b.len() as int, dir, i);
            let v = dir.vector();
            let g = board_after(b, dir, i);
            g[c.0][c.1] == Some(t) && slides_by(g, c.0, c.1, v.0, v.1, m)
        }),
    ensures
        ({
            let n = b.len() as int;
            let p = visit_lane(n, dir, i);
            let c = lane_cell(n, dir, p.0, p.1);
            let v = dir.vector();
            let g = board_after(b, dir, i);
            let before = settled(b, dir, p.0, p.1 as nat);
            let f = before.len() as int;
            let far = stepped(c.0, c.1, v.0, v.1, m);
            let beyond = stepped(c.0, c.1, v.0, v.1, m + 1);
            let hit = cell_at(g, beyond.0, beyond.1);
            &&& 0 <= f <= p.1 < n
            &&& in_bounds(n, c.0, c.1)
            &&& b[c.0][c.1] == Some(t)
            &&& far == lane_cell(n, dir, p.0, f)
            &&& beyond == lane_cell(n, dir, p.0, f - 1)
            &&& beyond == (far.0 + v.0, far.1 + v.1)
            &&& in_bounds(n, far.0, far.1)
            &&& hit == packed(before, f - 1)
            &&& merges_into(hit, t) == merges(before, t)
            &&& f >= 1 ==> in_bounds(n, beyond.0, beyond.1) && beyond != c && before[f - 1].x
                == beyond.0 && before[f - 1].y == beyond.1
            &&& f != p.1 ==> far != c && g[far.0][far.1] is None
            &&& f == p.1 ==> far == c
        }),
{
    let n = b.len() as int;
    let p = visit_lane(n, dir, i);
    let l = p.0;
    let k = p.1;
    let c = lane_cell(n, dir, l, k);
    let g = board_after(b, dir, i);
    let before = settled(b, dir, l, k as nat);
    let f = before.len() as int;
    lemma_visit(n, dir, i);
    lemma_visit_untouched(b, dir, i);
    lemma_lanes(n, dir, l, k);
    lemma_settled_len(b, dir, l, k as nat);
    lemma_free_run(b, dir, i, m);
    lemma_stepped_lane(n, dir, l, k, m);
    lemma_stepped_lane(n, dir, l, k, m + 1);
    lemma_lanes(n, dir, l, f);
    let far = lane_cell(n, dir, l, f);
    lemma_board_after_cell(b, dir, i, far.0, far.1);
    if f >= 1 {
        lemma_lanes(n, dir, l, f - 1);
        lemma_settled_placed(b, dir, l, k as nat);
    }
    if f != k {
        assert(g[far.0][far.1] == lane_after(b, dir, l, k, f));
    }
}

/// What the visit of a cell that holds the tile `t` does, given that the
/// tile can slide `m` cells: it merges the tile into the cell beyond, or
/// moves it to the end of the free run, or leaves it. A visit that does
/// either of the first two leaves a board unlike the one before the move.
#[verifier::rlimit(40)]
pub proof fn lemma_visit_tile(b: Board, dir: Direction, i: int, t: Tile, m: int)
    requires
        is_square(b, b.len() as int),
        is_placed(b),
        is_prepared(b),
        b.len() <= usize::MAX,
        0 <= i < b.len() * b.len(),
        ({
            let c = visit_cell(b.len() as int, dir, i);
            let v = dir.vector();
            let g = board_after(b, dir, i);
            g[c.0][c.1] == Some(t) && slides_by(g, c.0, c.1, v.0, v.1, m)
        }),
    ensures
        ({
            let n = b.len() as int;
            let c = visit_cell(n, dir, i);
            let v = dir.vector();
            let g = board_after(b, dir, i);
            let far = stepped(c.0, c.1, v.0, v.1, m);
            let beyond = stepped(c.0, c.1, v.0, v.1, m + 1);
            let hit = cell_at(g, beyond.0, beyond.1);
            let next = board_after(b, dir, i + 1);
            &&& in_bounds(n, far.0, far.1)
            &&& beyond == (far.0 + v.0, far.1 + v.1)
            &&& if merges_into(hit, t) {
                &&& in_bounds(n, beyond.0, beyond.1)
                &&& beyond != c
                &&& hit->0.x == beyond.0 && hit->0.y == beyond.1
                &&& next == with_cell(
                    with_cell(g, beyond.0, beyond.1, Some(merged_tile(t, beyond.0, beyond.1))),
                    c.0,
                    c.1,
                    None,
                )
                &&& next != b
            } else if far != c {
                &&& g[far.0][far.1] is None
                &&& next == with_cell(
                    with_cell(g, c.0, c.1, None),
                    far.0,
                    far.1,
                    Some(t.moved_to(far.0 as usize, far.1 as usize)),
                )
                &&& next != b
            } else {
                next == g
            }
        }),
{
    let n = b.len() as int;
    let c = visit_cell(n, dir, i);
    let v = dir.vector();
    let g = board_after(b, dir, i);
    let far = stepped(c.0, c.1, v.0, v.1, m);
    let beyond = stepped(c.0, c.1, v.0, v.1, m + 1);
    let hit = cell_at(g, beyond.0, beyond.1);
    let next = board_after(b, dir, i + 1);
    lemma_run_ends(b, dir, i, t, m);
    lemma_visit_step(b, dir, i);
    lemma_board_after_cell(b, dir, i, c.0, c.1);
    assert(next == visit_result(b, dir, i));
    if merges_into(hit, t) {
        lemma_board_after_cell(b, dir, i, beyond.0, beyond.1);
        let merged = merged_tile(t, beyond.0, beyond.1);
        let g1 = with_cell(g, beyond.0, beyond.1, Some(merged));
        assert(next == with_cell(g1, c.0, c.1, None));
        assert(g1[beyond.0][beyond.1] == Some(merged));
        assert(next[beyond.0][beyond.1] == Some(merged));
        assert(next[beyond.0][beyond.1] != b[beyond.0][beyond.1]);
    } else if far != c {
        lemma_board_after_cell(b, dir, i, far.0, far.1);
        let slidden = t.moved_to(far.0 as usize, far.1 as usize);
        let g1 = with_cell(g, c.0, c.1, None);
        assert(next == with_cell(g1, far.0, far.1, Some(slidden)));
        assert(next[far.0][far.1] == Some(slidden));
        assert(t.prev_pos == Some((t.x, t.y)));
        assert(next[far.0][far.1] != b[far.0][far.1]);
    }
}

} // verus!
