use vstd::prelude::*;
use vstd::arithmetic::power2::{pow2, lemma2_to64, lemma_pow2_adds};
use crate::board::{
    Board, in_bounds, is_square, is_placed, is_prepared, prepared, with_cell, empty_board,
};
use crate::tile::Tile;

verus! {

/// What a cell counts for: the value of its tile, or of no tile but one that
/// results from a merge if `merged_only` is set.
pub open spec fn weight(c: Option<Tile>, merged_only: bool) -> int {
    match c {
        Some(t) => if merged_only && t.merged_from is None {
            0
        } else {
            t.value as int
        },
        None => 0,
    }
}

/// The sum of the weights of the cells of one line of the board: the cells
/// with one `x`.
pub open spec fn line_sum(col: Seq<Option<Tile>>, merged_only: bool) -> int
    decreases col.len(),
{
    if col.len() == 0 {
        0
    } else {
        line_sum(col.drop_last(), merged_only) + weight(col.last(), merged_only)
    }
}

/// The sum of the weights of all cells of the board.
pub open spec fn board_sum(b: Board, merged_only: bool) -> int
    decreases b.len(),
{
    if b.len() == 0 {
        0
    } else {
        board_sum(b.drop_last(), merged_only) + line_sum(b.last(), merged_only)
    }
}

/// The sum of the values of all tiles on the board.
pub open spec fn total_value(b: Board) -> int {
    board_sum(b, false)
}

/// The sum of the values of the tiles that carry a record of a merge.
pub open spec fn merged_value(b: Board) -> int {
    board_sum(b, true)
}

/// Whether every tile on the board has a value above zero.
pub open spec fn values_positive(b: Board) -> bool {
    forall|x: int, y: int|
        in_bounds(b.len() as int, x, y) ==> match #[trigger] b[x][y] {
            Some(t) => t.value > 0,
            None => true,
        }
}


/// Whether `v` is a value that a tile of the game can have: a power of two
/// from 2 upwards.
pub open spec fn is_tile_value(v: int) -> bool {
    exists|e: nat| e >= 1 && v == #[trigger] pow2(e)
}

/// Whether the value of every tile on the board is a power of two from 2
/// upwards.
pub open spec fn values_valid(b: Board) -> bool {
    forall|x: int, y: int|
        in_bounds(b.len() as int, x, y) ==> match #[trigger] b[x][y] {
            Some(t) => is_tile_value(t.value as int),
            None => true,
        }
}

/// What the board shows: the value on each cell, without the records that
/// the tiles carry.
pub open spec fn face(b: Board) -> Seq<Seq<Option<isize>>> {
    Seq::new(
        b.len(),
        |x: int|
            Seq::new(
                b[x].len(),
                |y: int|
                    match b[x][y] {
                        Some(t) => Some(t.value),
                        None => None,
                    },
            ),
    )
}

/// The values with which new tiles appear are tile values, and so is the
/// double of every tile value.
pub proof fn lemma_tile_values(v: int)
    ensures
        is_tile_value(2),
        is_tile_value(4),
        is_tile_value(v) ==> is_tile_value(2 * v) && v >= 2,
{
    lemma2_to64();
    assert(2 == pow2(1));
    assert(4 == pow2(2));
    if is_tile_value(v) {
        let e = choose|e: nat| e >= 1 && v == #[trigger] pow2(e);
        lemma_pow2_adds(e, 1);
        assert(2 * v == pow2(e + 1));
        lemma_pow2_adds((e - 1) as nat, 1);
        vstd::arithmetic::power2::lemma_pow2_pos((e - 1) as nat);
    }
}

/// Replacing one cell of a line changes the sum by the difference of the
/// two weights.
pub proof fn lemma_line_sum_update(
    col: Seq<Option<Tile>>,
    y: int,
    c: Option<Tile>,
    merged_only: bool,
)
    requires
        0 <= y < col.len(),
    ensures
        line_sum(col.update(y, c), merged_only) == line_sum(col, merged_only) - weight(
            col[y],
            merged_only,
        ) + weight(c, merged_only),
    decreases col.len(),
{
    let new = col.update(y, c);
    if y == col.len() - 1 {
        assert(new.drop_last() =~= col.drop_last());
    } else {
        lemma_line_sum_update(col.drop_last(), y, c, merged_only);
        assert(new.drop_last() =~= col.drop_last().update(y, c));
    }
}

/// Replacing one line of a board changes the sum by the difference of the
/// two line sums.
pub proof fn lemma_board_sum_update(b: Board, x: int, col: Seq<Option<Tile>>, merged_only: bool)
    requires
        0 <= x < b.len(),
    ensures
        board_sum(b.update(x, col), merged_only) == board_sum(b, merged_only) - line_sum(
            b[x],
            merged_only,
        ) + line_sum(col, merged_only),
    decreases b.len(),
{
    let new = b.update(x, col);
    if x == b.len() - 1 {
        assert(new.drop_last() =~= b.drop_last());
    } else {
        lemma_board_sum_update(b.drop_last(), x, col, merged_only);
        assert(new.drop_last() =~= b.drop_last().update(x, col));
    }
}

/// Replacing the content of one cell changes the sum by the difference of
/// the two weights.
pub proof fn lemma_sum_with_cell(b: Board, x: int, y: int, c: Option<Tile>, merged_only: bool)
    requires
        0 <= x < b.len(),
        0 <= y < b[x].len(),
    ensures
        board_sum(with_cell(b, x, y, c), merged_only) == board_sum(b, merged_only) - weight(
            b[x][y],
            merged_only,
        ) + weight(c, merged_only),
{
    lemma_line_sum_update(b[x], y, c, merged_only);
    lemma_board_sum_update(b, x, b[x].update(y, c), merged_only);
}

/// Whether no cell of the board, square or not, holds a tile with a value
/// below zero.
pub open spec fn no_negative(b: Board) -> bool {
    forall|x: int, y: int|
        0 <= x < b.len() && 0 <= y < b[x].len() ==> weight(#[trigger] b[x][y], false) >= 0
}

/// Where no value of a line is negative, its merged tiles are worth no more
/// than all its tiles together, and neither sum is negative.
proof fn lemma_line_sum_bounds(col: Seq<Option<Tile>>)
    requires
        forall|y: int| 0 <= y < col.len() ==> weight(#[trigger] col[y], false) >= 0,
    ensures
        0 <= line_sum(col, true) <= line_sum(col, false),
    decreases col.len(),
{
    if col.len() > 0 {
        lemma_line_sum_bounds(col.drop_last());
        assert(weight(col[col.len() - 1], false) >= 0);
    }
}

/// Where no value is negative, the merged tiles are worth no more than all
/// tiles together, and neither sum is negative.
pub proof fn lemma_sum_bounds(b: Board)
    requires
        no_negative(b),
    ensures
        0 <= merged_value(b) <= total_value(b),
    decreases b.len(),
{
    if b.len() > 0 {
        let rest = b.drop_last();
        assert forall|x: int, y: int| 0 <= x < rest.len() && 0 <= y < rest[x].len() implies weight(
            #[trigger] rest[x][y],
            false,
        ) >= 0 by {
            assert(rest[x][y] == b[x][y]);
        }
        lemma_sum_bounds(rest);
        let col = b.last();
        assert forall|y: int| 0 <= y < col.len() implies weight(#[trigger] col[y], false)
            >= 0 by {
            assert(col[y] == b[b.len() - 1][y]);
        }
        lemma_line_sum_bounds(col);
    }
}

/// On a square board with positive values no value is negative.
pub proof fn lemma_positive_no_negative(b: Board, n: int)
    requires
        is_square(b, n),
        values_positive(b),
    ensures
        no_negative(b),
{
    assert forall|x: int, y: int| 0 <= x < b.len() && 0 <= y < b[x].len() implies weight(
        #[trigger] b[x][y],
        false,
    ) >= 0 by {
        assert(in_bounds(b.len() as int, x, y));
    }
}


/// Two lines of one length whose cells weigh the same, cell by cell, have
/// the same sum.
proof fn lemma_line_sum_pointwise(
    a: Seq<Option<Tile>>,
    b: Seq<Option<Tile>>,
    of_a: bool,
    of_b: bool,
)
    requires
        a.len() == b.len(),
        forall|y: int| 0 <= y < a.len() ==> weight(#[trigger] a[y], of_a) == weight(b[y], of_b),
    ensures
        line_sum(a, of_a) == line_sum(b, of_b),
    decreases a.len(),
{
    if a.len() > 0 {
        let ra = a.drop_last();
        let rb = b.drop_last();
        assert forall|y: int| 0 <= y < ra.len() implies weight(#[trigger] ra[y], of_a) == weight(
            rb[y],
            of_b,
        ) by {
            assert(ra[y] == a[y] && rb[y] == b[y]);
        }
        lemma_line_sum_pointwise(ra, rb, of_a, of_b);
        assert(weight(a[a.len() - 1], of_a) == weight(b[a.len() - 1], of_b));
    }
}

/// Two boards of one shape whose cells weigh the same, cell by cell, have
/// the same sum.
pub proof fn lemma_sum_pointwise(a: Board, b: Board, of_a: bool, of_b: bool)
    requires
        a.len() == b.len(),
        forall|x: int| 0 <= x < a.len() ==> (#[trigger] a[x]).len() == b[x].len(),
        forall|x: int, y: int|
            0 <= x < a.len() && 0 <= y < a[x].len() ==> weight(#[trigger] a[x][y], of_a) == weight(
                b[x][y],
                of_b,
            ),
    ensures
        board_sum(a, of_a) == board_sum(b, of_b),
    decreases a.len(),
{
    if a.len() > 0 {
        let ra = a.drop_last();
        let rb = b.drop_last();
        assert forall|x: int| 0 <= x < ra.len() implies (#[trigger] ra[x]).len()
            == rb[x].len() by {
            assert(ra[x] == a[x] && rb[x] == b[x]);
        }
        assert forall|x: int, y: int| 0 <= x < ra.len() && 0 <= y < ra[x].len() implies weight(
            #[trigger] ra[x][y],
            of_a,
        ) == weight(rb[x][y], of_b) by {
            assert(ra[x] == a[x] && rb[x] == b[x]);
            assert(weight(a[x][y], of_a) == weight(b[x][y], of_b));
        }
        lemma_sum_pointwise(ra, rb, of_a, of_b);
        let ca = a.last();
        let cb = b.last();
        assert(a[a.len() - 1].len() == b[a.len() - 1].len());
        assert forall|y: int| 0 <= y < ca.len() implies weight(#[trigger] ca[y], of_a) == weight(
            cb[y],
            of_b,
        ) by {
            assert(weight(a[a.len() - 1][y], of_a) == weight(b[a.len() - 1][y], of_b));
        }
        lemma_line_sum_pointwise(ca, cb, of_a, of_b);
    }
}

/// A line whose cells all weigh nothing has the sum zero.
proof fn lemma_line_sum_none(col: Seq<Option<Tile>>, merged_only: bool)
    requires
        forall|y: int| 0 <= y < col.len() ==> weight(#[trigger] col[y], merged_only) == 0,
    ensures
        line_sum(col, merged_only) == 0,
    decreases col.len(),
{
    if col.len() > 0 {
        lemma_line_sum_none(col.drop_last(), merged_only);
        assert(weight(col[col.len() - 1], merged_only) == 0);
    }
}

/// A board whose cells all weigh nothing has the sum zero.
pub proof fn lemma_sum_none(b: Board, merged_only: bool)
    requires
        forall|x: int, y: int|
            0 <= x < b.len() && 0 <= y < b[x].len() ==> weight(#[trigger] b[x][y], merged_only)
                == 0,
    ensures
        board_sum(b, merged_only) == 0,
    decreases b.len(),
{
    if b.len() > 0 {
        let rest = b.drop_last();
        assert forall|x: int, y: int| 0 <= x < rest.len() && 0 <= y < rest[x].len() implies weight(
            #[trigger] rest[x][y],
            merged_only,
        ) == 0 by {
            assert(rest[x][y] == b[x][y]);
        }
        lemma_sum_none(rest, merged_only);
        let col = b.last();
        assert forall|y: int| 0 <= y < col.len() implies weight(#[trigger] col[y], merged_only)
            == 0 by {
            assert(col[y] == b[b.len() - 1][y]);
        }
        lemma_line_sum_none(col, merged_only);
    }
}

/// Two different cells together are worth no more than the whole board,
/// where no value is negative.
pub proof fn lemma_two_cells(b: Board, n: int, x1: int, y1: int, x2: int, y2: int)
    requires
        is_square(b, n),
        values_positive(b),
        in_bounds(n, x1, y1),
        in_bounds(n, x2, y2),
        (x1, y1) != (x2, y2),
    ensures
        weight(b[x1][y1], false) + weight(b[x2][y2], false) <= total_value(b),
{
    let b1 = with_cell(b, x1, y1, None);
    let b2 = with_cell(b1, x2, y2, None);
    lemma_sum_with_cell(b, x1, y1, None, false);
    assert(b1[x2][y2] == b[x2][y2]);
    lemma_sum_with_cell(b1, x2, y2, None, false);
    assert(is_square(b2, n));
    assert(values_positive(b2)) by {
        assert forall|x: int, y: int| in_bounds(b2.len() as int, x, y) implies match #[trigger] b2[x][y] {
            Some(t) => t.value > 0,
            None => true,
        } by {
            if (x, y) != (x1, y1) && (x, y) != (x2, y2) {
                assert(b2[x][y] == b[x][y]);
            }
        }
    }
    lemma_positive_no_negative(b2, n);
    lemma_sum_bounds(b2);
}

/// An empty board is worth nothing, and all that is asked of every tile
/// holds of it.
pub proof fn lemma_empty_board(n: int)
    requires
        0 <= n,
    ensures
        total_value(empty_board(n)) == 0,
        merged_value(empty_board(n)) == 0,
        values_positive(empty_board(n)),
        values_valid(empty_board(n)),
{
    lemma_sum_none(empty_board(n), false);
    lemma_sum_none(empty_board(n), true);
}

/// Preparing a board for a move keeps its shape, its occupied cells and
/// their values, and leaves no tile with a record of a merge.
pub proof fn lemma_prepared(b: Board, n: int)
    requires
        is_square(b, n),
        is_placed(b),
    ensures
        is_square(prepared(b), n),
        is_placed(prepared(b)),
        is_prepared(prepared(b)),
        values_positive(b) ==> values_positive(prepared(b)),
        values_valid(b) ==> values_valid(prepared(b)),
        face(prepared(b)) == face(b),
        total_value(prepared(b)) == total_value(b),
        merged_value(prepared(b)) == 0,
{
    let p = prepared(b);
    assert forall|x: int, y: int| in_bounds(n, x, y) implies (#[trigger] p[x][y] == match b[x][y] {
        Some(t) => Some(t.prepared()),
        None => None,
    }) by {}
    lemma_sum_pointwise(p, b, false, false);
    lemma_sum_none(p, true);
    assert(face(p) =~~= face(b));
}


/// What a merge does to the sums: the tile `t` on `(cx, cy)` runs into a
/// tile of its own value on `(dx, dy)`. The new tile is worth what the two
/// were worth, so its value fits wherever the total fits.
pub proof fn lemma_merge_tally(g: Board, n: int, cx: int, cy: int, dx: int, dy: int, t: Tile)
    requires
        is_square(g, n),
        values_positive(g),
        in_bounds(n, cx, cy),
        in_bounds(n, dx, dy),
        (cx, cy) != (dx, dy),
        0 <= dx <= usize::MAX && 0 <= dy <= usize::MAX,
        g[cx][cy] == Some(t),
        t.merged_from is None,
        g[dx][dy] is Some,
        g[dx][dy]->0.value == t.value,
        g[dx][dy]->0.merged_from is None,
        total_value(g) <= isize::MAX,
    ensures
        0 < 2 * t.value <= total_value(g),
        ({
            let merged = Tile {
                x: dx as usize,
                y: dy as usize,
                value: (2 * t.value) as isize,
                prev_pos: None,
                merged_from: Some(((t.x, t.y), (dx as usize, dy as usize))),
            };
            let after = with_cell(with_cell(g, dx, dy, Some(merged)), cx, cy, None);
            &&& total_value(after) == total_value(g)
            &&& merged_value(after) == merged_value(g) + 2 * t.value
            &&& merged_value(after) <= total_value(after)
            &&& values_positive(after)
            &&& values_valid(g) ==> values_valid(after)
        }),
{
    let merged = Tile {
        x: dx as usize,
        y: dy as usize,
        value: (2 * t.value) as isize,
        prev_pos: None,
        merged_from: Some(((t.x, t.y), (dx as usize, dy as usize))),
    };
    lemma_two_cells(g, n, cx, cy, dx, dy);
    let g1 = with_cell(g, dx, dy, Some(merged));
    let after = with_cell(g1, cx, cy, None);
    assert(g1[cx][cy] == g[cx][cy]);
    lemma_sum_with_cell(g, dx, dy, Some(merged), false);
    lemma_sum_with_cell(g1, cx, cy, None, false);
    lemma_sum_with_cell(g, dx, dy, Some(merged), true);
    lemma_sum_with_cell(g1, cx, cy, None, true);
    assert(is_square(after, n));
    assert(values_positive(after)) by {
        assert forall|x: int, y: int| in_bounds(after.len() as int, x, y) implies match #[trigger] after[x][y] {
            Some(t) => t.value > 0,
            None => true,
        } by {
            if (x, y) != (cx, cy) && (x, y) != (dx, dy) {
                assert(after[x][y] == g[x][y]);
            }
        }
    }
    lemma_positive_no_negative(after, n);
    lemma_sum_bounds(after);
    if values_valid(g) {
        assert forall|x: int, y: int| in_bounds(after.len() as int, x, y) implies match #[trigger] after[x][y] {
            Some(t) => is_tile_value(t.value as int),
            None => true,
        } by {
            if (x, y) != (cx, cy) && (x, y) != (dx, dy) {
                assert(after[x][y] == g[x][y]);
            }
            assert(is_tile_value(g[cx][cy]->0.value as int));
            lemma_tile_values(t.value as int);
        }
    }
}

/// A slide changes no sum: the tile `t` goes from `(cx, cy)` to the empty
/// cell `(fx, fy)`.
pub proof fn lemma_slide_tally(g: Board, n: int, cx: int, cy: int, fx: int, fy: int, t: Tile)
    requires
        is_square(g, n),
        values_positive(g),
        in_bounds(n, cx, cy),
        in_bounds(n, fx, fy),
        (cx, cy) != (fx, fy),
        g[cx][cy] == Some(t),
        g[fx][fy] is None,
    ensures
        ({
            let after = with_cell(
                with_cell(g, cx, cy, None),
                fx,
                fy,
                Some(t.moved_to(fx as usize, fy as usize)),
            );
            &&& total_value(after) == total_value(g)
            &&& merged_value(after) == merged_value(g)
            &&& values_positive(after)
            &&& values_valid(g) ==> values_valid(after)
        }),
{
    let slidden = t.moved_to(fx as usize, fy as usize);
    let g1 = with_cell(g, cx, cy, None);
    let after = with_cell(g1, fx, fy, Some(slidden));
    assert(g1[fx][fy] == g[fx][fy]);
    lemma_sum_with_cell(g, cx, cy, None, false);
    lemma_sum_with_cell(g1, fx, fy, Some(slidden), false);
    lemma_sum_with_cell(g, cx, cy, None, true);
    lemma_sum_with_cell(g1, fx, fy, Some(slidden), true);
    assert(values_positive(after)) by {
        assert forall|x: int, y: int| in_bounds(after.len() as int, x, y) implies match #[trigger] after[x][y] {
            Some(t) => t.value > 0,
            None => true,
        } by {
            if (x, y) != (cx, cy) && (x, y) != (fx, fy) {
                assert(after[x][y] == g[x][y]);
            }
        }
    }
    if values_valid(g) {
        assert forall|x: int, y: int| in_bounds(after.len() as int, x, y) implies match #[trigger] after[x][y] {
            Some(t) => is_tile_value(t.value as int),
            None => true,
        } by {
            if (x, y) != (cx, cy) && (x, y) != (fx, fy) {
                assert(after[x][y] == g[x][y]);
            }
            assert(is_tile_value(g[cx][cy]->0.value as int));
        }
    }
}

/// Putting a new tile on an empty cell adds its value to the total, adds
/// nothing to the value of the merged tiles, and keeps the values positive
/// and valid if the new value is.
pub proof fn lemma_spawn_tally(g: Board, n: int, x: int, y: int, t: Tile)
    requires
        is_square(g, n),
        in_bounds(n, x, y),
        g[x][y] is None,
        t.merged_from is None,
    ensures
        ({
            let after = with_cell(g, x, y, Some(t));
            &&& total_value(after) == total_value(g) + t.value
            &&& merged_value(after) == merged_value(g)
            &&& values_positive(g) && t.value > 0 ==> values_positive(after)
            &&& values_valid(g) && is_tile_value(t.value as int) ==> values_valid(after)
        }),
{
    let after = with_cell(g, x, y, Some(t));
    lemma_sum_with_cell(g, x, y, Some(t), false);
    lemma_sum_with_cell(g, x, y, Some(t), true);
    if values_positive(g) && t.value > 0 {
        assert forall|i: int, j: int| in_bounds(after.len() as int, i, j) implies match #[trigger] after[i][j] {
            Some(t) => t.value > 0,
            None => true,
        } by {
            if (i, j) != (x, y) {
                assert(after[i][j] == g[i][j]);
            }
        }
    }
    if values_valid(g) && is_tile_value(t.value as int) {
        assert forall|i: int, j: int| in_bounds(after.len() as int, i, j) implies match #[trigger] after[i][j] {
            Some(t) => is_tile_value(t.value as int),
            None => true,
        } by {
            if (i, j) != (x, y) {
                assert(after[i][j] == g[i][j]);
            }
        }
    }
}


/// What has been counted when a count that goes over the board in
/// row-major order has reached the cell `(x, y)`.
pub open spec fn counted(b: Board, x: int, y: int) -> int {
    board_sum(b.take(x), false) + line_sum(b[x].take(y), false)
}

/// Counting one more cell adds its weight, and the count at the end of one
/// `x` is the count at the start of the next.
pub proof fn lemma_counted_step(b: Board, x: int, y: int)
    requires
        0 <= x < b.len(),
        0 <= y <= b[x].len(),
    ensures
        y < b[x].len() ==> counted(b, x, y + 1) == counted(b, x, y) + weight(b[x][y], false),
        counted(b, x, 0) == board_sum(b.take(x), false),
        board_sum(b.take(x + 1), false) == counted(b, x, b[x].len() as int),
        x + 1 == b.len() ==> board_sum(b.take(x + 1), false) == total_value(b),
{
    if y < b[x].len() {
        assert(b[x].take(y + 1).drop_last() =~= b[x].take(y));
    }
    assert(b[x].take(0) =~= Seq::empty());
    assert(b.take(x + 1).drop_last() =~= b.take(x));
    assert(b[x].take(b[x].len() as int) =~= b[x]);
    if x + 1 == b.len() {
        assert(b.take(x + 1) =~= b);
    }
}

/// Where no value is negative, the start of a line is worth no more than
/// the line.
proof fn lemma_line_prefix(col: Seq<Option<Tile>>, y: int)
    requires
        0 <= y <= col.len(),
        forall|j: int| 0 <= j < col.len() ==> weight(#[trigger] col[j], false) >= 0,
    ensures
        0 <= line_sum(col.take(y), false) <= line_sum(col, false),
    decreases col.len() - y,
{
    if y == col.len() {
        assert(col.take(y) =~= col);
        lemma_line_sum_bounds(col);
        lemma_line_sum_none(Seq::<Option<Tile>>::empty(), true);
    } else {
        lemma_line_prefix(col, y + 1);
        assert(col.take(y + 1).drop_last() =~= col.take(y));
        assert(weight(col[y], false) >= 0);
        let part = col.take(y);
        assert forall|j: int| 0 <= j < part.len() implies weight(#[trigger] part[j], false)
            >= 0 by {
            assert(part[j] == col[j]);
        }
        lemma_line_sum_bounds(part);
    }
}

/// Where no value is negative, the first lines of a board are worth no more
/// than the board.
proof fn lemma_board_prefix(b: Board, x: int)
    requires
        0 <= x <= b.len(),
        no_negative(b),
    ensures
        0 <= board_sum(b.take(x), false) <= total_value(b),
        no_negative(b.take(x)),
    decreases b.len() - x,
{
    let part = b.take(x);
    assert forall|i: int, j: int| 0 <= i < part.len() && 0 <= j < part[i].len() implies weight(
        #[trigger] part[i][j],
        false,
    ) >= 0 by {
        assert(part[i][j] == b[i][j]);
    }
    lemma_sum_bounds(part);
    if x == b.len() {
        assert(b.take(x) =~= b);
    } else {
        lemma_board_prefix(b, x + 1);
        assert(b.take(x + 1).drop_last() =~= b.take(x));
        let col = b[x];
        assert forall|j: int| 0 <= j < col.len() implies weight(#[trigger] col[j], false)
            >= 0 by {
            assert(col[j] == b[x][j]);
        }
        lemma_line_sum_bounds(col);
    }
}

/// Where no value is negative, what has been counted so far is no more
/// than the total.
pub proof fn lemma_counted_bounds(b: Board, x: int, y: int)
    requires
        0 <= x < b.len(),
        0 <= y <= b[x].len(),
        no_negative(b),
    ensures
        0 <= counted(b, x, y) <= total_value(b),
{
    lemma_board_prefix(b, x);
    lemma_board_prefix(b, x + 1);
    assert(b.take(x + 1).drop_last() =~= b.take(x));
    let col = b[x];
    assert forall|j: int| 0 <= j < col.len() implies weight(#[trigger] col[j], false) >= 0 by {
        assert(col[j] == b[x][j]);
    }
    lemma_line_prefix(col, y);
}

} // verus!
