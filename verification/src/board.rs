use vstd::prelude::*;
use vstd::arithmetic::div_mod::{lemma_fundamental_div_mod, lemma_fundamental_div_mod_converse};
use crate::direction::Direction;
use crate::tile::Tile;

verus! {

/// The mathematical model of a grid: `board[x][y]` is the content of the
/// cell `(x, y)`.
pub type Board = Seq<Seq<Option<Tile>>>;

/// Whether `(x, y)` names a cell of an `n`-by-`n` board.
pub open spec fn in_bounds(n: int, x: int, y: int) -> bool {
    0 <= x < n && 0 <= y < n
}

/// Whether the board is `n` cells wide and `n` cells high.
pub open spec fn is_square(b: Board, n: int) -> bool {
    &&& b.len() == n
    &&& forall|x: int| 0 <= x < n ==> (#[trigger] b[x]).len() == n
}

/// Whether every tile stands on the cell whose coordinates it carries.
pub open spec fn is_placed(b: Board) -> bool {
    forall|x: int, y: int|
        in_bounds(b.len() as int, x, y) ==> match #[trigger] b[x][y] {
            Some(t) => t.x == x && t.y == y,
            None => true,
        }
}

/// The content of a cell; a cell outside the board holds nothing.
pub open spec fn cell_at(b: Board, x: int, y: int) -> Option<Tile> {
    if in_bounds(b.len() as int, x, y) {
        b[x][y]
    } else {
        None
    }
}

/// The board with the content of one cell replaced.
pub open spec fn with_cell(b: Board, x: int, y: int, c: Option<Tile>) -> Board {
    b.update(x, b[x].update(y, c))
}

/// The board of `n` by `n` empty cells.
pub open spec fn empty_board(n: int) -> Board {
    Seq::new(n as nat, |x: int| Seq::new(n as nat, |y: int| None::<Tile>))
}

/// All cells of an `n`-by-`n` board in row-major order: ascending in `x`,
/// and for one `x` ascending in `y`.
pub open spec fn row_major(n: int) -> Seq<(usize, usize)> {
    Seq::new((n * n) as nat, |i: int| ((i / n) as usize, (i % n) as usize))
}

/// The test that a cell of the board is empty.
pub open spec fn is_free(b: Board) -> spec_fn((usize, usize)) -> bool {
    |p: (usize, usize)| b[p.0 as int][p.1 as int] is None
}

/// The empty cells of the board, in the order of `row_major`.
pub open spec fn available(b: Board) -> Seq<(usize, usize)> {
    row_major(b.len() as int).filter(is_free(b))
}

/// Whether the board has an empty cell.
pub open spec fn has_room(b: Board) -> bool {
    exists|x: int, y: int| in_bounds(b.len() as int, x, y) && #[trigger] b[x][y] is None
}

/// Whether the tile on `(x, y)` has a tile of its own value as its
/// neighbour in direction `d`. A cell outside the board holds no tile.
pub open spec fn matches_neighbour(b: Board, x: int, y: int, d: Direction) -> bool {
    match (b[x][y], cell_at(b, x + d.vector().0, y + d.vector().1)) {
        (Some(t), Some(o)) => t.value == o.value,
        _ => false,
    }
}

/// Whether two tiles of one value stand side by side somewhere on the
/// board.
pub open spec fn has_match(b: Board) -> bool {
    exists|x: int, y: int, d: Direction|
        in_bounds(b.len() as int, x, y) && #[trigger] matches_neighbour(b, x, y, d)
}

/// The empty cell that a draw selects, if the board has one.
pub open spec fn drawn_cell(b: Board, draw: usize) -> Option<(usize, usize)> {
    let free = available(b);
    if free.len() == 0 {
        None
    } else {
        Some(free[draw as int % free.len() as int])
    }
}

/// The value of the tile that a draw brings forth: 2 for nine draws in ten,
/// 4 for the tenth.
pub open spec fn drawn_value(draw: usize) -> isize {
    if draw % 10 < 9 {
        2
    } else {
        4
    }
}

/// The board after a new tile has appeared: on the empty cell that
/// `cell_draw` selects, with the value that `value_draw` brings forth. A
/// full board stays as it is.
pub open spec fn spawned(b: Board, value_draw: usize, cell_draw: usize) -> Board {
    match drawn_cell(b, cell_draw) {
        Some(c) => with_cell(
            b,
            c.0 as int,
            c.1 as int,
            Some(Tile::fresh(c.0, c.1, drawn_value(value_draw))),
        ),
        None => b,
    }
}

/// Whether `after` can be reached from `before` by letting `count` new
/// tiles appear, one after the other.
pub open spec fn spawned_times(before: Board, after: Board, count: nat) -> bool
    decreases count,
{
    if count == 0 {
        after == before
    } else {
        exists|mid: Board, value_draw: usize, cell_draw: usize|
            spawned_times(before, mid, (count - 1) as nat) && after == #[trigger] spawned(
                mid,
                value_draw,
                cell_draw,
            )
    }
}

/// The board as it is at the start of a move: every tile without a recorded
/// merge and with its own cell as the previous position.
pub open spec fn prepared(b: Board) -> Board {
    Seq::new(b.len(), |x: int| Seq::new(b[x].len(), |y: int| prepared_cell(b[x][y])))
}

/// A cell as it is at the start of a move.
pub open spec fn prepared_cell(c: Option<Tile>) -> Option<Tile> {
    match c {
        Some(t) => Some(t.prepared()),
        None => None,
    }
}

/// Whether every tile is as `prepared` leaves it.
pub open spec fn is_prepared(b: Board) -> bool {
    forall|x: int, y: int|
        in_bounds(b.len() as int, x, y) ==> match #[trigger] b[x][y] {
            Some(t) => t.merged_from is None && t.prev_pos == Some((t.x, t.y)),
            None => true,
        }
}

/// Whether a cell lies on the board and is empty.
pub open spec fn is_open(b: Board, c: (int, int)) -> bool {
    in_bounds(b.len() as int, c.0, c.1) && b[c.0][c.1] is None
}

/// The cell reached from `(x, y)` by `j` steps of `(dx, dy)`.
pub open spec fn stepped(x: int, y: int, dx: int, dy: int, j: int) -> (int, int) {
    (x + j * dx, y + j * dy)
}

/// Whether a tile at `(x, y)` can slide exactly `m` cells along `(dx, dy)`:
/// the next `m` cells are open, and the one after them is not.
pub open spec fn slides_by(b: Board, x: int, y: int, dx: int, dy: int, m: int) -> bool {
    &&& m >= 0
    &&& forall|j: int| 1 <= j <= m ==> is_open(b, #[trigger] stepped(x, y, dx, dy, j))
    &&& !is_open(b, stepped(x, y, dx, dy, m + 1))
}

/// The cell `(x, y)` is number `x * n + y` of `row_major(n)`.
pub proof fn lemma_row_major(n: int, x: int, y: int)
    requires
        0 <= n <= usize::MAX,
        in_bounds(n, x, y),
    ensures
        0 <= x * n + y < n * n,
        x * n + y + 1 <= n * n,
        x * n + n == (x + 1) * n,
        row_major(n)[x * n + y] == (x as usize, y as usize),
{
    assert(0 <= x * n + y < n * n && x * n + n == (x + 1) * n) by (nonlinear_arith)
        requires
            0 <= x < n,
            0 <= y < n,
    ;
    lemma_fundamental_div_mod_converse(x * n + y, n, x, y);
}

/// Every cell of `row_major(n)` lies on the board.
pub proof fn lemma_row_major_cell(n: int, i: int)
    requires
        0 <= n <= usize::MAX,
        0 <= i < n * n,
    ensures
        in_bounds(n, i / n, i % n),
        row_major(n)[i] == ((i / n) as usize, (i % n) as usize),
        i == (i / n) * n + i % n,
{
    assert(n > 0) by (nonlinear_arith)
        requires
            0 <= n,
            0 <= i < n * n,
    ;
    lemma_fundamental_div_mod(i, n);
    let c = i / n;
    let r = i % n;
    assert(0 <= c < n && i == c * n + r) by (nonlinear_arith)
        requires
            i == n * c + r,
            0 <= r < n,
            0 <= i < n * n,
    ;
}

/// The empty cells among the first `x * n + y + 1` cells are those among
/// the first `x * n + y`, and `(x, y)` itself if it is empty.
pub proof fn lemma_available_step(b: Board, x: int, y: int)
    requires
        is_square(b, b.len() as int),
        b.len() <= usize::MAX,
        in_bounds(b.len() as int, x, y),
    ensures
        ({
            let n = b.len() as int;
            let i = x * n + y;
            let found = row_major(n).take(i).filter(is_free(b));
            row_major(n).take(i + 1).filter(is_free(b)) == if b[x][y] is None {
                found.push((x as usize, y as usize))
            } else {
                found
            }
        }),
{
    let n = b.len() as int;
    let i = x * n + y;
    lemma_row_major(n, x, y);
    let longer = row_major(n).take(i + 1);
    assert(longer.drop_last() =~= row_major(n).take(i));
    assert(longer.last() == (x as usize, y as usize));
    reveal(Seq::filter);
}

/// The cells of `available` are the empty cells of the board.
pub proof fn lemma_available(b: Board)
    requires
        is_square(b, b.len() as int),
        b.len() <= usize::MAX,
    ensures
        forall|i: int|
            0 <= i < available(b).len() ==> is_open(
                b,
                ((#[trigger] available(b)[i]).0 as int, available(b)[i].1 as int),
            ),
        forall|x: int, y: int|
            in_bounds(b.len() as int, x, y) && (#[trigger] b[x][y]) is None ==> available(
                b,
            ).contains((x as usize, y as usize)),
        available(b).len() > 0 <==> has_room(b),
{
    let n = b.len() as int;
    let all = row_major(n);
    let free = available(b);
    assert forall|i: int| 0 <= i < free.len() implies is_open(
        b,
        ((#[trigger] free[i]).0 as int, free[i].1 as int),
    ) by {
        all.lemma_filter_pred(is_free(b), i);
        all.lemma_filter_contains_rev(is_free(b), free[i]);
        let j = choose|j: int| 0 <= j < all.len() && all[j] == free[i];
        lemma_row_major_cell(n, j);
        assert(is_free(b)(free[i]));
    }
    assert forall|x: int, y: int| in_bounds(n, x, y) && (#[trigger] b[x][y]) is None implies free.contains(
        (x as usize, y as usize),
    ) by {
        lemma_row_major(n, x, y);
        assert(is_free(b)(all[x * n + y]));
        all.lemma_filter_contains(is_free(b), x * n + y);
    }
    if free.len() > 0 {
        let c = free[0];
        assert(is_open(b, (c.0 as int, c.1 as int)));
        assert(b[c.0 as int][c.1 as int] is None);
    }
    if has_room(b) {
        let (x, y) = choose|x: int, y: int| in_bounds(n, x, y) && (#[trigger] b[x][y]) is None;
        assert(free.contains((x as usize, y as usize)));
    }
}

} // verus!
