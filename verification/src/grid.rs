use vstd::prelude::*;
use crate::board::{
    Board, in_bounds, is_square, is_placed, cell_at, with_cell, empty_board, row_major, is_free,
    available, has_room, drawn_cell, lemma_row_major, lemma_available_step, lemma_available,
};
use crate::random::random_usize;
use crate::tile::Tile;

verus! {

/// The square board: `cells[x][y]` is the cell `(x, y)`.
#[derive(PartialEq, Debug, Clone)]
pub struct Grid {
    pub size: usize,
    pub cells: Vec<Vec<Option<Tile>>>,
}

impl View for Grid {
    type V = Board;

    open spec fn view(&self) -> Board {
        Seq::new(self.cells@.len(), |x: int| self.cells@[x]@)
    }
}

/// The content of a cell as a callback gets to see it.
pub open spec fn shown(content: Option<&Tile>) -> Option<Tile> {
    match content {
        Some(t) => Some(*t),
        None => None,
    }
}

impl Grid {
    /// The grid is `size` by `size`, and every tile stands on the cell whose
    /// coordinates it carries.
    pub open spec fn wf(&self) -> bool {
        &&& is_square(self@, self.size as int)
        &&& is_placed(self@)
    }

    /// Tests whether the grid is well formed.
    pub fn is_sound(&self) -> (ok: bool)
        ensures
            ok == self.wf(),
    {
        let n = self.size;
        if self.cells.len() != n {
            return false;
        }
        let mut x: usize = 0;
        while x < n
            invariant
                n == self.size,
                self@.len() == n,
                x <= n,
                forall|i: int| 0 <= i < x ==> (#[trigger] self@[i]).len() == n,
                forall|i: int, j: int|
                    0 <= i < x && 0 <= j < n ==> match #[trigger] self@[i][j] {
                        Some(t) => t.x == i && t.y == j,
                        None => true,
                    },
            decreases n - x,
        {
            if self.cells[x].len() != n {
                assert(self@[x as int].len() != n);
                return false;
            }
            let mut y: usize = 0;
            while y < n
                invariant
                    n == self.size,
                    self@.len() == n,
                    x < n,
                    y <= n,
                    self@[x as int].len() == n,
                    forall|i: int| 0 <= i < x ==> (#[trigger] self@[i]).len() == n,
                    forall|i: int, j: int|
                        (0 <= i < x && 0 <= j < n) || (i == x && 0 <= j < y)
                            ==> match #[trigger] self@[i][j] {
                            Some(t) => t.x == i && t.y == j,
                            None => true,
                        },
                decreases n - y,
            {
                match self.cells[x][y] {
                    Some(t) => {
                        if t.x != x || t.y != y {
                            assert(in_bounds(self@.len() as int, x as int, y as int));
                            assert(self@[x as int][y as int] == Some(t));
                            return false;
                        }
                    },
                    None => {},
                }
                y += 1;
            }
            x += 1;
        }
        true
    }

    /// An empty grid of `size` by `size` cells.
    pub fn new(size: usize) -> (grid: Grid)
        ensures
            grid.size == size,
            grid@ == empty_board(size as int),
            grid.wf(),
    {
        let mut cells: Vec<Vec<Option<Tile>>> = Vec::new();
        let mut x: usize = 0;
        while x < size
            invariant
                x <= size,
                cells@.len() == x,
                forall|i: int| 0 <= i < x ==> (#[trigger] cells@[i])@ == Seq::new(
                    size as nat,
                    |y: int| None::<Tile>,
                ),
            decreases size - x,
        {
            let mut line: Vec<Option<Tile>> = Vec::new();
            let mut y: usize = 0;
            while y < size
                invariant
                    y <= size,
                    line@ == Seq::new(y as nat, |j: int| None::<Tile>),
                decreases size - y,
            {
                line.push(None);
                y += 1;
            }
            cells.push(line);
            x += 1;
        }
        let grid = Grid { size, cells };
        assert(grid@ == empty_board(size as int));
        grid
    }

    /// Whether `pos` names a cell of the grid.
    pub fn within_bounds(&self, pos: (usize, usize)) -> (inside: bool)
        ensures
            inside == in_bounds(self.size as int, pos.0 as int, pos.1 as int),
    {
        pos.0 < self.size && pos.1 < self.size
    }

    /// Whether the cell `pos` of the grid is empty.
    pub fn cell_available(&self, pos: (usize, usize)) -> (free: bool)
        requires
            self.wf(),
            in_bounds(self.size as int, pos.0 as int, pos.1 as int),
        ensures
            free == (self@[pos.0 as int][pos.1 as int] is None),
    {
        self.cells[pos.0][pos.1].is_none()
    }

    /// A copy of the tile on `pos`; `None` if the cell is empty, and also if
    /// `pos` lies outside the grid.
    pub fn cell_content(&self, pos: (usize, usize)) -> (content: Option<Tile>)
        requires
            self.wf(),
        ensures
            content == cell_at(self@, pos.0 as int, pos.1 as int),
    {
        if self.within_bounds(pos) {
            self.cells[pos.0][pos.1]
        } else {
            None
        }
    }

    /// Puts `tile` on the cell whose coordinates it carries, in place of
    /// whatever the cell held.
    pub fn insert_tile(&mut self, tile: Tile)
        requires
            old(self).wf(),
            in_bounds(old(self).size as int, tile.x as int, tile.y as int),
        ensures
            final(self).size == old(self).size,
            final(self)@ == with_cell(old(self)@, tile.x as int, tile.y as int, Some(tile)),
            final(self).wf(),
    {
        assert(self@[tile.x as int].len() == self.size);
        self.cells[tile.x][tile.y] = Some(tile);
        assert(self@ == with_cell(old(self)@, tile.x as int, tile.y as int, Some(tile)));
    }

    /// Clears the cell whose coordinates `tile` carries, whatever it holds.
    pub fn remove_tile(&mut self, tile: Tile)
        requires
            old(self).wf(),
            in_bounds(old(self).size as int, tile.x as int, tile.y as int),
        ensures
            final(self).size == old(self).size,
            final(self)@ == with_cell(old(self)@, tile.x as int, tile.y as int, None),
            final(self).wf(),
    {
        assert(self@[tile.x as int].len() == self.size);
        self.cells[tile.x][tile.y] = None;
        assert(self@ == with_cell(old(self)@, tile.x as int, tile.y as int, None));
    }

    /// Calls `callback` on every cell, in row-major order, with the
    /// coordinates of the cell and its content.
    pub fn each_cell<F>(&self, mut callback: F) where F: FnMut(usize, usize, Option<&Tile>)
        requires
            self.wf(),
            forall|x: usize, y: usize, content: Option<&Tile>|
                in_bounds(self.size as int, x as int, y as int) && shown(content)
                    == self@[x as int][y as int] ==> call_requires(callback, (x, y, content)),
        ensures
            forall|x: usize, y: usize, content: Option<&Tile>|
                in_bounds(self.size as int, x as int, y as int) && shown(content)
                    == self@[x as int][y as int] ==> call_ensures(callback, (x, y, content), ()),
    {
        let n = self.size;
        let ghost given = callback;
        let mut x: usize = 0;
        while x < n
            invariant
                callback == given,
                self.wf(),
                n == self.size,
                x <= n,
                forall|x: usize, y: usize, content: Option<&Tile>|
                    in_bounds(self.size as int, x as int, y as int) && shown(content)
                        == self@[x as int][y as int] ==> call_requires(callback, (x, y, content)),
                forall|i: usize, j: usize, content: Option<&Tile>|
                    i < x && j < n && shown(content) == self@[i as int][j as int] ==> call_ensures(
                        callback,
                        (i, j, content),
                        (),
                    ),
            decreases n - x,
        {
            let mut y: usize = 0;
            while y < n
                invariant
                    callback == given,
                    self.wf(),
                    n == self.size,
                    x < n,
                    y <= n,
                    forall|x: usize, y: usize, content: Option<&Tile>|
                        in_bounds(self.size as int, x as int, y as int) && shown(content)
                            == self@[x as int][y as int] ==> call_requires(
                            callback,
                            (x, y, content),
                        ),
                    forall|i: usize, j: usize, content: Option<&Tile>|
                        ((i < x && j < n) || (i == x && j < y)) && shown(content)
                            == self@[i as int][j as int] ==> call_ensures(
                            callback,
                            (i, j, content),
                            (),
                        ),
                decreases n - y,
            {
                assert(self@[x as int].len() == n);
                let content = self.cells[x][y].as_ref();
                callback(x, y, content);
                y += 1;
            }
            x += 1;
        }
    }

    /// Calls `callback` on every cell, in row-major order, with the
    /// coordinates of the cell and the cell itself, which the callback may
    /// change.
    pub fn each_mut_cell<F>(&mut self, mut callback: F) where
        F: FnMut(usize, usize, &mut Option<Tile>),

        requires
            is_square(old(self)@, old(self).size as int),
            forall|x: usize, y: usize, cell: &mut Option<Tile>|
                in_bounds(old(self).size as int, x as int, y as int) && *cell == old(
                    self,
                )@[x as int][y as int] ==> call_requires(callback, (x, y, cell)),
        ensures
            final(self).size == old(self).size,
            is_square(final(self)@, old(self).size as int),
            forall|x: int, y: int| #[trigger]
                in_bounds(old(self).size as int, x, y) ==> exists|cell: &mut Option<Tile>|
                    *cell == old(self)@[x][y] && *final(cell) == final(self)@[x][y]
                        && #[trigger] call_ensures(callback, (x as usize, y as usize, cell), ()),
    {
        let n = self.size;
        let ghost given = callback;
        let mut x: usize = 0;
        while x < n
            invariant
                callback == given,
                n == self.size,
                n == old(self).size,
                x <= n,
                is_square(self@, n as int),
                is_square(old(self)@, n as int),
                forall|x: usize, y: usize, cell: &mut Option<Tile>|
                    in_bounds(n as int, x as int, y as int) && *cell == old(
                        self,
                    )@[x as int][y as int] ==> call_requires(callback, (x, y, cell)),
                forall|i: int, j: int| #[trigger]
                    in_bounds(n as int, i, j) && i < x ==> exists|cell: &mut Option<Tile>|
                        *cell == old(self)@[i][j] && *final(cell) == self@[i][j]
                            && #[trigger] call_ensures(callback, (i as usize, j as usize, cell), ()),
                forall|i: int, j: int|
                    x <= i < n && 0 <= j < n ==> #[trigger] self@[i][j] == old(self)@[i][j],
            decreases n - x,
        {
            let mut y: usize = 0;
            while y < n
                invariant
                    callback == given,
                    n == self.size,
                    n == old(self).size,
                    x < n,
                    y <= n,
                    is_square(self@, n as int),
                    is_square(old(self)@, n as int),
                    forall|x: usize, y: usize, cell: &mut Option<Tile>|
                        in_bounds(n as int, x as int, y as int) && *cell == old(
                            self,
                        )@[x as int][y as int] ==> call_requires(callback, (x, y, cell)),
                    forall|i: int, j: int| #[trigger]
                        in_bounds(n as int, i, j) && (i < x || (i == x && j < y)) ==> exists|
                            cell: &mut Option<Tile>,
                        |
                            *cell == old(self)@[i][j] && *final(cell) == self@[i][j]
                                && #[trigger] call_ensures(
                                callback,
                                (i as usize, j as usize, cell),
                                (),
                            ),
                    forall|i: int, j: int|
                        (x < i < n && 0 <= j < n) || (i == x && y <= j < n)
                            ==> #[trigger] self@[i][j] == old(self)@[i][j],
                decreases n - y,
            {
                let ghost before = self@;
                assert(self@[x as int].len() == n);
                assert(self@[x as int][y as int] == old(self)@[x as int][y as int]);
                callback(x, y, &mut self.cells[x][y]);
                assert(self@ == with_cell(before, x as int, y as int, self@[x as int][y as int]));
                assert forall|i: int, j: int| #[trigger]
                    in_bounds(n as int, i, j) && (i < x || (i == x && j < y + 1)) implies exists|
                    cell: &mut Option<Tile>,
                |
                    *cell == old(self)@[i][j] && *final(cell) == self@[i][j]
                        && #[trigger] call_ensures(
                        callback,
                        (i as usize, j as usize, cell),
                        (),
                    ) by {
                    if i == x && j == y {
                        assert(i as usize == x && j as usize == y);
                    } else {
                        assert(self@[i][j] == before[i][j]);
                    }
                }
                y += 1;
            }
            x += 1;
        }
    }

    /// The empty cells, in row-major order.
    pub fn available_cells(&self) -> (cells: Vec<(usize, usize)>)
        requires
            self.wf(),
        ensures
            cells@ == available(self@),
    {
        let n = self.size;
        let mut cells: Vec<(usize, usize)> = Vec::new();
        let ghost free = is_free(self@);
        let ghost all = row_major(n as int);
        proof {
            assert(all.take(0) =~= Seq::empty());
            reveal(Seq::filter);
        }
        let mut x: usize = 0;
        while x < n
            invariant
                self.wf(),
                n == self.size,
                x <= n,
                free == is_free(self@),
                all == row_major(n as int),
                cells@ == all.take(x * n).filter(free),
            decreases n - x,
        {
            let mut y: usize = 0;
            while y < n
                invariant
                    self.wf(),
                    n == self.size,
                    x < n,
                    y <= n,
                    free == is_free(self@),
                    all == row_major(n as int),
                    cells@ == all.take(x * n + y).filter(free),
                decreases n - y,
            {
                proof {
                    lemma_available_step(self@, x as int, y as int);
                }
                if self.cells[x][y].is_none() {
                    cells.push((x, y));
                }
                y += 1;
            }
            proof {
                lemma_row_major(n as int, x as int, 0);
            }
            x += 1;
        }
        proof {
            assert(all.take(n * n) =~= all);
        }
        cells
    }

    /// Whether the grid has an empty cell.
    pub fn cells_available(&self) -> (any: bool)
        requires
            self.wf(),
        ensures
            any == has_room(self@),
    {
        proof {
            lemma_available(self@);
        }
        self.available_cells().len() != 0
    }

    /// An empty cell chosen at random, each with the same chance; `None` if
    /// the grid is full.
    pub fn random_available_cell(&self) -> (cell: Option<(usize, usize)>)
        requires
            self.wf(),
        ensures
            exists|draw: usize| cell == #[trigger] drawn_cell(self@, draw),
            cell is Some <==> has_room(self@),
            cell matches Some(c) ==> in_bounds(self.size as int, c.0 as int, c.1 as int)
                && self@[c.0 as int][c.1 as int] is None,
    {
        let cells = self.available_cells();
        proof {
            lemma_available(self@);
        }
        if cells.len() == 0 {
            assert(None::<(usize, usize)> == drawn_cell(self@, 0));
            None
        } else {
            let draw = random_usize();
            let cell = pick_cell(&cells, draw);
            assert(Some(cell) == drawn_cell(self@, draw));
            Some(cell)
        }
    }
}

/// The cell that a draw selects from a list of cells: the one at the index
/// `draw` modulo the length of the list.
pub fn pick_cell(cells: &Vec<(usize, usize)>, draw: usize) -> (cell: (usize, usize))
    requires
        cells@.len() > 0,
    ensures
        cell == cells@[draw as int % cells@.len() as int],
{
    cells[draw % cells.len()]
}

} // verus!
