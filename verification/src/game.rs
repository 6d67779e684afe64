use vstd::prelude::*;
use crate::board::{
    Board, in_bounds, is_square, is_placed, is_prepared, with_cell, empty_board, prepared,
    prepared_cell, is_open, stepped, slides_by, has_room, has_match, matches_neighbour,
    drawn_cell, drawn_value, spawned, spawned_times, lemma_available,
};
use crate::direction::{Direction, is_unit_step};
use crate::grid::Grid;
use crate::laws::{lemma_change_leaves_room, lemma_prepared_again};
use crate::pass::{
    board_after, visit_cell, merges_into, lemma_visit_cell, lemma_visit_tile,
    lemma_board_after_none, lemma_board_after_all,
};
use crate::random::random_usize;
use crate::slide::{slid, merged_tile};
use crate::tally::{
    board_sum, counted, total_value, merged_value, values_positive, values_valid, face,
    lemma_merge_tally, lemma_slide_tally, lemma_spawn_tally, lemma_prepared, lemma_tile_values,
    lemma_empty_board, lemma_counted_step, lemma_counted_bounds, lemma_positive_no_negative,
    lemma_sum_bounds,
};
use crate::tile::{Tile, Slot};
use crate::traversal::{Traversal, visiting_order};

verus! {

/// One game session: the board, the score, and whether a game is running.
#[derive(Debug)]
pub struct GameManager {
    pub size: usize,
    pub start_tiles: usize,
    pub grid: Grid,
    pub score: usize,
    pub playing: bool,
}

/// The coordinate one step of `d` away from `c`, where `d` is -1, 0 or 1.
/// A step below zero or above the largest `usize` wraps around, and so
/// lands outside every board.
pub fn step_coord(c: usize, d: isize) -> (r: usize)
    requires
        -1 <= d <= 1,
    ensures
        r as int == wrapped(c + d),
{
    if d == 1 {
        c.wrapping_add(1)
    } else if d == -1 {
        c.wrapping_sub(1)
    } else {
        c
    }
}

/// The value of the tile that a draw brings forth: 2 for nine draws in ten,
/// 4 for the tenth.
pub fn spawn_value(draw: usize) -> (value: isize)
    ensures
        value == drawn_value(draw),
{
    if draw % 10 < 9 {
        2
    } else {
        4
    }
}

/// The `usize` that stands for `v`, which lies at most one outside the range
/// of `usize`.
pub open spec fn wrapped(v: int) -> int {
    if v < 0 {
        usize::MAX as int
    } else if v > usize::MAX {
        0
    } else {
        v
    }
}

impl GameManager {
    /// The manager and its grid agree on the size, and the grid is well
    /// formed.
    pub open spec fn wf(&self) -> bool {
        &&& self.size == self.grid.size
        &&& self.grid.wf()
    }

    /// The tile values are positive, and the sums that a move can reach fit
    /// their types: no merge can yield more than all tiles are worth
    /// together, and no move can add more than that to the score.
    pub open spec fn within_limits(&self) -> bool {
        &&& values_positive(self.grid@)
        &&& total_value(self.grid@) <= isize::MAX
        &&& self.score + total_value(self.grid@) <= usize::MAX
    }

    /// Tests whether the session is well formed.
    pub fn is_sound(&self) -> (ok: bool)
        ensures
            ok == self.wf(),
    {
        self.size == self.grid.size && self.grid.is_sound()
    }

    /// Tests whether the next move is sure to stay within the limits of the
    /// counters.
    pub fn has_headroom(&self) -> (ok: bool)
        requires
            self.wf(),
        ensures
            ok == self.within_limits(),
    {
        let n = self.size;
        let ghost g = self.grid@;
        let mut total: isize = 0;
        let mut x: usize = 0;
        while x < n
            invariant
                self.wf(),
                n == self.size,
                g == self.grid@,
                x <= n,
                0 <= total,
                total == board_sum(g.take(x as int), false),
                forall|i: int, j: int|
                    0 <= i < x && 0 <= j < n ==> match #[trigger] g[i][j] {
                        Some(t) => t.value > 0,
                        None => true,
                    },
            decreases n - x,
        {
            let mut y: usize = 0;
            proof {
                lemma_counted_step(g, x as int, 0);
            }
            while y < n
                invariant
                    self.wf(),
                    n == self.size,
                    g == self.grid@,
                    x < n,
                    y <= n,
                    0 <= total,
                    total == counted(g, x as int, y as int),
                    forall|i: int, j: int|
                        (0 <= i < x && 0 <= j < n) || (i == x && 0 <= j < y)
                            ==> match #[trigger] g[i][j] {
                            Some(t) => t.value > 0,
                            None => true,
                        },
                decreases n - y,
            {
                proof {
                    lemma_counted_step(g, x as int, y as int);
                }
                match self.grid.cell_content((x, y)) {
                    Some(t) => {
                        if t.value <= 0 {
                            assert(g[x as int][y as int] == Some(t));
                            return false;
                        }
                        if t.value > isize::MAX - total {
                            proof {
                                if values_positive(g) {
                                    lemma_positive_no_negative(g, n as int);
                                    lemma_counted_bounds(g, x as int, y as int + 1);
                                }
                            }
                            return false;
                        }
                        total = total + t.value;
                    },
                    None => {},
                }
                y += 1;
            }
            proof {
                lemma_counted_step(g, x as int, n as int);
            }
            x += 1;
        }
        proof {
            assert(g.take(n as int) =~= g);
            assert(values_positive(g));
        }
        total as usize <= usize::MAX - self.score
    }

    /// A session with an empty grid of `size` by `size` cells, no score, and
    /// no game running yet.
    pub fn new(size: usize) -> (gm: GameManager)
        ensures
            gm.size == size,
            gm.start_tiles == 2,
            gm.grid@ == empty_board(size as int),
            gm.score == 0,
            !gm.playing,
            gm.wf(),
            gm.within_limits(),
            total_value(gm.grid@) == 0,
            values_valid(gm.grid@),
    {
        proof {
            lemma_empty_board(size as int);
        }
        GameManager { size, start_tiles: 2, grid: Grid::new(size), score: 0, playing: false }
    }

    /// Starts a game: the session is marked as running, and the first tiles
    /// appear.
    pub fn setup(&mut self)
        requires
            old(self).wf(),
        ensures
            final(self).playing,
            spawned_times(old(self).grid@, final(self).grid@, old(self).start_tiles as nat),
            total_value(final(self).grid@) <= total_value(old(self).grid@) + 4 * old(
                self,
            ).start_tiles,
            merged_value(final(self).grid@) == merged_value(old(self).grid@),
            values_positive(old(self).grid@) ==> values_positive(final(self).grid@),
            values_valid(old(self).grid@) ==> values_valid(final(self).grid@),
            final(self).grid.size == old(self).grid.size,
            final(self).size == old(self).size,
            final(self).start_tiles == old(self).start_tiles,
            final(self).score == old(self).score,
            final(self).wf(),
    {
        self.playing = true;
        self.add_start_tiles();
    }

    /// Lets a new tile appear on an empty cell chosen at random: a 2 for
    /// nine draws in ten, a 4 for the tenth. A full grid stays as it is.
    pub fn add_random_tile(&mut self)
        requires
            old(self).wf(),
        ensures
            exists|value_draw: usize, cell_draw: usize|
                final(self).grid@ == #[trigger] spawned(old(self).grid@, value_draw, cell_draw),
            !has_room(old(self).grid@) ==> final(self).grid@ == old(self).grid@,
            total_value(final(self).grid@) <= total_value(old(self).grid@) + 4,
            merged_value(final(self).grid@) == merged_value(old(self).grid@),
            values_positive(old(self).grid@) ==> values_positive(final(self).grid@),
            values_valid(old(self).grid@) ==> values_valid(final(self).grid@),
            final(self).grid.size == old(self).grid.size,
            final(self).size == old(self).size,
            final(self).start_tiles == old(self).start_tiles,
            final(self).score == old(self).score,
            final(self).playing == old(self).playing,
            final(self).wf(),
    {
        let ghost g = self.grid@;
        if self.grid.cells_available() {
            let value_draw = random_usize();
            let value = spawn_value(value_draw);
            let cell = self.grid.random_available_cell();
            let ghost cell_draw = choose|draw: usize| cell == #[trigger] drawn_cell(g, draw);
            let tile = Tile::new(cell.unwrap(), value);
            proof {
                lemma_tile_values(0);
                lemma_spawn_tally(g, self.size as int, tile.x as int, tile.y as int, tile);
            }
            self.grid.insert_tile(tile);
            assert(self.grid@ == spawned(g, value_draw, cell_draw));
        } else {
            proof {
                lemma_available(g);
                assert(self.grid@ == spawned(g, 0, 0));
            }
        }
    }

    /// Lets the first tiles of a game appear, `start_tiles` of them.
    pub fn add_start_tiles(&mut self)
        requires
            old(self).wf(),
        ensures
            spawned_times(old(self).grid@, final(self).grid@, old(self).start_tiles as nat),
            total_value(final(self).grid@) <= total_value(old(self).grid@) + 4 * old(
                self,
            ).start_tiles,
            merged_value(final(self).grid@) == merged_value(old(self).grid@),
            values_positive(old(self).grid@) ==> values_positive(final(self).grid@),
            values_valid(old(self).grid@) ==> values_valid(final(self).grid@),
            final(self).grid.size == old(self).grid.size,
            final(self).size == old(self).size,
            final(self).start_tiles == old(self).start_tiles,
            final(self).score == old(self).score,
            final(self).playing == old(self).playing,
            final(self).wf(),
    {
        let count = self.start_tiles;
        let mut added: usize = 0;
        while added < count
            invariant
                added <= count,
                count == old(self).start_tiles,
                spawned_times(old(self).grid@, self.grid@, added as nat),
                total_value(self.grid@) <= total_value(old(self).grid@) + 4 * added,
                merged_value(self.grid@) == merged_value(old(self).grid@),
                values_positive(old(self).grid@) ==> values_positive(self.grid@),
                values_valid(old(self).grid@) ==> values_valid(self.grid@),
                self.grid.size == old(self).grid.size,
                self.size == old(self).size,
                self.start_tiles == old(self).start_tiles,
                self.score == old(self).score,
                self.playing == old(self).playing,
                self.wf(),
            decreases count - added,
        {
            let ghost mid = self.grid@;
            self.add_random_tile();
            added += 1;
            assert(spawned_times(old(self).grid@, self.grid@, added as nat)) by {
                assert(spawned_times(old(self).grid@, mid, (added - 1) as nat));
            }
        }
    }

    /// Starts the bookkeeping of a move: every tile forgets its merge and
    /// records the cell it stands on.
    pub fn prepare_tiles(&mut self)
        requires
            old(self).wf(),
        ensures
            final(self).grid@ == prepared(old(self).grid@),
            final(self).grid.size == old(self).grid.size,
            final(self).size == old(self).size,
            final(self).start_tiles == old(self).start_tiles,
            final(self).score == old(self).score,
            final(self).playing == old(self).playing,
            final(self).wf(),
    {
        let ghost n = self.grid.size as int;
        let prepare = |_x: usize, _y: usize, cell: &mut Slot|
            ensures
                *final(cell) == prepared_cell(*old(cell)),
            {
                match cell {
                    Some(tile) => {
                        tile.merged_from = None;
                        tile.save_position();
                    },
                    None => {},
                }
            };
        self.grid.each_mut_cell(prepare);
        proof {
            let before = old(self).grid@;
            let after = self.grid@;
            assert forall|x: int, y: int| in_bounds(n, x, y) implies #[trigger] after[x][y]
                == prepared(before)[x][y] by {}
            assert(after =~~= prepared(before));
        }
    }

    /// Takes `tile` from the cell it stands on and puts it on `pos`.
    pub fn move_tile(&mut self, tile: Tile, pos: (usize, usize))
        requires
            old(self).wf(),
            in_bounds(old(self).size as int, tile.x as int, tile.y as int),
            in_bounds(old(self).size as int, pos.0 as int, pos.1 as int),
        ensures
            final(self).grid@ == with_cell(
                with_cell(old(self).grid@, tile.x as int, tile.y as int, None),
                pos.0 as int,
                pos.1 as int,
                Some(tile.moved_to(pos.0, pos.1)),
            ),
            final(self).grid.size == old(self).grid.size,
            final(self).size == old(self).size,
            final(self).start_tiles == old(self).start_tiles,
            final(self).score == old(self).score,
            final(self).playing == old(self).playing,
            final(self).wf(),
    {
        let mut tile = tile;
        self.grid.remove_tile(tile);
        tile.update_position(pos);
        self.grid.insert_tile(tile);
    }

    /// From `pos`, slides along `step` over open cells for as long as there
    /// are any. Returns the last cell reached and the cell one step beyond
    /// it, which is the obstacle or lies outside the grid.
    pub fn find_farthest_position(&self, pos: (usize, usize), step: (isize, isize)) -> (r: (
        (usize, usize),
        (usize, usize),
    ))
        requires
            self.wf(),
            in_bounds(self.size as int, pos.0 as int, pos.1 as int),
            is_unit_step(step.0 as int, step.1 as int),
        ensures
            ({
                let m = (r.0.0 - pos.0) * step.0 + (r.0.1 - pos.1) * step.1;
                &&& slides_by(self.grid@, pos.0 as int, pos.1 as int, step.0 as int, step.1 as int, m)
                &&& (r.0.0 as int, r.0.1 as int) == stepped(
                    pos.0 as int,
                    pos.1 as int,
                    step.0 as int,
                    step.1 as int,
                    m,
                )
                &&& r.1.0 == wrapped(r.0.0 + step.0)
                &&& r.1.1 == wrapped(r.0.1 + step.1)
            }),
    {
        let n = self.grid.size;
        let (dx, dy) = step;
        let mut prev = pos;
        let mut next = (step_coord(pos.0, dx), step_coord(pos.1, dy));
        let ghost mut m: int = 0;
        assert(stepped(pos.0 as int, pos.1 as int, dx as int, dy as int, 0) == (
            pos.0 as int,
            pos.1 as int,
        ));
        while self.grid.within_bounds(next) && self.grid.cell_available(next)
            invariant
                self.wf(),
                n == self.size,
                is_unit_step(dx as int, dy as int),
                in_bounds(n as int, prev.0 as int, prev.1 as int),
                m >= 0,
                m == (prev.0 - pos.0) * dx + (prev.1 - pos.1) * dy,
                (prev.0 as int, prev.1 as int) == stepped(
                    pos.0 as int,
                    pos.1 as int,
                    dx as int,
                    dy as int,
                    m,
                ),
                next.0 == wrapped(prev.0 + dx),
                next.1 == wrapped(prev.1 + dy),
                forall|j: int|
                    1 <= j <= m ==> is_open(
                        self.grid@,
                        #[trigger] stepped(pos.0 as int, pos.1 as int, dx as int, dy as int, j),
                    ),
            decreases
                    if dx + dy > 0 {
                        2 * n - prev.0 - prev.1
                    } else {
                        prev.0 + prev.1
                    },
        {
            proof {
                assert((next.0 as int, next.1 as int) == stepped(
                    pos.0 as int,
                    pos.1 as int,
                    dx as int,
                    dy as int,
                    m + 1,
                )) by (nonlinear_arith)
                    requires
                        (prev.0 as int, prev.1 as int) == stepped(
                            pos.0 as int,
                            pos.1 as int,
                            dx as int,
                            dy as int,
                            m,
                        ),
                        next.0 == prev.0 + dx,
                        next.1 == prev.1 + dy,
                ;
                m = m + 1;
            }
            prev = next;
            next = (step_coord(prev.0, dx), step_coord(prev.1, dy));
        }
        proof {
            assert(stepped(pos.0 as int, pos.1 as int, dx as int, dy as int, m + 1) == (
                prev.0 + dx,
                prev.1 + dy,
            )) by (nonlinear_arith)
                requires
                    (prev.0 as int, prev.1 as int) == stepped(
                        pos.0 as int,
                        pos.1 as int,
                        dx as int,
                        dy as int,
                        m,
                    ),
            ;
        }
        (prev, next)
    }

    /// One visit of a move in direction `dir`: pushes the tile on `pos`, if
    /// there is one, as far as it goes, and merges it with the tile that
    /// stops it if the two can merge. Returns whether the tile has moved or
    /// merged.
    ///
    /// `origin` is the board at the start of the move, and `pos` is the
    /// cell that the move visits after `done` others.
    #[verifier::rlimit(40)]
    fn push_tile(
        &mut self,
        pos: (usize, usize),
        step: (isize, isize),
        Ghost(dir): Ghost<Direction>,
        Ghost(origin): Ghost<Board>,
        Ghost(done): Ghost<int>,
    ) -> (acted: bool)
        requires
            old(self).wf(),
            origin.len() == old(self).size,
            is_square(origin, old(self).size as int),
            is_placed(origin),
            is_prepared(origin),
            dir.vector() == (step.0 as int, step.1 as int),
            0 <= done < old(self).size * old(self).size,
            (pos.0 as int, pos.1 as int) == visit_cell(old(self).size as int, dir, done),
            old(self).grid@ == board_after(origin, dir, done),
            values_positive(old(self).grid@),
            total_value(old(self).grid@) <= isize::MAX,
            old(self).score - merged_value(old(self).grid@) + total_value(old(self).grid@)
                <= usize::MAX,
        ensures
            final(self).grid@ == board_after(origin, dir, done + 1),
            acted ==> final(self).grid@ != origin,
            !acted ==> final(self).grid@ == old(self).grid@,
            values_positive(final(self).grid@),
            values_valid(old(self).grid@) ==> values_valid(final(self).grid@),
            total_value(final(self).grid@) == total_value(old(self).grid@),
            final(self).score - merged_value(final(self).grid@) == old(self).score - merged_value(
                old(self).grid@,
            ),
            final(self).grid.size == old(self).grid.size,
            final(self).size == old(self).size,
            final(self).start_tiles == old(self).start_tiles,
            final(self).playing == old(self).playing,
            final(self).wf(),
    {
        let ghost n = self.size as int;
        let ghost g = self.grid@;
        proof {
            lemma_visit_cell(origin, dir, done);
            assert(is_unit_step(step.0 as int, step.1 as int));
        }
        match self.grid.cell_content(pos) {
            Some(tile) => {
                let (far, next_pos) = self.find_farthest_position(pos, step);
                let ghost m = (far.0 - pos.0) * step.0 + (far.1 - pos.1) * step.1;
                proof {
                    lemma_visit_tile(origin, dir, done, tile, m);
                }
                let next = self.grid.cell_content(next_pos);
                let merging = match next {
                    Some(other) => other.value == tile.value && other.merged_from.is_none(),
                    None => false,
                };
                assert(merging == merges_into(next, tile));
                if merging {
                    let other = next.unwrap();
                    proof {
                        lemma_merge_tally(
                            g,
                            n,
                            pos.0 as int,
                            pos.1 as int,
                            next_pos.0 as int,
                            next_pos.1 as int,
                            tile,
                        );
                    }
                    let mut merged = Tile::new(next_pos, tile.value * 2);
                    merged.merged_from = Some((tile.pos(), other.pos()));
                    assert(merged == merged_tile(tile, next_pos.0 as int, next_pos.1 as int));
                    self.grid.insert_tile(merged);
                    self.grid.remove_tile(tile);
                    self.score += merged.value as usize;
                    true
                } else if tile.x != far.0 || tile.y != far.1 {
                    proof {
                        lemma_slide_tally(
                            g,
                            n,
                            pos.0 as int,
                            pos.1 as int,
                            far.0 as int,
                            far.1 as int,
                            tile,
                        );
                    }
                    self.move_tile(tile, far);
                    true
                } else {
                    false
                }
            },
            None => false,
        }
    }

    /// Pushes all tiles in direction `dir` and adds the value of every tile
    /// that a merge produces to the score. Returns whether the board has
    /// changed.
    #[verifier::rlimit(40)]
    pub fn slide_tiles(&mut self, dir: Direction) -> (moved: bool)
        requires
            old(self).wf(),
            old(self).within_limits(),
        ensures
            final(self).grid@ == slid(prepared(old(self).grid@), dir),
            moved == (final(self).grid@ != prepared(old(self).grid@)),
            moved ==> has_room(final(self).grid@),
            final(self).score == old(self).score + merged_value(final(self).grid@),
            old(self).score <= final(self).score <= old(self).score + total_value(
                old(self).grid@,
            ),
            total_value(final(self).grid@) == total_value(old(self).grid@),
            values_positive(final(self).grid@),
            values_valid(old(self).grid@) ==> values_valid(final(self).grid@),
            final(self).grid.size == old(self).grid.size,
            final(self).size == old(self).size,
            final(self).start_tiles == old(self).start_tiles,
            final(self).playing == old(self).playing,
            final(self).wf(),
    {
        let mut moved = false;
        self.prepare_tiles();
        let n = self.size;
        let step = dir.to_vector();
        let ghost origin = self.grid@;
        let ghost slack = self.score + total_value(origin);
        proof {
            lemma_prepared(old(self).grid@, n as int);
            lemma_board_after_none(origin, dir);
        }
        let mut walk = self.build_traversal(dir);
        let ghost mut done: int = 0;
        loop
            invariant
                self.wf(),
                self.size == n,
                self.start_tiles == old(self).start_tiles,
                self.playing == old(self).playing,
                origin.len() == n,
                is_square(origin, n as int),
                is_placed(origin),
                is_prepared(origin),
                dir.vector() == (step.0 as int, step.1 as int),
                0 <= done <= n * n,
                walk@ == visiting_order(n as int, dir).skip(done),
                self.grid@ == board_after(origin, dir, done),
                moved == (self.grid@ != origin),
                values_positive(self.grid@),
                values_valid(origin) ==> values_valid(self.grid@),
                total_value(self.grid@) == total_value(origin),
                total_value(origin) <= isize::MAX,
                self.score - merged_value(self.grid@) + total_value(origin) == slack,
                slack <= usize::MAX,
            ensures
                done == n * n,
            decreases n * n - done,
        {
            let visit = walk.next();
            if visit.is_none() {
                break ;
            }
            let pos = visit.unwrap();
            proof {
                lemma_visit_cell(origin, dir, done);
            }
            let acted = self.push_tile(pos, step, Ghost(dir), Ghost(origin), Ghost(done));
            if acted {
                moved = true;
            }
            proof {
                assert(visiting_order(n as int, dir).skip(done).skip(1) =~= visiting_order(
                    n as int,
                    dir,
                ).skip(done + 1));
                done = done + 1;
            }
        }
        proof {
            lemma_board_after_all(origin, dir);
            if moved {
                lemma_change_leaves_room(origin, dir);
            }
            lemma_positive_no_negative(self.grid@, n as int);
            lemma_sum_bounds(self.grid@);
        }
        moved
    }

    /// The walk over the cells that suits a move in direction `dir`.
    pub fn build_traversal(&self, dir: Direction) -> (walk: Traversal)
        ensures
            walk@ == visiting_order(self.size as int, dir),
    {
        Traversal::new(self.size, dir)
    }

    /// Makes one move: pushes all tiles in direction `dir`, adds the value
    /// of every tile that a merge produces to the score and, if the board
    /// has changed, lets one new tile appear. Returns whether the board has
    /// changed.
    pub fn move_to(&mut self, dir: Direction) -> (moved: bool)
        requires
            old(self).wf(),
            old(self).within_limits(),
        ensures
            ({
                let start = prepared(old(self).grid@);
                let pushed = slid(start, dir);
                &&& moved == (pushed != start)
                &&& final(self).score == old(self).score + merged_value(pushed)
                &&& if moved {
                    has_room(pushed) && exists|value_draw: usize, cell_draw: usize|
                        final(self).grid@ == #[trigger] spawned(pushed, value_draw, cell_draw)
                } else {
                    final(self).grid@ == start
                }
            }),
            final(self).score == old(self).score + merged_value(final(self).grid@),
            old(self).score <= final(self).score <= old(self).score + total_value(
                old(self).grid@,
            ),
            !moved ==> final(self).score == old(self).score && face(final(self).grid@) == face(
                old(self).grid@,
            ),
            !moved && is_prepared(old(self).grid@) ==> final(self).grid@ == old(self).grid@,
            total_value(final(self).grid@) <= total_value(old(self).grid@) + 4,
            values_positive(final(self).grid@),
            values_valid(old(self).grid@) ==> values_valid(final(self).grid@),
            final(self).grid.size == old(self).grid.size,
            final(self).size == old(self).size,
            final(self).start_tiles == old(self).start_tiles,
            final(self).playing == old(self).playing,
            final(self).wf(),
    {
        proof {
            lemma_prepared(old(self).grid@, self.size as int);
            if is_prepared(old(self).grid@) {
                lemma_prepared_again(old(self).grid@);
            }
        }
        let moved = self.slide_tiles(dir);
        if moved {
            self.add_random_tile();
        }
        moved
    }

    /// Whether a move is left: the grid has an empty cell, or two tiles of
    /// one value stand side by side.
    pub fn moves_available(&self) -> (any: bool)
        requires
            self.wf(),
        ensures
            any == (has_room(self.grid@) || has_match(self.grid@)),
    {
        self.grid.cells_available() || self.tile_matches_available()
    }

    /// Whether two tiles of one value stand side by side.
    pub fn tile_matches_available(&self) -> (found: bool)
        requires
            self.wf(),
        ensures
            found == has_match(self.grid@),
    {
        let n = self.size;
        let ghost g = self.grid@;
        let dirs = Direction::all_directions();
        let mut x: usize = 0;
        while x < n
            invariant
                self.wf(),
                n == self.size,
                g == self.grid@,
                x <= n,
                dirs@ == seq![Direction::Up, Direction::Right, Direction::Down, Direction::Left],
                forall|i: int, j: int, d: Direction|
                    0 <= i < x && 0 <= j < n ==> !#[trigger] matches_neighbour(g, i, j, d),
            decreases n - x,
        {
            let mut y: usize = 0;
            while y < n
                invariant
                    self.wf(),
                    n == self.size,
                    g == self.grid@,
                    x < n,
                    y <= n,
                    dirs@ == seq![
                        Direction::Up,
                        Direction::Right,
                        Direction::Down,
                        Direction::Left,
                    ],
                    forall|i: int, j: int, d: Direction|
                        0 <= i < x && 0 <= j < n ==> !#[trigger] matches_neighbour(g, i, j, d),
                    forall|j: int, d: Direction|
                        0 <= j < y ==> !#[trigger] matches_neighbour(g, x as int, j, d),
                decreases n - y,
            {
                match self.grid.cell_content((x, y)) {
                    Some(tile) => {
                        let mut k: usize = 0;
                        while k < dirs.len()
                            invariant
                                self.wf(),
                                n == self.size,
                                g == self.grid@,
                                x < n,
                                y < n,
                                k <= dirs@.len(),
                                g[x as int][y as int] == Some(tile),
                                dirs@ == seq![
                                    Direction::Up,
                                    Direction::Right,
                                    Direction::Down,
                                    Direction::Left,
                                ],
                                forall|q: int|
                                    0 <= q < k ==> !matches_neighbour(
                                        g,
                                        x as int,
                                        y as int,
                                        #[trigger] dirs@[q],
                                    ),
                            decreases dirs@.len() - k,
                        {
                            let step = dirs[k].to_vector();
                            let nx = step_coord(x, step.0);
                            let ny = step_coord(y, step.1);
                            match self.grid.cell_content((nx, ny)) {
                                Some(other) => {
                                    if other.value == tile.value {
                                        assert(matches_neighbour(g, x as int, y as int, dirs@[k as int]));
                                        return true;
                                    }
                                },
                                None => {},
                            }
                            k += 1;
                        }
                        assert forall|d: Direction| !#[trigger] matches_neighbour(
                            g,
                            x as int,
                            y as int,
                            d,
                        ) by {
                            assert(d == dirs@[0] || d == dirs@[1] || d == dirs@[2] || d == dirs@[3]);
                        }
                    },
                    None => {},
                }
                y += 1;
            }
            x += 1;
        }
        false
    }
}

} // verus!
