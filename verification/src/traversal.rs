use vstd::prelude::*;
use vstd::arithmetic::div_mod::lemma_fundamental_div_mod_converse;
use vstd::arithmetic::mul::lemma_mul_inequality;
use crate::direction::Direction;

verus! {

/// The order in which a move takes the `x` coordinates: ascending, and
/// descending when it pushes towards larger `x`.
pub open spec fn x_order(n: int, dir: Direction) -> Seq<usize> {
    Seq::new(
        n as nat,
        |i: int|
            if dir.vector().0 == 1 {
                (n - 1 - i) as usize
            } else {
                i as usize
            },
    )
}

/// The order in which a move takes the `y` coordinates: ascending, and
/// descending when it pushes towards larger `y`.
pub open spec fn y_order(n: int, dir: Direction) -> Seq<usize> {
    Seq::new(
        n as nat,
        |i: int|
            if dir.vector().1 == 1 {
                (n - 1 - i) as usize
            } else {
                i as usize
            },
    )
}

/// The order in which a move in direction `dir` visits the cells of an
/// `n`-by-`n` board: for each `x`, in the order of `x_order`, every `y`, in
/// the order of `y_order`. So the cells that lie nearer to the edge that
/// the tiles are pushed against come first.
pub open spec fn visiting_order(n: int, dir: Direction) -> Seq<(usize, usize)> {
    Seq::new((n * n) as nat, |i: int| (x_order(n, dir)[i / n], y_order(n, dir)[i % n]))
}

/// A walk over all cells of a board in the order that suits one direction.
/// Its view is the sequence of cells that it has yet to hand out.
pub struct Traversal {
    xs: Vec<usize>,
    ys: Vec<usize>,
    col: usize,
    row: usize,
}

impl View for Traversal {
    type V = Seq<(usize, usize)>;

    closed spec fn view(&self) -> Seq<(usize, usize)> {
        self.whole().skip(self.col * self.xs@.len() + self.row)
    }
}

impl Traversal {
    #[verifier::type_invariant]
    /// The two orders are of one length, and the position lies within the
    /// walk or at its end.
    spec fn inv(self) -> bool {
        &&& self.xs@.len() == self.ys@.len()
        &&& self.col <= self.xs@.len()
        &&& self.row < self.xs@.len() || self.row == 0
        &&& self.col == self.xs@.len() ==> self.row == 0
    }

    /// Every cell of the walk, those already handed out included.
    spec fn whole(self) -> Seq<(usize, usize)> {
        let n = self.xs@.len() as int;
        Seq::new((n * n) as nat, |i: int| (self.xs@[i / n], self.ys@[i % n]))
    }

    /// The walk over a `size`-by-`size` board for a move in direction `dir`,
    /// at its start.
    pub fn new(size: usize, dir: Direction) -> (t: Traversal)
        ensures
            t@ == visiting_order(size as int, dir),
    {
        let (dx, dy) = dir.to_vector();
        let xs = Self::axis_order(size, dx == 1);
        let ys = Self::axis_order(size, dy == 1);
        let t = Traversal { xs, ys, col: 0, row: 0 };
        assert(t.whole() =~= visiting_order(size as int, dir));
        assert(t@ =~= t.whole());
        t
    }

    /// The indices `0..size`, from the top down if `reversed`.
    fn axis_order(size: usize, reversed: bool) -> (order: Vec<usize>)
        ensures
            order@ == Seq::new(
                size as nat,
                |i: int|
                    if reversed {
                        (size - 1 - i) as usize
                    } else {
                        i as usize
                    },
            ),
    {
        let mut order: Vec<usize> = Vec::new();
        let mut i: usize = 0;
        while i < size
            invariant
                i <= size,
                order@ == Seq::new(
                    i as nat,
                    |j: int|
                        if reversed {
                            (size - 1 - j) as usize
                        } else {
                            j as usize
                        },
                ),
            decreases size - i,
        {
            let item = if reversed {
                size - 1 - i
            } else {
                i
            };
            order.push(item);
            i += 1;
        }
        order
    }

    /// Hands out the next cell of the walk, if one is left.
    pub fn next(&mut self) -> (cell: Option<(usize, usize)>)
        ensures
            old(self)@.len() == 0 ==> cell is None && final(self)@ == old(self)@,
            old(self)@.len() > 0 ==> cell == Some(old(self)@[0]) && final(self)@ == old(
                self,
            )@.skip(1),
    {
        proof {
            use_type_invariant(&*self);
        }
        let n = self.xs.len();
        let ghost whole = self.whole();
        let ghost col = self.col;
        let ghost row = self.row;
        let ghost done = col * n + row;
        proof {
            lemma_mul_inequality(self.col as int, n as int, n as int);
            if self.col < n {
                lemma_mul_inequality(self.col as int + 1, n as int, n as int);
                assert((self.col + 1) * n == self.col * n + n) by (nonlinear_arith);
                lemma_fundamental_div_mod_converse(
                    done as int,
                    n as int,
                    self.col as int,
                    self.row as int,
                );
            }
        }
        if self.col == n {
            None
        } else {
            let cell = (self.xs[self.col], self.ys[self.row]);
            assert(cell == whole[done as int]);
            if self.row + 1 == n {
                self.row = 0;
                self.col = self.col + 1;
            } else {
                self.row = self.row + 1;
            }
            assert(self.whole() == whole);
            assert(self.col * n + self.row == done + 1) by (nonlinear_arith)
                requires
                    done == col * n + row,
                    (self.col == col + 1 && self.row == 0 && row + 1 == n) || (self.col == col
                        && self.row == row + 1),
            ;
            assert(whole.skip(done as int).skip(1) =~= whole.skip(done as int + 1));
            Some(cell)
        }
    }
}

} // verus!
