use vstd::prelude::*;

verus! {

/// A numbered piece on the board, together with what the last move did to it.
///
/// `prev_pos` is where the tile stood before the current move, and
/// `merged_from` names the two cells whose tiles were combined into this one
/// during the current move.
#[derive(PartialEq, Clone, Debug, Copy)]
pub struct Tile {
    pub x: usize,
    pub y: usize,
    pub value: isize,
    pub prev_pos: Option<(usize, usize)>,
    pub merged_from: Option<((usize, usize), (usize, usize))>,
}

/// What a cell of the board holds: a tile or nothing.
pub type Slot = Option<Tile>;

impl Tile {
    /// A tile with no history.
    pub open spec fn fresh(x: usize, y: usize, value: isize) -> Tile {
        Tile { x, y, value, prev_pos: None, merged_from: None }
    }

    /// The tile as it is at the start of a move: no merge recorded, and its
    /// own cell recorded as the previous position.
    pub open spec fn prepared(self) -> Tile {
        Tile { prev_pos: Some((self.x, self.y)), merged_from: None, ..self }
    }

    /// The same tile standing on another cell.
    pub open spec fn moved_to(self, x: usize, y: usize) -> Tile {
        Tile { x, y, ..self }
    }

    /// A tile of the given value on `pos`, with no history.
    pub fn new(pos: (usize, usize), value: isize) -> (tile: Tile)
        ensures
            tile == Tile::fresh(pos.0, pos.1, value),
    {
        Tile { x: pos.0, y: pos.1, value, prev_pos: None, merged_from: None }
    }

    /// Records the cell that the tile stands on as its previous position.
    pub fn save_position(&mut self)
        ensures
            *final(self) == (Tile { prev_pos: Some((old(self).x, old(self).y)), ..*old(self) }),
    {
        self.prev_pos = Some((self.x, self.y));
    }

    /// Puts the coordinates `pos` on the tile. The grid is not touched.
    pub fn update_position(&mut self, pos: (usize, usize))
        ensures
            *final(self) == old(self).moved_to(pos.0, pos.1),
    {
        self.x = pos.0;
        self.y = pos.1;
    }

    /// The coordinates that the tile carries.
    pub fn pos(&self) -> (p: (usize, usize))
        ensures
            p == (self.x, self.y),
    {
        (self.x, self.y)
    }
}

} // verus!
