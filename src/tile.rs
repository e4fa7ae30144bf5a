//! The cells of the grid and the flat array that holds them.
use vstd::prelude::*;

use crate::colour::Power;

verus! {

/// Stamp of the move that placed a tile, by merging or by spawning.
pub type Generation = u32;

/// Number of playable cells along one side of the grid.
pub const NUMBER_TILES_PER_LINE: usize = 4;

/// Side of the whole grid: the playable cells and a one cell border around them.
pub const BOARD_DIMENSION: usize = 6;

/// Number of cells of the whole grid, border included.
pub const BOARD_CELLS: usize = 36;

/// Which side of the grid a border edge cell lies on.
#[derive(Clone, Copy, Debug, PartialEq, Eq, Structural)]
pub enum EdgeSide {
    Top,
    Bottom,
    Left,
    Right,
}

/// Which corner of the grid a border corner cell is.
#[derive(Clone, Copy, Debug, PartialEq, Eq, Structural)]
pub enum CornerSide {
    TopLeft,
    TopRight,
    BottomLeft,
    BottomRight,
}

/// One cell of the grid.
#[derive(Clone, Copy, Debug, PartialEq, Eq, Structural)]
pub enum Tile {
    /// A playable cell with no tile on it.
    Empty(),
    /// A tile showing `2^power`, stamped with the move that last merged it.
    Number(Power, Generation),
    /// Border between two corners; never changes.
    Edge(EdgeSide),
    /// Border corner; never changes.
    Corner(CornerSide),
}

/// The whole grid, border included, row by row.
#[derive(Clone, Copy)]
pub struct Tiles(pub [Tile; BOARD_CELLS]);

/// Flat index of the cell at row `r` and column `c`.
pub open spec fn cell_index(r: int, c: int) -> int {
    r * BOARD_DIMENSION + c
}

/// Whether `(r, c)` is a playable cell.
pub open spec fn is_interior(r: int, c: int) -> bool {
    1 <= r <= 4 && 1 <= c <= 4
}

/// Whether `(r, c)` lies on the grid.
pub open spec fn on_grid(r: int, c: int) -> bool {
    0 <= r < BOARD_DIMENSION && 0 <= c < BOARD_DIMENSION
}

/// The border cell that belongs at `(r, c)` of the outer ring.
pub open spec fn border_at(r: int, c: int) -> Tile {
    if r == 0 {
        if c == 0 {
            Tile::Corner(CornerSide::TopLeft)
        } else if c == 5 {
            Tile::Corner(CornerSide::TopRight)
        } else {
            Tile::Edge(EdgeSide::Top)
        }
    } else if r == 5 {
        if c == 0 {
            Tile::Corner(CornerSide::BottomLeft)
        } else if c == 5 {
            Tile::Corner(CornerSide::BottomRight)
        } else {
            Tile::Edge(EdgeSide::Bottom)
        }
    } else if c == 0 {
        Tile::Edge(EdgeSide::Left)
    } else {
        Tile::Edge(EdgeSide::Right)
    }
}

impl Tile {
    /// Whether the cell is playable: empty or holding a number.
    pub open spec fn is_playable(self) -> bool {
        self is Empty || self is Number
    }

    /// Whether the cell holds no tile.
    pub fn is_empty(&self) -> (r: bool)
        ensures
            r == (*self is Empty),
    {
        match self {
            Tile::Empty() => true,
            _ => false,
        }
    }
}

/// The cell at row `r` and column `c` of a grid held row by row in `s`.
pub open spec fn cell(s: Seq<Tile>, r: int, c: int) -> Tile {
    s[cell_index(r, c)]
}

/// Whether `s` is a whole grid whose outer ring is border and whose other
/// cells are playable.
pub open spec fn cells_wf(s: Seq<Tile>) -> bool {
    &&& s.len() == BOARD_CELLS
    &&& forall|r: int, c: int|
        on_grid(r, c) ==> if is_interior(r, c) {
            (#[trigger] cell(s, r, c)).is_playable()
        } else {
            cell(s, r, c) == border_at(r, c)
        }
}

/// Every index of the grid is the flat index of one of its cells.
pub proof fn lemma_cell_of_index(i: int)
    requires
        0 <= i < BOARD_CELLS,
    ensures
        on_grid(i / 6, i % 6),
        cell_index(i / 6, i % 6) == i,
{
}

impl View for Tiles {
    type V = Seq<Tile>;

    open spec fn view(&self) -> Seq<Tile> {
        self.0@
    }
}

impl Tiles {
    /// The cell at row `r` and column `c`.
    pub fn get(&self, r: usize, c: usize) -> (t: Tile)
        requires
            r < BOARD_DIMENSION,
            c < BOARD_DIMENSION,
        ensures
            t == cell(self@, r as int, c as int),
    {
        self.0[r * BOARD_DIMENSION + c]
    }

    /// Puts `t` at row `r` and column `c`.
    pub fn set(&mut self, r: usize, c: usize, t: Tile)
        requires
            r < BOARD_DIMENSION,
            c < BOARD_DIMENSION,
        ensures
            final(self)@ == old(self)@.update(cell_index(r as int, c as int), t),
    {
        self.0[r * BOARD_DIMENSION + c] = t;
    }
}

} // verus!
