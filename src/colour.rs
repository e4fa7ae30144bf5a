//! Terminal colours for tiles, chosen by tile power.
//!
//! The colours are taken from the 256 colour ANSI cube, walking a box-shaped
//! segment of it: up the left column, across the top row, down the right
//! column and across the bottom row, then starting again.
use vstd::prelude::*;

verus! {

/// Power of two shown on a tile.
pub type Power = u32;

/// Leftmost column of the colour segment inside the colour cube.
pub const COLOUR_LEFT_COLUMN: Power = 18;

/// Rightmost column of the colour segment inside the colour cube.
pub const COLOUR_RIGHT_COLUMN: Power = 23;

/// Number of distinct colours before the walk repeats.
pub const COLOUR_CYCLE: Power = 13;

/// A position inside the colour cube; the default value means "no colour".
#[derive(Debug, PartialEq, Eq, Structural)]
pub struct Colour {
    pub row: Power,
    pub column: Power,
}

/// The colour of a power that already lies inside one turn of the walk.
pub open spec fn colour_in_cycle(p: Power) -> Colour
    recommends
        p < COLOUR_CYCLE,
{
    if p == 0 {
        Colour { row: 0, column: 0 }
    } else if p <= 3 {
        Colour { row: (5 - (p - 1) * 2) as Power, column: COLOUR_LEFT_COLUMN }
    } else if p <= 6 {
        Colour { row: 0, column: (COLOUR_LEFT_COLUMN + (p - 4) * 2) as Power }
    } else if p <= 9 {
        Colour { row: ((p - 7) * 2) as Power, column: COLOUR_RIGHT_COLUMN }
    } else {
        Colour { row: 5, column: (COLOUR_RIGHT_COLUMN + (p - 10) * 2) as Power }
    }
}

/// The colour of any power: the walk repeats every `COLOUR_CYCLE` powers.
pub open spec fn colour_of(p: Power) -> Colour {
    colour_in_cycle(p % COLOUR_CYCLE)
}

impl Default for Colour {
    fn default() -> (r: Self)
        ensures
            r == (Colour { row: 0, column: 0 }),
    {
        Colour { row: 0, column: 0 }
    }
}

impl Colour {
    /// The colour of a tile of the given power.
    pub fn from_power(power: Power) -> (r: Self)
        ensures
            r == colour_of(power),
            power % COLOUR_CYCLE == 0 ==> r == (Colour { row: 0, column: 0 }),
            r.row <= 5,
            r.column <= 27,
    {
        let p = power % COLOUR_CYCLE;
        if p == 0 {
            Colour { row: 0, column: 0 }
        } else if p <= 3 {
            Colour { row: 5 - (p - 1) * 2, column: COLOUR_LEFT_COLUMN }
        } else if p <= 6 {
            Colour { row: 0, column: COLOUR_LEFT_COLUMN + (p - 4) * 2 }
        } else if p <= 9 {
            Colour { row: (p - 7) * 2, column: COLOUR_RIGHT_COLUMN }
        } else {
            Colour { row: 5, column: COLOUR_RIGHT_COLUMN + (p - 10) * 2 }
        }
    }

    /// Whether this is the default, uncoloured value.
    pub fn is_plain(&self) -> (r: bool)
        ensures
            r == (self.row == 0 && self.column == 0),
    {
        self.row == 0 && self.column == 0
    }

    /// The 256 colour palette indices `(background, foreground)` to draw with.
    ///
    /// The uncoloured value draws white on black; any other draws black on
    /// its cube position.
    pub fn palette(&self) -> (r: (u32, u32))
        requires
            self.row <= 5,
            self.column <= 36,
        ensures
            self.row == 0 && self.column == 0 ==> r == (0u32, 15u32),
            !(self.row == 0 && self.column == 0) ==> r == ((16 + self.column + self.row * 36) as u32,
                0u32),
    {
        if self.is_plain() {
            (0, 15)
        } else {
            (16 + self.column + self.row * 36, 0)
        }
    }
}

} // verus!
