//! The state of one grid cell and how a flag toggles it.
use vstd::prelude::*;

verus! {

/// One cell of the board.
#[derive(Clone, Copy, Debug, PartialEq, Eq, Structural)]
pub enum Tile {
    Mine,
    Safe,
    FlaggedSafe,
    FlaggedMine,
    /// An opened cell with the number of neighbouring mines.
    Revealed(u8),
}

/// What a reveal led to.
#[derive(Clone, Copy, Debug, PartialEq, Eq, Structural)]
pub enum RevealOutcome {
    Continue,
    Exploded,
}

/// A tile that counts as a mine for its neighbours.
pub open spec fn is_mine_like(t: Tile) -> bool {
    t is Mine || t is FlaggedMine
}

/// A tile that the flood fill may still open.
pub open spec fn is_unopened(t: Tile) -> bool {
    t is Mine || t is Safe
}

/// The state a flag toggle moves a tile to.
pub open spec fn flagged(t: Tile) -> Tile {
    match t {
        Tile::Mine => Tile::FlaggedMine,
        Tile::FlaggedMine => Tile::Mine,
        Tile::Safe => Tile::FlaggedSafe,
        Tile::FlaggedSafe => Tile::Safe,
        Tile::Revealed(n) => Tile::Revealed(n),
    }
}

impl Tile {
    /// True for `Mine` and `FlaggedMine`.
    pub fn is_mine_like(&self) -> (r: bool)
        ensures
            r == is_mine_like(*self),
    {
        match self {
            Tile::Mine | Tile::FlaggedMine => true,
            _ => false,
        }
    }

    /// True for `Mine` and `Safe`.
    pub fn is_unopened(&self) -> (r: bool)
        ensures
            r == is_unopened(*self),
    {
        match self {
            Tile::Mine | Tile::Safe => true,
            _ => false,
        }
    }

    /// The tile after a flag toggle.
    pub fn toggled(&self) -> (r: Tile)
        ensures
            r == flagged(*self),
    {
        match self {
            Tile::Mine => Tile::FlaggedMine,
            Tile::FlaggedMine => Tile::Mine,
            Tile::Safe => Tile::FlaggedSafe,
            Tile::FlaggedSafe => Tile::Safe,
            Tile::Revealed(n) => Tile::Revealed(*n),
        }
    }
}

/// Flagging twice gives the tile back; a revealed tile ignores flags.
pub proof fn lemma_flagged_involution(t: Tile)
    ensures
        flagged(flagged(t)) == t,
        t is Revealed ==> flagged(t) == t,
{
}

/// The colour a glyph is drawn in.
#[derive(Clone, Copy, Debug, PartialEq, Eq, Structural)]
pub enum TileColor {
    White,
    BrightWhite,
    Yellow,
    Red,
    BrightRed,
    Blue,
    Green,
    Purple,
    Cyan,
    BrightBlack,
}

/// What a tile is drawn as: a character and its colour.
#[derive(Clone, Copy, Debug, PartialEq, Eq, Structural)]
pub struct Glyph {
    pub symbol: char,
    pub color: TileColor,
}

/// The digit drawn for a count of neighbouring mines; zero is blank.
pub open spec fn count_glyph(n: u8) -> Glyph {
    if n == 1 { Glyph { symbol: '1', color: TileColor::Blue } }
    else if n == 2 { Glyph { symbol: '2', color: TileColor::Green } }
    else if n == 3 { Glyph { symbol: '3', color: TileColor::BrightRed } }
    else if n == 4 { Glyph { symbol: '4', color: TileColor::Purple } }
    else if n == 5 { Glyph { symbol: '5', color: TileColor::Red } }
    else if n == 6 { Glyph { symbol: '6', color: TileColor::Cyan } }
    else if n == 7 { Glyph { symbol: '7', color: TileColor::White } }
    else if n == 8 { Glyph { symbol: '8', color: TileColor::BrightBlack } }
    else { Glyph { symbol: ' ', color: TileColor::White } }
}

/// How a tile is drawn, while the game runs and once it is over: mines
/// show only at the end, and a flag on a mine then shows as `!`.
pub open spec fn glyph(t: Tile, game_over: bool) -> Glyph {
    match t {
        Tile::Mine => if game_over { Glyph { symbol: 'X', color: TileColor::Red } } else { Glyph { symbol: '-', color: TileColor::White } },
        Tile::Safe => if game_over { Glyph { symbol: '-', color: TileColor::BrightWhite } } else { Glyph { symbol: '-', color: TileColor::White } },
        Tile::FlaggedSafe => Glyph { symbol: 'F', color: TileColor::Yellow },
        Tile::FlaggedMine => if game_over { Glyph { symbol: '!', color: TileColor::Yellow } } else { Glyph { symbol: 'F', color: TileColor::Yellow } },
        Tile::Revealed(n) => count_glyph(n),
    }
}

impl Tile {
    /// The glyph this tile is drawn as.
    pub fn get_char(&self, game_over: bool) -> (g: Glyph)
        ensures
            g == glyph(*self, game_over),
    {
        match self {
            Tile::Mine => if game_over {
                Glyph { symbol: 'X', color: TileColor::Red }
            } else {
                Glyph { symbol: '-', color: TileColor::White }
            },
            Tile::Safe => if game_over {
                Glyph { symbol: '-', color: TileColor::BrightWhite }
            } else {
                Glyph { symbol: '-', color: TileColor::White }
            },
            Tile::FlaggedSafe => Glyph { symbol: 'F', color: TileColor::Yellow },
            Tile::FlaggedMine => if game_over {
                Glyph { symbol: '!', color: TileColor::Yellow }
            } else {
                Glyph { symbol: 'F', color: TileColor::Yellow }
            },
            Tile::Revealed(n) => match *n {
                1 => Glyph { symbol: '1', color: TileColor::Blue },
                2 => Glyph { symbol: '2', color: TileColor::Green },
                3 => Glyph { symbol: '3', color: TileColor::BrightRed },
                4 => Glyph { symbol: '4', color: TileColor::Purple },
                5 => Glyph { symbol: '5', color: TileColor::Red },
                6 => Glyph { symbol: '6', color: TileColor::Cyan },
                7 => Glyph { symbol: '7', color: TileColor::White },
                8 => Glyph { symbol: '8', color: TileColor::BrightBlack },
                _ => Glyph { symbol: ' ', color: TileColor::White },
            },
        }
    }
}

} // verus!
