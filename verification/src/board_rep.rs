//! Plain value types handed in by the move-generation collaborator: board
//! squares, relative offsets and fully formed moves. The cache never parses
//! notation; it only compares these values.

use vstd::prelude::*;
use vstd::string::StringExecFns;

verus! {

/// A square of the board as (row, column), both zero-based, row-major.
#[derive(Clone, Copy, PartialEq, Eq, Structural, Debug, Hash)]
pub struct BoardPos(pub u8, pub u8);

/// A (row offset, column offset) pair used for colour-derived pawn moves.
#[derive(Clone, Copy, PartialEq, Eq, Structural, Debug, Hash)]
pub struct RelativeBoardPos(pub i8, pub i8);

/// A fully formed move. The continuation cache treats moves as opaque keys
/// and compares them only by value.
#[derive(Clone, Copy, PartialEq, Eq, Structural, Debug, Hash)]
pub struct PossibleMove {
    pub from: BoardPos,
    pub to: BoardPos,
}

impl PossibleMove {
    /// Coordinate text of this move, such as "e2e4", for diagnostics only;
    /// a square outside the board renders as "?".
    pub fn uci(&self) -> String {
        let mut out = String::new();
        out.append(file_text(self.from.1));
        out.append(rank_text(self.from.0));
        out.append(file_text(self.to.1));
        out.append(rank_text(self.to.0));
        out
    }
}

/// The file letter of a column.
fn file_text(col: u8) -> &'static str {
    match col {
        0 => "a",
        1 => "b",
        2 => "c",
        3 => "d",
        4 => "e",
        5 => "f",
        6 => "g",
        7 => "h",
        _ => "?",
    }
}

/// The rank digit of a row.
fn rank_text(row: u8) -> &'static str {
    match row {
        0 => "1",
        1 => "2",
        2 => "3",
        3 => "4",
        4 => "5",
        5 => "6",
        6 => "7",
        7 => "8",
        _ => "?",
    }
}

} // verus!
