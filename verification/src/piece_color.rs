//! Piece colour and the colour-derived constants: pawn move directions,
//! promotion rows and starting piece rows.

use crate::board_rep::RelativeBoardPos;
use vstd::prelude::*;

verus! {

/// The two sides of the game.
#[derive(Clone, Copy, PartialEq, Eq, Structural, Debug, Hash)]
pub enum PieceColor {
    Black,
    White,
}

impl PieceColor {
    /// Row direction a pawn of this colour moves in: +1 for White, -1 for Black.
    pub open spec fn pawn_forward(self) -> i8 {
        match self {
            PieceColor::White => 1,
            PieceColor::Black => (-1) as i8,
        }
    }

    fn forward(self) -> (r: i8)
        ensures
            r == self.pawn_forward(),
    {
        match self {
            PieceColor::White => 1,
            PieceColor::Black => -1,
        }
    }

    /// Regular pawn move direction for a pawn that has already moved.
    pub fn pawn_single_step(self) -> (r: Vec<RelativeBoardPos>)
        ensures
            r@ =~= seq![RelativeBoardPos(self.pawn_forward(), 0)],
    {
        let f = self.forward();
        let mut v: Vec<RelativeBoardPos> = Vec::new();
        v.push(RelativeBoardPos(f, 0));
        v
    }

    /// Pawn move directions for a pawn that has not moved yet: one or two
    /// squares straight ahead.
    pub fn pawn_double_step(self) -> (r: Vec<RelativeBoardPos>)
        ensures
            r@ =~= seq![
                RelativeBoardPos(self.pawn_forward(), 0),
                RelativeBoardPos((2 * self.pawn_forward()) as i8, 0),
            ],
    {
        let f = self.forward();
        let mut v: Vec<RelativeBoardPos> = Vec::new();
        v.push(RelativeBoardPos(f, 0));
        v.push(RelativeBoardPos(2 * f, 0));
        v
    }

    /// Pawn capture directions: one square ahead, one column aside.
    pub fn pawn_takes_step(self) -> (r: Vec<RelativeBoardPos>)
        ensures
            r@ =~= seq![
                RelativeBoardPos(self.pawn_forward(), 1),
                RelativeBoardPos(self.pawn_forward(), (-1) as i8),
            ],
    {
        let f = self.forward();
        let mut v: Vec<RelativeBoardPos> = Vec::new();
        v.push(RelativeBoardPos(f, 1));
        v.push(RelativeBoardPos(f, -1));
        v
    }

    /// Row on which a pawn of this colour promotes.
    pub fn pawn_promotion_row(self) -> (r: u8)
        ensures
            r == (match self {
                PieceColor::White => 7u8,
                PieceColor::Black => 0u8,
            }),
    {
        match self {
            PieceColor::White => 7,
            PieceColor::Black => 0,
        }
    }

    /// Row on which the starting board has the pieces of this colour.
    pub fn piece_row(self) -> (r: u8)
        ensures
            r == (match self {
                PieceColor::White => 0u8,
                PieceColor::Black => 7u8,
            }),
    {
        match self {
            PieceColor::White => 0,
            PieceColor::Black => 7,
        }
    }

    /// Colour carried by an encoded piece nibble: bit 3 set means White.
    pub open spec fn spec_from_u8(colour: u8) -> PieceColor {
        if colour & 8 != 0 {
            PieceColor::White
        } else {
            PieceColor::Black
        }
    }

    /// Decode the colour bit of an encoded piece value.
    pub fn from_u8(colour: u8) -> (r: Self)
        ensures
            r == Self::spec_from_u8(colour),
    {
        if colour & 8 > 0 {
            PieceColor::White
        } else {
            PieceColor::Black
        }
    }

    /// The encoded piece value with this colour's bit merged in.
    pub open spec fn spec_add_to_u8(self, prepped: u8) -> u8 {
        match self {
            PieceColor::White => prepped | 8,
            PieceColor::Black => prepped,
        }
    }

    /// Merge this colour's bit into an encoded piece value.
    pub fn add_to_u8(self, prepped: u8) -> (r: u8)
        ensures
            r == self.spec_add_to_u8(prepped),
    {
        proof {
            assert(prepped | 0 == prepped) by (bit_vector);
        }
        prepped | (match self {
            PieceColor::White => 8,
            PieceColor::Black => 0,
        })
    }
}

} // verus!
