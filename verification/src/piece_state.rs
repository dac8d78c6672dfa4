//! Piece kinds and the 4-bit packed encoding of an optional piece: an empty
//! square is the all-zero nibble, bit 3 carries the colour, and bits 0..2
//! carry the kind. Every 4-bit pattern decodes to a defined value.

use crate::piece_color::PieceColor;
use vstd::prelude::*;

verus! {

/// The six chess piece kinds.
#[derive(Clone, Copy, PartialEq, Eq, Structural, Debug, Hash)]
pub enum PieceKind {
    Pawn,
    Knight,
    Bishop,
    Rook,
    Queen,
    King,
}

impl PieceKind {
    /// The 3-bit code of this kind inside a packed nibble, in 1..=6.
    pub open spec fn spec_code(self) -> u8 {
        match self {
            PieceKind::Pawn => 1,
            PieceKind::Knight => 2,
            PieceKind::Bishop => 3,
            PieceKind::Rook => 4,
            PieceKind::Queen => 5,
            PieceKind::King => 6,
        }
    }

    /// Kind encoded by a 3-bit code; 0 and 7 carry no piece.
    pub open spec fn spec_from_code(code: u8) -> Option<PieceKind> {
        if code == 1 {
            Some(PieceKind::Pawn)
        } else if code == 2 {
            Some(PieceKind::Knight)
        } else if code == 3 {
            Some(PieceKind::Bishop)
        } else if code == 4 {
            Some(PieceKind::Rook)
        } else if code == 5 {
            Some(PieceKind::Queen)
        } else if code == 6 {
            Some(PieceKind::King)
        } else {
            None
        }
    }

    fn code(self) -> (r: u8)
        ensures
            r == self.spec_code(),
    {
        match self {
            PieceKind::Pawn => 1,
            PieceKind::Knight => 2,
            PieceKind::Bishop => 3,
            PieceKind::Rook => 4,
            PieceKind::Queen => 5,
            PieceKind::King => 6,
        }
    }
}

/// A piece as stored on a square: its kind and its colour.
#[derive(Clone, Copy, PartialEq, Eq, Structural, Debug, Hash)]
pub struct PieceState {
    pub kind: PieceKind,
    pub color: PieceColor,
}

impl PieceState {
    /// Packed nibble of an optional piece: 0 for an empty square, otherwise
    /// the kind code with the colour bit merged in.
    pub open spec fn spec_bits(piece: Option<PieceState>) -> u8 {
        match piece {
            None => 0,
            Some(p) => p.color.spec_add_to_u8(p.kind.spec_code()),
        }
    }

    /// Encode an optional piece into its packed nibble.
    pub fn bits(piece: &Option<PieceState>) -> (r: u8)
        ensures
            r == Self::spec_bits(*piece),
    {
        match piece {
            None => 0,
            Some(p) => p.color.add_to_u8(p.kind.code()),
        }
    }

    /// Total decoding of a packed value: the low three bits select the kind
    /// (0 and 7 mean an empty square), bit 3 selects the colour.
    pub open spec fn spec_from_u8(code: u8) -> Option<PieceState> {
        match PieceKind::spec_from_code(code & 7) {
            Some(k) => Some(PieceState { kind: k, color: PieceColor::spec_from_u8(code) }),
            None => None,
        }
    }

    /// Decode a packed value; every input maps to a defined result.
    pub fn from_u8(code: u8) -> (r: Option<PieceState>)
        ensures
            r == Self::spec_from_u8(code),
    {
        let kind_code = code & 7;
        let kind = if kind_code == 1 {
            Some(PieceKind::Pawn)
        } else if kind_code == 2 {
            Some(PieceKind::Knight)
        } else if kind_code == 3 {
            Some(PieceKind::Bishop)
        } else if kind_code == 4 {
            Some(PieceKind::Rook)
        } else if kind_code == 5 {
            Some(PieceKind::Queen)
        } else if kind_code == 6 {
            Some(PieceKind::King)
        } else {
            None
        };
        match kind {
            Some(k) => Some(PieceState { kind: k, color: PieceColor::from_u8(code) }),
            None => None,
        }
    }
}

/// Encoding and decoding of a packed nibble invert each other: decoding the
/// nibble written for any optional piece yields that piece back, and the
/// nibble always fits in 4 bits.
pub proof fn lemma_bits_roundtrip(piece: Option<PieceState>)
    ensures
        PieceState::spec_from_u8(PieceState::spec_bits(piece)) == piece,
        PieceState::spec_bits(piece) < 16,
{
    match piece {
        None => {
            assert(PieceState::spec_bits(piece) == 0);
            assert((0u8 & 7) == 0) by (bit_vector);
        },
        Some(p) => {
            let k: u8 = p.kind.spec_code();
            assert(1 <= k <= 6);
            assert(PieceKind::spec_from_code(k) == Some(p.kind));
            match p.color {
                PieceColor::White => {
                    assert(((k | 8) & 7) == k && ((k | 8) & 8) != 0 && (k | 8) < 16) by (bit_vector)
                        requires
                            k < 8,
                    ;
                },
                PieceColor::Black => {
                    assert((k & 7) == k && (k & 8) == 0) by (bit_vector)
                        requires
                            k < 8,
                    ;
                },
            }
        },
    }
}

} // verus!
