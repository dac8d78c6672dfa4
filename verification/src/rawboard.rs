//! The packed board: eight rows of eight 4-bit slots in a `u32` each, with
//! constant-time square access, a row-major iterator over all 64 squares, and
//! the material evaluator with its mate sentinels.
//!
//! Scores are in hundredths of a pawn: a pawn is 100, a bishop 310, and the
//! mate sentinel is 100_000.

use crate::board_rep::BoardPos;
use crate::piece_color::PieceColor;
use crate::piece_state::lemma_bits_roundtrip;
use crate::piece_state::PieceKind;
use crate::piece_state::PieceState;
use vstd::prelude::*;

verus! {

/// Sentinel score of a position whose king situation ends the game, in
/// hundredths of a pawn.
pub const MATE: i32 = 100_000;

pub open spec fn spec_abs(x: int) -> int {
    if x >= 0 {
        x
    } else {
        -x
    }
}

/// A score counts as a mate score when it lies within 50 pawns of either
/// sentinel; search adjustments may perturb the literal sentinel value.
pub open spec fn spec_is_mate(score: int) -> bool {
    spec_abs(spec_abs(score) - MATE) < 5000
}

/// Classify a score as mate-like: within 50 pawns of either sentinel.
pub fn is_mate(score: i32) -> (r: bool)
    ensures
        r == spec_is_mate(score as int),
{
    let a: i64 = if score < 0 {
        -(score as i64)
    } else {
        score as i64
    };
    let d: i64 = if a >= MATE as i64 {
        a - MATE as i64
    } else {
        MATE as i64 - a
    };
    d < 5000
}

/// An 8x8 board packed into eight row words, one nibble per square;
/// an empty square is the all-zero nibble.
#[derive(Clone, Copy)]
pub struct RawBoard([u32; 8]);

impl RawBoard {
    /// The row words of the board.
    pub closed spec fn rows(self) -> Seq<u32> {
        self.0@
    }

    /// The nibble stored for column `col` of row word `w`.
    pub open spec fn nibble_of(w: u32, col: int) -> u8 {
        ((w >> ((col as u32) << 2)) & 15) as u8
    }

    /// The optional piece stored at a square, decoded from its nibble.
    pub open spec fn piece_at(self, row: int, col: int) -> Option<PieceState> {
        PieceState::spec_from_u8(Self::nibble_of(self.rows()[row], col))
    }

    /// A board with every square empty.
    pub fn empty() -> (r: Self)
        ensures
            forall|row: int, col: int|
                0 <= row < 8 && 0 <= col < 8 ==> r.piece_at(row, col) is None,
    {
        let r = RawBoard([0;8]);
        proof {
            broadcast use vstd::array::group_array_axioms;

            assert forall|row: int, col: int|
                0 <= row < 8 && 0 <= col < 8 implies r.piece_at(row, col) is None by {
                assert(r.rows()[row] == 0u32);
                let cu: u32 = col as u32;
                assert(((0u32 >> (cu << 2)) & 15) == 0) by (bit_vector);
                assert((0u8 & 7) == 0) by (bit_vector);
            }
        }
        r
    }

    /// Overwrite the 4-bit slot at the given square with the given optional
    /// piece; a pure storage operation that validates nothing, leaves every
    /// other square unchanged, and reads back as the piece written.
    pub fn set_loc(&mut self, pos: BoardPos, piece: &Option<PieceState>)
        requires
            pos.0 < 8,
            pos.1 < 8,
        ensures
            final(self).piece_at(pos.0 as int, pos.1 as int) == *piece,
            forall|r: int, c: int|
                0 <= r < 8 && 0 <= c < 8 && !(r == pos.0 as int && c == pos.1 as int)
                    ==> final(self).piece_at(r, c) == old(self).piece_at(r, c),
    {
        let BoardPos(row, col) = pos;
        proof {
            let cu: u32 = col as u32;
            assert(cu < 8 ==> (cu << 2) <= 28) by (bit_vector);
        }
        let shift_amount: u32 = (col as u32) << 2;
        let piece_mask: u32 = !(15u32 << shift_amount);
        let w: u32 = self.0[row as usize];
        let a_row: u32 = w & piece_mask;
        let piece_bits: u8 = PieceState::bits(piece);
        let a_bit_piece: u32 = (piece_bits as u32) << shift_amount;
        self.0[row as usize] = a_row | a_bit_piece;
        proof {
            lemma_bits_roundtrip(*piece);
            let cu: u32 = col as u32;
            let bv: u32 = piece_bits as u32;
            let w2: u32 = (w & !(15u32 << (cu << 2))) | (bv << (cu << 2));
            assert((((w & !(15u32 << (cu << 2))) | (bv << (cu << 2))) >> (cu << 2)) & 15
                == bv) by (bit_vector)
                requires
                    cu < 8,
                    bv < 16,
            ;
            assert(Self::nibble_of(w2, col as int) == piece_bits);
            assert forall|r: int, c: int|
                0 <= r < 8 && 0 <= c < 8 && !(r == pos.0 as int && c == pos.1 as int) implies final
                (self).piece_at(r, c) == old(self).piece_at(r, c) by {
                if r == row as int {
                    let c2: u32 = c as u32;
                    assert((((w & !(15u32 << (cu << 2))) | (bv << (cu << 2))) >> (c2 << 2)) & 15
                        == (w >> (c2 << 2)) & 15) by (bit_vector)
                        requires
                            cu < 8,
                            c2 < 8,
                            cu != c2,
                            bv < 16,
                    ;
                }
            }
        }
    }

    /// Read the optional piece stored at the given square.
    pub fn get_loc(&self, pos: BoardPos) -> (r: Option<PieceState>)
        requires
            pos.0 < 8,
            pos.1 < 8,
        ensures
            r == self.piece_at(pos.0 as int, pos.1 as int),
    {
        let BoardPos(row, col) = pos;
        let a_row: u32 = self.0[row as usize];
        proof {
            let cu: u32 = col as u32;
            assert(cu < 8 ==> (cu << 2) <= 28) by (bit_vector);
            assert(((a_row >> (cu << 2)) & 15) <= 15) by (bit_vector);
        }
        let a_bit_piece: u32 = (a_row >> ((col as u32) << 2)) & 15;
        PieceState::from_u8(a_bit_piece as u8)
    }

    /// Signed worth of a square's content in hundredths of a pawn: White
    /// pieces count positive, Black negative, kings zero.
    pub open spec fn square_value(p: Option<PieceState>) -> int {
        match p {
            None => 0,
            Some(ps) => {
                let v: int = match ps.kind {
                    PieceKind::Pawn => 100,
                    PieceKind::Knight => 300,
                    PieceKind::Bishop => 310,
                    PieceKind::Rook => 500,
                    PieceKind::Queen => 900,
                    PieceKind::King => 0,
                };
                match ps.color {
                    PieceColor::White => v,
                    PieceColor::Black => -v,
                }
            },
        }
    }

    /// Material sum of the first `n` squares in row-major order.
    pub open spec fn material_upto(self, n: int) -> int
        decreases n,
    {
        if n <= 0 {
            0
        } else {
            self.material_upto(n - 1) + Self::square_value(self.square_at(n - 1))
        }
    }

    /// Material sum of the whole board.
    pub open spec fn material(self) -> int {
        self.material_upto(64)
    }

    /// The square at row-major index `k`.
    pub open spec fn square_at(self, k: int) -> Option<PieceState> {
        self.piece_at(k / 8, k % 8)
    }

    /// Whether a king of the given colour stands among the first `n` squares
    /// in row-major order.
    pub open spec fn king_upto(self, color: PieceColor, n: int) -> bool {
        exists|k: int|
            0 <= k < n && #[trigger] self.square_at(k) == Some(
                PieceState { kind: PieceKind::King, color },
            )
    }

    pub open spec fn has_white_king(self) -> bool {
        self.king_upto(PieceColor::White, 64)
    }

    pub open spec fn has_black_king(self) -> bool {
        self.king_upto(PieceColor::Black, 64)
    }

    /// Score the position from White's perspective: the material sum when
    /// both kings stand, the positive mate sentinel when only the Black king
    /// is missing, and the negative sentinel whenever the White king is
    /// missing, regardless of the Black king.
    pub fn score(&self) -> (r: i32)
        ensures
            self.has_white_king() && self.has_black_king() ==> r == self.material(),
            self.has_white_king() && !self.has_black_king() ==> r == MATE,
            !self.has_white_king() ==> r == -MATE,
    {
        let mut iter = self.iterate();
        let mut loc_score: i32 = 0;
        let mut white_king_found = false;
        let mut black_king_found = false;
        let mut idx: usize = 0;
        while idx < 64
            invariant
                iter.board() == *self,
                iter.index() == idx as int,
                idx <= 64,
                -900 * (idx as int) <= loc_score as int <= 900 * (idx as int),
                loc_score as int == self.material_upto(idx as int),
                white_king_found == self.king_upto(PieceColor::White, idx as int),
                black_king_found == self.king_upto(PieceColor::Black, idx as int),
            decreases 64 - idx,
        {
            let curr_piece = iter.next().unwrap();
            proof {
                assert(self.square_at(idx as int) == curr_piece);
                assert(self.material_upto(idx as int + 1) == self.material_upto(idx as int)
                    + Self::square_value(curr_piece));
            }
            match curr_piece {
                Some(ps) => {
                    let v: i32 = match ps.kind {
                        PieceKind::Pawn => 100,
                        PieceKind::Knight => 300,
                        PieceKind::Bishop => 310,
                        PieceKind::Rook => 500,
                        PieceKind::Queen => 900,
                        PieceKind::King => 0,
                    };
                    match ps.color {
                        PieceColor::White => loc_score = loc_score + v,
                        PieceColor::Black => loc_score = loc_score - v,
                    }
                    match (ps.kind, ps.color) {
                        (PieceKind::King, PieceColor::White) => white_king_found = true,
                        (PieceKind::King, PieceColor::Black) => black_king_found = true,
                        _ => {},
                    }
                },
                None => {},
            }
            proof {
                assert forall|color: PieceColor|
                    self.king_upto(color, idx as int + 1) == (self.king_upto(color, idx as int)
                        || curr_piece == Some(
                        PieceState { kind: PieceKind::King, color },
                    )) by {
                    if self.king_upto(color, idx as int + 1) {
                        let k = choose|k: int|
                            0 <= k < idx as int + 1 && #[trigger] self.square_at(k) == Some(
                                PieceState { kind: PieceKind::King, color },
                            );
                        if k < idx as int {
                            assert(self.king_upto(color, idx as int));
                        }
                    }
                    if curr_piece == Some(PieceState { kind: PieceKind::King, color }) {
                        assert(0 <= (idx as int) && (idx as int) < idx as int + 1 && self.square_at(
                            idx as int,
                        ) == Some(PieceState { kind: PieceKind::King, color }));
                    }
                }
            }
            idx = idx + 1;
        }
        if white_king_found {
            if black_king_found {
                loc_score
            } else {
                MATE
            }
        } else {
            -MATE
        }
    }

    /// A restartable row-major iterator over all 64 squares, starting at
    /// row 0, column 0.
    pub fn iterate(&self) -> (it: RawBoardIterator)
        ensures
            it.board() == *self,
            it.index() == 0,
    {
        RawBoardIterator { raw_board: *self, curr_idx: 0, masks: generate_masks() }
    }
}

impl RawBoard {
    /// The piece the standard starting position has on a square: pawns on
    /// the second and seventh rows, the piece rows behind them.
    pub open spec fn starting_piece(row: int, col: int) -> Option<PieceState> {
        if row == 1 {
            Some(PieceState { kind: PieceKind::Pawn, color: PieceColor::White })
        } else if row == 6 {
            Some(PieceState { kind: PieceKind::Pawn, color: PieceColor::Black })
        } else if row == 0 || row == 7 {
            let kind = if col == 0 || col == 7 {
                PieceKind::Rook
            } else if col == 1 || col == 6 {
                PieceKind::Knight
            } else if col == 2 || col == 5 {
                PieceKind::Bishop
            } else if col == 3 {
                PieceKind::Queen
            } else {
                PieceKind::King
            };
            if row == 0 {
                Some(PieceState { kind, color: PieceColor::White })
            } else {
                Some(PieceState { kind, color: PieceColor::Black })
            }
        } else {
            None
        }
    }

    /// Build the standard starting position.
    pub fn starting_position() -> (r: Self)
        ensures
            forall|row: int, col: int|
                0 <= row < 8 && 0 <= col < 8 ==> r.piece_at(row, col) == Self::starting_piece(
                    row,
                    col,
                ),
    {
        let mut b = RawBoard::empty();
        let mut col: u8 = 0;
        while col < 8
            invariant
                col <= 8,
                forall|r2: int, c2: int|
                    0 <= r2 < 8 && 0 <= c2 < 8 ==> b.piece_at(r2, c2) == (if c2 < col {
                        Self::starting_piece(r2, c2)
                    } else {
                        None
                    }),
            decreases 8 - col,
        {
            let kind = match col {
                0 | 7 => PieceKind::Rook,
                1 | 6 => PieceKind::Knight,
                2 | 5 => PieceKind::Bishop,
                3 => PieceKind::Queen,
                _ => PieceKind::King,
            };
            b.set_loc(BoardPos(0, col), &Some(PieceState { kind, color: PieceColor::White }));
            b.set_loc(
                BoardPos(1, col),
                &Some(PieceState { kind: PieceKind::Pawn, color: PieceColor::White }),
            );
            b.set_loc(
                BoardPos(6, col),
                &Some(PieceState { kind: PieceKind::Pawn, color: PieceColor::Black }),
            );
            b.set_loc(BoardPos(7, col), &Some(PieceState { kind, color: PieceColor::Black }));
            col += 1;
        }
        b
    }
}

/// The eight nibble masks of a row word, one per column offset.
pub fn generate_masks() -> (r: [u32; 8])
    ensures
        forall|i: int| 0 <= i < 8 ==> r@[i] == 15u32 << (((i as u32)) << 2),
{
    let mut mask_permutations: [u32; 8] = [0;8];
    let mut index: usize = 0;
    while index < 8
        invariant
            index <= 8,
            forall|i: int| 0 <= i < index ==> mask_permutations@[i] == 15u32 << (((i as u32)) << 2),
        decreases 8 - index,
    {
        proof {
            let iu: u32 = index as u32;
            assert(iu < 8 ==> (iu << 2) <= 28) by (bit_vector);
        }
        let n: u32 = 15u32 << ((index as u32) << 2);
        mask_permutations[index] = n;
        index = index + 1;
    }
    mask_permutations
}

/// A zero-allocation forward iterator over the 64 squares of a board in
/// row-major order, decoding through the precomputed nibble masks.
pub struct RawBoardIterator {
    raw_board: RawBoard,
    curr_idx: usize,
    masks: [u32; 8],
}

impl RawBoardIterator {
    /// The board being walked.
    pub closed spec fn board(self) -> RawBoard {
        self.raw_board
    }

    /// How many squares have been yielded so far.
    pub closed spec fn index(self) -> int {
        self.curr_idx as int
    }

    #[verifier::type_invariant]
    spec fn type_inv(self) -> bool {
        &&& self.curr_idx <= 64
        &&& forall|i: int| 0 <= i < 8 ==> self.masks@[i] == 15u32 << (((i as u32)) << 2)
    }

    /// Yield the piece of the next square in row-major order, or nothing
    /// once all 64 squares have been yielded.
    pub fn next(&mut self) -> (r: Option<Option<PieceState>>)
        ensures
            old(self).index() >= 64 ==> r is None && *final(self) == *old(self),
            old(self).index() < 64 ==> {
                &&& final(self).index() == old(self).index() + 1
                &&& final(self).board() == old(self).board()
                &&& r == Some(
                    old(self).board().piece_at(old(self).index() / 8, old(self).index() % 8),
                )
            },
    {
        proof {
            use_type_invariant(&*self);
        }
        if self.curr_idx == 64 {
            None
        } else {
            let row: usize = self.curr_idx >> 3;
            let col: usize = self.curr_idx & 7;
            proof {
                let iu: usize = self.curr_idx;
                assert(iu < 64 ==> (iu >> 3) < 8 && (iu & 7) < 8 && (iu >> 3) == iu / 8 && (iu & 7)
                    == iu % 8) by (bit_vector);
            }
            let w: u32 = self.raw_board.0[row];
            let masked: u32 = self.masks[col] & w;
            proof {
                let cu: u32 = col as u32;
                assert(cu < 8 ==> (cu << 2) <= 28) by (bit_vector);
                assert((masked >> (cu << 2)) == ((15u32 << (cu << 2)) & w) >> (cu << 2));
            }
            let val: u32 = masked >> ((col as u32) << 2);
            proof {
                let cu: u32 = col as u32;
                assert((((15u32 << (cu << 2)) & w) >> (cu << 2)) == ((w >> (cu << 2))
                    & 15)) by (bit_vector)
                    requires
                        cu < 8,
                ;
                assert(((w >> (cu << 2)) & 15) <= 15) by (bit_vector);
            }
            let ret = PieceState::from_u8(val as u8);
            self.curr_idx = self.curr_idx + 1;
            Some(ret)
        }
    }

    /// Exact number of squares still to come, as both bounds of a size hint.
    pub fn size_hint(&self) -> (r: (usize, Option<usize>))
        ensures
            r.0 == 64 - self.index(),
            r.1 == Some(r.0),
    {
        proof {
            use_type_invariant(self);
        }
        let remainder: usize = 64 - self.curr_idx;
        (remainder, Some(remainder))
    }
}

} // verus!
