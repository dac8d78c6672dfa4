use dbce::board_rep::BoardPos;
use dbce::board_rep::RelativeBoardPos;
use dbce::piece_color::PieceColor;
use dbce::piece_state::{PieceKind, PieceState};
use dbce::rawboard::{generate_masks, is_mate, RawBoard, MATE};

const KINDS: [PieceKind; 6] = [
    PieceKind::Pawn,
    PieceKind::Knight,
    PieceKind::Bishop,
    PieceKind::Rook,
    PieceKind::Queen,
    PieceKind::King,
];

fn back_rank() -> [PieceKind; 8] {
    [
        PieceKind::Rook,
        PieceKind::Knight,
        PieceKind::Bishop,
        PieceKind::Queen,
        PieceKind::King,
        PieceKind::Bishop,
        PieceKind::Knight,
        PieceKind::Rook,
    ]
}

fn starting_board() -> RawBoard {
    let mut b = RawBoard::empty();
    for (col, kind) in back_rank().iter().enumerate() {
        let col = col as u8;
        b.set_loc(
            BoardPos(0, col),
            &Some(PieceState { kind: *kind, color: PieceColor::White }),
        );
        b.set_loc(
            BoardPos(1, col),
            &Some(PieceState { kind: PieceKind::Pawn, color: PieceColor::White }),
        );
        b.set_loc(
            BoardPos(6, col),
            &Some(PieceState { kind: PieceKind::Pawn, color: PieceColor::Black }),
        );
        b.set_loc(
            BoardPos(7, col),
            &Some(PieceState { kind: *kind, color: PieceColor::Black }),
        );
    }
    b
}

#[test]
fn iterator_test() {
    let board = starting_board();
    let mut iter = board.iterate();
    assert_eq!(board.get_loc(BoardPos(0, 0)), iter.next().unwrap());
    let mut iter = board.iterate();
    let mut nth = None;
    for _ in 0..(8 * 7 + 3 + 1) {
        nth = iter.next();
    }
    assert_eq!(board.get_loc(BoardPos(7, 3)), nth.unwrap());
}

#[test]
pub fn test_mask_generator() {
    // [0b1111, 0b11110000, 0b111100000000, 0b1111000000000000, ...];
    let masks = generate_masks();
    assert_eq!(masks[0], 0b1111);
    assert_eq!(masks[1], 0b11110000);
    assert_eq!(masks[2], 0b111100000000);
    assert_eq!(masks[3], 0b1111000000000000);
    assert_eq!(masks[7], 0b11110000000000000000000000000000);
}

#[test]
fn set_get_round_trip_every_piece_every_square() {
    for row in 0..8u8 {
        for col in 0..8u8 {
            for kind in KINDS {
                for color in [PieceColor::Black, PieceColor::White] {
                    let piece = Some(PieceState { kind, color });
                    let mut b = starting_board();
                    b.set_loc(BoardPos(row, col), &piece);
                    assert_eq!(b.get_loc(BoardPos(row, col)), piece);
                    b.set_loc(BoardPos(row, col), &None);
                    assert_eq!(b.get_loc(BoardPos(row, col)), None);
                }
            }
        }
    }
}

#[test]
fn set_leaves_other_squares_alone() {
    let mut b = starting_board();
    b.set_loc(
        BoardPos(4, 4),
        &Some(PieceState { kind: PieceKind::Queen, color: PieceColor::White }),
    );
    assert_eq!(
        b.get_loc(BoardPos(0, 0)),
        Some(PieceState { kind: PieceKind::Rook, color: PieceColor::White })
    );
    assert_eq!(
        b.get_loc(BoardPos(4, 5)),
        None,
    );
    assert_eq!(
        b.get_loc(BoardPos(6, 4)),
        Some(PieceState { kind: PieceKind::Pawn, color: PieceColor::Black })
    );
}

#[test]
fn iteration_is_row_major_and_yields_64() {
    let board = starting_board();
    let mut iter = board.iterate();
    let mut count = 0u32;
    for row in 0..8u8 {
        for col in 0..8u8 {
            let (remaining, upper) = iter.size_hint();
            assert_eq!(remaining as u32, 64 - count);
            assert_eq!(upper, Some(remaining));
            let item = iter.next().unwrap();
            assert_eq!(item, board.get_loc(BoardPos(row, col)));
            count += 1;
        }
    }
    assert_eq!(count, 64);
    assert_eq!(iter.next(), None);
    assert_eq!(iter.next(), None);
}

#[test]
fn starting_position_scores_zero() {
    assert_eq!(starting_board().score(), 0);
}

#[test]
fn extra_queen_scores_nine_pawns() {
    let mut b = starting_board();
    b.set_loc(
        BoardPos(4, 4),
        &Some(PieceState { kind: PieceKind::Queen, color: PieceColor::White }),
    );
    assert_eq!(b.score(), 900);
}

#[test]
fn missing_black_king_scores_positive_mate() {
    let mut b = starting_board();
    b.set_loc(BoardPos(7, 4), &None);
    assert_eq!(b.score(), MATE);
}

#[test]
fn missing_white_king_scores_negative_mate() {
    let mut b = starting_board();
    b.set_loc(BoardPos(0, 4), &None);
    assert_eq!(b.score(), -MATE);
}

#[test]
fn missing_both_kings_scores_negative_mate() {
    let mut b = starting_board();
    b.set_loc(BoardPos(0, 4), &None);
    b.set_loc(BoardPos(7, 4), &None);
    assert_eq!(b.score(), -MATE);
}

#[test]
fn is_mate_classifies_the_tolerance_window() {
    assert!(is_mate(MATE));
    assert!(is_mate(-MATE));
    assert!(is_mate(MATE - 4999));
    assert!(is_mate(MATE + 4999));
    assert!(is_mate(-MATE + 4999));
    assert!(!is_mate(MATE - 5000));
    assert!(!is_mate(0));
    assert!(!is_mate(57600));
    assert!(!is_mate(-57600));
}

#[test]
fn pawn_steps_follow_colour() {
    assert_eq!(PieceColor::White.pawn_single_step(), vec![RelativeBoardPos(1, 0)]);
    assert_eq!(PieceColor::Black.pawn_single_step(), vec![RelativeBoardPos(-1, 0)]);
    assert_eq!(
        PieceColor::White.pawn_double_step(),
        vec![RelativeBoardPos(1, 0), RelativeBoardPos(2, 0)]
    );
    assert_eq!(
        PieceColor::Black.pawn_double_step(),
        vec![RelativeBoardPos(-1, 0), RelativeBoardPos(-2, 0)]
    );
    assert_eq!(
        PieceColor::White.pawn_takes_step(),
        vec![RelativeBoardPos(1, 1), RelativeBoardPos(1, -1)]
    );
    assert_eq!(
        PieceColor::Black.pawn_takes_step(),
        vec![RelativeBoardPos(-1, 1), RelativeBoardPos(-1, -1)]
    );
}

#[test]
fn colour_rows_and_bits() {
    assert_eq!(PieceColor::White.pawn_promotion_row(), 7);
    assert_eq!(PieceColor::Black.pawn_promotion_row(), 0);
    assert_eq!(PieceColor::White.piece_row(), 0);
    assert_eq!(PieceColor::Black.piece_row(), 7);
    assert_eq!(PieceColor::from_u8(0b1001), PieceColor::White);
    assert_eq!(PieceColor::from_u8(0b0001), PieceColor::Black);
    assert_eq!(PieceColor::White.add_to_u8(0b0110), 0b1110);
    assert_eq!(PieceColor::Black.add_to_u8(0b0110), 0b0110);
}

#[test]
fn every_nibble_decodes() {
    for code in 0..=255u8 {
        // decoding is total: no pattern may panic
        let _ = PieceState::from_u8(code);
    }
    assert_eq!(PieceState::from_u8(0), None);
    assert_eq!(
        PieceState::from_u8(0b1001),
        Some(PieceState { kind: PieceKind::Pawn, color: PieceColor::White })
    );
    assert_eq!(
        PieceState::from_u8(0b0110),
        Some(PieceState { kind: PieceKind::King, color: PieceColor::Black })
    );
}
