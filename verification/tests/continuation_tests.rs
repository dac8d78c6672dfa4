use dbce::board_rep::{BoardPos, PossibleMove};
use dbce::continuation::BoardContinuation;
use dbce::piece_color::PieceColor;
use dbce::piece_state::{PieceKind, PieceState};
use dbce::rawboard::RawBoard;

fn pawn(color: PieceColor) -> Option<PieceState> {
    Some(PieceState { kind: PieceKind::Pawn, color })
}

fn board_with_one_pawn(row: u8, col: u8) -> RawBoard {
    let mut b = RawBoard::empty();
    b.set_loc(BoardPos(row, col), &pawn(PieceColor::White));
    b
}

fn e2e4() -> PossibleMove {
    PossibleMove { from: BoardPos(1, 4), to: BoardPos(3, 4) }
}

fn e7e5() -> PossibleMove {
    PossibleMove { from: BoardPos(6, 4), to: BoardPos(4, 4) }
}

fn create_simple_cont() -> BoardContinuation {
    let mut first = BoardContinuation::new(RawBoard::empty());
    first.insert_psboard(&e2e4(), board_with_one_pawn(3, 4));
    first
}

#[test]
fn merge_two_simple() {
    let mut acont = create_simple_cont();
    let mut bcont = create_simple_cont();
    let first_move = bcont.keys()[0];
    let new_board = board_with_one_pawn(4, 4);
    let inner_cont = bcont.find_continuation_mut(&first_move).unwrap();
    inner_cont.insert_psboard(&e7e5(), new_board);
    let btotal = bcont.total_continuation_boards();
    acont.merge(bcont);
    assert_eq!(acont.total_continuation_boards(), btotal);
}

#[test]
fn merge_keeps_every_cached_line() {
    let mut acont = create_simple_cont();
    let d2d4 = PossibleMove { from: BoardPos(1, 3), to: BoardPos(3, 3) };
    let mut bcont = BoardContinuation::new(RawBoard::empty());
    bcont.insert_psboard(&d2d4, board_with_one_pawn(3, 3));
    let inner = bcont.find_continuation_mut(&d2d4).unwrap();
    inner.insert_psboard(&e7e5(), board_with_one_pawn(4, 4));
    let a_before = acont.total_continuation_boards();
    let b_before = bcont.total_continuation_boards();
    acont.merge(bcont);
    // nothing from either input is lost: both lines are reachable
    assert!(acont.continuation_exists(&e2e4()));
    assert!(acont.continuation_exists(&d2d4));
    let under_d4 = acont.find_continuation(&d2d4).unwrap();
    assert!(under_d4.continuation_exists(&e7e5()));
    assert_eq!(acont.total_continuation_boards(), a_before + b_before);
}

#[test]
fn taking_a_continuation_is_destructive() {
    let mut cont = create_simple_cont();
    assert!(cont.continuation_exists(&e2e4()));
    let taken = cont.find_continuation_remove(&e2e4());
    assert!(taken.is_some());
    assert!(!cont.continuation_exists(&e2e4()));
    assert!(cont.find_continuation_remove(&e2e4()).is_none());
    // re-inserting makes the move available again
    cont.insert_psboard(&e2e4(), board_with_one_pawn(3, 4));
    assert!(cont.continuation_exists(&e2e4()));
}

#[test]
fn make_cached_move_prefers_the_cache() {
    let mut cont = BoardContinuation::new(RawBoard::empty());
    cont.insert_psboard(&e2e4(), board_with_one_pawn(3, 4));
    let child = cont.find_continuation_mut(&e2e4()).unwrap();
    child.adjusted_score = Some(123);
    let stepped = cont.make_cached_move(&e2e4(), board_with_one_pawn(0, 0));
    // the cached subtree was taken, not the fallback
    assert_eq!(stepped.adjusted_score, Some(123));
}

#[test]
fn make_cached_move_falls_back_to_a_fresh_node() {
    let cont = create_simple_cont();
    let fallback = board_with_one_pawn(4, 4);
    let stepped = cont.make_cached_move(&e7e5(), fallback);
    assert_eq!(stepped.adjusted_score, None);
    assert_eq!(stepped.total_continuation_boards(), 0);
    assert_eq!(
        stepped.board.get_loc(BoardPos(4, 4)),
        pawn(PieceColor::White)
    );
}

#[test]
fn lookups_find_only_present_moves() {
    let cont = create_simple_cont();
    assert!(cont.find_continuation(&e2e4()).is_some());
    assert!(cont.find_continuation(&e7e5()).is_none());
    assert!(cont.continuation_exists(&e2e4()));
    assert!(!cont.continuation_exists(&e7e5()));
}

#[test]
fn keys_values_iter_agree() {
    let mut cont = create_simple_cont();
    cont.insert_psboard(&e7e5(), board_with_one_pawn(4, 4));
    let keys = cont.keys();
    let values = cont.values();
    let entries = cont.iter();
    assert_eq!(keys.len(), 2);
    assert_eq!(values.len(), 2);
    assert_eq!(entries.len(), 2);
    assert_eq!(keys[0], e2e4());
    assert_eq!(keys[1], e7e5());
    for k in 0..2 {
        assert_eq!(entries[k].0, keys[k]);
    }
}

#[test]
fn total_counts_all_nodes_recursively() {
    let mut cont = create_simple_cont();
    assert_eq!(cont.total_continuation_boards(), 1);
    let inner = cont.find_continuation_mut(&e2e4()).unwrap();
    inner.insert_psboard(&e7e5(), board_with_one_pawn(4, 4));
    assert_eq!(cont.total_continuation_boards(), 2);
    cont.insert_psboard(&e7e5(), board_with_one_pawn(4, 4));
    assert_eq!(cont.total_continuation_boards(), 3);
}

#[test]
fn similar_quality_keeps_only_nearly_tied_children() {
    let mut cont = BoardContinuation::new(RawBoard::empty());
    let m1 = e2e4();
    let m2 = e7e5();
    let m3 = PossibleMove { from: BoardPos(1, 3), to: BoardPos(3, 3) };
    cont.insert_psboard(&m1, board_with_one_pawn(3, 4));
    cont.insert_psboard(&m2, board_with_one_pawn(4, 4));
    cont.insert_psboard(&m3, board_with_one_pawn(3, 3));
    cont.find_continuation_mut(&m1).unwrap().adjusted_score = Some(100);
    cont.find_continuation_mut(&m2).unwrap().adjusted_score = Some(103);
    cont.find_continuation_mut(&m3).unwrap().adjusted_score = Some(200);
    let score = |c: &BoardContinuation| c.adjusted_score.unwrap();
    let best = cont.find_continuation(&m1).unwrap();
    let similar = cont.similar_quality_moves(best, score);
    let mut got: Vec<i32> = similar.iter().map(|c| c.adjusted_score.unwrap()).collect();
    got.sort();
    assert_eq!(got, vec![100, 103]);
    for c in &similar {
        assert!((score(c) - score(best)).abs() < 5);
    }
}

#[test]
fn select_similar_board_picks_from_the_tied_set() {
    let mut cont = BoardContinuation::new(RawBoard::empty());
    let m1 = e2e4();
    let m2 = e7e5();
    cont.insert_psboard(&m1, board_with_one_pawn(3, 4));
    cont.insert_psboard(&m2, board_with_one_pawn(4, 4));
    cont.find_continuation_mut(&m1).unwrap().adjusted_score = Some(50);
    cont.find_continuation_mut(&m2).unwrap().adjusted_score = Some(500);
    let score = |c: &BoardContinuation| c.adjusted_score.unwrap();
    for _ in 0..20 {
        let best = cont.find_continuation(&m1).unwrap();
        let picked = cont.select_similar_board(best, score);
        // only the reference itself is tied with itself here
        assert_eq!(picked.adjusted_score, Some(50));
    }
}

#[test]
fn default_continuation_wraps_the_starting_position() {
    let starting_position = BoardContinuation::default();
    assert_eq!(starting_position.total_continuation_boards(), 0);
    assert_eq!(starting_position.adjusted_score, None);
    assert_eq!(starting_position.board.score(), 0);
    assert_eq!(
        starting_position.board.get_loc(BoardPos(0, 4)),
        Some(PieceState { kind: PieceKind::King, color: PieceColor::White })
    );
    assert_eq!(
        starting_position.board.get_loc(BoardPos(7, 3)),
        Some(PieceState { kind: PieceKind::Queen, color: PieceColor::Black })
    );
}

#[test]
fn fresh_node_is_empty_and_unscored() {
    let board = board_with_one_pawn(2, 2);
    let cont = BoardContinuation::new(board);
    assert_eq!(cont.adjusted_score, None);
    assert_eq!(cont.total_continuation_boards(), 0);
    assert_eq!(cont.keys().len(), 0);
    assert_eq!(cont.board.get_loc(BoardPos(2, 2)), pawn(PieceColor::White));
}

#[test]
fn visualise_lists_explored_lines() {
    let mut cont = create_simple_cont();
    let inner = cont.find_continuation_mut(&e2e4()).unwrap();
    inner.insert_psboard(&e7e5(), board_with_one_pawn(4, 4));
    let text = cont.visualise_explored_moves();
    assert!(text.contains("e2e4"));
    assert!(text.contains("e7e5"));
    let prefixed = cont.prefixed_visualise_explored_moves("> ");
    assert!(prefixed.starts_with("> "));
    assert!(prefixed.contains("> e2e4"));
}
