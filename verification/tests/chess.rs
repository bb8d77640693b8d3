use binpack_to_h5::chess::{Board, Entry, MoveKind, EMPTY_SQUARE};
use binpack_to_h5::filter::is_malformed_entry;
use sfbinpack::chess::position::Position;
use sfbinpack::TrainingDataEntry;

const STARTPOS: &str = "rnbqkbnr/pppppppp/8/8/8/8/PPPPPPPP/RNBQKBNR w KQkq - 0 1";

#[test]
fn board_new_accepts_valid_squares() {
    let mut squares = vec![EMPTY_SQUARE; 64];
    squares[4] = 10; // white king e1
    squares[60] = 11; // black king e8
    let b = Board::new(squares, 1).unwrap();
    assert_eq!(b.piece_at(4), 10);
    assert_eq!(b.piece_at(60), 11);
    assert_eq!(b.piece_at(0), EMPTY_SQUARE);
    assert_eq!(b.side_to_move(), 1);
    assert_eq!(b.placements(), vec![(10, 4), (11, 60)]);
}

#[test]
fn board_new_rejects_bad_input() {
    assert!(Board::new(vec![EMPTY_SQUARE; 63], 0).is_none());
    assert!(Board::new(vec![EMPTY_SQUARE; 65], 0).is_none());
    assert!(Board::new(vec![EMPTY_SQUARE; 64], 2).is_none());
    let mut squares = vec![EMPTY_SQUARE; 64];
    squares[10] = 13;
    assert!(Board::new(squares, 0).is_none());
}

#[test]
fn board_from_startpos() {
    let b = Board::from_position(&Position::from_fen(STARTPOS).unwrap()).unwrap();
    assert_eq!(b.side_to_move(), 0);
    assert_eq!(b.piece_at(0), 6); // white rook
    assert_eq!(b.piece_at(3), 8); // white queen
    assert_eq!(b.piece_at(4), 10); // white king
    assert_eq!(b.piece_at(12), 0); // white pawn
    assert_eq!(b.piece_at(52), 1); // black pawn
    assert_eq!(b.piece_at(60), 11); // black king
    assert_eq!(b.piece_at(30), EMPTY_SQUARE);
    assert_eq!(b.placements().len(), 32);
    assert!(b.has_king(0) && b.has_king(1));
}

#[test]
fn board_side_to_move_black() {
    let fen = "rnbqkbnr/pppppppp/8/8/4P3/8/PPPP1PPP/RNBQKBNR b KQkq e3 0 1";
    let b = Board::from_position(&Position::from_fen(fen).unwrap()).unwrap();
    assert_eq!(b.side_to_move(), 1);
}

#[test]
fn board_without_a_king() {
    let b = Board::from_position(&Position::from_fen("4k3/8/8/8/8/8/8/8 w - - 0 1").unwrap())
        .unwrap();
    assert!(!b.has_king(0));
    assert!(b.has_king(1));
}

#[test]
fn move_kind_ordinals() {
    assert_eq!(MoveKind::from_ordinal(0), Some(MoveKind::Normal));
    assert_eq!(MoveKind::from_ordinal(1), Some(MoveKind::Promotion));
    assert_eq!(MoveKind::from_ordinal(2), Some(MoveKind::Castle));
    assert_eq!(MoveKind::from_ordinal(3), Some(MoveKind::EnPassant));
    assert_eq!(MoveKind::from_ordinal(4), None);
}

#[test]
fn entry_from_training_entry_with_null_move() {
    let te = TrainingDataEntry {
        pos: Position::from_fen("4k3/8/8/8/8/8/8/4K3 b - - 0 1").unwrap(),
        mv: Default::default(),
        score: -57,
        ply: 31,
        result: 1,
    };
    let e = Entry::from_training_entry(&te).unwrap();
    assert_eq!(e.score, -57);
    assert_eq!(e.ply, 31);
    assert_eq!(e.result, 1);
    assert_eq!(e.mv.from, 64);
    assert_eq!(e.mv.to, 64);
    assert_eq!(e.mv.kind, MoveKind::Normal);
    assert_eq!(e.board.side_to_move(), 1);
    assert_eq!(e.board.piece_at(60), 11);
    assert!(is_malformed_entry(&e));
}
