use binpack_to_h5::chess::{Board, ChessMove, Entry, MoveKind};
use binpack_to_h5::filter::{is_capture, is_malformed_entry, should_skip_entry};
use sfbinpack::chess::position::Position;

fn board(fen: &str) -> Board {
    Board::from_position(&Position::from_fen(fen).unwrap()).unwrap()
}

fn mk_move(from: u32, to: u32, kind: MoveKind) -> ChessMove {
    ChessMove { from, to, kind }
}

fn entry(fen: &str, mv: ChessMove) -> Entry {
    Entry { board: board(fen), mv, score: 0, ply: 0, result: 0 }
}

#[test]
fn castle_not_a_capture() {
    // is_capture does not depend on legality; only on move type.
    let pos = board("r3k2r/pppppppp/8/8/8/8/PPPPPPPP/R3K2R w KQkq - 0 1");
    let castle = mk_move(4, 7, MoveKind::Castle); // E1 -> H1 (KQ-side encoding)
    assert!(!is_capture(&pos, &castle));
}

#[test]
fn en_passant_is_capture() {
    let pos = board("rnbqkbnr/pp1ppppp/8/2pP4/8/8/PPP1PPPP/RNBQKBNR w KQkq c6 0 3");
    // d5 -> c6 en passant (35 -> 42)
    let ep = mk_move(35, 42, MoveKind::EnPassant);
    assert!(is_capture(&pos, &ep));
}

#[test]
fn quiet_pawn_push_not_a_capture() {
    let pos = board("rnbqkbnr/pppppppp/8/8/8/8/PPPPPPPP/RNBQKBNR w KQkq - 0 1");
    let push = mk_move(12, 28, MoveKind::Normal); // e2 -> e4
    assert!(!is_capture(&pos, &push));
}

#[test]
fn normal_capture_detected() {
    let pos = board("rnbqkb1r/ppp1pppp/5n2/3P2p1/8/5N2/PPP1PPPP/RNBQKB1R w KQkq - 0 4");
    // f3 (sq 21) -> g5 (sq 38), capture pawn on g5
    let capture = mk_move(21, 38, MoveKind::Normal);
    assert!(is_capture(&pos, &capture));
}

#[test]
fn malformed_squares_caught() {
    // An entry with an obviously invalid `from` square.
    let bad = entry(
        "rnbqkbnr/pppppppp/8/8/8/8/PPPPPPPP/RNBQKBNR w KQkq - 0 1",
        mk_move(120, 12, MoveKind::Normal),
    );
    assert!(is_malformed_entry(&bad));
}

#[test]
fn malformed_target_caught() {
    let bad = entry(
        "rnbqkbnr/pppppppp/8/8/8/8/PPPPPPPP/RNBQKBNR w KQkq - 0 1",
        mk_move(12, 64, MoveKind::Normal),
    );
    assert!(is_malformed_entry(&bad));
    let good = entry(
        "rnbqkbnr/pppppppp/8/8/8/8/PPPPPPPP/RNBQKBNR w KQkq - 0 1",
        mk_move(12, 28, MoveKind::Normal),
    );
    assert!(!is_malformed_entry(&good));
}

#[test]
fn promotion_onto_a_piece_is_a_capture() {
    let pos = board("1n2k3/P7/8/8/8/8/8/4K3 w - - 0 1");
    assert!(is_capture(&pos, &mk_move(48, 57, MoveKind::Promotion)));
    assert!(!is_capture(&pos, &mk_move(48, 56, MoveKind::Promotion)));
}

#[test]
fn castle_with_far_target_is_not_a_capture() {
    let pos = board("r3k2r/pppppppp/8/8/8/8/PPPPPPPP/R3K2R w KQkq - 0 1");
    assert!(!is_capture(&pos, &mk_move(4, 99, MoveKind::Castle)));
}

#[test]
fn in_check_entry_is_skipped() {
    // white king e1 attacked by the black rook on h1
    let checked = entry("4k3/8/8/8/8/8/8/4K2r w - - 0 1", mk_move(4, 12, MoveKind::Normal));
    assert!(should_skip_entry(&checked));
    assert!(checked.board.is_checked(0));
    assert!(!checked.board.is_checked(1));
}

#[test]
fn quiet_entry_is_kept() {
    let quiet = entry(
        "rnbqkbnr/pppppppp/8/8/8/8/PPPPPPPP/RNBQKBNR w KQkq - 0 1",
        mk_move(12, 28, MoveKind::Normal),
    );
    assert!(!should_skip_entry(&quiet));
}

#[test]
fn capture_entry_is_skipped() {
    let capture = entry(
        "rnbqkb1r/ppp1pppp/5n2/3P2p1/8/5N2/PPP1PPPP/RNBQKB1R w KQkq - 0 4",
        mk_move(21, 38, MoveKind::Normal),
    );
    assert!(should_skip_entry(&capture));
}

#[test]
fn black_in_check_by_knight() {
    // black king e8, white knight d6 gives check; black to move
    let checked = entry("4k3/8/3N4/8/8/8/8/4K3 b - - 0 1", mk_move(60, 61, MoveKind::Normal));
    assert_eq!(checked.board.side_to_move(), 1);
    assert!(should_skip_entry(&checked));
}
