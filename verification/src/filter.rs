//! Stockfish-style entry filtering.
//!
//! Matches the official `nnue-pytorch` `SparseBatchProvider` default
//! (`filtered=True`):
//!
//! - **Skip captures**: the eval at a capture is the result of quiescence
//!   search down to a quiet position; training the static eval to predict QS
//!   output teaches it search's job.
//! - **Skip in-check**: the side-to-move is forced to respond, so the static
//!   eval is meaningless without a check-extension search.

use crate::chess::{
    has_king, king_attacked, placements_of, valid_cells, Board, ChessMove, Entry, MoveKind,
    EMPTY_SQUARE,
};
use vstd::prelude::*;

verus! {

/// A move is a capture when it is en passant, or an ordinary move or a
/// promotion onto an occupied square. Castling is never a capture, although
/// sfbinpack encodes it as king-takes-rook.
pub open spec fn spec_is_capture(cells: Seq<u8>, mv: ChessMove) -> bool {
    match mv.kind {
        MoveKind::Castle => false,
        MoveKind::EnPassant => true,
        _ => cells[mv.to as int] != EMPTY_SQUARE,
    }
}

/// Whether the board can be asked about `mv`'s target square: castling and en
/// passant are decided by the kind alone, any other move needs a target on
/// the board.
pub open spec fn capture_decidable(mv: ChessMove) -> bool {
    mv.kind is Castle || mv.kind is EnPassant || mv.to < 64
}

/// An entry whose move leaves the board on either end.
pub open spec fn spec_is_malformed(entry: &Entry) -> bool {
    entry.mv.to >= 64 || entry.mv.from >= 64
}

/// The side to move is in check.
pub open spec fn spec_stm_in_check(board: &Board) -> bool {
    king_attacked(placements_of(board.cells()), board.stm())
}

/// An entry is excluded from training when its move is a capture or its
/// side to move is in check.
pub open spec fn spec_should_skip(entry: &Entry) -> bool {
    spec_is_capture(entry.board.cells(), entry.mv) || spec_stm_in_check(&entry.board)
}

/// Returns true if the move is a capture (normal capture, en passant).
/// Castling is intentionally NOT a capture even though sfbinpack encodes it
/// as `king-to-rook-square`.
pub fn is_capture(board: &Board, mv: &ChessMove) -> (r: bool)
    requires
        capture_decidable(*mv),
    ensures
        r == spec_is_capture(board.cells(), *mv),
        mv.kind is Castle ==> !r,
        mv.kind is EnPassant ==> r,
        (mv.kind is Normal || mv.kind is Promotion) ==> (r <==> board.cells()[mv.to as int]
            != EMPTY_SQUARE),
{
    match mv.kind {
        MoveKind::Castle => false,
        MoveKind::EnPassant => true,
        _ => board.piece_at(mv.to) != EMPTY_SQUARE,
    }
}

/// True when an entry has an obviously invalid move (square index out of
/// range). Some binpacks decode to such garbage; those entries are skipped
/// rather than crashing the whole pipeline.
pub fn is_malformed_entry(entry: &Entry) -> (r: bool)
    ensures
        r == spec_is_malformed(entry),
        r <==> !(entry.mv.from < 64 && entry.mv.to < 64),
{
    entry.mv.to >= 64 || entry.mv.from >= 64
}

/// True if the entry should be excluded from training (capture or in-check).
/// The caller handles malformed entries first; the in-check test needs the
/// side to move to have a king unless the move is already a capture.
pub fn should_skip_entry(entry: &Entry) -> (r: bool)
    requires
        !spec_is_malformed(entry),
        spec_is_capture(entry.board.cells(), entry.mv) || has_king(
            entry.board.cells(),
            entry.board.stm(),
        ),
    ensures
        r == spec_should_skip(entry),
        entry.mv.kind is EnPassant ==> r,
        (entry.mv.kind is Normal || entry.mv.kind is Promotion) && entry.board.cells()[entry.mv.to as int]
            != EMPTY_SQUARE ==> r,
        king_attacked(placements_of(entry.board.cells()), entry.board.stm()) ==> r,
        r ==> entry.mv.kind is EnPassant || ((entry.mv.kind is Normal || entry.mv.kind is Promotion)
            && entry.board.cells()[entry.mv.to as int] != EMPTY_SQUARE) || king_attacked(
            placements_of(entry.board.cells()),
            entry.board.stm(),
        ),
{
    if is_capture(&entry.board, &entry.mv) {
        return true;
    }
    let stm = entry.board.side_to_move();
    if entry.board.is_checked(stm) {
        return true;
    }
    false
}


/// Which moves are captures: castling never is, en passant always is, and
/// an ordinary move or a promotion is one exactly when its target square
/// holds a piece, of either color: putting any piece on the target makes it a
/// capture, emptying the target makes it none.
pub proof fn lemma_capture_rule(cells: Seq<u8>, mv: ChessMove, id: u8)
    requires
        valid_cells(cells),
        mv.to < 64,
        id < EMPTY_SQUARE,
    ensures
        mv.kind is Castle ==> !spec_is_capture(cells, mv),
        mv.kind is EnPassant ==> spec_is_capture(cells, mv),
        mv.kind is Normal || mv.kind is Promotion ==> {
            &&& spec_is_capture(cells.update(mv.to as int, id), mv)
            &&& !spec_is_capture(cells.update(mv.to as int, EMPTY_SQUARE), mv)
            &&& (spec_is_capture(cells, mv) <==> cells[mv.to as int] != EMPTY_SQUARE)
        },
{
}

/// Which entries are malformed: exactly those with a move square off the
/// board; any move between two squares of `0..64` is well formed.
pub proof fn lemma_malformed_rule(entry: &Entry)
    ensures
        entry.mv.from < 64 && entry.mv.to < 64 ==> !spec_is_malformed(entry),
        entry.mv.from >= 64 ==> spec_is_malformed(entry),
        entry.mv.to >= 64 ==> spec_is_malformed(entry),
{
}

/// Which well-formed entries are skipped: every capture (en passant, or an
/// ordinary move or promotion onto an occupied square), whoever is to move;
/// every entry whose side to move is in check; and no other entry.
pub proof fn lemma_skip_rule(entry: &Entry)
    requires
        !spec_is_malformed(entry),
    ensures
        entry.mv.kind is EnPassant ==> spec_should_skip(entry),
        (entry.mv.kind is Normal || entry.mv.kind is Promotion) && entry.board.cells()[entry.mv.to as int]
            != EMPTY_SQUARE ==> spec_should_skip(entry),
        king_attacked(placements_of(entry.board.cells()), entry.board.stm()) ==> spec_should_skip(
            entry,
        ),
        entry.mv.kind is Castle && !king_attacked(
            placements_of(entry.board.cells()),
            entry.board.stm(),
        ) ==> !spec_should_skip(entry),
        (entry.mv.kind is Normal || entry.mv.kind is Promotion) && entry.board.cells()[entry.mv.to as int]
            == EMPTY_SQUARE && !king_attacked(placements_of(entry.board.cells()), entry.board.stm())
            ==> !spec_should_skip(entry),
{
}

} // verus!
