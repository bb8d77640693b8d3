//! Plain-value model of the chess data carried by a binpack training entry:
//! the board (one piece id per square plus the side to move), the move played
//! from it, and the entry that ties them to a score and a game result.
//!
//! Pieces are numbered as sfbinpack numbers them: `piece_type * 2 + color`,
//! with piece types Pawn = 0 .. King = 5, colors White = 0 and Black = 1, and
//! the id 12 for an empty square.

use sfbinpack::chess::color::Color;
use sfbinpack::chess::coords::Square;
use sfbinpack::chess::piece::Piece;
use sfbinpack::chess::position::Position;
use sfbinpack::TrainingDataEntry;
use vstd::prelude::*;

verus! {

/// Number of squares on a board (a1 = 0 .. h8 = 63).
pub const NUM_SQUARES: u32 = 64;

/// Piece id of an empty square.
pub const EMPTY_SQUARE: u8 = 12;

/// Piece type of a pawn, knight, ..., king: the id divided by two.
pub open spec fn piece_kind(id: u8) -> int {
    id as int / 2
}

/// Color of a piece: the lowest bit of its id.
pub open spec fn piece_color(id: u8) -> int {
    id as int % 2
}

/// The id of the king of `color`.
pub open spec fn king_id(color: u8) -> u8 {
    (10 + color) as u8
}

/// A board is 64 squares, each empty or holding one of the twelve pieces.
pub open spec fn valid_cells(cells: Seq<u8>) -> bool {
    &&& cells.len() == 64
    &&& forall|i: int| 0 <= i < 64 ==> #[trigger] cells[i] <= EMPTY_SQUARE
}

/// The occupied squares among the first `n` squares of `cells`, in square
/// order, each as (piece id, square).
pub open spec fn occupied_prefix(cells: Seq<u8>, n: int) -> Seq<(u8, u32)>
    decreases n,
{
    if n <= 0 {
        Seq::empty()
    } else {
        let rest = occupied_prefix(cells, n - 1);
        if cells[n - 1] == EMPTY_SQUARE {
            rest
        } else {
            rest.push((cells[n - 1], (n - 1) as u32))
        }
    }
}

/// Every piece on the board, as (piece id, square), in square order.
pub open spec fn placements_of(cells: Seq<u8>) -> Seq<(u8, u32)> {
    occupied_prefix(cells, cells.len() as int)
}

/// Whether the king of `color` stands somewhere on the board.
pub open spec fn has_king(cells: Seq<u8>, color: u8) -> bool {
    exists|sq: int| 0 <= sq < cells.len() && cells[sq] == king_id(color)
}

/// What `occupied_prefix` holds: exactly the occupied squares below `n`,
/// in increasing square order.
pub proof fn lemma_occupied_prefix(cells: Seq<u8>, n: int)
    requires
        0 <= n <= cells.len(),
        n <= 64,
    ensures
        forall|i: int|
            #![trigger occupied_prefix(cells, n)[i]]
            0 <= i < occupied_prefix(cells, n).len() ==> {
                let p = occupied_prefix(cells, n)[i];
                &&& p.1 < n
                &&& cells[p.1 as int] == p.0
                &&& p.0 != EMPTY_SQUARE
            },
        forall|i: int, j: int|
            0 <= i < j < occupied_prefix(cells, n).len() ==> #[trigger] occupied_prefix(
                cells,
                n,
            )[i].1 < #[trigger] occupied_prefix(cells, n)[j].1,
        forall|sq: int|
            0 <= sq < n && cells[sq] != EMPTY_SQUARE ==> exists|i: int|
                0 <= i < occupied_prefix(cells, n).len() && #[trigger] occupied_prefix(
                    cells,
                    n,
                )[i] == (cells[sq], sq as u32),
        occupied_prefix(cells, n).len() <= n,
    decreases n,
{
    if n > 0 {
        lemma_occupied_prefix(cells, n - 1);
        let rest = occupied_prefix(cells, n - 1);
        let cur = occupied_prefix(cells, n);
        if cells[n - 1] != EMPTY_SQUARE {
            assert(cur == rest.push((cells[n - 1], (n - 1) as u32)));
            assert forall|i: int| 0 <= i < cur.len() implies {
                let p = #[trigger] cur[i];
                &&& p.1 < n
                &&& cells[p.1 as int] == p.0
                &&& p.0 != EMPTY_SQUARE
            } by {
                if i < rest.len() {
                    assert(cur[i] == rest[i]);
                }
            }
            assert forall|i: int, j: int| 0 <= i < j < cur.len() implies #[trigger] cur[i].1
                < #[trigger] cur[j].1 by {
                assert(cur[i] == rest[i]);
                if j < rest.len() {
                    assert(cur[j] == rest[j]);
                }
            }
        }
        assert forall|sq: int| 0 <= sq < n && cells[sq] != EMPTY_SQUARE implies exists|i: int|
            0 <= i < cur.len() && #[trigger] cur[i] == (cells[sq], sq as u32) by {
            if sq < n - 1 {
                let i = choose|i: int| 0 <= i < rest.len() && #[trigger] rest[i] == (cells[sq], sq as u32);
                assert(cur[i] == rest[i]);
            } else {
                assert(cur[cur.len() - 1] == (cells[sq], sq as u32));
            }
        }
    }
}

/// The king of `color` is among the placements of a board that has one.
pub proof fn lemma_king_placed(cells: Seq<u8>, color: u8)
    requires
        has_king(cells, color),
        color <= 1,
        cells.len() == 64,
    ensures
        exists|i: int|
            0 <= i < placements_of(cells).len() && (#[trigger] placements_of(cells)[i]).0
                == king_id(color),
{
    let sq = choose|sq: int| 0 <= sq < cells.len() && cells[sq] == king_id(color);
    lemma_occupied_prefix(cells, cells.len() as int);
    let i = choose|i: int|
        0 <= i < placements_of(cells).len() && #[trigger] placements_of(cells)[i] == (
            cells[sq],
            sq as u32,
        );
    assert(placements_of(cells)[i].0 == king_id(color));
}

/// A chess position reduced to what the conversion reads: the piece on each
/// square and the side to move.
pub struct Board {
    squares: Vec<u8>,
    side_to_move: u8,
}

impl Board {
    /// Piece id on each square, a1 first.
    pub closed spec fn cells(&self) -> Seq<u8> {
        self.squares@
    }

    /// Color ordinal of the side to move.
    pub closed spec fn stm(&self) -> u8 {
        self.side_to_move
    }

    #[verifier::type_invariant]
    pub(crate) open spec fn well_formed(self) -> bool {
        valid_cells(self.cells()) && self.stm() <= 1
    }

    /// Builds a board from the piece id of each square and the side to move;
    /// `None` when there are not exactly 64 squares, an id is not a piece or
    /// the empty square, or the side to move is not a color.
    pub fn new(squares: Vec<u8>, side_to_move: u8) -> (r: Option<Board>)
        ensures
            r is Some <==> valid_cells(squares@) && side_to_move <= 1,
            r matches Some(b) ==> b.cells() == squares@ && b.stm() == side_to_move,
    {
        if squares.len() != 64 || side_to_move > 1 {
            return None;
        }
        let mut i: usize = 0;
        while i < 64
            invariant
                squares.len() == 64,
                i <= 64,
                forall|j: int| 0 <= j < i ==> #[trigger] squares@[j] <= EMPTY_SQUARE,
            decreases 64 - i,
        {
            if squares[i] > EMPTY_SQUARE {
                return None;
            }
            i = i + 1;
        }
        Some(Board { squares, side_to_move })
    }

    /// Reads the board of a sfbinpack position: the piece id on each square
    /// and the side to move; `None` when a square holds an id that is
    /// neither a piece nor the empty square.
    pub fn from_position(pos: &Position) -> (r: Option<Board>)
        ensures
            r is Some <==> valid_cells(position_cells(*pos)),
            r matches Some(b) ==> b.cells() == position_cells(*pos) && b.stm() == position_stm(*pos),
    {
        let mut squares: Vec<u8> = Vec::with_capacity(64);
        let mut sq: u32 = 0;
        while sq < NUM_SQUARES
            invariant
                sq <= 64,
                squares@ == position_cells(*pos).take(sq as int),
            decreases 64 - sq,
        {
            let id = position_piece_id(pos, sq);
            squares.push(id);
            assert(squares@ =~= position_cells(*pos).take(sq + 1));
            sq = sq + 1;
        }
        assert(squares@ =~= position_cells(*pos));
        let stm = position_side_to_move(pos);
        Board::new(squares, stm)
    }

    /// The piece id on square `sq`.
    pub fn piece_at(&self, sq: u32) -> (r: u8)
        requires
            sq < 64,
        ensures
            r == self.cells()[sq as int],
            r <= EMPTY_SQUARE,
    {
        proof {
            use_type_invariant(self);
        }
        self.squares[sq as usize]
    }

    /// Color ordinal of the side to move (White 0, Black 1).
    pub fn side_to_move(&self) -> (r: u8)
        ensures
            r == self.stm(),
            r <= 1,
    {
        proof {
            use_type_invariant(self);
        }
        self.side_to_move
    }

    /// Every piece on the board, as (piece id, square), in square order.
    pub fn placements(&self) -> (r: Vec<(u8, u32)>)
        ensures
            r@ == placements_of(self.cells()),
    {
        proof {
            use_type_invariant(self);
        }
        let mut r: Vec<(u8, u32)> = Vec::new();
        let mut sq: u32 = 0;
        while sq < NUM_SQUARES
            invariant
                sq <= 64,
                valid_cells(self.cells()),
                r@ == occupied_prefix(self.cells(), sq as int),
            decreases 64 - sq,
        {
            let id = self.squares[sq as usize];
            if id != EMPTY_SQUARE {
                r.push((id, sq));
            }
            sq = sq + 1;
        }
        r
    }

    /// Whether the king of `color` is on the board.
    pub fn has_king(&self, color: u8) -> (r: bool)
        requires
            color <= 1,
        ensures
            r == has_king(self.cells(), color),
    {
        proof {
            use_type_invariant(self);
        }
        let king = 10 + color;
        let mut sq: usize = 0;
        while sq < 64
            invariant
                sq <= 64,
                king == king_id(color),
                valid_cells(self.cells()),
                forall|j: int| 0 <= j < sq ==> self.cells()[j] != king,
            decreases 64 - sq,
        {
            if self.squares[sq] == king {
                return true;
            }
            sq = sq + 1;
        }
        false
    }

    /// Whether the king of `color` is attacked, as sfbinpack's
    /// `Position::is_checked` answers for this board. The board must hold
    /// that king: sfbinpack panics on a board without it.
    pub fn is_checked(&self, color: u8) -> (r: bool)
        requires
            color <= 1,
            has_king(self.cells(), color),
        ensures
            r == king_attacked(placements_of(self.cells()), color),
    {
        proof {
            use_type_invariant(self);
            lemma_occupied_prefix(self.cells(), 64);
            lemma_king_placed(self.cells(), color);
        }
        let placements = self.placements();
        placements_checked(&placements, color)
    }
}

/// The four kinds of move that sfbinpack distinguishes.
#[derive(Clone, Copy, Debug, PartialEq, Eq, Structural)]
pub enum MoveKind {
    Normal,
    Promotion,
    Castle,
    EnPassant,
}

/// A move as sfbinpack stores it: castling as king-takes-rook, en passant
/// with `to` on the square the pawn moves to. Squares of a move read from a
/// damaged file may lie outside the board.
#[derive(Clone, Copy, Debug, PartialEq, Eq, Structural)]
pub struct ChessMove {
    pub from: u32,
    pub to: u32,
    pub kind: MoveKind,
}

/// The kind with sfbinpack's `MoveType` ordinal `ordinal`, if any.
pub open spec fn move_kind_of(ordinal: u8) -> Option<MoveKind> {
    if ordinal == 0 {
        Some(MoveKind::Normal)
    } else if ordinal == 1 {
        Some(MoveKind::Promotion)
    } else if ordinal == 2 {
        Some(MoveKind::Castle)
    } else if ordinal == 3 {
        Some(MoveKind::EnPassant)
    } else {
        None
    }
}

impl MoveKind {
    /// The kind with sfbinpack's `MoveType` ordinal `ordinal`.
    pub fn from_ordinal(ordinal: u8) -> (r: Option<MoveKind>)
        ensures
            r == move_kind_of(ordinal),
    {
        match ordinal {
            0 => Some(MoveKind::Normal),
            1 => Some(MoveKind::Promotion),
            2 => Some(MoveKind::Castle),
            3 => Some(MoveKind::EnPassant),
            _ => None,
        }
    }
}

/// One training data entry: a position, the move played from it, and the
/// search score and game result, both from the side to move's perspective.
pub struct Entry {
    pub board: Board,
    pub mv: ChessMove,
    pub score: i16,
    pub ply: u16,
    pub result: i16,
}

impl Entry {
    /// Reads a sfbinpack training entry: its board, its move's squares and
    /// kind, its score, ply and result; `None` when its board holds an id
    /// that is neither a piece nor the empty square.
    pub fn from_training_entry(e: &TrainingDataEntry) -> (r: Option<Entry>)
        ensures
            r is Some <==> valid_cells(position_cells(entry_fields(*e).0)),
            r matches Some(en) ==> {
                let (pos, score, ply, result) = entry_fields(*e);
                &&& en.board.cells() == position_cells(pos)
                &&& en.board.stm() == position_stm(pos)
                &&& en.mv.from == entry_move_from_square(*e)
                &&& en.mv.to == entry_move_to_square(*e)
                &&& move_kind_of(entry_move_type_ordinal(*e)) == Some(en.mv.kind)
                &&& en.score == score
                &&& en.ply == ply
                &&& en.result == result
            },
    {
        let (pos, score, ply, result) = training_entry_parts(e);
        let board = match Board::from_position(pos) {
            Some(board) => board,
            None => return None,
        };
        let kind = match MoveKind::from_ordinal(entry_move_type(e)) {
            Some(kind) => kind,
            None => return None,
        };
        let mv = ChessMove { from: entry_move_from(e), to: entry_move_to(e), kind };
        Some(Entry { board, mv, score, ply, result })
    }
}

// ---------------------------------------------------------------------------
// sfbinpack
// ---------------------------------------------------------------------------
#[verifier::external_type_specification]
#[verifier::external_body]
pub struct ExPosition(Position);

#[verifier::external_type_specification]
#[verifier::external_body]
pub struct ExTrainingDataEntry(TrainingDataEntry);

/// Whether the king of `color` is attacked on a board that holds exactly the
/// pieces listed, each as (piece id, square).
pub uninterp spec fn king_attacked(placements: Seq<(u8, u32)>, color: u8) -> bool;

/// sfbinpack's `Position::is_checked`, asked of a position built with
/// `Position::empty` and one `Position::place` per listed piece. Claims only
/// that the answer is `king_attacked` of the list and the color. The king of
/// `color` must be listed: `is_checked` looks it up and panics without it.
#[verifier::external_body]
fn placements_checked(placements: &Vec<(u8, u32)>, color: u8) -> (r: bool)
    requires
        color <= 1,
        forall|i: int|
            0 <= i < placements.len() ==> (#[trigger] placements@[i]).0 < EMPTY_SQUARE
                && placements@[i].1 < 64,
        exists|i: int| 0 <= i < placements.len() && (#[trigger] placements@[i]).0 == king_id(color),
    ensures
        r == king_attacked(placements@, color),
{
    let mut pos = Position::empty();
    for &(id, sq) in placements.iter() {
        pos.place(Piece::from_id(id as i32), Square::new(sq));
    }
    pos.is_checked(Color::from_ordinal(color))
}

/// The piece id that `Position::piece_at` finds on square `sq` of `pos`.
pub uninterp spec fn position_piece(pos: Position, sq: u32) -> u8;

/// The side-to-move ordinal of `pos`.
pub uninterp spec fn position_stm(pos: Position) -> u8;

/// The piece id on each square of `pos`, a1 first.
pub open spec fn position_cells(pos: Position) -> Seq<u8> {
    Seq::new(64, |i: int| position_piece(pos, i as u32))
}

/// The position, score, ply and result fields of a training entry.
pub uninterp spec fn entry_fields(e: TrainingDataEntry) -> (Position, i16, u16, i16);

/// The square index of the move's origin.
pub uninterp spec fn entry_move_from_square(e: TrainingDataEntry) -> u32;

/// The square index of the move's target.
pub uninterp spec fn entry_move_to_square(e: TrainingDataEntry) -> u32;

/// The `MoveType` ordinal of the move.
pub uninterp spec fn entry_move_type_ordinal(e: TrainingDataEntry) -> u8;

/// `Position::piece_at` on square `sq`, as the piece's `Piece::id`: named
/// `position_piece` of the position and the square. Nothing is claimed
/// about which ids a position holds.
#[verifier::external_body]
fn position_piece_id(pos: &Position, sq: u32) -> (id: u8)
    requires
        sq < 64,
    ensures
        id == position_piece(*pos, sq),
{
    pos.piece_at(Square::new(sq)).id()
}

/// `Position::side_to_move`, as its `Color::ordinal`, which is 0 or 1:
/// named `position_stm` of the position.
#[verifier::external_body]
fn position_side_to_move(pos: &Position) -> (c: u8)
    ensures
        c == position_stm(*pos),
        c <= 1,
{
    pos.side_to_move().ordinal()
}

/// The move's `Move::from`, as the square's `Square::index`: named
/// `entry_move_from_square` of the entry. Not claimed to be on the board:
/// sfbinpack's null move has square 64.
#[verifier::external_body]
fn entry_move_from(e: &TrainingDataEntry) -> (sq: u32)
    ensures
        sq == entry_move_from_square(*e),
{
    e.mv.from().index()
}

/// The move's `Move::to`, as the square's `Square::index`: named
/// `entry_move_to_square` of the entry.
#[verifier::external_body]
fn entry_move_to(e: &TrainingDataEntry) -> (sq: u32)
    ensures
        sq == entry_move_to_square(*e),
{
    e.mv.to().index()
}

/// The move's `Move::mtype`, as its `MoveType::ordinal`, which is 0 to 3:
/// named `entry_move_type_ordinal` of the entry.
#[verifier::external_body]
fn entry_move_type(e: &TrainingDataEntry) -> (k: u8)
    ensures
        k == entry_move_type_ordinal(*e),
        k <= 3,
{
    e.mv.mtype().ordinal()
}

/// The position, score, ply and result fields of a `TrainingDataEntry`:
/// named `entry_fields` of the entry.
#[verifier::external_body]
fn training_entry_parts(e: &TrainingDataEntry) -> (r: (&Position, i16, u16, i16))
    ensures
        (*r.0, r.1, r.2, r.3) == entry_fields(*e),
{
    (&e.pos, e.score, e.ply, e.result)
}

} // verus!
