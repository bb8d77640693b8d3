//! HalfP feature encoding and the integer part of centipawn normalization.
//!
//! HalfP encoding (768 features = 2 colors x 6 piece types x 64 squares):
//! ```text
//! feature_idx = color * 384 + piece_type * 64 + square
//!   color:       0=white, 1=black  (the piece color, board is white-POV)
//!   piece_type:  0=Pawn, 1=Knight, 2=Bishop, 3=Rook, 4=Queen, 5=King
//!   square:      0..63 (a1=0, h8=63)
//! ```

use crate::chess::{
    lemma_occupied_prefix, occupied_prefix, piece_color, piece_kind, placements_of, valid_cells,
    Board, EMPTY_SQUARE, NUM_SQUARES,
};
use crate::config::{MATE_SCORE_CP, MATE_THRESHOLD_CP};
use vstd::prelude::*;

verus! {

/// The HalfP feature of piece `id` standing on square `sq`.
pub open spec fn feature_of(id: u8, sq: u32) -> int {
    piece_color(id) * 384 + piece_kind(id) * 64 + sq
}

/// The HalfP features of a placement list, in its order.
pub open spec fn features_of(placements: Seq<(u8, u32)>) -> Seq<i16> {
    placements.map_values(|p: (u8, u32)| feature_of(p.0, p.1) as i16)
}

/// The HalfP features of a board: one per piece, in square order.
pub open spec fn halfp_features(cells: Seq<u8>) -> Seq<i16> {
    features_of(placements_of(cells))
}

/// The piece id that feature `f` stands for.
pub open spec fn feature_piece(f: int) -> int {
    f / 384 + 2 * ((f % 384) / 64)
}

/// The square that feature `f` stands for.
pub open spec fn feature_square(f: int) -> int {
    f % 64
}

/// Fills `buf` with the HalfP feature indices (white-POV) of every piece on
/// the board, in square order. Whatever `buf` held before is discarded.
pub fn encode_halfp(board: &Board, buf: &mut Vec<i16>)
    ensures
        final(buf)@ == halfp_features(board.cells()),
{
    proof {
        use_type_invariant(board);
    }
    buf.clear();
    let mut sq: u32 = 0;
    while sq < NUM_SQUARES
        invariant
            sq <= 64,
            valid_cells(board.cells()),
            buf@ == features_of(occupied_prefix(board.cells(), sq as int)),
        decreases 64 - sq,
    {
        let id = board.piece_at(sq);
        let ghost before = occupied_prefix(board.cells(), sq as int);
        if id != EMPTY_SQUARE {
            let kind = (id / 2) as i16;
            let color = (id % 2) as i16;
            let idx = color * 384 + kind * 64 + sq as i16;
            buf.push(idx);
            proof {
                let after = before.push((id, sq));
                assert(occupied_prefix(board.cells(), sq + 1) == after);
                assert(features_of(after) =~= features_of(before).push(idx));
            }
        } else {
            assert(occupied_prefix(board.cells(), sq + 1) == before);
        }
        sq = sq + 1;
    }
}

/// A feature names its piece and square back: the piece id is
/// `feature / 384 + 2 * (feature % 384 / 64)` and the square `feature % 64`,
/// and every feature lies in `0..768`.
pub proof fn lemma_feature_decodes(id: u8, sq: u32)
    requires
        id < EMPTY_SQUARE,
        sq < 64,
    ensures
        0 <= feature_of(id, sq) < 768,
        feature_piece(feature_of(id, sq)) == id,
        feature_square(feature_of(id, sq)) == sq,
{
    let c = piece_color(id);
    let k = piece_kind(id);
    assert(0 <= c <= 1 && 0 <= k <= 5 && id == c + 2 * k);
    let f = c * 384 + k * 64 + sq;
    assert(f / 384 == c && f % 384 == k * 64 + sq) by (nonlinear_arith)
        requires
            0 <= c <= 1,
            0 <= k <= 5,
            0 <= sq < 64,
            f == c * 384 + k * 64 + sq,
    ;
    assert((k * 64 + sq) / 64 == k && (k * 64 + sq) % 64 == sq) by (nonlinear_arith)
        requires
            0 <= k <= 5,
            0 <= sq < 64,
    ;
    assert(f % 64 == sq) by (nonlinear_arith)
        requires
            0 <= c <= 1,
            0 <= k <= 5,
            0 <= sq < 64,
            f == c * 384 + k * 64 + sq,
    ;
}

/// The features of a board describe it exactly: each lies in `0..768` and
/// decodes to a piece standing on its square, each piece on the board has
/// its feature, and no feature occurs twice. So there are as many features
/// as pieces.
pub proof fn lemma_halfp_describes_board(cells: Seq<u8>)
    requires
        valid_cells(cells),
    ensures
        forall|i: int|
            0 <= i < halfp_features(cells).len() ==> {
                let f = #[trigger] halfp_features(cells)[i] as int;
                &&& 0 <= f < 768
                &&& cells[feature_square(f)] == feature_piece(f)
                &&& feature_piece(f) != EMPTY_SQUARE
            },
        forall|sq: int|
            0 <= sq < 64 && cells[sq] != EMPTY_SQUARE ==> halfp_features(cells).contains(
                feature_of(cells[sq], sq as u32) as i16,
            ),
        forall|i: int, j: int|
            0 <= i < j < halfp_features(cells).len() ==> #[trigger] halfp_features(cells)[i]
                != #[trigger] halfp_features(cells)[j],
{
    let ps = placements_of(cells);
    let fs = halfp_features(cells);
    lemma_occupied_prefix(cells, 64);
    assert forall|i: int| 0 <= i < fs.len() implies {
        let f = #[trigger] fs[i] as int;
        &&& 0 <= f < 768
        &&& cells[feature_square(f)] == feature_piece(f)
        &&& feature_piece(f) != EMPTY_SQUARE
    } by {
        let p = ps[i];
        lemma_feature_decodes(p.0, p.1);
    }
    assert forall|sq: int| 0 <= sq < 64 && cells[sq] != EMPTY_SQUARE implies fs.contains(
        feature_of(cells[sq], sq as u32) as i16,
    ) by {
        let i = choose|i: int| 0 <= i < ps.len() && #[trigger] ps[i] == (cells[sq], sq as u32);
        assert(fs[i] == feature_of(cells[sq], sq as u32) as i16);
    }
    assert forall|i: int, j: int| 0 <= i < j < fs.len() implies #[trigger] fs[i] != #[trigger] fs[j] by {
        lemma_feature_decodes(ps[i].0, ps[i].1);
        lemma_feature_decodes(ps[j].0, ps[j].1);
        assert(ps[i].1 < ps[j].1);
    }
}

/// The integer decisions of centipawn normalization: the sign, whether the
/// score is a mate score, and the magnitude that the float encoding scales.
#[derive(Clone, Copy, Debug, PartialEq, Eq, Structural)]
pub struct EvalParts {
    /// The score is below zero.
    pub negative: bool,
    /// `|score| > MATE_THRESHOLD_CP`: encoded as a mate above the clip range.
    pub mate: bool,
    /// For a mate, `MATE_SCORE_CP - |score|` (the distance to mate in
    /// centipawns, a hundred per ply); otherwise `|score|`.
    pub magnitude: i32,
}

/// The absolute value of a centipawn score.
pub open spec fn abs_cp(score_cp: i32) -> int {
    if score_cp < 0 {
        -score_cp
    } else {
        score_cp as int
    }
}

/// Splits a centipawn score (white-POV) into what its stored value is made
/// of. Normal scores keep `|score|`, which is then scaled by `EVAL_SCALE` and
/// clipped to `TARGET_CLIP`; mate scores (`|score| > MATE_THRESHOLD_CP`) keep
/// the distance `MATE_SCORE_CP - |score|`, from which the ply estimate of the
/// mate encoding is taken.
pub fn eval_parts(score_cp: i32) -> (r: EvalParts)
    ensures
        r.negative == (score_cp < 0),
        r.mate == (abs_cp(score_cp) > MATE_THRESHOLD_CP),
        r.mate ==> r.magnitude == MATE_SCORE_CP - abs_cp(score_cp),
        !r.mate ==> r.magnitude == abs_cp(score_cp),
{
    let abs: i64 = if score_cp < 0 {
        -(score_cp as i64)
    } else {
        score_cp as i64
    };
    if abs > MATE_THRESHOLD_CP as i64 {
        EvalParts {
            negative: score_cp < 0,
            mate: true,
            magnitude: (MATE_SCORE_CP as i64 - abs) as i32,
        }
    } else {
        EvalParts { negative: score_cp < 0, mate: false, magnitude: abs as i32 }
    }
}

} // verus!
