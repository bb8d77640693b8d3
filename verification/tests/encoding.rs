use binpack_to_h5::chess::Board;
use binpack_to_h5::encoding::{encode_halfp, eval_parts, EvalParts};
use sfbinpack::chess::position::Position;

const STARTPOS: &str = "rnbqkbnr/pppppppp/8/8/8/8/PPPPPPPP/RNBQKBNR w KQkq - 0 1";

fn board(fen: &str) -> Board {
    Board::from_position(&Position::from_fen(fen).unwrap()).unwrap()
}

#[test]
fn startpos_has_32_pieces() {
    let pos = board(STARTPOS);
    let mut buf = Vec::new();
    encode_halfp(&pos, &mut buf);
    assert_eq!(buf.len(), 32);
}

#[test]
fn feature_indices_in_range() {
    let pos = board(STARTPOS);
    let mut buf = Vec::new();
    encode_halfp(&pos, &mut buf);
    for &idx in &buf {
        assert!((0..768).contains(&(idx as i32)), "idx {idx} out of [0, 768)");
    }
}

#[test]
fn empty_board_yields_no_features() {
    let pos = board("8/8/8/8/8/8/8/8 w - - 0 1");
    let mut buf = vec![1, 2, 3]; // garbage to verify clear()
    encode_halfp(&pos, &mut buf);
    assert!(buf.is_empty());
}

#[test]
fn startpos_features_follow_the_formula() {
    let pos = board(STARTPOS);
    let mut buf = Vec::new();
    encode_halfp(&pos, &mut buf);
    // a1 white rook: 0*384 + 3*64 + 0; b1 white knight: 1*64 + 1
    assert_eq!(buf[0], 192);
    assert_eq!(buf[1], 65);
    // e1 white king: 5*64 + 4
    assert_eq!(buf[4], 324);
    // a2 white pawn: square 8
    assert_eq!(buf[8], 8);
    // a7 black pawn: 384 + 48
    assert_eq!(buf[16], 432);
    // h8 black rook: 384 + 3*64 + 63, the last feature
    assert_eq!(buf[31], 639);
    // e8 black king: 384 + 5*64 + 60
    assert_eq!(buf[28], 764);
}

#[test]
fn features_decode_to_their_pieces() {
    let pos = board("4k3/8/8/3q4/8/8/8/R3K3 b Q - 0 1");
    let mut buf = Vec::new();
    encode_halfp(&pos, &mut buf);
    assert_eq!(buf.len(), 4);
    for &f in &buf {
        let f = f as u32;
        let id = f / 384 + 2 * ((f % 384) / 64);
        let sq = f % 64;
        assert_eq!(pos.piece_at(sq) as u32, id);
    }
}

#[test]
fn encode_overwrites_a_used_buffer() {
    let pos = board("8/8/8/8/8/8/8/7k w - - 0 1");
    let mut buf = vec![9, 9, 9, 9];
    encode_halfp(&pos, &mut buf);
    // black king on h1: 384 + 5*64 + 7
    assert_eq!(buf, vec![711]);
}

#[test]
fn eval_parts_zero() {
    assert_eq!(eval_parts(0), EvalParts { negative: false, mate: false, magnitude: 0 });
}

#[test]
fn eval_parts_normal_scores() {
    assert_eq!(eval_parts(10_000), EvalParts { negative: false, mate: false, magnitude: 10_000 });
    assert_eq!(eval_parts(-10_000), EvalParts { negative: true, mate: false, magnitude: 10_000 });
    assert_eq!(eval_parts(200), EvalParts { negative: false, mate: false, magnitude: 200 });
    assert_eq!(eval_parts(-100), EvalParts { negative: true, mate: false, magnitude: 100 });
}

#[test]
fn eval_parts_mate_threshold() {
    assert_eq!(eval_parts(25_000), EvalParts { negative: false, mate: false, magnitude: 25_000 });
    assert_eq!(eval_parts(25_001), EvalParts { negative: false, mate: true, magnitude: 6_999 });
    assert_eq!(eval_parts(-25_001), EvalParts { negative: true, mate: true, magnitude: 6_999 });
}

#[test]
fn eval_parts_mate_in_five() {
    assert_eq!(eval_parts(31_500), EvalParts { negative: false, mate: true, magnitude: 500 });
    assert_eq!(eval_parts(-31_500), EvalParts { negative: true, mate: true, magnitude: 500 });
}

#[test]
fn eval_parts_extreme_scores() {
    assert_eq!(eval_parts(32_767), EvalParts { negative: false, mate: true, magnitude: -767 });
    assert_eq!(
        eval_parts(i32::MIN),
        EvalParts { negative: true, mate: true, magnitude: -2_147_451_648 }
    );
}
