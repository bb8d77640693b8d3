use binpack_to_h5::chess::{Board, ChessMove, Entry, MoveKind, EMPTY_SQUARE};
use binpack_to_h5::config::BATCH_SIZE;
use binpack_to_h5::pipeline::{
    encode_batch, process_entry, worker_count, EntryOutcome, ReadBatch, ReadState,
    MAX_READ_FAILURES,
};
use sfbinpack::chess::position::Position;

const STARTPOS: &str = "rnbqkbnr/pppppppp/8/8/8/8/PPPPPPPP/RNBQKBNR w KQkq - 0 1";

fn board(fen: &str) -> Board {
    Board::from_position(&Position::from_fen(fen).unwrap()).unwrap()
}

fn entry(fen: &str, from: u32, to: u32, kind: MoveKind, score: i16, result: i16) -> Entry {
    Entry { board: board(fen), mv: ChessMove { from, to, kind }, score, ply: 0, result }
}

fn quiet(score: i16) -> Entry {
    entry(STARTPOS, 12, 28, MoveKind::Normal, score, 1)
}

#[test]
fn quiet_white_entry_is_encoded() {
    match process_entry(&quiet(150), 7, 5) {
        EntryOutcome::Encoded(p) => {
            assert_eq!(p.eval_cp, 150);
            assert_eq!(p.wdl, 1);
            assert_eq!(p.stm, 0);
            assert_eq!(p.piece_count, 32);
            assert_eq!(p.features.len(), 32);
            assert_eq!(p.features[0], 192);
            assert!(!p.is_val);
        }
        _ => panic!("expected an encoded position"),
    }
}

#[test]
fn black_to_move_is_flipped_to_white_pov() {
    let e = entry(
        "rnbqkbnr/pppppppp/8/8/4P3/8/PPPP1PPP/RNBQKBNR b KQkq e3 0 1",
        52,
        36,
        MoveKind::Normal,
        80,
        -1,
    );
    match process_entry(&e, 1003, 5) {
        EntryOutcome::Encoded(p) => {
            assert_eq!(p.eval_cp, -80);
            assert_eq!(p.wdl, 1);
            assert_eq!(p.stm, 1);
            assert!(p.is_val); // 1003 % 1000 = 3 < 5
        }
        _ => panic!("expected an encoded position"),
    }
}

#[test]
fn extreme_scores_flip_without_overflow() {
    let e = entry(
        "rnbqkbnr/pppppppp/8/8/4P3/8/PPPP1PPP/RNBQKBNR b KQkq e3 0 1",
        52,
        36,
        MoveKind::Normal,
        i16::MIN,
        i16::MIN,
    );
    match process_entry(&e, 0, 0) {
        EntryOutcome::Encoded(p) => {
            assert_eq!(p.eval_cp, 32768);
            assert_eq!(p.wdl, 32768);
        }
        _ => panic!("expected an encoded position"),
    }
}

#[test]
fn outcomes_of_filter_and_failures() {
    // capture
    let capture = entry(
        "rnbqkb1r/ppp1pppp/5n2/3P2p1/8/5N2/PPP1PPPP/RNBQKB1R w KQkq - 0 4",
        21,
        38,
        MoveKind::Normal,
        0,
        0,
    );
    assert!(matches!(process_entry(&capture, 0, 5), EntryOutcome::Filtered));
    // in check
    let check = entry("4k3/8/8/8/8/8/8/4K2r w - - 0 1", 4, 12, MoveKind::Normal, 0, 0);
    assert!(matches!(process_entry(&check, 0, 5), EntryOutcome::Filtered));
    // malformed
    let bad = entry(STARTPOS, 120, 12, MoveKind::Normal, 0, 0);
    assert!(matches!(process_entry(&bad, 0, 5), EntryOutcome::Failed));
    // side to move without a king: cannot be tested for check
    let kingless = entry("4k3/8/8/8/8/8/P7/8 w - - 0 1", 8, 16, MoveKind::Normal, 0, 0);
    assert!(matches!(process_entry(&kingless, 0, 5), EntryOutcome::Failed));
    // ... unless its move is a capture, which is filtered first
    let kingless_ep = entry("4k3/8/8/8/8/8/P7/8 w - - 0 1", 8, 16, MoveKind::EnPassant, 0, 0);
    assert!(matches!(process_entry(&kingless_ep, 0, 5), EntryOutcome::Filtered));
}

#[test]
fn val_split_by_global_index() {
    let mut val = 0;
    for idx in 0..3000u64 {
        if let EntryOutcome::Encoded(p) = process_entry(&quiet(0), idx, 5) {
            if p.is_val {
                val += 1;
                assert!(idx % 1000 < 5);
            }
        }
    }
    assert_eq!(val, 15);
}

#[test]
fn encode_batch_counts_every_entry() {
    let item = ReadBatch {
        entries: vec![
            quiet(10),
            entry(STARTPOS, 120, 12, MoveKind::Normal, 0, 0),
            entry("4k3/8/8/8/8/8/8/4K2r w - - 0 1", 4, 12, MoveKind::Normal, 0, 0),
            quiet(20),
            entry(
                "rnbqkb1r/ppp1pppp/5n2/3P2p1/8/5N2/PPP1PPPP/RNBQKB1R w KQkq - 0 4",
                21,
                38,
                MoveKind::Normal,
                0,
                0,
            ),
        ],
        base_idx: 1998,
    };
    let out = encode_batch(&item, 2);
    assert_eq!(out.failed, 1);
    assert_eq!(out.filtered, 2);
    assert_eq!(out.batch.positions.len(), 2);
    assert_eq!(out.batch.positions[0].eval_cp, 10);
    assert!(!out.batch.positions[0].is_val); // index 1998: 998 >= 2
    assert_eq!(out.batch.positions[1].eval_cp, 20);
    assert!(out.batch.positions[1].is_val); // index 2001: 1 < 2
}

#[test]
fn read_state_numbers_entries_in_batches() {
    let mut st = ReadState::new(u64::MAX);
    let mut batches = Vec::new();
    let n = BATCH_SIZE * 2 + 3;
    for i in 0..n {
        assert!(st.wants_more());
        let mut squares = vec![EMPTY_SQUARE; 64];
        squares[4] = 10;
        let e = Entry {
            board: Board::new(squares, 0).unwrap(),
            mv: ChessMove { from: 4, to: 12, kind: MoveKind::Normal },
            score: (i % 1000) as i16,
            ply: 0,
            result: 0,
        };
        if let Some(b) = st.push(e) {
            batches.push(b);
        }
    }
    assert_eq!(st.total_read(), n as u64);
    let last = st.finish().unwrap();
    assert_eq!(batches.len(), 2);
    assert_eq!(batches[0].base_idx, 0);
    assert_eq!(batches[0].entries.len(), BATCH_SIZE);
    assert_eq!(batches[1].base_idx, BATCH_SIZE as u64);
    assert_eq!(last.base_idx, 2 * BATCH_SIZE as u64);
    assert_eq!(last.entries.len(), 3);
    assert_eq!(last.entries[0].score, ((2 * BATCH_SIZE) % 1000) as i16);
}

#[test]
fn read_state_stops_at_target_and_failures() {
    let mut st = ReadState::new(0);
    assert!(!st.wants_more());
    assert!(st.finish().is_none());

    let mut st = ReadState::new(10);
    for _ in 0..MAX_READ_FAILURES {
        assert!(st.note_read_failure());
        assert!(st.wants_more());
    }
    assert!(!st.note_read_failure());
    assert!(!st.wants_more());
    assert_eq!(st.read_failures(), MAX_READ_FAILURES + 1);
    assert_eq!(st.total_read(), 0);
}

#[test]
fn worker_count_defaults_to_clamped_cpus() {
    assert_eq!(worker_count(Some(3), 64), 3);
    assert_eq!(worker_count(None, 1), 2);
    assert_eq!(worker_count(None, 8), 8);
    assert_eq!(worker_count(None, 64), 16);
}
