//! Message types of the conversion pipeline and the decisions made on them.
//!
//! ```text
//!  reader ──ReadBatch──▶ N encoders ──EncodedBatch──▶ writer
//! ```
//! The reader numbers entries in read order and bundles them into batches
//! (`ReadState`); each encoder classifies and encodes the entries of a batch
//! (`encode_batch`).

use crate::config::BATCH_SIZE;
use crate::chess::{
    has_king, king_attacked, lemma_king_placed, lemma_occupied_prefix, placements_of, valid_cells,
    Entry, EMPTY_SQUARE,
};
use crate::encoding::{encode_halfp, halfp_features};
use crate::filter::{
    is_capture, is_malformed_entry, should_skip_entry, spec_is_capture, spec_is_malformed,
    spec_should_skip, spec_stm_in_check,
};
use vstd::prelude::*;

verus! {

/// Out of every 1000 consecutive global entry indices, those whose remainder
/// is below the threshold go to the val split.
pub const VAL_PERIOD: u64 = 1000;

/// Reader -> encoder workers: consecutive entries, the first of which has
/// global index `base_idx`.
pub struct ReadBatch {
    pub entries: Vec<Entry>,
    pub base_idx: u64,
}

/// One fully encoded position (worker -> writer). Score and result are kept
/// as integers from white's point of view; the writer turns them into the
/// stored floats.
pub struct EncodedPos {
    /// Search score in centipawns, white-POV.
    pub eval_cp: i32,
    /// Side to move (0 = white, 1 = black).
    pub stm: u8,
    /// Number of pieces on the board, which is the number of features.
    pub piece_count: u8,
    /// Game result (1, 0, -1 for win, draw, loss), white-POV.
    pub wdl: i32,
    /// HalfP feature indices.
    pub features: Vec<i16>,
    /// Goes to the val split rather than the train split.
    pub is_val: bool,
}

/// What an `EncodedPos` holds.
pub struct EncodedView {
    pub eval_cp: i32,
    pub stm: u8,
    pub piece_count: u8,
    pub wdl: i32,
    pub features: Seq<i16>,
    pub is_val: bool,
}

impl View for EncodedPos {
    type V = EncodedView;

    open spec fn view(&self) -> EncodedView {
        EncodedView {
            eval_cp: self.eval_cp,
            stm: self.stm,
            piece_count: self.piece_count,
            wdl: self.wdl,
            features: self.features@,
            is_val: self.is_val,
        }
    }
}

/// Batch of encoded positions sent to the writer.
pub struct EncodedBatch {
    pub positions: Vec<EncodedPos>,
}

/// What becomes of one entry.
pub enum EntryOutcome {
    Encoded(EncodedPos),
    /// Excluded from training: a capture or the side to move in check.
    Filtered,
    /// Unusable: malformed, or its position cannot be examined.
    Failed,
}

/// What an `EntryOutcome` holds.
pub enum OutcomeView {
    Encoded(EncodedView),
    Filtered,
    Failed,
}

impl View for EntryOutcome {
    type V = OutcomeView;

    open spec fn view(&self) -> OutcomeView {
        match self {
            EntryOutcome::Encoded(p) => OutcomeView::Encoded(p@),
            EntryOutcome::Filtered => OutcomeView::Filtered,
            EntryOutcome::Failed => OutcomeView::Failed,
        }
    }
}

/// A side-to-move-relative value seen from white's side.
pub open spec fn white_pov(value: int, stm: u8) -> int {
    if stm == 0 {
        value
    } else {
        -value
    }
}

/// The entry with global index `global_idx` goes to the val split.
pub open spec fn is_val_index(global_idx: int, val_threshold: int) -> bool {
    global_idx % 1000 < val_threshold
}

/// What becomes of an entry: malformed entries fail; captures are filtered;
/// an entry whose side to move has no king fails (it cannot be tested for
/// check); one in check is filtered; the rest are encoded, white-POV, unless
/// the board is empty.
pub open spec fn spec_outcome(entry: &Entry, global_idx: int, val_threshold: int) -> OutcomeView {
    let cells = entry.board.cells();
    let stm = entry.board.stm();
    let features = halfp_features(cells);
    if spec_is_malformed(entry) {
        OutcomeView::Failed
    } else if spec_is_capture(cells, entry.mv) {
        OutcomeView::Filtered
    } else if !has_king(cells, stm) {
        OutcomeView::Failed
    } else if spec_stm_in_check(&entry.board) {
        OutcomeView::Filtered
    } else if features.len() == 0 {
        OutcomeView::Failed
    } else {
        OutcomeView::Encoded(
            EncodedView {
                eval_cp: white_pov(entry.score as int, stm) as i32,
                stm,
                piece_count: features.len() as u8,
                wdl: white_pov(entry.result as int, stm) as i32,
                features,
                is_val: is_val_index(global_idx, val_threshold),
            },
        )
    }
}

/// Applies the Stockfish-style filter to one entry and encodes it.
pub fn process_entry(entry: &Entry, global_idx: u64, val_threshold: u64) -> (r: EntryOutcome)
    ensures
        r@ == spec_outcome(entry, global_idx as int, val_threshold as int),
{
    if is_malformed_entry(entry) {
        return EntryOutcome::Failed;
    }
    let stm = entry.board.side_to_move();
    if !is_capture(&entry.board, &entry.mv) && !entry.board.has_king(stm) {
        return EntryOutcome::Failed;
    }
    if should_skip_entry(entry) {
        return EntryOutcome::Filtered;
    }
    let mut features: Vec<i16> = Vec::new();
    encode_halfp(&entry.board, &mut features);
    if features.len() == 0 {
        return EntryOutcome::Failed;
    }
    proof {
        use_type_invariant(&entry.board);
        lemma_occupied_prefix(entry.board.cells(), 64);
    }
    let piece_count = features.len() as u8;
    let raw_score = entry.score as i32;
    let raw_result = entry.result as i32;
    let stm_is_white = stm == 0;
    let eval_cp = if stm_is_white {
        raw_score
    } else {
        -raw_score
    };
    let wdl = if stm_is_white {
        raw_result
    } else {
        -raw_result
    };
    let is_val = global_idx % VAL_PERIOD < val_threshold;
    EntryOutcome::Encoded(EncodedPos { eval_cp, stm, piece_count, wdl, features, is_val })
}

/// Only entries that pass the filter are encoded: an encoded entry is well
/// formed, its move is no capture and its side to move is not in check; its
/// features are those of its board and its piece count is their number.
pub proof fn lemma_encoded_entries_pass_filter(entry: &Entry, global_idx: int, val_threshold: int)
    requires
        valid_cells(entry.board.cells()),
        spec_outcome(entry, global_idx, val_threshold) is Encoded,
    ensures
        !spec_is_malformed(entry),
        !spec_should_skip(entry),
        ({
            let p = spec_outcome(entry, global_idx, val_threshold)->Encoded_0;
            &&& p.features == halfp_features(entry.board.cells())
            &&& p.piece_count == p.features.len()
            &&& p.stm == entry.board.stm()
        }),
{
    let features = halfp_features(entry.board.cells());
    assert(features.len() <= 64) by {
        lemma_occupied_prefix(entry.board.cells(), 64);
    }
}

/// What becomes of an entry, in terms of its parts: a malformed entry
/// fails; a capture (en passant, or an ordinary move or promotion onto an
/// occupied square) is filtered whoever is to move; otherwise an entry whose
/// side to move has no king fails, one in check is filtered, and every other
/// one, castling included, is encoded: its features are those of its board,
/// its piece count their number, its score and result seen from white, and
/// it goes to the val split exactly when its index modulo 1000 is below the
/// threshold. Only entries the filter skips are filtered.
pub proof fn lemma_outcome_rule(entry: &Entry, global_idx: int, val_threshold: int)
    requires
        valid_cells(entry.board.cells()),
        entry.board.stm() <= 1,
    ensures
        ({
            let cells = entry.board.cells();
            let stm = entry.board.stm();
            let mv = entry.mv;
            let out = spec_outcome(entry, global_idx, val_threshold);
            let well_formed = mv.from < 64 && mv.to < 64;
            let capture = mv.kind is EnPassant || ((mv.kind is Normal || mv.kind is Promotion)
                && cells[mv.to as int] != EMPTY_SQUARE);
            let in_check = king_attacked(placements_of(cells), stm);
            &&& !well_formed ==> out is Failed
            &&& well_formed && capture ==> out is Filtered
            &&& well_formed && !capture && !has_king(cells, stm) ==> out is Failed
            &&& well_formed && !capture && has_king(cells, stm) && in_check ==> out is Filtered
            &&& out is Filtered ==> well_formed && (capture || in_check)
            &&& well_formed && !capture && has_king(cells, stm) && !in_check ==> {
                &&& out is Encoded
                &&& out->Encoded_0.features == halfp_features(cells)
                &&& out->Encoded_0.features.len() > 0
                &&& out->Encoded_0.piece_count == out->Encoded_0.features.len()
                &&& out->Encoded_0.stm == stm
                &&& out->Encoded_0.eval_cp == (if stm == 0 {
                    entry.score as int
                } else {
                    -entry.score
                })
                &&& out->Encoded_0.wdl == (if stm == 0 {
                    entry.result as int
                } else {
                    -entry.result
                })
                &&& out->Encoded_0.is_val == (global_idx % 1000 < val_threshold)
            }
        }),
{
    let cells = entry.board.cells();
    let stm = entry.board.stm();
    lemma_occupied_prefix(cells, 64);
    if has_king(cells, stm) {
        lemma_king_placed(cells, stm);
    }
}

/// The outcomes of a run of entries whose first has global index `base`.
pub open spec fn outcomes_of(entries: Seq<Entry>, base: int, val_threshold: int) -> Seq<
    OutcomeView,
> {
    Seq::new(entries.len(), |i: int| spec_outcome(&entries[i], base + i, val_threshold))
}

/// The encoded positions among `outs`, in order.
pub open spec fn encoded_of(outs: Seq<OutcomeView>) -> Seq<EncodedView>
    decreases outs.len(),
{
    if outs.len() == 0 {
        Seq::empty()
    } else {
        let rest = encoded_of(outs.drop_last());
        match outs.last() {
            OutcomeView::Encoded(p) => rest.push(p),
            _ => rest,
        }
    }
}

/// How many of `outs` are filtered.
pub open spec fn count_filtered(outs: Seq<OutcomeView>) -> nat
    decreases outs.len(),
{
    if outs.len() == 0 {
        0
    } else {
        count_filtered(outs.drop_last()) + if outs.last() is Filtered {
            1nat
        } else {
            0nat
        }
    }
}

/// How many of `outs` failed.
pub open spec fn count_failed(outs: Seq<OutcomeView>) -> nat
    decreases outs.len(),
{
    if outs.len() == 0 {
        0
    } else {
        count_failed(outs.drop_last()) + if outs.last() is Failed {
            1nat
        } else {
            0nat
        }
    }
}

/// Every entry is accounted for exactly once: encoded, filtered or failed.
pub proof fn lemma_outcomes_partition(outs: Seq<OutcomeView>)
    ensures
        encoded_of(outs).len() + count_filtered(outs) + count_failed(outs) == outs.len(),
    decreases outs.len(),
{
    if outs.len() > 0 {
        lemma_outcomes_partition(outs.drop_last());
    }
}

/// An encoder's work on one batch: the encoded positions in entry order and
/// the number of filtered and failed entries.
pub struct BatchOutcome {
    pub batch: EncodedBatch,
    pub filtered: u64,
    pub failed: u64,
}

/// Filters and encodes every entry of a batch; the entry at position `i`
/// has global index `base_idx + i`.
pub fn encode_batch(item: &ReadBatch, val_threshold: u64) -> (r: BatchOutcome)
    requires
        item.base_idx + item.entries.len() <= u64::MAX,
    ensures
        r.batch.positions@.map_values(|p: EncodedPos| p@) == encoded_of(
            outcomes_of(item.entries@, item.base_idx as int, val_threshold as int),
        ),
        r.filtered == count_filtered(
            outcomes_of(item.entries@, item.base_idx as int, val_threshold as int),
        ),
        r.failed == count_failed(
            outcomes_of(item.entries@, item.base_idx as int, val_threshold as int),
        ),
        r.batch.positions.len() + r.filtered + r.failed == item.entries.len(),
{
    let ghost all = outcomes_of(item.entries@, item.base_idx as int, val_threshold as int);
    let mut positions: Vec<EncodedPos> = Vec::with_capacity(item.entries.len());
    let mut filtered: u64 = 0;
    let mut failed: u64 = 0;
    let mut i: usize = 0;
    while i < item.entries.len()
        invariant
            i <= item.entries.len(),
            item.base_idx + item.entries.len() <= u64::MAX,
            all == outcomes_of(item.entries@, item.base_idx as int, val_threshold as int),
            positions@.map_values(|p: EncodedPos| p@) == encoded_of(all.take(i as int)),
            filtered == count_filtered(all.take(i as int)),
            failed == count_failed(all.take(i as int)),
            positions.len() + filtered + failed == i,
        decreases item.entries.len() - i,
    {
        proof {
            lemma_outcomes_partition(all.take(i as int));
            assert(all.take(i + 1).drop_last() == all.take(i as int));
        }
        let global_idx = item.base_idx + i as u64;
        let outcome = process_entry(&item.entries[i], global_idx, val_threshold);
        match outcome {
            EntryOutcome::Encoded(pos) => {
                let ghost before = positions@;
                positions.push(pos);
                assert(positions@.map_values(|p: EncodedPos| p@) =~= before.map_values(
                    |p: EncodedPos| p@,
                ).push(pos@));
            },
            EntryOutcome::Filtered => {
                filtered = filtered + 1;
            },
            EntryOutcome::Failed => {
                failed = failed + 1;
            },
        }
        i = i + 1;
    }
    assert(all.take(i as int) == all);
    BatchOutcome { batch: EncodedBatch { positions }, filtered, failed }
}

/// How many of the `n` global indices from `start` on go to the val split.
pub open spec fn count_val(start: int, n: int, val_threshold: int) -> int
    decreases n,
{
    if n <= 0 {
        0
    } else {
        count_val(start, n - 1, val_threshold) + if is_val_index(start + n - 1, val_threshold) {
            1int
        } else {
            0int
        }
    }
}

/// The val split takes exactly `val_threshold` (at most 1000) of every block
/// of 1000 consecutive global indices, so the held-out fraction is
/// `val_threshold / 1000` whatever order the entries come in.
pub proof fn lemma_val_share(block: nat, val_threshold: int)
    requires
        val_threshold >= 0,
    ensures
        count_val((1000 * block) as int, 1000, val_threshold) == if val_threshold < 1000 {
            val_threshold
        } else {
            1000
        },
{
    lemma_val_share_prefix(block, 1000, val_threshold);
}

proof fn lemma_val_share_prefix(block: nat, n: int, val_threshold: int)
    requires
        0 <= n <= 1000,
        val_threshold >= 0,
    ensures
        count_val((1000 * block) as int, n, val_threshold) == if val_threshold < n {
            val_threshold
        } else {
            n
        },
    decreases n,
{
    if n > 0 {
        lemma_val_share_prefix(block, n - 1, val_threshold);
        let j = n - 1;
        assert((1000 * block + j) % 1000 == j) by (nonlinear_arith)
            requires
                0 <= j < 1000,
        ;
    }
}


/// Number of encoder workers: the requested count, or else the number of
/// CPUs kept within `2..=16`.
pub fn worker_count(requested: Option<usize>, cpus: usize) -> (r: usize)
    ensures
        requested matches Some(n) ==> r == n,
        requested is None ==> r == (if cpus < 2 {
            2
        } else if cpus > 16 {
            16
        } else {
            cpus
        }),
{
    match requested {
        Some(n) => n,
        None => {
            if cpus < 2 {
                2
            } else if cpus > 16 {
                16
            } else {
                cpus
            }
        },
    }
}

/// Most entries the reader may fail to read before it gives up on a file.
pub const MAX_READ_FAILURES: u64 = 10_000;

/// The reader's decisions: when to stop reading, how entries are numbered
/// and bundled into batches of `BATCH_SIZE`.
pub struct ReadState {
    batch: Vec<Entry>,
    next_base_idx: u64,
    total_read: u64,
    read_failures: u64,
    target_total: u64,
}

impl ReadState {
    /// Entries read but not yet handed out, in read order.
    pub closed spec fn pending(&self) -> Seq<Entry> {
        self.batch@
    }

    /// Global index of the first pending entry.
    pub closed spec fn next_base(&self) -> u64 {
        self.next_base_idx
    }

    /// Number of entries read.
    pub closed spec fn read_count(&self) -> u64 {
        self.total_read
    }

    /// Number of entries that could not be read.
    pub closed spec fn failure_count(&self) -> u64 {
        self.read_failures
    }

    /// Most entries to read.
    pub closed spec fn target(&self) -> u64 {
        self.target_total
    }

    /// Entries are numbered in read order: the pending ones follow the
    /// handed-out ones, and a batch is handed out once it is full.
    pub closed spec fn inv(&self) -> bool {
        &&& self.batch.len() < BATCH_SIZE
        &&& self.next_base_idx + self.batch.len() == self.total_read
        &&& self.total_read <= self.target_total
        &&& self.read_failures <= MAX_READ_FAILURES + 1
    }

    /// A reader that will read at most `target_total` entries.
    pub fn new(target_total: u64) -> (r: Self)
        ensures
            r.inv(),
            r.pending() == Seq::<Entry>::empty(),
            r.next_base() == 0,
            r.read_count() == 0,
            r.failure_count() == 0,
            r.target() == target_total,
    {
        ReadState {
            batch: Vec::new(),
            next_base_idx: 0,
            total_read: 0,
            read_failures: 0,
            target_total,
        }
    }

    /// Whether to read another entry: fewer than the target were read and no
    /// more than `MAX_READ_FAILURES` could not be read.
    pub fn wants_more(&self) -> (r: bool)
        ensures
            r == (self.read_count() < self.target() && self.failure_count()
                <= MAX_READ_FAILURES),
    {
        self.total_read < self.target_total && self.read_failures <= MAX_READ_FAILURES
    }

    /// Takes the next entry read, whose global index is the number of entries
    /// read before it; hands out the batch it completes.
    pub fn push(&mut self, entry: Entry) -> (r: Option<ReadBatch>)
        requires
            old(self).inv(),
            old(self).read_count() < old(self).target(),
        ensures
            final(self).inv(),
            final(self).read_count() == old(self).read_count() + 1,
            final(self).failure_count() == old(self).failure_count(),
            final(self).target() == old(self).target(),
            old(self).next_base() + old(self).pending().len() == old(self).read_count(),
            r is Some <==> old(self).pending().len() + 1 == BATCH_SIZE,
            r matches Some(b) ==> {
                &&& b.base_idx == old(self).next_base()
                &&& b.entries@ == old(self).pending().push(entry)
                &&& final(self).pending() == Seq::<Entry>::empty()
                &&& final(self).next_base() == old(self).next_base() + BATCH_SIZE
            },
            r is None ==> final(self).pending() == old(self).pending().push(entry)
                && final(self).next_base() == old(self).next_base(),
    {
        self.batch.push(entry);
        self.total_read = self.total_read + 1;
        if self.batch.len() >= BATCH_SIZE {
            let mut entries: Vec<Entry> = Vec::with_capacity(BATCH_SIZE);
            core::mem::swap(&mut entries, &mut self.batch);
            let item = ReadBatch { entries, base_idx: self.next_base_idx };
            self.next_base_idx = self.next_base_idx + BATCH_SIZE as u64;
            Some(item)
        } else {
            None
        }
    }

    /// Counts an entry that could not be read; false once more than
    /// `MAX_READ_FAILURES` could not be read, when reading stops.
    pub fn note_read_failure(&mut self) -> (r: bool)
        requires
            old(self).inv(),
            old(self).failure_count() <= MAX_READ_FAILURES,
        ensures
            final(self).inv(),
            final(self).failure_count() == old(self).failure_count() + 1,
            final(self).read_count() == old(self).read_count(),
            final(self).pending() == old(self).pending(),
            final(self).next_base() == old(self).next_base(),
            final(self).target() == old(self).target(),
            r == (final(self).failure_count() <= MAX_READ_FAILURES),
    {
        self.read_failures = self.read_failures + 1;
        self.read_failures <= MAX_READ_FAILURES
    }

    /// Number of entries read.
    pub fn total_read(&self) -> (r: u64)
        ensures
            r == self.read_count(),
    {
        self.total_read
    }

    /// Number of entries that could not be read.
    pub fn read_failures(&self) -> (r: u64)
        ensures
            r == self.failure_count(),
    {
        self.read_failures
    }

    /// Hands out the last, partial batch, if any entry is pending.
    pub fn finish(self) -> (r: Option<ReadBatch>)
        requires
            self.inv(),
        ensures
            r is Some <==> self.pending().len() > 0,
            r matches Some(b) ==> b.base_idx == self.next_base() && b.entries@ == self.pending()
                && b.base_idx + b.entries.len() == self.read_count(),
    {
        if self.batch.len() > 0 {
            Some(ReadBatch { entries: self.batch, base_idx: self.next_base_idx })
        } else {
            None
        }
    }
}

} // verus!
