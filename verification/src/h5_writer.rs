//! The writer side of the conversion: per-split position buffers, the layout
//! of flushed chunks in the `sparse_v1` datasets, and the writer's routing
//! and flushing decisions.
//!
//! A `sparse_v1` group holds one row per position in `evals`, `has_eval`,
//! `has_wdl`, `stm`, `piece_count` and `wdl`, the features of all positions
//! back to back in `w_flat`, and in `offsets` one more entry than there are
//! positions: the features of position `i` are
//! `w_flat[offsets[i]..offsets[i + 1]]`.

use crate::pipeline::EncodedPos;
use vstd::prelude::*;

verus! {

/// One buffered or stored position.
pub struct PosRecord {
    /// Search score in centipawns, white-POV.
    pub eval_cp: i32,
    pub stm: u8,
    pub piece_count: u8,
    /// Game result, white-POV.
    pub wdl: i32,
    pub features: Seq<i16>,
}

/// The record an encoded position is stored as.
pub open spec fn record_of(p: &EncodedPos) -> PosRecord {
    PosRecord {
        eval_cp: p.eval_cp,
        stm: p.stm,
        piece_count: p.piece_count,
        wdl: p.wdl,
        features: p.features@,
    }
}

/// Number of features of all `records` together.
pub open spec fn total_features(records: Seq<PosRecord>) -> int
    decreases records.len(),
{
    if records.len() == 0 {
        0
    } else {
        total_features(records.drop_last()) + records.last().features.len()
    }
}

/// The features of all `records`, back to back.
pub open spec fn concat_features(records: Seq<PosRecord>) -> Seq<i16>
    decreases records.len(),
{
    if records.len() == 0 {
        Seq::empty()
    } else {
        concat_features(records.drop_last()) + records.last().features
    }
}

pub proof fn lemma_concat_len(records: Seq<PosRecord>)
    ensures
        concat_features(records).len() == total_features(records),
        total_features(records) >= 0,
    decreases records.len(),
{
    if records.len() > 0 {
        lemma_concat_len(records.drop_last());
    }
}

/// Feature counts and feature lists add up over concatenation.
pub proof fn lemma_concat_append(a: Seq<PosRecord>, b: Seq<PosRecord>)
    ensures
        total_features(a + b) == total_features(a) + total_features(b),
        concat_features(a + b) == concat_features(a) + concat_features(b),
    decreases b.len(),
{
    if b.len() == 0 {
        assert(a + b == a);
        assert(concat_features(a) + concat_features(b) == concat_features(a));
    } else {
        lemma_concat_append(a, b.drop_last());
        assert((a + b).drop_last() == a + b.drop_last());
        assert((a + b).last() == b.last());
        assert(concat_features(a + b) =~= concat_features(a) + concat_features(b));
    }
}

/// In-memory accumulator for one split (train or val) before it is flushed.
pub struct PositionBuffer {
    /// Search scores in centipawns, white-POV.
    pub evals: Vec<i32>,
    pub has_eval: Vec<u8>,
    pub has_wdl: Vec<u8>,
    pub stm: Vec<u8>,
    pub piece_count: Vec<u8>,
    /// Game results, white-POV.
    pub wdl: Vec<i32>,
    pub w_flat: Vec<i16>,
    /// Offsets relative to this buffer; turned into absolute offsets on flush.
    pub offsets_relative: Vec<i64>,
}

impl PositionBuffer {
    /// The columns have one row per position, and `offsets_relative` starts
    /// at zero, never decreases and ends at the length of `w_flat`.
    pub open spec fn wf(&self) -> bool {
        let n = self.evals.len();
        &&& self.has_eval.len() == n
        &&& self.has_wdl.len() == n
        &&& self.stm.len() == n
        &&& self.piece_count.len() == n
        &&& self.wdl.len() == n
        &&& self.offsets_relative.len() == n + 1
        &&& self.offsets_relative@[0] == 0
        &&& forall|i: int, j: int|
            0 <= i <= j <= n ==> #[trigger] self.offsets_relative@[i]
                <= #[trigger] self.offsets_relative@[j]
        &&& self.offsets_relative@[n as int] == self.w_flat.len()
    }

    /// Every buffered position is marked as having an eval and a result, as
    /// `add` marks them.
    pub open spec fn flags_set(&self) -> bool {
        &&& forall|i: int| 0 <= i < self.has_eval.len() ==> #[trigger] self.has_eval@[i] == 1
        &&& forall|i: int| 0 <= i < self.has_wdl.len() ==> #[trigger] self.has_wdl@[i] == 1
    }

    /// The buffered positions, in the order they were added.
    pub open spec fn records(&self) -> Seq<PosRecord> {
        Seq::new(
            self.evals.len() as nat,
            |i: int|
                PosRecord {
                    eval_cp: self.evals@[i],
                    stm: self.stm@[i],
                    piece_count: self.piece_count@[i],
                    wdl: self.wdl@[i],
                    features: self.w_flat@.subrange(
                        self.offsets_relative@[i] as int,
                        self.offsets_relative@[i + 1] as int,
                    ),
                },
        )
    }

    /// An empty buffer.
    pub fn new() -> (r: Self)
        ensures
            r.wf(),
            r.records() == Seq::<PosRecord>::empty(),
            r.evals@.len() == 0,
            r.has_eval@.len() == 0,
            r.has_wdl@.len() == 0,
            r.stm@.len() == 0,
            r.piece_count@.len() == 0,
            r.wdl@.len() == 0,
            r.w_flat@.len() == 0,
            r.offsets_relative@ == seq![0i64],
            r.flags_set(),
    {
        let mut offsets_relative: Vec<i64> = Vec::new();
        offsets_relative.push(0);
        let r = PositionBuffer {
            evals: Vec::new(),
            has_eval: Vec::new(),
            has_wdl: Vec::new(),
            stm: Vec::new(),
            piece_count: Vec::new(),
            wdl: Vec::new(),
            w_flat: Vec::new(),
            offsets_relative,
        };
        assert(r.records() =~= Seq::<PosRecord>::empty());
        assert(r.offsets_relative@ =~= seq![0i64]);
        r
    }

    /// Number of buffered positions.
    pub fn len(&self) -> (r: usize)
        ensures
            r == self.evals@.len(),
            r == self.records().len(),
    {
        self.evals.len()
    }

    /// Appends one position.
    pub fn add(&mut self, ev: i32, st: u8, pc: u8, wdl_val: i32, features: &[i16])
        requires
            old(self).wf(),
            old(self).w_flat.len() + features@.len() <= i64::MAX,
        ensures
            final(self).wf(),
            final(self).records() == old(self).records().push(
                PosRecord { eval_cp: ev, stm: st, piece_count: pc, wdl: wdl_val, features: features@ },
            ),
            final(self).evals@ == old(self).evals@.push(ev),
            final(self).has_eval@ == old(self).has_eval@.push(1),
            final(self).has_wdl@ == old(self).has_wdl@.push(1),
            final(self).stm@ == old(self).stm@.push(st),
            final(self).piece_count@ == old(self).piece_count@.push(pc),
            final(self).wdl@ == old(self).wdl@.push(wdl_val),
            final(self).w_flat@ == old(self).w_flat@ + features@,
            old(self).flags_set() ==> final(self).flags_set(),
            final(self).offsets_relative@ == old(self).offsets_relative@.push(
                (old(self).w_flat@.len() + features@.len()) as i64,
            ),
    {
        let ghost old_records = self.records();
        let ghost old_w = self.w_flat@;
        let n = self.evals.len();
        self.evals.push(ev);
        self.has_eval.push(1);
        self.has_wdl.push(1);
        self.stm.push(st);
        self.piece_count.push(pc);
        self.wdl.push(wdl_val);
        let ghost before_loop = *self;
        let mut k: usize = 0;
        while k < features.len()
            invariant
                k <= features@.len(),
                self.w_flat@ == old_w + features@.take(k as int),
                self.evals == before_loop.evals,
                self.has_eval == before_loop.has_eval,
                self.has_wdl == before_loop.has_wdl,
                self.stm == before_loop.stm,
                self.piece_count == before_loop.piece_count,
                self.wdl == before_loop.wdl,
                self.offsets_relative == before_loop.offsets_relative,
            decreases features@.len() - k,
        {
            self.w_flat.push(features[k]);
            assert(features@.take(k + 1) == features@.take(k as int).push(features@[k as int]));
            k = k + 1;
        }
        assert(features@.take(k as int) == features@);
        let last = self.offsets_relative[n];
        self.offsets_relative.push(last + features.len() as i64);
        let ghost record = PosRecord {
            eval_cp: ev,
            stm: st,
            piece_count: pc,
            wdl: wdl_val,
            features: features@,
        };
        assert forall|i: int, j: int| 0 <= i <= j <= n + 1 implies #[trigger] self.offsets_relative@[i]
            <= #[trigger] self.offsets_relative@[j] by {
            if j == n + 1 && i <= n {
                assert(self.offsets_relative@[i] <= self.offsets_relative@[n as int]);
            }
        }
        assert forall|i: int| 0 <= i < n + 1 implies #[trigger] self.records()[i] == old_records.push(
            record,
        )[i] by {
            if i < n {
                assert(self.offsets_relative@[i] <= self.offsets_relative@[i + 1]);
                assert(self.offsets_relative@[i + 1] <= self.offsets_relative@[n as int]);
                assert(self.w_flat@.subrange(
                    self.offsets_relative@[i] as int,
                    self.offsets_relative@[i + 1] as int,
                ) =~= old_w.subrange(
                    self.offsets_relative@[i] as int,
                    self.offsets_relative@[i + 1] as int,
                ));
            } else {
                assert(self.w_flat@.subrange(old_w.len() as int, self.w_flat@.len() as int)
                    =~= features@);
            }
        }
        assert(self.records() =~= old_records.push(record));
    }

    /// Empties the buffer.
    pub fn clear(&mut self)
        ensures
            final(self).wf(),
            final(self).records() == Seq::<PosRecord>::empty(),
            final(self).evals@.len() == 0,
            final(self).has_eval@.len() == 0,
            final(self).has_wdl@.len() == 0,
            final(self).stm@.len() == 0,
            final(self).piece_count@.len() == 0,
            final(self).wdl@.len() == 0,
            final(self).w_flat@.len() == 0,
            final(self).offsets_relative@ == seq![0i64],
            final(self).flags_set(),
    {
        self.evals.clear();
        self.has_eval.clear();
        self.has_wdl.clear();
        self.stm.clear();
        self.piece_count.clear();
        self.wdl.clear();
        self.w_flat.clear();
        self.offsets_relative.clear();
        self.offsets_relative.push(0);
        assert(self.records() =~= Seq::<PosRecord>::empty());
        assert(self.offsets_relative@ =~= seq![0i64]);
    }

    /// A buffer gives back what was added to it: `new` and `clear` leave no
    /// records and each `add` appends one, so `records()` is the sequence of
    /// added positions; then `len()` is their number, and the features of
    /// the `j`-th are `w_flat[offsets_relative[j]..offsets_relative[j + 1]]`,
    /// all of them back to back making up `w_flat`.
    pub proof fn lemma_reads_back(&self)
        requires
            self.wf(),
        ensures
            self.evals@.len() == self.records().len(),
            forall|j: int|
                0 <= j < self.records().len() ==> {
                    &&& #[trigger] self.w_flat@.subrange(
                        self.offsets_relative@[j] as int,
                        self.offsets_relative@[j + 1] as int,
                    ) == self.records()[j].features
                    &&& self.evals@[j] == self.records()[j].eval_cp
                    &&& self.stm@[j] == self.records()[j].stm
                    &&& self.piece_count@[j] == self.records()[j].piece_count
                    &&& self.wdl@[j] == self.records()[j].wdl
                },
            self.w_flat@ == concat_features(self.records()),
    {
        self.lemma_layout();
    }

    /// In a well-formed buffer, `offsets_relative[k]` counts the features of
    /// the first `k` positions and `w_flat` holds all their features back to
    /// back.
    pub proof fn lemma_layout(&self)
        requires
            self.wf(),
        ensures
            forall|k: int|
                0 <= k <= self.records().len() ==> #[trigger] self.offsets_relative@[k]
                    == total_features(self.records().take(k)),
            self.w_flat@ == concat_features(self.records()),
            self.w_flat@.len() == total_features(self.records()),
    {
        let recs = self.records();
        let n = recs.len() as int;
        assert forall|k: int| 0 <= k <= n implies #[trigger] self.offsets_relative@[k]
            == total_features(recs.take(k)) && self.w_flat@.take(
            self.offsets_relative@[k] as int,
        ) == concat_features(recs.take(k)) by {
            self.lemma_layout_prefix(k);
        }
        assert(recs.take(n) == recs);
        assert(self.w_flat@.take(self.offsets_relative@[n] as int) == self.w_flat@);
    }

    proof fn lemma_layout_prefix(&self, k: int)
        requires
            self.wf(),
            0 <= k <= self.records().len(),
        ensures
            self.offsets_relative@[k] == total_features(self.records().take(k)),
            self.w_flat@.take(self.offsets_relative@[k] as int) == concat_features(
                self.records().take(k),
            ),
        decreases k,
    {
        let recs = self.records();
        let n = recs.len() as int;
        if k == 0 {
            assert(recs.take(0) =~= Seq::<PosRecord>::empty());
            assert(self.w_flat@.take(0) =~= Seq::<i16>::empty());
        } else {
            self.lemma_layout_prefix(k - 1);
            assert(recs.take(k).drop_last() == recs.take(k - 1));
            let lo = self.offsets_relative@[k - 1] as int;
            let hi = self.offsets_relative@[k] as int;
            assert(lo <= hi);
            assert(hi <= self.offsets_relative@[n]);
            assert(self.w_flat@.take(hi) =~= self.w_flat@.take(lo) + self.w_flat@.subrange(lo, hi));
        }
    }
}

impl Default for PositionBuffer {
    fn default() -> (r: Self)
        ensures
            r.wf(),
            r.records() == Seq::<PosRecord>::empty(),
            r.evals@.len() == 0,
            r.has_eval@.len() == 0,
            r.has_wdl@.len() == 0,
            r.stm@.len() == 0,
            r.piece_count@.len() == 0,
            r.wdl@.len() == 0,
            r.w_flat@.len() == 0,
            r.offsets_relative@ == seq![0i64],
            r.flags_set(),
    {
        Self::new()
    }
}


/// Reading a stored group gives back its positions: row `i` of every
/// per-position column is position `i`'s, and its features are
/// `w_flat[offsets[i]..offsets[i + 1]]`.
pub proof fn lemma_group_image_reads_back(records: Seq<PosRecord>)
    requires
        total_features(records) <= i64::MAX,
    ensures
        ({
            let g = group_image(records);
            &&& g.offsets.len() == records.len() + 1
            &&& g.offsets[0] == 0
            &&& g.offsets[records.len() as int] == g.w_flat.len()
            &&& forall|i: int|
                0 <= i < records.len() ==> {
                    &&& #[trigger] g.w_flat.subrange(g.offsets[i] as int, g.offsets[i + 1] as int)
                        == records[i].features
                    &&& g.evals[i] == records[i].eval_cp
                    &&& g.stm[i] == records[i].stm
                    &&& g.piece_count[i] == records[i].piece_count
                    &&& g.wdl[i] == records[i].wdl
                    &&& g.has_eval[i] == 1
                    &&& g.has_wdl[i] == 1
                }
        }),
{
    let g = group_image(records);
    let n = records.len() as int;
    lemma_concat_len(records);
    assert(records.take(0) =~= Seq::<PosRecord>::empty());
    assert(records.take(n) == records);
    assert forall|i: int| 0 <= i < n implies #[trigger] g.w_flat.subrange(
        g.offsets[i] as int,
        g.offsets[i + 1] as int,
    ) == records[i].features by {
        lemma_total_monotone(records, i + 1, n);
        lemma_total_monotone(records, i, i + 1);
        let head = records.take(i + 1);
        assert(records == head + records.skip(i + 1));
        lemma_concat_append(head, records.skip(i + 1));
        assert(head.drop_last() == records.take(i));
        lemma_concat_len(records.take(i));
        lemma_concat_len(head);
        let lo = total_features(records.take(i));
        let hi = total_features(head);
        assert(concat_features(head) == concat_features(records.take(i)) + records[i].features);
        assert(g.w_flat.subrange(lo, hi) =~= records[i].features);
    }
}

/// Stored positions keep their fields apart: in the group that stores a run
/// of encoded positions, row `i` of the `evals`, `stm`, `piece_count` and
/// `wdl` columns holds the score, side to move, piece count and result of
/// the `i`-th position, and its features are `w_flat[offsets[i]..offsets[i + 1]]`.
pub proof fn lemma_stored_columns_are_fields(positions: Seq<EncodedPos>)
    requires
        total_features(positions.map_values(|p: EncodedPos| record_of(&p))) <= i64::MAX,
    ensures
        ({
            let g = group_image(positions.map_values(|p: EncodedPos| record_of(&p)));
            forall|i: int|
                0 <= i < positions.len() ==> {
                    &&& #[trigger] g.evals[i] == positions[i].eval_cp
                    &&& g.stm[i] == positions[i].stm
                    &&& g.piece_count[i] == positions[i].piece_count
                    &&& g.wdl[i] == positions[i].wdl
                    &&& g.w_flat.subrange(g.offsets[i] as int, g.offsets[i + 1] as int)
                        == positions[i].features@
                }
        }),
{
    let recs = positions.map_values(|p: EncodedPos| record_of(&p));
    lemma_group_image_reads_back(recs);
    let g = group_image(recs);
    assert forall|i: int| 0 <= i < positions.len() implies {
        &&& #[trigger] g.evals[i] == positions[i].eval_cp
        &&& g.stm[i] == positions[i].stm
        &&& g.piece_count[i] == positions[i].piece_count
        &&& g.wdl[i] == positions[i].wdl
        &&& g.w_flat.subrange(g.offsets[i] as int, g.offsets[i + 1] as int)
            == positions[i].features@
    } by {
        assert(recs[i] == record_of(&positions[i]));
        assert(g.w_flat.subrange(g.offsets[i] as int, g.offsets[i + 1] as int) == recs[i].features);
    }
}

/// Where the next flushed chunk of one split (train or val) goes: how many
/// positions and how many features its group already holds.
pub struct GroupLayout {
    pub n_written: usize,
    pub w_flat_offset: i64,
}

/// The writes that store one buffer in a group: each column is resized to
/// the end of its range and the range is written.
pub struct FlushPlan {
    /// Rows of the per-position columns, taken from the buffer's columns.
    pub rows_start: usize,
    pub rows_end: usize,
    /// Absolute offsets, written to `offsets[offsets_start..offsets_end]`.
    pub offsets: Vec<i64>,
    pub offsets_start: usize,
    pub offsets_end: usize,
    /// Range of `w_flat` that receives the buffer's features.
    pub w_flat_start: usize,
    pub w_flat_end: usize,
}

/// The contents of the datasets of one `sparse_v1` group.
pub struct DiskGroup {
    pub evals: Seq<i32>,
    pub has_eval: Seq<u8>,
    pub has_wdl: Seq<u8>,
    pub stm: Seq<u8>,
    pub piece_count: Seq<u8>,
    pub wdl: Seq<i32>,
    pub offsets: Seq<i64>,
    pub w_flat: Seq<i16>,
}

/// The group that stores exactly `records`. A freshly created group stores
/// none: its `offsets` holds the single entry 0.
pub open spec fn group_image(records: Seq<PosRecord>) -> DiskGroup {
    DiskGroup {
        evals: records.map_values(|r: PosRecord| r.eval_cp),
        has_eval: Seq::new(records.len(), |i: int| 1u8),
        has_wdl: Seq::new(records.len(), |i: int| 1u8),
        stm: records.map_values(|r: PosRecord| r.stm),
        piece_count: records.map_values(|r: PosRecord| r.piece_count),
        wdl: records.map_values(|r: PosRecord| r.wdl),
        offsets: Seq::new(records.len() + 1, |i: int| total_features(records.take(i)) as i64),
        w_flat: concat_features(records),
    }
}

/// A dataset after it is resized to `start + vals.len()` and
/// `vals` is written from `start` on.
pub open spec fn write_at<T>(d: Seq<T>, start: int, vals: Seq<T>) -> Seq<T> {
    d.take(start) + vals
}

/// A group after the writes of `plan` store `buf` in it.
pub open spec fn apply_flush(disk: DiskGroup, plan: &FlushPlan, buf: &PositionBuffer) -> DiskGroup {
    DiskGroup {
        evals: write_at(disk.evals, plan.rows_start as int, buf.evals@),
        has_eval: write_at(disk.has_eval, plan.rows_start as int, buf.has_eval@),
        has_wdl: write_at(disk.has_wdl, plan.rows_start as int, buf.has_wdl@),
        stm: write_at(disk.stm, plan.rows_start as int, buf.stm@),
        piece_count: write_at(disk.piece_count, plan.rows_start as int, buf.piece_count@),
        wdl: write_at(disk.wdl, plan.rows_start as int, buf.wdl@),
        offsets: write_at(disk.offsets, plan.offsets_start as int, plan.offsets@),
        w_flat: write_at(disk.w_flat, plan.w_flat_start as int, buf.w_flat@),
    }
}

/// The relative offsets of a buffer as they are stored after `w_flat_offset`
/// features: all of them into an empty group, all but the leading zero
/// otherwise (the group already ends with that offset).
pub open spec fn absolute_offsets(rel: Seq<i64>, n_written: int, w_flat_offset: int) -> Seq<i64> {
    let kept = if n_written == 0 {
        rel
    } else {
        rel.drop_first()
    };
    kept.map_values(|x: i64| (x + w_flat_offset) as i64)
}

/// `plan` stores the non-empty `buf` after what `before` says the group
/// holds, and `after` says what the group holds then.
pub open spec fn flush_planned(
    before: GroupLayout,
    buf: &PositionBuffer,
    after: GroupLayout,
    plan: &FlushPlan,
) -> bool {
    let n = buf.evals.len() as int;
    let w_n = buf.w_flat.len() as int;
    let start = if before.n_written == 0 {
        0
    } else {
        before.n_written + 1
    };
    &&& n > 0
    &&& plan.rows_start == before.n_written
    &&& plan.rows_end == before.n_written + n
    &&& plan.offsets@ == absolute_offsets(
        buf.offsets_relative@,
        before.n_written as int,
        before.w_flat_offset as int,
    )
    &&& plan.offsets_start == start
    &&& plan.offsets_end == start + plan.offsets@.len()
    &&& plan.w_flat_start == before.w_flat_offset
    &&& plan.w_flat_end == before.w_flat_offset + w_n
    &&& after.n_written == before.n_written + n
    &&& after.w_flat_offset == before.w_flat_offset + w_n
}

/// A layout can take `buf` without its counters or offsets overflowing.
pub open spec fn layout_has_room(layout: GroupLayout, buf: &PositionBuffer) -> bool {
    &&& layout.w_flat_offset >= 0
    &&& layout.n_written + buf.evals.len() + 1 <= usize::MAX
    &&& layout.w_flat_offset + buf.w_flat.len() <= i64::MAX
    &&& layout.w_flat_offset + buf.w_flat.len() <= usize::MAX
}

/// What every group built by the writer satisfies, and a freshly created
/// group (no rows, `offsets == [0]`) too: one row per stored position in the
/// per-position columns, `offsets` one longer, starting at 0, never
/// decreasing and ending at the length of `w_flat`, which the layout records.
pub open spec fn group_inv(disk: DiskGroup, layout: GroupLayout) -> bool {
    let n = layout.n_written as int;
    &&& disk.evals.len() == n
    &&& disk.has_eval.len() == n
    &&& disk.has_wdl.len() == n
    &&& disk.stm.len() == n
    &&& disk.piece_count.len() == n
    &&& disk.wdl.len() == n
    &&& disk.offsets.len() == n + 1
    &&& disk.offsets[0] == 0
    &&& forall|i: int, j: int| 0 <= i <= j <= n ==> #[trigger] disk.offsets[i] <= #[trigger] disk.offsets[j]
    &&& disk.offsets[n] == disk.w_flat.len()
    &&& disk.w_flat.len() == layout.w_flat_offset
}

/// A flush keeps the group invariant, whatever the group held.
pub proof fn lemma_flush_keeps_group_inv(
    disk: DiskGroup,
    before: GroupLayout,
    buf: &PositionBuffer,
    after: GroupLayout,
    plan: &FlushPlan,
)
    requires
        group_inv(disk, before),
        buf.wf(),
        flush_planned(before, buf, after, plan),
    ensures
        group_inv(apply_flush(disk, plan, buf), after),
{
    let res = apply_flush(disk, plan, buf);
    let n = before.n_written as int;
    let nb = buf.evals.len() as int;
    let w = before.w_flat_offset as int;
    let rel = buf.offsets_relative@;
    assert(res.evals.len() == n + nb);
    assert(disk.w_flat.take(w) =~= disk.w_flat);
    assert forall|k: int| 0 <= k <= nb implies 0 <= #[trigger] rel[k] <= rel[nb] by {
        assert(rel[0] <= rel[k]);
    }
    if n == 0 {
        assert(w == 0);
        assert forall|k: int| 0 <= k <= nb implies #[trigger] res.offsets[k] == rel[k] by {}
        assert forall|i: int, j: int| 0 <= i <= j <= nb implies #[trigger] res.offsets[i]
            <= #[trigger] res.offsets[j] by {
            assert(rel[i] <= rel[j]);
        }
    } else {
        assert(disk.offsets.take(n + 1) =~= disk.offsets);
        assert forall|k: int| 0 <= k <= n implies #[trigger] res.offsets[k] == disk.offsets[k] by {}
        assert forall|k: int| n < k <= n + nb implies #[trigger] res.offsets[k] == rel[k - n] + w by {
            assert(rel[k - n] + w <= i64::MAX);
        }
        assert forall|i: int, j: int| 0 <= i <= j <= n + nb implies #[trigger] res.offsets[i]
            <= #[trigger] res.offsets[j] by {
            if j <= n {
            } else if i <= n {
                assert(disk.offsets[i] <= disk.offsets[n]);
                assert(rel[j - n] >= 0);
            } else {
                assert(rel[i - n] <= rel[j - n]);
            }
        }
    }
}

/// A buffer holding the positions of `b1` followed by those of `b2` has
/// the columns of `b1` followed by those of `b2`, and its relative offsets
/// continue those of `b1` with those of `b2` shifted by `b1`'s features.
proof fn lemma_buffer_concat(b1: &PositionBuffer, b2: &PositionBuffer, b12: &PositionBuffer)
    requires
        b1.wf(),
        b2.wf(),
        b12.wf(),
        b1.flags_set(),
        b2.flags_set(),
        b12.flags_set(),
        b12.records() == b1.records() + b2.records(),
    ensures
        b12.evals@ == b1.evals@ + b2.evals@,
        b12.has_eval@ == b1.has_eval@ + b2.has_eval@,
        b12.has_wdl@ == b1.has_wdl@ + b2.has_wdl@,
        b12.stm@ == b1.stm@ + b2.stm@,
        b12.piece_count@ == b1.piece_count@ + b2.piece_count@,
        b12.wdl@ == b1.wdl@ + b2.wdl@,
        b12.w_flat@ == b1.w_flat@ + b2.w_flat@,
        forall|k: int|
            0 <= k <= b1.evals.len() ==> #[trigger] b12.offsets_relative@[k]
                == b1.offsets_relative@[k],
        forall|j: int|
            0 <= j <= b2.evals.len() ==> #[trigger] b12.offsets_relative@[b1.evals.len() + j]
                == b1.w_flat.len() + b2.offsets_relative@[j],
{
    lemma_buffer_concat_columns(b1, b2, b12);
    lemma_buffer_concat_features(b1, b2, b12);
}

proof fn lemma_buffer_concat_columns(b1: &PositionBuffer, b2: &PositionBuffer, b12: &PositionBuffer)
    requires
        b1.wf(),
        b2.wf(),
        b12.wf(),
        b1.flags_set(),
        b2.flags_set(),
        b12.flags_set(),
        b12.records() == b1.records() + b2.records(),
    ensures
        b12.evals@ == b1.evals@ + b2.evals@,
        b12.has_eval@ == b1.has_eval@ + b2.has_eval@,
        b12.has_wdl@ == b1.has_wdl@ + b2.has_wdl@,
        b12.stm@ == b1.stm@ + b2.stm@,
        b12.piece_count@ == b1.piece_count@ + b2.piece_count@,
        b12.wdl@ == b1.wdl@ + b2.wdl@,
{
    let r1 = b1.records();
    let r2 = b2.records();
    let r12 = b12.records();
    let n1 = r1.len() as int;
    assert(r12.len() == r1.len() + r2.len());
    assert(b12.evals.len() == r12.len() && b1.evals.len() == r1.len() && b2.evals.len() == r2.len());
    assert forall|i: int| 0 <= i < r12.len() implies #[trigger] b12.evals@[i] == (b1.evals@
        + b2.evals@)[i] by {
        assert(r12[i].eval_cp == b12.evals@[i]);
        if i < n1 {
            assert(r12[i] == r1[i]);
        } else {
            assert(r12[i] == r2[i - n1]);
        }
    }
    assert forall|i: int| 0 <= i < r12.len() implies #[trigger] b12.stm@[i] == (b1.stm@
        + b2.stm@)[i] by {
        assert(r12[i].stm == b12.stm@[i]);
        if i < n1 {
            assert(r12[i] == r1[i]);
        } else {
            assert(r12[i] == r2[i - n1]);
        }
    }
    assert forall|i: int| 0 <= i < r12.len() implies #[trigger] b12.piece_count@[i] == (b1.piece_count@
        + b2.piece_count@)[i] by {
        assert(r12[i].piece_count == b12.piece_count@[i]);
        if i < n1 {
            assert(r12[i] == r1[i]);
        } else {
            assert(r12[i] == r2[i - n1]);
        }
    }
    assert forall|i: int| 0 <= i < r12.len() implies #[trigger] b12.wdl@[i] == (b1.wdl@
        + b2.wdl@)[i] by {
        assert(r12[i].wdl == b12.wdl@[i]);
        if i < n1 {
            assert(r12[i] == r1[i]);
        } else {
            assert(r12[i] == r2[i - n1]);
        }
    }
    assert(b12.evals@ =~= b1.evals@ + b2.evals@);
    assert(b12.stm@ =~= b1.stm@ + b2.stm@);
    assert(b12.piece_count@ =~= b1.piece_count@ + b2.piece_count@);
    assert(b12.wdl@ =~= b1.wdl@ + b2.wdl@);
    assert(b12.has_eval@ =~= b1.has_eval@ + b2.has_eval@);
    assert(b12.has_wdl@ =~= b1.has_wdl@ + b2.has_wdl@);
}

proof fn lemma_buffer_concat_features(b1: &PositionBuffer, b2: &PositionBuffer, b12: &PositionBuffer)
    requires
        b1.wf(),
        b2.wf(),
        b12.wf(),
        b12.records() == b1.records() + b2.records(),
    ensures
        b12.w_flat@ == b1.w_flat@ + b2.w_flat@,
        forall|k: int|
            0 <= k <= b1.evals.len() ==> #[trigger] b12.offsets_relative@[k]
                == b1.offsets_relative@[k],
        forall|j: int|
            0 <= j <= b2.evals.len() ==> #[trigger] b12.offsets_relative@[b1.evals.len() + j]
                == b1.w_flat.len() + b2.offsets_relative@[j],
{
    let r1 = b1.records();
    let r2 = b2.records();
    let r12 = b12.records();
    let n1 = r1.len() as int;
    b1.lemma_layout();
    b2.lemma_layout();
    b12.lemma_layout();
    lemma_concat_append(r1, r2);
    assert forall|k: int| 0 <= k <= n1 implies #[trigger] b12.offsets_relative@[k]
        == b1.offsets_relative@[k] by {
        assert(r12.take(k) =~= r1.take(k));
    }
    assert forall|j: int| 0 <= j <= r2.len() implies #[trigger] b12.offsets_relative@[n1 + j]
        == b1.w_flat.len() + b2.offsets_relative@[j] by {
        assert(r12.take(n1 + j) =~= r1 + r2.take(j));
        lemma_concat_append(r1, r2.take(j));
        assert(r1.take(n1) == r1);
    }
}

/// Two flushes store what one flush of both buffers together stores, and
/// leave the same layout, whatever the group held: how positions are split
/// over flushes does not show in the file.
pub proof fn lemma_two_flushes_equal_one(
    disk: DiskGroup,
    l0: GroupLayout,
    b1: &PositionBuffer,
    l1: GroupLayout,
    p1: &FlushPlan,
    b2: &PositionBuffer,
    l2: GroupLayout,
    p2: &FlushPlan,
    b12: &PositionBuffer,
    m: GroupLayout,
    p12: &FlushPlan,
)
    requires
        group_inv(disk, l0),
        b1.wf(),
        b2.wf(),
        b12.wf(),
        b1.flags_set(),
        b2.flags_set(),
        b12.flags_set(),
        b12.records() == b1.records() + b2.records(),
        flush_planned(l0, b1, l1, p1),
        flush_planned(l1, b2, l2, p2),
        flush_planned(l0, b12, m, p12),
    ensures
        apply_flush(apply_flush(disk, p1, b1), p2, b2) == apply_flush(disk, p12, b12),
        m == l2,
{
    lemma_buffer_concat(b1, b2, b12);
    lemma_flush_keeps_group_inv(disk, l0, b1, l1, p1);
    let d1 = apply_flush(disk, p1, b1);
    let two = apply_flush(d1, p2, b2);
    let one = apply_flush(disk, p12, b12);
    let n = l0.n_written as int;
    let n1 = b1.evals.len() as int;
    let n2 = b2.evals.len() as int;
    let w = l0.w_flat_offset as int;
    let w1 = b1.w_flat.len() as int;
    assert(two.evals =~= one.evals);
    assert(two.has_eval =~= one.has_eval);
    assert(two.has_wdl =~= one.has_wdl);
    assert(two.stm =~= one.stm);
    assert(two.piece_count =~= one.piece_count);
    assert(two.wdl =~= one.wdl);
    assert(two.w_flat =~= one.w_flat);
    let rel1 = b1.offsets_relative@;
    let rel2 = b2.offsets_relative@;
    let rel12 = b12.offsets_relative@;
    assert(rel1[n1] == w1);
    if n == 0 {
        assert(w == 0);
        assert forall|k: int| 0 <= k <= n1 + n2 implies #[trigger] two.offsets[k] == one.offsets[k] by {
            if k <= n1 {
                assert(two.offsets[k] == d1.offsets[k]);
            } else {
                assert(rel12[n1 + (k - n1)] == w1 + rel2[k - n1]);
            }
        }
    } else {
        assert forall|k: int| 0 <= k <= n + n1 + n2 implies #[trigger] two.offsets[k] == one.offsets[k] by {
            if k <= n {
                assert(two.offsets[k] == d1.offsets[k]);
            } else if k <= n + n1 {
                assert(two.offsets[k] == d1.offsets[k]);
            } else {
                assert(rel12[n1 + (k - n - n1)] == w1 + rel2[k - n - n1]);
            }
        }
    }
    assert(two.offsets =~= one.offsets);
}

impl GroupLayout {
    /// The layout of a freshly created group.
    pub fn new() -> (r: Self)
        ensures
            r.n_written == 0,
            r.w_flat_offset == 0,
    {
        GroupLayout { n_written: 0, w_flat_offset: 0 }
    }

    /// Plans the writes that store `buf` after what the group holds, and
    /// moves the layout past it; `None`, with the layout unchanged, for an
    /// empty buffer.
    pub fn plan_flush(&mut self, buf: &PositionBuffer) -> (r: Option<FlushPlan>)
        requires
            buf.wf(),
            layout_has_room(*old(self), buf),
        ensures
            r is None <==> buf.records().len() == 0,
            r is None ==> *final(self) == *old(self),
            r matches Some(plan) ==> flush_planned(*old(self), buf, *final(self), &plan),
    {
        let n = buf.len();
        if n == 0 {
            return None;
        }
        let skip: usize = if self.n_written == 0 {
            0
        } else {
            1
        };
        let mut offsets: Vec<i64> = Vec::with_capacity(n + 1 - skip);
        let mut i: usize = skip;
        while i < buf.offsets_relative.len()
            invariant
                buf.wf(),
                n == buf.evals.len(),
                layout_has_room(*self, buf),
                skip <= i <= buf.offsets_relative.len(),
                offsets@ == buf.offsets_relative@.subrange(skip as int, i as int).map_values(
                    |x: i64| (x + self.w_flat_offset) as i64,
                ),
            decreases buf.offsets_relative.len() - i,
        {
            assert(buf.offsets_relative@[i as int] <= buf.offsets_relative@[n as int]);
            assert(buf.offsets_relative@[0] <= buf.offsets_relative@[i as int]);
            let ghost before = offsets@;
            offsets.push(buf.offsets_relative[i] + self.w_flat_offset);
            assert(offsets@ =~= buf.offsets_relative@.subrange(skip as int, i + 1).map_values(
                |x: i64| (x + self.w_flat_offset) as i64,
            ));
            i = i + 1;
        }
        assert(buf.offsets_relative@.subrange(skip as int, buf.offsets_relative@.len() as int)
            =~= if self.n_written == 0 {
            buf.offsets_relative@
        } else {
            buf.offsets_relative@.drop_first()
        });
        let offset_start: usize = if self.n_written == 0 {
            0
        } else {
            self.n_written + 1
        };
        let offset_end = offset_start + offsets.len();
        let w_n = buf.w_flat.len();
        let w_start = self.w_flat_offset as usize;
        let plan = FlushPlan {
            rows_start: self.n_written,
            rows_end: self.n_written + n,
            offsets,
            offsets_start: offset_start,
            offsets_end: offset_end,
            w_flat_start: w_start,
            w_flat_end: w_start + w_n,
        };
        self.w_flat_offset = self.w_flat_offset + w_n as i64;
        self.n_written = self.n_written + n;
        Some(plan)
    }
}

/// Flushing in chunks lays out the file that storing all positions at once
/// would: if a group stores exactly `history` and its layout says so, then
/// after the planned writes of a buffer it stores exactly `history` followed
/// by the buffered positions, and the new layout says so.
pub proof fn lemma_flush_extends_group(
    history: Seq<PosRecord>,
    before: GroupLayout,
    buf: &PositionBuffer,
    after: GroupLayout,
    plan: &FlushPlan,
)
    requires
        buf.wf(),
        buf.flags_set(),
        before.n_written == history.len(),
        before.w_flat_offset == total_features(history),
        flush_planned(before, buf, after, plan),
    ensures
        apply_flush(group_image(history), plan, buf) == group_image(history + buf.records()),
        after.n_written == (history + buf.records()).len(),
        after.w_flat_offset == total_features(history + buf.records()),
{
    let recs = buf.records();
    let all = history + recs;
    let img = group_image(history);
    let target = group_image(all);
    let res = apply_flush(img, plan, buf);
    buf.lemma_layout();
    lemma_concat_len(history);
    lemma_concat_append(history, recs);
    lemma_flush_columns(history, buf, plan);
    assert(img.w_flat.take(before.w_flat_offset as int) =~= img.w_flat);
    assert(res.w_flat =~= target.w_flat);
    assert forall|k: int| 0 <= k <= recs.len() implies total_features(#[trigger] recs.take(k))
        >= 0 by {
        lemma_concat_len(recs.take(k));
    }
    lemma_offsets_extend(history, recs, buf.offsets_relative@, plan.offsets@, plan.offsets_start as int);
}

proof fn lemma_flush_columns(history: Seq<PosRecord>, buf: &PositionBuffer, plan: &FlushPlan)
    requires
        buf.wf(),
        buf.flags_set(),
        plan.rows_start == history.len(),
    ensures
        ({
            let res = apply_flush(group_image(history), plan, buf);
            let target = group_image(history + buf.records());
            &&& res.evals == target.evals
            &&& res.has_eval == target.has_eval
            &&& res.has_wdl == target.has_wdl
            &&& res.stm == target.stm
            &&& res.piece_count == target.piece_count
            &&& res.wdl == target.wdl
        }),
{
    let res = apply_flush(group_image(history), plan, buf);
    let target = group_image(history + buf.records());
    assert(res.evals =~= target.evals);
    assert(res.has_eval =~= target.has_eval);
    assert(res.has_wdl =~= target.has_wdl);
    assert(res.stm =~= target.stm);
    assert(res.piece_count =~= target.piece_count);
    assert(res.wdl =~= target.wdl);
}

proof fn lemma_prefix_totals(history: Seq<PosRecord>, recs: Seq<PosRecord>, j: int)
    requires
        0 <= j <= recs.len(),
    ensures
        total_features((history + recs).take(history.len() + j)) == total_features(history)
            + total_features(recs.take(j)),
{
    assert((history + recs).take(history.len() + j) =~= history + recs.take(j));
    lemma_concat_append(history, recs.take(j));
}

proof fn lemma_offsets_extend(
    history: Seq<PosRecord>,
    recs: Seq<PosRecord>,
    rel: Seq<i64>,
    stored: Seq<i64>,
    start: int,
)
    requires
        rel.len() == recs.len() + 1,
        forall|k: int| 0 <= k <= recs.len() ==> #[trigger] rel[k] == total_features(recs.take(k)),
        total_features(history + recs) <= i64::MAX,
        total_features(history) >= 0,
        forall|k: int| 0 <= k <= recs.len() ==> total_features(#[trigger] recs.take(k)) >= 0,
        stored == absolute_offsets(rel, history.len() as int, total_features(history)),
        start == (if history.len() == 0 {
            0
        } else {
            history.len() + 1
        }),
    ensures
        write_at(group_image(history).offsets, start, stored) == group_image(
            history + recs,
        ).offsets,
{
    let all = history + recs;
    let h = history.len() as int;
    let n = recs.len() as int;
    let img = group_image(history).offsets;
    let res = write_at(img, start, stored);
    let target = group_image(all).offsets;
    assert forall|j: int| 0 <= j <= n implies #[trigger] rel[j] + total_features(history)
        == total_features(all.take(h + j)) && total_features(all.take(h + j)) <= i64::MAX by {
        lemma_prefix_totals(history, recs, j);
        lemma_prefix_totals(history, recs, n);
        assert(recs.take(n) == recs);
        assert(all.take(h + n) == all);
        lemma_total_monotone(all, h + j, h + n);
    }
    if h == 0 {
        assert(history =~= Seq::<PosRecord>::empty());
        assert(all =~= recs);
        assert forall|k: int| 0 <= k <= n implies #[trigger] res[k] == target[k] by {
            assert(rel[k] + total_features(history) == total_features(all.take(h + k)));
        }
    } else {
        assert forall|k: int| 0 <= k <= h + n implies #[trigger] res[k] == target[k] by {
            if k <= h {
                assert(all.take(k) =~= history.take(k));
            } else {
                assert(rel[k - h] + total_features(history) == total_features(all.take(h + (k - h))));
            }
        }
    }
    assert(res =~= target);
}

/// Feature counts of prefixes grow with the prefix.
pub proof fn lemma_total_monotone(records: Seq<PosRecord>, i: int, j: int)
    requires
        0 <= i <= j <= records.len(),
    ensures
        0 <= total_features(records.take(i)) <= total_features(records.take(j)),
    decreases j - i,
{
    if i < j {
        lemma_total_monotone(records, i, j - 1);
        assert(records.take(j).drop_last() == records.take(j - 1));
    } else {
        lemma_concat_len(records.take(i));
    }
}


/// The split a position goes to.
#[derive(Clone, Copy, Debug, PartialEq, Eq, Structural)]
pub enum Split {
    Train,
    Val,
}

/// The split of an encoded position.
pub open spec fn split_of(p: &EncodedPos) -> Split {
    if p.is_val {
        Split::Val
    } else {
        Split::Train
    }
}

/// A buffer to store in one split's group, with the writes that store it.
pub struct FlushJob {
    pub split: Split,
    pub plan: FlushPlan,
    pub data: PositionBuffer,
}

/// A split whose positions `acc` are partly stored (as `layout` says) and
/// partly buffered in `buf`, in order, and whose counters cannot overflow
/// when all of them are stored.
pub open spec fn split_consistent(acc: Seq<PosRecord>, layout: GroupLayout, buf: PositionBuffer) -> bool {
    &&& buf.wf()
    &&& buf.flags_set()
    &&& layout.n_written <= acc.len()
    &&& buf.records() == acc.skip(layout.n_written as int)
    &&& layout.w_flat_offset == total_features(acc.take(layout.n_written as int))
    &&& acc.len() + 1 <= usize::MAX
    &&& total_features(acc) <= i64::MAX
    &&& total_features(acc) <= usize::MAX
}

/// A split can take one more position with `n_features` features.
pub open spec fn split_has_room(acc: Seq<PosRecord>, n_features: int) -> bool {
    &&& acc.len() + 2 <= usize::MAX
    &&& acc.len() + 1 <= u64::MAX
    &&& total_features(acc) + n_features <= i64::MAX
    &&& total_features(acc) + n_features <= usize::MAX
}

/// The writer's decisions: which split each position goes to, and when a
/// split's buffer is flushed.
pub struct WriterState {
    buf_train: PositionBuffer,
    buf_val: PositionBuffer,
    train: GroupLayout,
    val: GroupLayout,
    total_train: u64,
    total_val: u64,
    flush_every: u64,
    accepted_train: Ghost<Seq<PosRecord>>,
    accepted_val: Ghost<Seq<PosRecord>>,
    stream: Ghost<Seq<(Split, PosRecord)>>,
}

impl WriterState {
    /// The positions accepted into `split`, in order.
    pub closed spec fn accepted(&self, split: Split) -> Seq<PosRecord> {
        match split {
            Split::Train => self.accepted_train@,
            Split::Val => self.accepted_val@,
        }
    }

    /// The positions of `split` handed out for storing so far, in order.
    pub closed spec fn flushed(&self, split: Split) -> Seq<PosRecord> {
        match split {
            Split::Train => self.accepted_train@.take(self.train.n_written as int),
            Split::Val => self.accepted_val@.take(self.val.n_written as int),
        }
    }

    /// Every position accepted so far, with its split, in order.
    pub closed spec fn accepted_stream(&self) -> Seq<(Split, PosRecord)> {
        self.stream@
    }

    /// Buffer size at which a split is flushed.
    pub closed spec fn flush_threshold(&self) -> u64 {
        self.flush_every
    }

    /// Accepted positions are either handed out or buffered, in order; the
    /// counters count them; a buffer is flushed as soon as it reaches
    /// `flush_every` positions.
    pub closed spec fn inv(&self) -> bool {
        &&& self.accepted_train@ == split_records(self.stream@, Split::Train)
        &&& self.accepted_val@ == split_records(self.stream@, Split::Val)
        &&& split_consistent(self.accepted_train@, self.train, self.buf_train)
        &&& split_consistent(self.accepted_val@, self.val, self.buf_val)
        &&& self.total_train == self.accepted_train@.len()
        &&& self.total_val == self.accepted_val@.len()
        &&& self.buf_train.records().len() == 0 || self.buf_train.records().len() < self.flush_every
        &&& self.buf_val.records().len() == 0 || self.buf_val.records().len() < self.flush_every
    }

    /// The accepted positions of a split are those of the accepted stream.
    pub proof fn lemma_accepted_is_stream(&self, split: Split)
        requires
            self.inv(),
        ensures
            self.accepted(split) == split_records(self.accepted_stream(), split),
    {
    }

    /// A writer that has accepted nothing.
    pub fn new(flush_every: u64) -> (r: Self)
        ensures
            r.inv(),
            r.flush_threshold() == flush_every,
            r.accepted(Split::Train) == Seq::<PosRecord>::empty(),
            r.accepted(Split::Val) == Seq::<PosRecord>::empty(),
            r.flushed(Split::Train) == Seq::<PosRecord>::empty(),
            r.flushed(Split::Val) == Seq::<PosRecord>::empty(),
            r.accepted_stream() == Seq::<(Split, PosRecord)>::empty(),
    {
        let r = WriterState {
            buf_train: PositionBuffer::new(),
            buf_val: PositionBuffer::new(),
            train: GroupLayout::new(),
            val: GroupLayout::new(),
            total_train: 0,
            total_val: 0,
            flush_every,
            accepted_train: Ghost(Seq::empty()),
            accepted_val: Ghost(Seq::empty()),
            stream: Ghost(Seq::empty()),
        };
        assert(r.accepted_train@.skip(0) =~= Seq::<PosRecord>::empty());
        assert(r.accepted_train@.take(0) =~= Seq::<PosRecord>::empty());
        r
    }

    /// Number of positions accepted into the train split.
    pub fn total_train(&self) -> (r: u64)
        requires
            self.inv(),
        ensures
            r == self.accepted(Split::Train).len(),
    {
        self.total_train
    }

    /// Number of positions accepted into the val split.
    pub fn total_val(&self) -> (r: u64)
        requires
            self.inv(),
        ensures
            r == self.accepted(Split::Val).len(),
    {
        self.total_val
    }

    /// Whether `pos` can be accepted without a counter overflowing.
    pub fn has_room(&self, pos: &EncodedPos) -> (r: bool)
        requires
            self.inv(),
        ensures
            r == split_has_room(self.accepted(split_of(pos)), pos.features@.len() as int),
    {
        let (buf, layout, total) = if pos.is_val {
            (&self.buf_val, &self.val, self.total_val)
        } else {
            (&self.buf_train, &self.train, self.total_train)
        };
        let ghost acc = self.accepted(split_of(pos));
        proof {
            lemma_split_totals(acc, *layout, *buf);
        }
        let stored = layout.w_flat_offset as u64;
        let w = stored as u128 + buf.w_flat.len() as u128 + pos.features.len() as u128;
        total < u64::MAX && (total as u128) + 2 <= usize::MAX as u128 && w <= i64::MAX as u128 && w
            <= usize::MAX as u128
    }

    /// Adds `pos` to the buffer of its split; when that buffer reaches
    /// `flush_every` positions, hands it out to be stored, with the writes
    /// that store it after what the split's group holds.
    pub fn accept(&mut self, pos: EncodedPos) -> (r: Option<FlushJob>)
        requires
            old(self).inv(),
            split_has_room(old(self).accepted(split_of(&pos)), pos.features@.len() as int),
        ensures
            final(self).inv(),
            final(self).flush_threshold() == old(self).flush_threshold(),
            final(self).accepted_stream() == old(self).accepted_stream().push(
                (split_of(&pos), record_of(&pos)),
            ),
            final(self).accepted(split_of(&pos)) == old(self).accepted(split_of(&pos)).push(
                record_of(&pos),
            ),
            final(self).accepted(split_of(&pos)).last().eval_cp == pos.eval_cp,
            final(self).accepted(split_of(&pos)).last().stm == pos.stm,
            final(self).accepted(split_of(&pos)).last().piece_count == pos.piece_count,
            final(self).accepted(split_of(&pos)).last().wdl == pos.wdl,
            final(self).accepted(split_of(&pos)).last().features == pos.features@,
            r matches Some(job) ==> {
                &&& job.data.evals@.last() == pos.eval_cp
                &&& job.data.stm@.last() == pos.stm
                &&& job.data.piece_count@.last() == pos.piece_count
                &&& job.data.wdl@.last() == pos.wdl
            },
            forall|s: Split|
                s != split_of(&pos) ==> final(self).accepted(s) == old(self).accepted(s)
                    && final(self).flushed(s) == old(self).flushed(s),
            r is Some <==> old(self).accepted(split_of(&pos)).len() + 1 - old(self).flushed(
                split_of(&pos),
            ).len() >= old(self).flush_threshold(),
            r is None ==> final(self).flushed(split_of(&pos)) == old(self).flushed(
                split_of(&pos),
            ),
            r matches Some(job) ==> {
                &&& job.split == split_of(&pos)
                &&& job.data.wf()
                &&& final(self).flushed(job.split) == final(self).accepted(job.split)
                &&& final(self).flushed(job.split) == old(self).flushed(job.split)
                    + job.data.records()
                &&& job.data.records().len() == if old(self).flush_threshold() == 0 {
                    1
                } else {
                    old(self).flush_threshold() as int
                }
                &&& apply_flush(group_image(old(self).flushed(job.split)), &job.plan, &job.data)
                    == group_image(final(self).flushed(job.split))
            },
    {
        let ghost rec = record_of(&pos);
        let ghost old_stream = self.stream@;
        self.stream = Ghost(old_stream.push((split_of(&pos), rec)));
        proof {
            assert(self.stream@.drop_last() == old_stream);
        }
        let flush_every = self.flush_every;
        if pos.is_val {
            let ghost acc = self.accepted_val@;
            proof {
                lemma_split_add(acc, self.val, self.buf_val, rec);
            }
            self.buf_val.add(pos.eval_cp, pos.stm, pos.piece_count, pos.wdl, pos.features.as_slice());
            self.total_val = self.total_val + 1;
            self.accepted_val = Ghost(acc.push(rec));
            assert(self.buf_val.records() =~= self.accepted_val@.skip(self.val.n_written as int));
            if self.buf_val.len() as u64 >= flush_every {
                let job = flush_split(&mut self.buf_val, &mut self.val, Split::Val, Ghost(self.accepted_val@));
                Some(job)
            } else {
                None
            }
        } else {
            let ghost acc = self.accepted_train@;
            proof {
                lemma_split_add(acc, self.train, self.buf_train, rec);
            }
            self.buf_train.add(pos.eval_cp, pos.stm, pos.piece_count, pos.wdl, pos.features.as_slice());
            self.total_train = self.total_train + 1;
            self.accepted_train = Ghost(acc.push(rec));
            assert(self.buf_train.records() =~= self.accepted_train@.skip(self.train.n_written as int));
            if self.buf_train.len() as u64 >= flush_every {
                let job = flush_split(&mut self.buf_train, &mut self.train, Split::Train, Ghost(self.accepted_train@));
                Some(job)
            } else {
                None
            }
        }
    }

    /// Hands out whatever is still buffered, train first, so that every
    /// accepted position has been handed out for storing.
    pub fn finish(&mut self) -> (r: (Option<FlushJob>, Option<FlushJob>))
        requires
            old(self).inv(),
        ensures
            final(self).inv(),
            forall|s: Split| #[trigger] final(self).accepted(s) == old(self).accepted(s),
            forall|s: Split| #[trigger] final(self).flushed(s) == final(self).accepted(s),
            final(self).accepted_stream() == old(self).accepted_stream(),
            r.0 is Some <==> old(self).flushed(Split::Train).len() < old(self).accepted(Split::Train).len(),
            r.1 is Some <==> old(self).flushed(Split::Val).len() < old(self).accepted(Split::Val).len(),
            r.0 matches Some(job) ==> {
                &&& job.split == Split::Train
                &&& job.data.wf()
                &&& final(self).flushed(Split::Train) == old(self).flushed(Split::Train) + job.data.records()
                &&& apply_flush(group_image(old(self).flushed(Split::Train)), &job.plan, &job.data)
                    == group_image(final(self).flushed(Split::Train))
            },
            r.1 matches Some(job) ==> {
                &&& job.split == Split::Val
                &&& job.data.wf()
                &&& final(self).flushed(Split::Val) == old(self).flushed(Split::Val) + job.data.records()
                &&& apply_flush(group_image(old(self).flushed(Split::Val)), &job.plan, &job.data)
                    == group_image(final(self).flushed(Split::Val))
            },
    {
        proof {
            lemma_split_totals(self.accepted_train@, self.train, self.buf_train);
            lemma_split_totals(self.accepted_val@, self.val, self.buf_val);
        }
        let train_job = if self.buf_train.len() > 0 {
            Some(flush_split(&mut self.buf_train, &mut self.train, Split::Train, Ghost(self.accepted_train@)))
        } else {
            assert(self.accepted_train@.take(self.train.n_written as int) =~= self.accepted_train@);
            None
        };
        let val_job = if self.buf_val.len() > 0 {
            Some(flush_split(&mut self.buf_val, &mut self.val, Split::Val, Ghost(self.accepted_val@)))
        } else {
            assert(self.accepted_val@.take(self.val.n_written as int) =~= self.accepted_val@);
            None
        };
        assert forall|s: Split| #[trigger] self.flushed(s) == self.accepted(s) by {}
        (train_job, val_job)
    }
}

/// The positions of `split` in `stream`, in order.
pub open spec fn split_records(stream: Seq<(Split, PosRecord)>, split: Split) -> Seq<PosRecord>
    decreases stream.len(),
{
    if stream.len() == 0 {
        Seq::empty()
    } else {
        let rest = split_records(stream.drop_last(), split);
        if stream.last().0 == split {
            rest.push(stream.last().1)
        } else {
            rest
        }
    }
}

/// What a split's group ends up storing does not depend on `flush_every`:
/// two writers that accepted the same positions and have handed everything
/// out (as after `finish`) have handed out the same positions of each split,
/// so their groups, built by the handed-out jobs, are the same, and so are
/// their counters.
pub proof fn lemma_stored_independent_of_flush_every(w1: &WriterState, w2: &WriterState, split: Split)
    requires
        w1.inv(),
        w2.inv(),
        w1.accepted_stream() == w2.accepted_stream(),
        w1.flushed(split) == w1.accepted(split),
        w2.flushed(split) == w2.accepted(split),
    ensures
        w1.flushed(split) == w2.flushed(split),
        group_image(w1.flushed(split)) == group_image(w2.flushed(split)),
        w1.accepted(split).len() == w2.accepted(split).len(),
{
    w1.lemma_accepted_is_stream(split);
    w2.lemma_accepted_is_stream(split);
}

/// What a consistent split adds up to: the stored and buffered positions
/// make up all accepted ones.
proof fn lemma_split_totals(acc: Seq<PosRecord>, layout: GroupLayout, buf: PositionBuffer)
    requires
        split_consistent(acc, layout, buf),
    ensures
        acc.take(layout.n_written as int) + buf.records() == acc,
        layout.n_written + buf.records().len() == acc.len(),
        total_features(acc) == layout.w_flat_offset + buf.w_flat.len(),
        layout.w_flat_offset >= 0,
{
    let nw = layout.n_written as int;
    assert(acc.take(nw) + acc.skip(nw) =~= acc);
    buf.lemma_layout();
    lemma_concat_append(acc.take(nw), acc.skip(nw));
    lemma_concat_len(acc.take(nw));
}

/// Adding one position to a consistent split's buffer keeps it consistent.
proof fn lemma_split_add(acc: Seq<PosRecord>, layout: GroupLayout, buf: PositionBuffer, rec: PosRecord)
    requires
        split_consistent(acc, layout, buf),
        split_has_room(acc, rec.features.len() as int),
    ensures
        buf.w_flat.len() + rec.features.len() <= i64::MAX,
        acc.push(rec).skip(layout.n_written as int) == acc.skip(layout.n_written as int).push(rec),
        acc.push(rec).take(layout.n_written as int) == acc.take(layout.n_written as int),
        total_features(acc.push(rec)) == total_features(acc) + rec.features.len(),
        acc.push(rec).len() + 1 <= usize::MAX,
{
    lemma_split_totals(acc, layout, buf);
    let nw = layout.n_written as int;
    assert(acc.push(rec).skip(nw) =~= acc.skip(nw).push(rec));
    assert(acc.push(rec).take(nw) =~= acc.take(nw));
    assert(acc.push(rec).drop_last() == acc);
}

/// Hands out the non-empty buffer of a consistent split with the writes
/// that store it; the split is then entirely stored.
fn flush_split(
    buf: &mut PositionBuffer,
    layout: &mut GroupLayout,
    split: Split,
    Ghost(acc): Ghost<Seq<PosRecord>>,
) -> (job: FlushJob)
    requires
        split_consistent(acc, *old(layout), *old(buf)),
        old(buf).records().len() > 0,
    ensures
        split_consistent(acc, *final(layout), *final(buf)),
        final(buf).records().len() == 0,
        final(layout).n_written == acc.len(),
        job.split == split,
        job.data.wf(),
        job.data.records() == old(buf).records(),
        acc.take(old(layout).n_written as int) + job.data.records() == acc.take(
            final(layout).n_written as int,
        ),
        apply_flush(group_image(acc.take(old(layout).n_written as int)), &job.plan, &job.data)
            == group_image(acc.take(final(layout).n_written as int)),
{
    proof {
        lemma_split_totals(acc, *layout, *buf);
        lemma_concat_len(acc.take(layout.n_written as int));
    }
    let ghost before = *layout;
    let plan = layout.plan_flush(buf).unwrap();
    let mut data = PositionBuffer::new();
    core::mem::swap(&mut data, buf);
    proof {
        lemma_flush_extends_group(acc.take(before.n_written as int), before, &data, *layout, &plan);
        assert(acc.take(layout.n_written as int) == acc);
        assert(acc.skip(layout.n_written as int) =~= Seq::<PosRecord>::empty());
    }
    FlushJob { split, plan, data }
}


/// A group after the writes of each job in turn.
pub open spec fn apply_jobs(disk: DiskGroup, jobs: Seq<FlushJob>) -> DiskGroup
    decreases jobs.len(),
{
    if jobs.len() == 0 {
        disk
    } else {
        apply_flush(apply_jobs(disk, jobs.drop_last()), &jobs.last().plan, &jobs.last().data)
    }
}

/// The jobs a writer hands out for one split build its group: when each job
/// takes the group from storing `stored[k]` to storing `stored[k + 1]` (as
/// `WriterState::accept` and `WriterState::finish` ensure), performing all of
/// them in order on the group storing `stored[0]` (a fresh group stores no
/// positions) leaves it storing the last of them.
pub proof fn lemma_jobs_build_group(stored: Seq<Seq<PosRecord>>, jobs: Seq<FlushJob>)
    requires
        stored.len() == jobs.len() + 1,
        forall|k: int|
            0 <= k < jobs.len() ==> apply_flush(
                group_image(stored[k]),
                &(#[trigger] jobs[k]).plan,
                &jobs[k].data,
            ) == group_image(stored[k + 1]),
    ensures
        apply_jobs(group_image(stored[0]), jobs) == group_image(stored[jobs.len() as int]),
    decreases jobs.len(),
{
    if jobs.len() > 0 {
        let n = jobs.len() as int;
        let prev = jobs.drop_last();
        assert forall|k: int| 0 <= k < prev.len() implies apply_flush(
            group_image(stored.drop_last()[k]),
            &(#[trigger] prev[k]).plan,
            &prev[k].data,
        ) == group_image(stored.drop_last()[k + 1]) by {
            assert(prev[k] == jobs[k]);
        }
        lemma_jobs_build_group(stored.drop_last(), prev);
        assert(jobs[n - 1] == jobs.last());
    }
}

} // verus!
