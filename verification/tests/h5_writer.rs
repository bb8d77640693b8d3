use binpack_to_h5::h5_writer::{GroupLayout, PositionBuffer, Split, WriterState};
use binpack_to_h5::pipeline::EncodedPos;

fn pos(eval_cp: i32, features: Vec<i16>, is_val: bool) -> EncodedPos {
    EncodedPos {
        eval_cp,
        stm: 0,
        piece_count: features.len() as u8,
        wdl: 0,
        features,
        is_val,
    }
}

#[test]
fn buffer_add_builds_offsets() {
    let mut b = PositionBuffer::new();
    assert_eq!(b.len(), 0);
    assert_eq!(b.offsets_relative, vec![0]);
    b.add(5, 0, 2, 1, &[10, 20]);
    b.add(-7, 1, 3, -1, &[30, 40, 50]);
    b.add(0, 0, 0, 0, &[]);
    assert_eq!(b.len(), 3);
    assert_eq!(b.evals, vec![5, -7, 0]);
    assert_eq!(b.has_eval, vec![1, 1, 1]);
    assert_eq!(b.has_wdl, vec![1, 1, 1]);
    assert_eq!(b.stm, vec![0, 1, 0]);
    assert_eq!(b.piece_count, vec![2, 3, 0]);
    assert_eq!(b.wdl, vec![1, -1, 0]);
    assert_eq!(b.w_flat, vec![10, 20, 30, 40, 50]);
    assert_eq!(b.offsets_relative, vec![0, 2, 5, 5]);
}

#[test]
fn buffer_clear_empties() {
    let mut b = PositionBuffer::default();
    b.add(5, 0, 2, 1, &[10, 20]);
    b.clear();
    assert_eq!(b.len(), 0);
    assert!(b.evals.is_empty() && b.w_flat.is_empty());
    assert_eq!(b.offsets_relative, vec![0]);
}

#[test]
fn layout_plans_consecutive_flushes() {
    let mut layout = GroupLayout::new();
    let mut b = PositionBuffer::new();
    assert!(layout.plan_flush(&b).is_none());
    b.add(1, 0, 2, 0, &[1, 2]);
    b.add(2, 0, 1, 0, &[3]);
    let p1 = layout.plan_flush(&b).unwrap();
    assert_eq!((p1.rows_start, p1.rows_end), (0, 2));
    assert_eq!(p1.offsets, vec![0, 2, 3]);
    assert_eq!((p1.offsets_start, p1.offsets_end), (0, 3));
    assert_eq!((p1.w_flat_start, p1.w_flat_end), (0, 3));
    assert_eq!((layout.n_written, layout.w_flat_offset), (2, 3));

    b.clear();
    b.add(3, 0, 3, 0, &[4, 5, 6]);
    let p2 = layout.plan_flush(&b).unwrap();
    assert_eq!((p2.rows_start, p2.rows_end), (2, 3));
    assert_eq!(p2.offsets, vec![6]);
    assert_eq!((p2.offsets_start, p2.offsets_end), (3, 4));
    assert_eq!((p2.w_flat_start, p2.w_flat_end), (3, 6));
    assert_eq!((layout.n_written, layout.w_flat_offset), (3, 6));
}

/// Applies the planned writes to in-memory columns as the HDF5 writer does.
fn apply(offsets: &mut Vec<i64>, w_flat: &mut Vec<i16>, evals: &mut Vec<i32>, job: &binpack_to_h5::h5_writer::FlushJob) {
    offsets.resize(job.plan.offsets_end, 0);
    offsets[job.plan.offsets_start..job.plan.offsets_end].copy_from_slice(&job.plan.offsets);
    w_flat.resize(job.plan.w_flat_end, 0);
    w_flat[job.plan.w_flat_start..job.plan.w_flat_end].copy_from_slice(&job.data.w_flat);
    evals.resize(job.plan.rows_end, 0);
    evals[job.plan.rows_start..job.plan.rows_end].copy_from_slice(&job.data.evals);
}

#[test]
fn writer_routes_and_flushes_in_chunks() {
    let mut st = WriterState::new(2);
    let inputs = vec![
        pos(1, vec![1], false),
        pos(2, vec![2, 3], true),
        pos(3, vec![], false),
        pos(4, vec![4], false),
        pos(5, vec![5, 6, 7], false),
        pos(6, vec![8], true),
        pos(7, vec![9], true),
    ];
    let mut train = (vec![0i64], Vec::new(), Vec::new());
    let mut val = (vec![0i64], Vec::new(), Vec::new());
    let mut flushes = Vec::new();
    for p in inputs {
        assert!(st.has_room(&p));
        if let Some(job) = st.accept(p) {
            assert_eq!(job.data.len(), 2);
            flushes.push(job.split);
            let g = if job.split == Split::Val { &mut val } else { &mut train };
            apply(&mut g.0, &mut g.1, &mut g.2, &job);
        }
    }
    assert_eq!(flushes, vec![Split::Train, Split::Train, Split::Val]);
    let (t, v) = st.finish();
    assert!(t.is_none());
    let v = v.unwrap();
    assert_eq!(v.data.len(), 1);
    apply(&mut val.0, &mut val.1, &mut val.2, &v);
    assert_eq!(st.total_train(), 4);
    assert_eq!(st.total_val(), 3);
    assert_eq!(train.2, vec![1, 3, 4, 5]);
    assert_eq!(train.1, vec![1, 4, 5, 6, 7]);
    assert_eq!(train.0, vec![0, 1, 1, 2, 5]);
    assert_eq!(val.2, vec![2, 6, 7]);
    assert_eq!(val.1, vec![2, 3, 8, 9]);
    assert_eq!(val.0, vec![0, 2, 3, 4]);
}

#[test]
fn writer_flush_every_zero_flushes_each_position() {
    let mut st = WriterState::new(0);
    let job = st.accept(pos(1, vec![1, 2], false)).unwrap();
    assert_eq!(job.split, Split::Train);
    assert_eq!(job.data.len(), 1);
    assert_eq!(job.plan.offsets, vec![0, 2]);
    let job = st.accept(pos(2, vec![3], false)).unwrap();
    assert_eq!(job.plan.offsets, vec![3]);
    let (t, v) = st.finish();
    assert!(t.is_none() && v.is_none());
}

#[test]
fn two_flushes_store_what_one_flush_stores() {
    let apply_plan = |offs: &mut Vec<i64>, w: &mut Vec<i16>, ev: &mut Vec<i32>, plan: &binpack_to_h5::h5_writer::FlushPlan, b: &PositionBuffer| {
        offs.resize(plan.offsets_end, 0);
        offs[plan.offsets_start..plan.offsets_end].copy_from_slice(&plan.offsets);
        w.resize(plan.w_flat_end, 0);
        w[plan.w_flat_start..plan.w_flat_end].copy_from_slice(&b.w_flat);
        ev.resize(plan.rows_end, 0);
        ev[plan.rows_start..plan.rows_end].copy_from_slice(&b.evals);
    };
    let mut b1 = PositionBuffer::new();
    b1.add(1, 0, 2, 0, &[1, 2]);
    let mut b2 = PositionBuffer::new();
    b2.add(2, 0, 1, 0, &[3]);
    b2.add(3, 0, 0, 0, &[]);
    let mut b12 = PositionBuffer::new();
    b12.add(1, 0, 2, 0, &[1, 2]);
    b12.add(2, 0, 1, 0, &[3]);
    b12.add(3, 0, 0, 0, &[]);

    let (mut o_a, mut w_a, mut e_a) = (vec![0i64], Vec::new(), Vec::new());
    let mut la = GroupLayout::new();
    let p1 = la.plan_flush(&b1).unwrap();
    apply_plan(&mut o_a, &mut w_a, &mut e_a, &p1, &b1);
    let p2 = la.plan_flush(&b2).unwrap();
    apply_plan(&mut o_a, &mut w_a, &mut e_a, &p2, &b2);

    let (mut o_b, mut w_b, mut e_b) = (vec![0i64], Vec::new(), Vec::new());
    let mut lb = GroupLayout::new();
    let p12 = lb.plan_flush(&b12).unwrap();
    apply_plan(&mut o_b, &mut w_b, &mut e_b, &p12, &b12);

    assert_eq!(o_a, vec![0, 2, 3, 3]);
    assert_eq!((o_a, w_a, e_a), (o_b, w_b, e_b));
    assert_eq!((la.n_written, la.w_flat_offset), (lb.n_written, lb.w_flat_offset));
}
