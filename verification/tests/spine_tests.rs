use std::rc::Rc;

use trace_spine::builder::{flatten, retime, LayerBuilder, OrdBuilder, CHUNK};
use trace_spine::consolidation::consolidate;
use trace_spine::cursor::LayerCursor;
use trace_spine::description::{copy_frontier, Description};
use trace_spine::lattice::advance_time;
use trace_spine::layer::{position_before, Layer};
use trace_spine::spine::Spine;
use trace_spine::update::Update;

fn up(key: u64, val: u64, time: u64, diff: isize) -> Update {
    Update { key, val, time, diff }
}

fn tuples(layer: &Layer) -> Vec<(u64, u64, u64, isize)> {
    layer.layer.iter().map(|u| (u.key, u.val, u.time, u.diff)).collect()
}

/// Reads a layer through its cursor, key by key and value by value.
fn walk(cursor: &mut LayerCursor) -> Vec<(u64, u64, u64, isize)> {
    let mut seen = Vec::new();
    cursor.rewind_keys();
    while cursor.key_valid() {
        while cursor.val_valid() {
            for (time, diff) in cursor.map_times() {
                seen.push((cursor.key(), cursor.val(), time, diff));
            }
            cursor.step_val();
        }
        cursor.step_key();
    }
    seen
}

fn build(items: &[(u64, u64, u64, isize)]) -> Rc<Layer> {
    let mut builder = LayerBuilder::new();
    for item in items {
        builder.push(*item);
    }
    builder.done(&[0], &[1])
}

fn batch_of(start: u64, count: u64) -> Rc<Layer> {
    let mut builder = OrdBuilder::new();
    for key in start..start + count {
        builder.push((key, 0, 0, 1));
    }
    builder.done(&[0], &[1])
}

fn spine_tuples(spine: &Spine) -> Vec<Vec<(u64, u64, u64, isize)>> {
    spine.cursor().iter_mut().map(|c| walk(c)).collect()
}

#[test]
fn cancelled_tuples_leave_one_entry() {
    let a = b'a' as u64;
    let b = b'b' as u64;
    let t0 = 7;
    let layer = build(&[(a, 1, t0, 1), (a, 1, t0, -1), (b, 2, t0, 3)]);
    let mut cursor = LayerCursor::new(&layer);
    assert_eq!(walk(&mut cursor), vec![(b, 2, t0, 3)]);
    assert_eq!(layer.len(), 1);
}

#[test]
fn small_layers_roll_up_under_a_large_batch() {
    let mut spine = Spine::new(0);
    spine.insert(batch_of(0, 1));
    spine.insert(batch_of(1, 1));
    spine.insert(batch_of(2, 10));
    let layers = spine_tuples(&spine);
    assert_eq!(layers.len(), 1);
    let expected: Vec<(u64, u64, u64, isize)> = (0..12).map(|k| (k, 0, 0, 1)).collect();
    assert_eq!(layers[0], expected);
}

#[test]
fn absorption_merges_resident_layers_first() {
    let mut spine = Spine::new(0);
    spine.insert(batch_of(0, 100));
    spine.insert(batch_of(100, 4));
    spine.insert(batch_of(200, 2));
    assert_eq!(spine_tuples(&spine).iter().map(|l| l.len()).collect::<Vec<_>>(), vec![100, 4, 2]);
    // 4 < 3 fails, so nothing is absorbed; then 2 < 6 and 4 < 10 merge, 100 stays
    spine.insert(batch_of(300, 3));
    assert_eq!(spine_tuples(&spine).iter().map(|l| l.len()).collect::<Vec<_>>(), vec![100, 9]);
    // 100 < 60 fails; the batch goes on top and 9 < 120 merges with it, then 100 < 138
    spine.insert(batch_of(400, 60));
    assert_eq!(spine_tuples(&spine).iter().map(|l| l.len()).collect::<Vec<_>>(), vec![169]);
}

#[test]
fn absorption_is_strict() {
    let mut spine = Spine::new(0);
    spine.insert(batch_of(0, 100));
    spine.insert(batch_of(100, 10));
    spine.insert(batch_of(200, 2));
    // the middle layer is as long as the batch: not absorbed; 2 < 20 merges, 10 < 24 merges, 100 < 44 fails
    spine.insert(batch_of(300, 10));
    assert_eq!(spine_tuples(&spine).iter().map(|l| l.len()).collect::<Vec<_>>(), vec![100, 22]);
}

#[test]
fn empty_batch_is_ignored() {
    let mut spine = Spine::new(0);
    spine.insert(batch_of(0, 4));
    spine.insert(build(&[(1, 1, 0, 1), (1, 1, 0, -1)]));
    spine.insert(Rc::new(Layer::empty()));
    assert_eq!(spine_tuples(&spine), vec![vec![(0, 0, 0, 1), (1, 0, 0, 1), (2, 0, 0, 1), (3, 0, 0, 1)]]);
    let none = Spine::new(3);
    assert_eq!(none.cursor().len(), 0);
}

#[test]
fn cancelled_merge_result_is_dropped() {
    let mut spine = Spine::new(0);
    spine.insert(build(&[(5, 5, 0, 2)]));
    spine.insert(build(&[(5, 5, 0, -2)]));
    assert_eq!(spine.cursor().len(), 0);
}

#[test]
fn frontier_applies_at_next_compaction_only() {
    let mut spine = Spine::new(0);
    spine.insert(build(&[(1, 1, 0, 1)]));
    let mut second = LayerBuilder::new();
    second.push((1, 1, 3, 1));
    spine.insert(second.done(&[3], &[4]));
    assert_eq!(spine_tuples(&spine), vec![vec![(1, 1, 0, 1), (1, 1, 3, 1)]]);
    spine.advance_by(&[5]);
    assert_eq!(spine_tuples(&spine), vec![vec![(1, 1, 0, 1), (1, 1, 3, 1)]]);
    let mut third = LayerBuilder::new();
    third.push((2, 1, 6, 1));
    third.push((2, 2, 6, 1));
    spine.insert(third.done(&[6], &[7]));
    assert_eq!(spine_tuples(&spine), vec![vec![(1, 1, 5, 2), (2, 1, 6, 1), (2, 2, 6, 1)]]);
}

#[test]
fn no_frontier_is_needed_without_compaction() {
    let mut spine = Spine::new(0);
    spine.insert(batch_of(0, 100));
    spine.advance_by(&[]);
    spine.insert(batch_of(100, 3));
    assert_eq!(spine_tuples(&spine).iter().map(|l| l.len()).collect::<Vec<_>>(), vec![100, 3]);
    spine.advance_by(&[2, 9]);
    spine.insert(batch_of(200, 80));
    let layers = spine_tuples(&spine);
    assert_eq!(layers.len(), 1);
    assert_eq!(layers[0].len(), 183);
    assert!(layers[0].iter().all(|u| u.2 == 2 && u.3 == 1));
}

#[test]
fn layer_count_stays_logarithmic() {
    let mut spine = Spine::new(0);
    let mut inserted: u64 = 0;
    let sizes = [1u64, 3, 1, 1, 7, 2, 1, 20, 1, 1, 1, 5, 40, 1, 2, 3, 1, 1, 9, 1];
    for round in 0..10 {
        for size in sizes {
            spine.insert(batch_of(inserted + round, size));
            inserted += size;
            let layers = spine_tuples(&spine);
            let count = layers.len() as u32;
            let held: usize = layers.iter().map(|l| l.len()).sum();
            assert_eq!(held as u64, inserted);
            assert!(count >= 1);
            assert!(1u64 << (count - 1) <= inserted);
            for pair in layers.windows(2) {
                assert!(pair[0].len() >= 2 * pair[1].len());
            }
        }
    }
}

#[test]
fn merge_sums_and_drops_zeros() {
    let a = build(&[(1, 1, 0, 2), (1, 2, 0, 1), (3, 1, 0, -1)]);
    let b = build(&[(1, 2, 0, -1), (2, 9, 0, 4), (3, 1, 0, -1)]);
    let ab = a.merge(&b);
    assert_eq!(tuples(&ab), vec![(1, 1, 0, 2), (2, 9, 0, 4), (3, 1, 0, -2)]);
    assert!(ab.desc.lower.is_empty() && ab.desc.upper.is_empty() && ab.desc.since.is_empty());
}

#[test]
fn merge_commutes_and_associates() {
    let a = build(&[(1, 1, 0, 2), (4, 2, 0, 1), (9, 1, 0, -1)]);
    let b = build(&[(1, 1, 0, -2), (2, 9, 0, 4), (9, 1, 0, 5)]);
    let c = build(&[(0, 0, 0, 1), (2, 9, 0, -4), (9, 2, 0, 5)]);
    assert_eq!(tuples(&a.merge(&b)), tuples(&b.merge(&a)));
    let left = a.merge(&b).merge(&c);
    let right = a.merge(&b.merge(&c));
    assert_eq!(tuples(&left), tuples(&right));
    assert_eq!(tuples(&left), vec![(0, 0, 0, 1), (4, 2, 0, 1), (9, 1, 0, 4), (9, 2, 0, 5)]);
}

#[test]
fn merge_with_empty_changes_nothing() {
    let a = build(&[(3, 1, 0, 2), (1, 2, 0, 1), (3, 1, 0, 1), (2, 2, 0, 0)]);
    let empty = Layer::empty();
    assert_eq!(tuples(&a), vec![(1, 2, 0, 1), (3, 1, 0, 3)]);
    assert_eq!(tuples(&a.merge(&empty)), tuples(&a));
    assert_eq!(tuples(&empty.merge(&a)), tuples(&a));
    assert_eq!(empty.merge(&Layer::empty()).len(), 0);
}

#[test]
fn advance_rounds_times_and_consolidates() {
    let mut builder = OrdBuilder::new();
    builder.push((1, 1, 1, 1));
    builder.push((1, 1, 2, 1));
    builder.push((1, 1, 9, 1));
    builder.push((1, 2, 3, 1));
    builder.push((1, 2, 4, -1));
    builder.push((2, 1, 0, 5));
    let layer = builder.done(&[0], &[10]);
    let advanced = Layer::advance_by(&layer, &[7, 5]);
    assert_eq!(tuples(&advanced), vec![(1, 1, 5, 2), (1, 1, 9, 1), (2, 1, 5, 5)]);
    assert_eq!(advanced.desc.lower, vec![0]);
    assert_eq!(advanced.desc.upper, vec![10]);
    assert_eq!(advanced.desc.since, vec![7, 5]);
    assert_eq!(tuples(&layer).len(), 6);
}

#[test]
fn advance_of_empty_layer_needs_no_frontier() {
    let empty = Rc::new(Layer::empty());
    let advanced = Layer::advance_by(&empty, &[]);
    assert_eq!(advanced.len(), 0);
    assert!(advanced.desc.since.is_empty());
}

#[test]
fn advance_by_dominating_frontier_twice() {
    let layer = build(&[(1, 1, 0, 1)]);
    let mut builder = OrdBuilder::new();
    for (i, time) in [0u64, 2, 3, 4, 6, 8, 11].iter().enumerate() {
        builder.push((1, 1, *time, (i as isize) + 1));
    }
    builder.push((2, 1, 3, -4));
    builder.push((2, 1, 5, 4));
    let layer2 = builder.done(&[0], &[12]);
    let f = [3u64, 4];
    let g = [6u64, 5, 9];
    let twice = Layer::advance_by(&Rc::new(Layer::advance_by(&layer2, &f)), &g);
    let once = Layer::advance_by(&layer2, &g);
    assert_eq!(tuples(&twice), tuples(&once));
    assert_eq!(tuples(&once), vec![(1, 1, 5, 10), (1, 1, 6, 5), (1, 1, 8, 6), (1, 1, 11, 7)]);
    assert_eq!(tuples(&Layer::advance_by(&layer, &[4])), vec![(1, 1, 4, 1)]);
}

#[test]
fn advance_time_is_least_upper_time() {
    assert_eq!(advance_time(3, &[]), None);
    assert_eq!(advance_time(3, &[5]), Some(5));
    assert_eq!(advance_time(5, &[5]), Some(5));
    assert_eq!(advance_time(9, &[5]), Some(9));
    assert_eq!(advance_time(3, &[8, 4, 6]), Some(4));
    assert_eq!(advance_time(0, &[u64::MAX]), Some(u64::MAX));
    assert_eq!(advance_time(u64::MAX, &[0]), Some(u64::MAX));
}

#[test]
fn consolidate_sorts_sums_and_drops() {
    let mut v = vec![up(2, 1, 0, 1), up(1, 5, 3, 2), up(2, 1, 0, -1), up(1, 5, 3, 4), up(1, 5, 2, 1), up(0, 9, 9, 0)];
    consolidate(&mut v);
    assert_eq!(v, vec![up(1, 5, 2, 1), up(1, 5, 3, 6)]);
    let mut none: Vec<Update> = Vec::new();
    consolidate(&mut none);
    assert!(none.is_empty());
    let mut big = vec![up(1, 1, 1, isize::MAX - 1), up(1, 1, 1, 1)];
    consolidate(&mut big);
    assert_eq!(big, vec![up(1, 1, 1, isize::MAX)]);
    // the running sum leaves the machine range, the weight does not
    let mut wide = vec![
        up(1, 1, 1, isize::MAX),
        up(1, 1, 1, isize::MAX),
        up(2, 1, 1, 5),
        up(1, 1, 1, isize::MIN),
        up(1, 1, 1, isize::MIN),
    ];
    consolidate(&mut wide);
    assert_eq!(wide, vec![up(1, 1, 1, -2), up(2, 1, 1, 5)]);
}

#[test]
fn builders_agree() {
    let items = [(9u64, 1u64, 4u64, 1isize), (2, 2, 4, 1), (9, 0, 4, 2), (2, 2, 4, 3), (5, 5, 4, -1)];
    let buffered = build(&items);
    let mut ordered = OrdBuilder::new();
    for item in [(2u64, 2u64, 4u64, 4isize), (5, 5, 4, -1), (9, 0, 4, 2), (9, 1, 4, 1)] {
        ordered.push(item);
    }
    let direct = ordered.done(&[0], &[1]);
    assert_eq!(tuples(&buffered), tuples(&direct));
    assert_eq!(tuples(&direct), vec![(2, 2, 4, 4), (5, 5, 4, -1), (9, 0, 4, 2), (9, 1, 4, 1)]);
    assert_eq!(buffered.desc.lower, vec![0]);
    assert_eq!(buffered.desc.upper, vec![1]);
    assert_eq!(buffered.desc.since, vec![0]);
    assert_eq!(direct.desc.since, vec![0]);
}

#[test]
fn builder_takes_the_last_time() {
    let mut builder = LayerBuilder::new();
    builder.push((1, 1, 3, 1));
    builder.push((1, 1, 8, 1));
    let layer = builder.done(&[2], &[9]);
    assert_eq!(tuples(&layer), vec![(1, 1, 8, 2)]);
    assert_eq!(LayerBuilder::new().done(&[], &[]).len(), 0);
    assert_eq!(OrdBuilder::new().done(&[], &[]).len(), 0);
}

#[test]
fn many_chunks_are_radix_sorted() {
    let n = (3 * CHUNK + 17) as u64;
    let mut builder = LayerBuilder::new();
    for i in 0..n {
        // keys spread over several radix bytes, pushed in falling order
        let key = (n - i) * 1_000_003 % 65_521 * 65_537;
        builder.push((key, i % 3, 1, 1));
        builder.push((key, i % 3, 1, 2));
    }
    builder.push((0, 7, 2, 5));
    let layer = builder.done(&[2], &[3]);
    let got = tuples(&layer);
    let mut expected: Vec<(u64, u64, u64, isize)> = Vec::new();
    for i in 0..n {
        expected.push(((n - i) * 1_000_003 % 65_521 * 65_537, i % 3, 2, 3));
    }
    expected.push((0, 7, 2, 5));
    expected.sort();
    let mut summed: Vec<(u64, u64, u64, isize)> = Vec::new();
    for e in expected {
        match summed.last_mut() {
            Some(last) if (last.0, last.1, last.2) == (e.0, e.1, e.2) => last.3 += e.3,
            _ => summed.push(e),
        }
    }
    assert_eq!(got, summed);
    assert!(got.windows(2).all(|w| (w[0].0, w[0].1, w[0].2) < (w[1].0, w[1].1, w[1].2)));
}

#[test]
fn exactly_one_full_chunk() {
    let mut builder = LayerBuilder::new();
    for i in 0..CHUNK as u64 {
        builder.push((CHUNK as u64 - i, 0, 0, 1));
    }
    let layer = builder.done(&[0], &[1]);
    let expected: Vec<(u64, u64, u64, isize)> = (1..=CHUNK as u64).map(|k| (k, 0, 0, 1)).collect();
    assert_eq!(tuples(&layer), expected);
}

#[test]
fn flatten_and_retime() {
    let chunks = vec![vec![up(1, 1, 1, 1), up(2, 2, 2, 2)], vec![], vec![up(3, 3, 3, 3)]];
    assert_eq!(flatten(&chunks), vec![up(1, 1, 1, 1), up(2, 2, 2, 2), up(3, 3, 3, 3)]);
    assert_eq!(retime(&chunks[0], 9), vec![up(1, 1, 9, 1), up(2, 2, 9, 2)]);
    assert_eq!(copy_frontier(&[4, 2]), vec![4, 2]);
    let d = Description::new(&[1], &[2, 3], &[]);
    assert_eq!((d.lower, d.upper, d.since), (vec![1], vec![2, 3], vec![]));
}

#[test]
fn position_order_is_lexicographic() {
    assert!(position_before(&up(1, 9, 9, 0), &up(2, 0, 0, 0)));
    assert!(position_before(&up(1, 1, 9, 0), &up(1, 2, 0, 0)));
    assert!(position_before(&up(1, 1, 1, 5), &up(1, 1, 2, 0)));
    assert!(!position_before(&up(1, 1, 1, 0), &up(1, 1, 1, 9)));
    assert!(!position_before(&up(2, 0, 0, 0), &up(1, 9, 9, 0)));
}

#[test]
fn cursor_steps_and_seeks() {
    let mut builder = OrdBuilder::new();
    for item in [(1u64, 1u64, 0u64, 1isize), (1, 1, 1, 2), (1, 3, 0, 3), (4, 2, 0, 4), (4, 5, 2, 5), (4, 5, 7, 6), (8, 0, 0, 7)] {
        builder.push(item);
    }
    let layer = builder.done(&[0], &[8]);
    let mut c = LayerCursor::new(&layer);
    assert!(c.key_valid() && c.val_valid());
    assert_eq!((c.key(), c.val()), (1, 1));
    assert_eq!(c.map_times(), vec![(0, 1), (1, 2)]);
    assert_eq!((c.key(), c.val()), (1, 1));
    c.step_val();
    assert_eq!((c.key(), c.val()), (1, 3));
    assert_eq!(c.map_times(), vec![(0, 3)]);
    c.step_val();
    assert!(c.key_valid() && !c.val_valid());
    assert_eq!(c.map_times(), vec![]);
    c.step_val();
    assert!(!c.val_valid());
    c.rewind_vals();
    assert_eq!((c.key(), c.val()), (1, 1));
    c.seek_val(&2);
    assert_eq!((c.key(), c.val()), (1, 3));
    c.seek_val(&1);
    assert_eq!((c.key(), c.val()), (1, 3));
    c.seek_val(&4);
    assert!(!c.val_valid());
    c.step_key();
    assert_eq!((c.key(), c.val()), (4, 2));
    c.seek_key(&2);
    assert_eq!((c.key(), c.val()), (4, 2));
    c.seek_val(&5);
    assert_eq!(c.map_times(), vec![(2, 5), (7, 6)]);
    c.seek_key(&5);
    assert_eq!((c.key(), c.val()), (8, 0));
    c.seek_key(&9);
    assert!(!c.key_valid() && !c.val_valid());
    c.step_key();
    assert!(!c.key_valid());
    c.rewind_keys();
    assert_eq!((c.key(), c.val()), (1, 1));
    c.seek_key(&8);
    assert_eq!(c.key(), 8);
    c.step_key();
    assert!(!c.key_valid());
    assert_eq!(walk(&mut c), tuples(&layer));
}

#[test]
fn cursor_shares_the_layer() {
    let layer = build(&[(1, 1, 0, 1), (2, 2, 0, 2)]);
    let mut cursor = LayerCursor::new(&layer);
    assert_eq!(Rc::strong_count(&layer), 2);
    assert_eq!(walk(&mut cursor), vec![(1, 1, 0, 1), (2, 2, 0, 2)]);
    drop(cursor);
    assert_eq!(Rc::strong_count(&layer), 1);
    let empty = Rc::new(Layer::empty());
    let mut none = LayerCursor::new(&empty);
    assert!(!none.key_valid() && !none.val_valid());
    none.step_key();
    none.seek_key(&3);
    assert!(walk(&mut none).is_empty());
}
