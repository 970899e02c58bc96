use dbsp::algebra::HasZero;
use dbsp::trace::cursor::{collect_tuples, Cursor};
use dbsp::trace::ord::{merge_cursors, OrdBatch};
use dbsp::trace::zset::{OrdZSet, OrdZSetBatcher, OrdZSetBuilder};
use dbsp::trace::{Batch, BatchReader, Batcher, Builder, Merger};

type S = OrdZSet<u64, i64>;

fn keys(s: &S) -> Vec<(u64, i64)> {
    (0..s.len())
        .map(|i| {
            let (k, w) = s.get(i);
            (*k, *w)
        })
        .collect()
}

#[test]
fn zset_items_are_bare_keys() {
    let a = S::from_keys((), vec![(3, 1), (1, 2), (3, 1)]);
    assert_eq!(keys(&a), vec![(1, 2), (3, 2)]);
    let b = S::from_tuples((), vec![(S::item_from(3, ()), -2), (S::item_from(5, ()), 1)]);
    assert_eq!(keys(&b), vec![(3, -2), (5, 1)]);
    let m = a.merge(&b);
    assert_eq!(keys(&m), vec![(1, 2), (5, 1)]);
    assert_eq!(m.key_count(), 2);
    assert!(!m.is_zero());
    assert!(S::zero().is_zero());
    assert!(S::empty(()).is_empty());
    let mut c = m.cursor();
    c.seek_key(&2);
    assert_eq!(*c.key(), 5);
    assert_eq!(c.weight(), 1);
    assert_eq!(*c.val(), ());
}

#[test]
fn zset_builder_batcher_and_merger() {
    let mut builder: OrdZSetBuilder<u64, i64> = OrdZSetBuilder::with_capacity((), 4);
    assert!(builder.accepts(&(1, 1)));
    builder.push((1, 1));
    assert!(!builder.accepts(&(1, 5)));
    assert!(!builder.accepts(&(2, 0)));
    builder.extend(vec![(2, 2), (9, -9)]);
    let built = builder.done();
    assert_eq!(keys(&built), vec![(1, 1), (2, 2), (9, -9)]);
    let mut batcher: OrdZSetBatcher<u64, i64> = OrdZSetBatcher::new_batcher(());
    let mut rows = vec![(9, 9), (0, 1)];
    batcher.push_batch(&mut rows);
    assert!(rows.is_empty());
    let mut sorted = vec![(0, -1), (4, 4)];
    batcher.push_consolidated_batch(&mut sorted);
    assert_eq!(batcher.tuples(), 2);
    let sealed = batcher.seal();
    assert_eq!(keys(&sealed), vec![(4, 4), (9, 9)]);
    let mut merger = built.begin_merge(&sealed);
    let mut fuel: isize = 100;
    merger.work(&built, &sealed, &mut fuel);
    assert_eq!(fuel, 96);
    assert_eq!(keys(&merger.done()), vec![(1, 1), (2, 2), (4, 4)]);
    let mut receded = built.clone();
    receded.recede_to(&());
    assert_eq!(keys(&receded), keys(&built));
}

#[test]
fn merged_cursor_sums_weights_across_cursors() {
    type B = OrdBatch<u64, u64, u32, i64>;
    let a = B::from_tuples(0, vec![((1, 1), 1), ((2, 2), 2)]);
    let b = B::from_tuples(1, vec![((1, 1), 5), ((3, 3), 3)]);
    let c = B::from_tuples(0, vec![((1, 1), -1), ((2, 2), 1)]);
    let mut m = merge_cursors(vec![a.cursor(), b.cursor(), c.cursor()]);
    assert_eq!(*m.key(), 1);
    assert_eq!(m.map_times(), vec![(1, 5)]);
    m.step_key();
    assert_eq!(m.map_times(), vec![(0, 3)]);
    assert_eq!(
        collect_tuples(&mut m),
        vec![(((1, 1), 1), 5), (((2, 2), 0), 3), (((3, 3), 1), 3)]
    );
    let none: Vec<dbsp::trace::ord::OrdCursor<u64, u64, u32, i64>> = vec![];
    let mut e = merge_cursors(none);
    assert!(!e.key_valid());
    assert_eq!(e.last_key(), None);
}
