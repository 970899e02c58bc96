use dbsp::error::SchedulerError;
use dbsp::operator::filter_map::{filter, map_index};
use dbsp::time::{Antichain, Timestamp};
use dbsp::trace::consolidation::{check_consolidated, consolidate, merge_vecs, VecMerger};
use dbsp::trace::cursor::{collect_tuples, Cursor};
use dbsp::trace::from_cursor::{batch_from_cursor, rebuild};
use dbsp::trace::ord::{OrdBatch, OrdBatcher, OrdBuilder, OrdIndexedZSet};
use dbsp::trace::spine_fueled::{insert_all, Spine};
use dbsp::trace::unordered::UnorderedBatch;
use dbsp::trace::{Batch, BatchReader, Batcher, Builder, DBData, Merger, Trace, UnorderedBatchReader};

type B = OrdBatch<u64, u64, u32, i64>;
type Z = OrdIndexedZSet<u64, u64, i64>;

fn all(b: &B) -> Vec<(((u64, u64), u32), i64)> {
    (0..BatchReader::len(b)).map(|i| *b.get(i)).collect()
}

#[test]
fn builder_round_trip() {
    let b = B::from_tuples(4, vec![((3, 3), 1), ((1, 9), -2), ((1, 2), 7), ((3, 3), 1)]);
    let again = rebuild(&b, 4);
    assert_eq!(all(&again), all(&b));
    assert!(again.lower().same_as(b.lower()));
    assert!(again.upper().same_as(b.upper()));
    let empty = B::empty(9);
    assert_eq!(all(&rebuild(&empty, 9)), vec![]);
}

#[test]
fn batch_from_cursor_sums_weights_over_times() {
    let a = B::from_tuples(0, vec![((1, 1), 2), ((2, 2), 1), ((3, 3), 4)]);
    let b = B::from_tuples(1, vec![((1, 1), 3), ((2, 2), -1)]);
    let m = a.merge(&b);
    let mut c = m.cursor();
    let flat: B = batch_from_cursor(7, &mut c);
    assert_eq!(all(&flat), vec![(((1, 1), 7), 5), (((3, 3), 7), 4)]);
}

#[test]
fn builder_extend_pushes_in_order() {
    let mut builder: OrdBuilder<u64, u64, u32, i64> = OrdBuilder::with_capacity(2, 1);
    builder.push(((0, 0), 1));
    builder.reserve(8);
    builder.extend(vec![((0, 5), 2), ((4, 1), -3)]);
    builder.extend(vec![]);
    assert_eq!(
        all(&builder.done()),
        vec![(((0, 0), 2), 1), (((0, 5), 2), 2), (((4, 1), 2), -3)]
    );
}

#[test]
fn batcher_sums_what_is_pushed() {
    let mut batcher: OrdBatcher<u64, u64, u32, i64> = OrdBatcher::new_batcher(1);
    let mut first = vec![((2, 2), 1), ((1, 1), 1)];
    batcher.push_batch(&mut first);
    assert!(first.is_empty());
    assert_eq!(batcher.tuples(), 2);
    let mut second = vec![((1, 1), -1), ((5, 5), 2)];
    batcher.push_consolidated_batch(&mut second);
    assert!(second.is_empty());
    assert_eq!(batcher.tuples(), 2);
    assert_eq!(all(&batcher.seal()), vec![(((2, 2), 1), 1), (((5, 5), 1), 2)]);
}

#[test]
fn merger_spends_one_unit_of_fuel_for_each_step() {
    let a = B::from_tuples(0, vec![((1, 1), 1), ((2, 2), 1), ((3, 3), 1)]);
    let b = B::from_tuples(0, vec![((2, 2), -1), ((4, 4), 1)]);
    let mut m = a.begin_merge(&b);
    let mut none: isize = 0;
    m.work(&a, &b, &mut none);
    assert_eq!(none, 0);
    let mut negative: isize = -3;
    m.work(&a, &b, &mut negative);
    assert_eq!(negative, -3);
    let mut fuel: isize = 2;
    m.work(&a, &b, &mut fuel);
    assert_eq!(fuel, 0);
    let mut rest: isize = 10;
    m.work(&a, &b, &mut rest);
    assert_eq!(rest, 8);
    assert_eq!(
        all(&m.done()),
        vec![(((1, 1), 0), 1), (((3, 3), 0), 1), (((4, 4), 0), 1)]
    );
}

#[test]
fn vectors_are_consolidated_and_merged() {
    let v = vec![(3u64, 1i64), (1, 2), (3, -1), (2, 0), (1, 1)];
    let c = consolidate(&v);
    assert_eq!(c, vec![(1, 3)]);
    assert!(check_consolidated(&c));
    assert!(!check_consolidated(&v));
    assert!(!check_consolidated(&vec![(1u64, 0i64)]));
    assert!(!check_consolidated(&vec![(1u64, 1i64), (1, 1)]));
    assert_eq!(
        merge_vecs(&vec![(1u64, 1i64), (4, 4)], &vec![(1, -1), (2, 2)]),
        vec![(2, 2), (4, 4)]
    );
    let a = vec![(1u64, 1i64)];
    let b = vec![(1u64, 1i64)];
    let mut m = VecMerger::new(&a, &b);
    assert!(!m.is_complete(&a, &b));
    let mut fuel: isize = 1;
    m.work(&a, &b, &mut fuel);
    assert_eq!(fuel, 0);
    assert!(m.is_complete(&a, &b));
    assert_eq!(m.done(), vec![(1, 2)]);
}

#[test]
fn last_key_and_seek_val_with() {
    let b = B::from_tuples(0, vec![((1, 1), 1), ((7, 2), 1), ((7, 5), 1), ((7, 9), 1)]);
    let mut c = b.cursor();
    assert_eq!(c.last_key(), Some(7));
    assert_eq!(*c.key(), 7);
    assert_eq!(*c.val(), 2);
    c.seek_val_with(|v| *v >= 5);
    assert_eq!(*c.val(), 5);
    c.seek_val_with(|v| *v >= 5);
    assert_eq!(*c.val(), 5);
    c.seek_val_with(|v| *v > 100);
    assert!(!c.val_valid());
    c.seek_val_with(|_| true);
    assert!(!c.val_valid());
    let empty = B::empty(0);
    let mut e = empty.cursor();
    assert_eq!(e.last_key(), None);
    assert!(!e.key_valid());
    let mut s: Spine<B> = Spine::new();
    assert_eq!(s.insert(b), Ok(()));
    let mut sc = s.cursor();
    assert_eq!(sc.last_key(), Some(7));
    assert_eq!(collect_tuples(&mut sc).len(), 4);
}

#[test]
fn insert_all_feeds_contiguous_batches() {
    let mut s: Spine<B> = Spine::new();
    let batches = (0..6u32)
        .map(|t| B::from_tuples(t, vec![((t as u64 % 2, 0), 1)]))
        .collect();
    assert_eq!(insert_all(&mut s, batches), Ok(()));
    assert_eq!(BatchReader::len(&s), 6);
    assert_eq!(BatchReader::key_count(&s), 6);
    let more = vec![B::from_tuples(6, vec![]), B::from_tuples(8, vec![((9, 9), 1)])];
    assert_eq!(
        insert_all(&mut s, more),
        Err(SchedulerError::NonContiguousBatch)
    );
    let b = s.consolidate().unwrap();
    assert_eq!(BatchReader::key_count(&b), 2);
    assert!(b.upper().same_as(&Antichain::from_elem(7)));
}

#[test]
fn unordered_batch_accumulates_input() {
    let mut u: UnorderedBatch<u64, u64, u32, i64> = UnorderedBatch::new(3);
    assert!(u.is_empty());
    assert_eq!(u.key_count(), (0, Some(0)));
    u.push(5, 5, 1);
    let mut more = vec![((1, 1), 2), ((5, 5), -1), ((1, 1), 1)];
    u.append(&mut more);
    assert!(more.is_empty());
    assert_eq!(UnorderedBatchReader::len(&u), 4);
    assert_eq!(u.key_count(), (1, Some(4)));
    assert_eq!(
        u.unordered_tuples(),
        vec![(((5, 5), 3), 1), (((1, 1), 3), 2), (((5, 5), 3), -1), (((1, 1), 3), 1)]
    );
    assert!(UnorderedBatchReader::lower(&u).same_as(&Antichain::from_elem(3)));
    assert!(UnorderedBatchReader::upper(&u).same_as(&Antichain::from_elem(4)));
    assert_eq!(all(&u.seal()), vec![(((1, 1), 3), 3)]);
    let mut v: UnorderedBatch<u64, u64, u32, i64> = UnorderedBatch::new(0);
    v.push(1, 1, 1);
    v.clear();
    assert!(v.is_empty());
}

#[test]
fn filter_and_map_transform_batches() {
    let z = Z::from_tuples((), vec![((1, 10), 1), ((2, 20), 2), ((3, 30), 3), ((4, 40), -4)]);
    let even = filter(&z, |k, _v| *k % 2 == 0);
    assert_eq!(BatchReader::len(&even), 2);
    assert_eq!(*even.get(0), (((2, 20), ()), 2));
    assert_eq!(*even.get(1), (((4, 40), ()), -4));
    let by_parity = map_index(&z, |k, v| (*k % 2, *v / 40));
    assert_eq!(BatchReader::len(&by_parity), 3);
    assert_eq!(*by_parity.get(0), (((0, 0), ()), 2));
    assert_eq!(*by_parity.get(1), (((0, 1), ()), -4));
    assert_eq!(*by_parity.get(2), (((1, 0), ()), 4));
    let gone = map_index(&z, |_k, _v| (0u64, 0u64));
    assert_eq!(BatchReader::len(&gone), 1);
    assert_eq!(gone.get(0).1, 2);
}

#[test]
fn antichains_keep_their_least_elements() {
    let mut a: Antichain<(u32, u32)> = Antichain::new();
    a.insert((2, 2));
    a.insert((1, 3));
    a.insert((3, 3));
    assert_eq!(a.len(), 2);
    a.insert((1, 1));
    assert_eq!(a.len(), 1);
    assert_eq!(*a.get(0), (1, 1));
    let b = Antichain::from_vec(vec![(0u32, 5u32), (5, 0)]).unwrap();
    assert!(Antichain::from_vec(vec![(0u32, 5u32), (1, 5)]).is_none());
    assert!(b.less_equal(&(0, 7)));
    assert!(!b.less_equal(&(4, 4)));
    let meet = a.meet(&b);
    assert!(meet.less_equal(&(0, 5)) && meet.less_equal(&(1, 1)) && !meet.less_equal(&(0, 0)));
    let join = a.join(&b);
    assert!(join.less_equal(&(1, 5)) && join.less_equal(&(5, 1)) && !join.less_equal(&(1, 1)));
    let receded = b.recede_to(&(2, 2));
    assert!(receded.same_as(&Antichain::from_vec(vec![(0, 2), (2, 0)]).unwrap()));
    assert!(!a.same_as(&b));
    assert!(a.dominated_by(&a.dup()));
    assert_eq!((3u32, 4u32).meet(&(5, 1)), (3, 1));
    assert_eq!((3u32, 4u32).join(&(5, 1)), (5, 4));
    assert_eq!(<(u32, u32) as Timestamp>::minimum(), (0, 0));
    assert_eq!((3u32, 4u32).advance(), Some((3, 5)));
    assert_eq!((3u32, u32::MAX).advance(), None);
    assert_eq!(u32::MAX.advance(), None);
    assert_eq!(().advance(), None);
    assert!((1u32, 9u32).less(&(2, 0)));
    assert!(!(1u32, 9u32).less_equal(&(2, 0)));
    assert!(Some(1u64).less(&Some(2)) && None::<u64>.less(&Some(0)) && !Some(0u64).less(&None));
}
