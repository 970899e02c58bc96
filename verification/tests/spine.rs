use dbsp::error::SchedulerError;
use dbsp::time::Antichain;
use dbsp::trace::cursor::{collect_tuples, Cursor};
use dbsp::trace::ord::OrdBatch;
use dbsp::trace::spine_fueled::Spine;
use dbsp::trace::{Batch, BatchReader, Trace};

type B = OrdBatch<u64, u64, u32, i64>;

fn flat(v: Vec<(((u64, u64), u32), i64)>) -> Vec<(u64, u64, u32, i64)> {
    v.into_iter()
        .map(|e| (e.0 .0 .0, e.0 .0 .1, e.0 .1, e.1))
        .collect()
}

fn content(s: &Spine<B>) -> Vec<(u64, u64, u32, i64)> {
    let mut c = s.cursor();
    flat(collect_tuples(&mut c))
}

fn batch_content(b: &B) -> Vec<(u64, u64, u32, i64)> {
    let mut c = b.cursor();
    flat(collect_tuples(&mut c))
}

#[test]
fn spine_contiguity() {
    let mut s: Spine<B> = Spine::new();
    assert!(s.is_empty());
    assert!(!s.dirty());
    assert_eq!(s.insert(B::from_tuples(0, vec![((1, 1), 1), ((2, 2), 1)])), Ok(()));
    assert_eq!(s.insert(B::from_tuples(1, vec![((1, 1), 1), ((3, 3), 1)])), Ok(()));
    assert_eq!(s.insert(B::from_tuples(2, vec![((2, 2), -1)])), Ok(()));
    assert!(s.dirty());
    assert_eq!(s.len(), 5);
    let b = s.consolidate().unwrap();
    assert_eq!(
        batch_content(&b),
        vec![(1, 1, 0, 1), (1, 1, 1, 1), (2, 2, 0, 1), (2, 2, 2, -1), (3, 3, 1, 1)]
    );
    assert!(b.lower().same_as(&Antichain::from_elem(0)));
    assert!(b.upper().same_as(&Antichain::from_elem(3)));
}

#[test]
fn insert_refuses_a_gap() {
    let mut s: Spine<B> = Spine::new();
    assert_eq!(
        s.insert(B::from_tuples(1, vec![((1, 1), 1)])),
        Err(SchedulerError::NonContiguousBatch)
    );
    assert!(s.is_empty());
    assert!(!s.dirty());
    assert_eq!(s.insert(B::from_tuples(0, vec![((1, 1), 1)])), Ok(()));
    assert_eq!(
        s.insert(B::from_tuples(0, vec![((1, 1), 1)])),
        Err(SchedulerError::NonContiguousBatch)
    );
    assert_eq!(
        s.insert(B::from_tuples(2, vec![((1, 1), 1)])),
        Err(SchedulerError::NonContiguousBatch)
    );
    assert_eq!(content(&s), vec![(1, 1, 0, 1)]);
    assert!(s.consolidate().is_some());
}

#[test]
fn empty_trace_consolidates_to_nothing() {
    let s: Spine<B> = Spine::new();
    assert!(s.consolidate().is_none());
}

#[test]
fn empty_batches_leave_the_dirty_flag_clear() {
    let mut s: Spine<B> = Spine::new();
    assert_eq!(s.insert(B::empty(0)), Ok(()));
    assert_eq!(s.insert(B::from_tuples(1, vec![((4, 4), 0)])), Ok(()));
    assert!(!s.dirty());
    assert!(s.is_empty());
    assert_eq!(s.insert(B::from_tuples(2, vec![((4, 4), 2)])), Ok(()));
    assert!(s.dirty());
    s.clear_dirty_flag();
    assert!(!s.dirty());
    assert_eq!(content(&s), vec![(4, 4, 2, 2)]);
}

#[test]
fn exert_keeps_the_content_and_spends_fuel() {
    let mut s: Spine<B> = Spine::new();
    for t in 0..9u32 {
        let rows = (0..4u64).map(|k| ((k, t as u64 % 3), 1i64)).collect();
        assert_eq!(s.insert(B::from_tuples(t, rows)), Ok(()));
        let before = content(&s);
        let mut none: isize = 0;
        s.exert(&mut none);
        assert_eq!(none, 0);
        let mut fuel: isize = 3;
        s.exert(&mut fuel);
        assert!(0 <= fuel && fuel <= 3);
        assert_eq!(content(&s), before);
    }
    assert_eq!(s.len(), 36);
    let mut plenty: isize = 1000;
    s.exert(&mut plenty);
    assert!(plenty > 0);
    let mut again: isize = 5;
    s.exert(&mut again);
    assert_eq!(again, 5);
    let mut c = s.cursor();
    assert_eq!(*c.key(), 0);
    assert_eq!(*c.val(), 0);
    assert_eq!(c.map_times(), vec![(0, 1), (3, 1), (6, 1)]);
    assert_eq!(c.weight(), 3);
    c.seek_key(&3);
    c.seek_val(&2);
    assert_eq!(c.map_times_through(&5), vec![(2, 1), (5, 1)]);
}

#[test]
fn recede_to_idempotence() {
    let mut s: Spine<B> = Spine::new();
    assert_eq!(s.insert(B::from_tuples(0, vec![((1, 1), 1)])), Ok(()));
    assert_eq!(s.insert(B::from_tuples(1, vec![((1, 1), 1), ((2, 2), 5)])), Ok(()));
    assert_eq!(s.insert(B::from_tuples(2, vec![((1, 1), 1), ((2, 2), -5)])), Ok(()));
    assert_eq!(s.insert(B::from_tuples(3, vec![((3, 3), 7)])), Ok(()));
    s.recede_to(&1);
    let once = content(&s);
    assert_eq!(once, vec![(1, 1, 0, 1), (1, 1, 1, 2), (3, 3, 1, 7)]);
    assert_eq!(s.len(), 3);
    s.recede_to(&1);
    assert_eq!(content(&s), once);
    assert_eq!(s.len(), 3);
    assert!(s.upper().same_as(&Antichain::from_elem(4)));
    assert_eq!(s.insert(B::from_tuples(4, vec![((3, 3), 1)])), Ok(()));
}

#[test]
fn recede_to_upper_bound_keeps_content() {
    let mut s: Spine<B> = Spine::new();
    assert_eq!(s.insert(B::from_tuples(0, vec![((1, 1), 1)])), Ok(()));
    assert_eq!(s.insert(B::from_tuples(1, vec![((1, 1), 1), ((2, 2), 5)])), Ok(()));
    let before = content(&s);
    s.recede_to(&2);
    assert_eq!(content(&s), before);
}

#[test]
fn batch_recede_to_merges_times() {
    let a = B::from_tuples(0, vec![((1, 1), 1)]);
    let b = B::from_tuples(5, vec![((1, 1), -1), ((2, 2), 3)]);
    let mut m = a.merge(&b);
    m.recede_to(&0);
    assert_eq!(batch_content(&m), vec![(2, 2, 0, 3)]);
    assert!(m.lower().less_equal(&0));
    assert!(!m.upper().less_equal(&5));
    assert!(m.upper().less_equal(&6));
}

#[test]
fn unit_time_trace_takes_many_batches() {
    type Z = OrdBatch<u64, u64, (), i64>;
    let mut s: Spine<Z> = Spine::new();
    for i in 0..5u64 {
        assert_eq!(s.insert(Z::from_tuples((), vec![((i % 2, 0), 1)])), Ok(()));
    }
    let b = s.consolidate().unwrap();
    assert_eq!(b.len(), 2);
    assert_eq!(b.get(0).1, 3);
    assert_eq!(b.get(1).1, 2);
    assert!(b.upper().len() == 0);
}
