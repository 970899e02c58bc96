use dbsp::operator::aggregate::{aggregate, Aggregator, Avg, Count, Sum};
use dbsp::operator::partitioned::{fetch_partition, partition_rows};
use dbsp::operator::time_series::{
    partitioned_rolling_aggregate, rolling_aggregate, rolling_partition, RelOffset, RelRange,
};
use dbsp::trace::cursor::Cursor;
use dbsp::trace::ord::OrdBatch;
use dbsp::trace::{Batch, BatchReader};

const A: u64 = 1;
const B: u64 = 2;

type Rows = OrdBatch<u64, (i64, i64), (), i64>;

fn rows(v: Vec<(u64, i64, i64, i64)>) -> Rows {
    Rows::from_tuples(
        (),
        v.into_iter().map(|(p, t, amt, w)| ((p, (t, amt)), w)).collect(),
    )
}

fn sample_rows() -> Rows {
    rows(vec![(A, 0, 10, 1), (A, 100, 20, 1), (A, 200, 30, 1), (B, 50, 5, 1)])
}

fn before(from: u64, to: u64) -> RelRange {
    RelRange::new(RelOffset::Before(from), RelOffset::Before(to))
}

fn emitted<O: Copy>(b: &OrdBatch<u64, (i64, O), (), i64>) -> Vec<(u64, i64, O, i64)>
where
    O: dbsp::trace::DBData,
{
    (0..b.len())
        .map(|i| {
            let e = b.get(i);
            (e.0 .0 .0, e.0 .0 .1 .0, e.0 .0 .1 .1, e.1)
        })
        .collect()
}

#[test]
fn partitioned_average() {
    let input = sample_rows();
    let mut c = input.cursor();
    let out = rolling_aggregate::<u64, i64, Avg, _>(&mut c, &before(150, 1));
    assert_eq!(
        out,
        vec![
            ((A, (0, None)), 1),
            ((A, (100, Some(10))), 1),
            ((A, (200, Some(20))), 1),
            ((B, (50, None)), 1),
        ]
    );
    let mut c = input.cursor();
    let wide = rolling_aggregate::<u64, i64, Avg, _>(&mut c, &before(200, 1));
    assert_eq!(
        wide,
        vec![
            ((A, (0, None)), 1),
            ((A, (100, Some(10))), 1),
            ((A, (200, Some(15))), 1),
            ((B, (50, None)), 1),
        ]
    );
}

#[test]
fn partitioned_count() {
    let input = sample_rows();
    let mut c = input.cursor();
    let out = rolling_aggregate::<u64, i64, Count, _>(&mut c, &before(100, 1));
    assert_eq!(
        out,
        vec![
            ((A, (0, 0)), 1),
            ((A, (100, 1)), 1),
            ((A, (200, 1)), 1),
            ((B, (50, 0)), 1),
        ]
    );
}

#[test]
fn incremental_rolling_aggregate_retracts_stale_outputs() {
    let mut op = partitioned_rolling_aggregate::<u64, i64, Avg>(before(150, 1));
    let first = op.eval(rows(vec![(A, 100, 20, 1), (B, 50, 5, 1)]));
    assert_eq!(emitted(&first), vec![(A, 100, None, 1), (B, 50, None, 1)]);
    assert!(op.dirty());
    op.clear_dirty_flag();
    let second = op.eval(rows(vec![(A, 0, 10, 1), (A, 200, 30, 1)]));
    assert_eq!(
        emitted(&second),
        vec![
            (A, 0, None, 1),
            (A, 100, None, -1),
            (A, 100, Some(10), 1),
            (A, 200, Some(20), 1),
        ]
    );
    let third = op.eval(rows(vec![(A, 0, 10, -1), (B, 60, 7, 1)]));
    assert_eq!(
        emitted(&third),
        vec![
            (A, 0, None, -1),
            (A, 100, None, 1),
            (A, 100, Some(10), -1),
            (B, 60, Some(5), 1),
        ]
    );
    let nothing = op.eval(rows(vec![]));
    assert!(nothing.is_empty());
    op.clear_dirty_flag();
    let none = op.eval(rows(vec![(A, 5, 5, 0)]));
    assert!(none.is_empty());
    assert!(!op.dirty());
}

#[test]
fn incremental_rolling_aggregate_sums_to_the_aggregate_of_the_sum() {
    let steps = vec![
        vec![(A, 10, 1, 1), (A, 20, 2, 1), (B, 5, 9, 2)],
        vec![(A, 15, 4, 1), (A, 10, 1, -1), (B, 6, 1, 1)],
        vec![(A, 20, 2, 1), (B, 5, 9, -2)],
        vec![(A, 15, 4, -1), (A, 20, 2, -2)],
    ];
    let range = RelRange::new(RelOffset::Before(10), RelOffset::After(1));
    let mut op = partitioned_rolling_aggregate::<u64, i64, Sum>(range);
    let mut sum = rows(vec![]);
    let mut total: OrdBatch<u64, (i64, i64), (), i64> = OrdBatch::from_tuples((), vec![]);
    for step in steps {
        total = total.merge(&op.eval(rows(step.clone())));
        sum = sum.merge(&rows(step));
        let mut c = sum.cursor();
        let scratch = rolling_aggregate::<u64, i64, Sum, _>(&mut c, &range);
        let expected: Vec<(u64, i64, i64, i64)> = scratch
            .into_iter()
            .map(|e| (e.0 .0, e.0 .1 .0, e.0 .1 .1, e.1))
            .collect();
        assert_eq!(emitted(&total), expected);
    }
    assert_eq!(emitted(&total), vec![(B, 6, 1, 1)]);
}

#[test]
fn rolling_partition_moves_both_edges_forward() {
    let part = vec![
        ((1i64, 1i64), 1i64),
        ((1, 2), 1),
        ((3, 10), 2),
        ((4, 100), -1),
        ((9, 7), 1),
    ];
    let range = RelRange::new(RelOffset::Before(2), RelOffset::After(1));
    assert_eq!(
        rolling_partition::<i64, Sum>(&part, &range),
        vec![((1, 3), 1), ((3, -77), 1), ((4, -80), 1), ((9, 7), 1)]
    );
    assert_eq!(
        rolling_partition::<i64, Count>(&part, &range),
        vec![((1, 2), 1), ((3, 3), 1), ((4, 1), 1), ((9, 1), 1)]
    );
    let empty = RelRange::new(RelOffset::After(1), RelOffset::Before(1));
    assert_eq!(
        rolling_partition::<i64, Avg>(&part, &empty),
        vec![((1, None), 1), ((3, None), 1), ((4, None), 1), ((9, None), 1)]
    );
    let none: Vec<((i64, i64), i64)> = vec![];
    assert_eq!(rolling_partition::<i64, Avg>(&none, &range), vec![]);
}

#[test]
fn windows_at_the_ends_of_the_time_range_do_not_overflow() {
    let part = vec![((i64::MIN, 1i64), 1i64), ((i64::MAX, 2), 1)];
    let all = RelRange::new(RelOffset::Before(u64::MAX), RelOffset::After(u64::MAX));
    assert_eq!(
        rolling_partition::<i64, Sum>(&part, &all),
        vec![((i64::MIN, 3), 1), ((i64::MAX, 3), 1)]
    );
    assert_eq!(RelOffset::Before(u64::MAX).apply(i64::MIN), i64::MIN as i128 - u64::MAX as i128);
}

#[test]
fn aggregates_widen_and_saturate() {
    assert_eq!(Avg::finish(&Avg::init()), None);
    let acc = Avg::step(Avg::init(), &i64::MAX, i64::MAX);
    assert_eq!(acc, (i64::MAX as i128 * i64::MAX as i128, i64::MAX as i128));
    assert_eq!(Avg::finish(&acc), Some(i64::MAX));
    assert_eq!(Avg::finish(&(-7, 2)), Some(-3));
    assert_eq!(Avg::finish(&(7, -2)), Some(-3));
    assert_eq!(Avg::finish(&(i128::MIN, -1)), Some(i64::MAX));
    assert_eq!(Avg::finish(&(5, 0)), None);
    assert_eq!(Avg::step((i128::MAX, i128::MIN), &1, 1), (i128::MAX, i128::MIN + 1));
    assert_eq!(Avg::step((i128::MIN, i128::MIN), &1, -1), (i128::MIN, i128::MIN));
    assert_eq!(<Sum as Aggregator<i64>>::finish(&(i64::MAX as i128 + 1)), i64::MAX);
    assert_eq!(<Sum as Aggregator<i64>>::finish(&(i64::MIN as i128 - 1)), i64::MIN);
    assert_eq!(<Count as Aggregator<u64>>::step(3, &9, -5), -2);
    assert_eq!(<Count as Aggregator<u64>>::finish(&<Count as Aggregator<u64>>::init()), 0);
}

#[test]
fn aggregate_reemits_only_changed_keys() {
    let mut op = aggregate::<u64, (i64, i64), Count>();
    let first = op.eval(sample_rows());
    let got: Vec<(u64, i64, i64)> = (0..first.len())
        .map(|i| {
            let e = first.get(i);
            (e.0 .0 .0, e.0 .0 .1, e.1)
        })
        .collect();
    assert_eq!(got, vec![(A, 3, 1), (B, 1, 1)]);
    let second = op.eval(rows(vec![(B, 50, 5, -1)]));
    let got: Vec<(u64, i64, i64)> = (0..second.len())
        .map(|i| {
            let e = second.get(i);
            (e.0 .0 .0, e.0 .0 .1, e.1)
        })
        .collect();
    assert_eq!(got, vec![(B, 1, -1)]);
}

#[test]
fn partitions_are_read_through_the_group_cursor() {
    let input = sample_rows();
    let mut c = input.cursor();
    assert_eq!(
        partition_rows(&mut c),
        vec![((0, 10), 1), ((100, 20), 1), ((200, 30), 1)]
    );
    assert_eq!(*c.key(), A);
    assert_eq!(fetch_partition(&mut c, &B), vec![((50, 5), 1)]);
    assert_eq!(fetch_partition(&mut c, &3), vec![]);
    assert_eq!(fetch_partition(&mut c, &0), vec![]);
}
