use dbsp::operator::aggregate::{Count, FoldKernel};
use dbsp::operator::distinct::distinct_of_stream;
use dbsp::operator::join::{join_batches, join_of_streams};
use dbsp::operator::partitioned::partitioned_of_stream;
use dbsp::operator::time_series::{rolling_aggregate, RelOffset, RelRange, RollingKernel};
use dbsp::operator::aggregate::Sum;
use dbsp::trace::ord::OrdBatch;
use dbsp::trace::{Batch, BatchReader};

type Z = OrdBatch<u64, u64, (), i64>;

fn z(rows: Vec<(u64, u64, i64)>) -> Z {
    Z::from_tuples((), rows.into_iter().map(|(k, v, w)| ((k, v), w)).collect())
}

fn sum(stream: &[Vec<(u64, u64, i64)>]) -> Z {
    let mut total = z(vec![]);
    for step in stream {
        total = total.merge(&z(step.clone()));
    }
    total
}

fn left() -> Vec<Vec<(u64, u64, i64)>> {
    vec![
        vec![(1, 1, 2), (2, 5, 1)],
        vec![(1, 1, -2), (3, 3, 1), (2, 6, 1)],
        vec![],
        vec![(3, 3, -1), (1, 7, 4)],
    ]
}

fn right() -> Vec<Vec<(u64, u64, i64)>> {
    vec![
        vec![(2, 9, 3)],
        vec![(1, 8, 1)],
        vec![(2, 9, -3), (2, 10, 1)],
        vec![],
    ]
}

#[test]
fn distinct_of_a_stream_is_distinct_of_its_sum() {
    let out = distinct_of_stream(left().into_iter().map(z).collect());
    let rows: Vec<(u64, u64, i64)> = (0..out.len())
        .map(|i| {
            let e = out.get(i);
            (e.0 .0 .0, e.0 .0 .1, e.1)
        })
        .collect();
    assert_eq!(rows, vec![(1, 7, 1), (2, 5, 1), (2, 6, 1)]);
    assert!(distinct_of_stream::<u64, u64, i64>(vec![]).is_empty());
}

#[test]
fn join_of_streams_is_join_of_their_sums() {
    let out = join_of_streams(
        left().into_iter().map(z).collect(),
        right().into_iter().map(z).collect(),
    );
    let scratch = join_batches(&sum(&left()), &sum(&right()));
    assert_eq!(out.len(), scratch.len());
    for i in 0..out.len() {
        assert_eq!(out.get(i), scratch.get(i));
    }
    assert_eq!(out.len(), 3);
    assert_eq!(*out.get(0), (((1, (7, 8)), ()), 4));
    assert_eq!(*out.get(1), (((2, (5, 10)), ()), 1));
    assert_eq!(*out.get(2), (((2, (6, 10)), ()), 1));
}

#[test]
fn partitioned_operators_over_streams() {
    let stream: Vec<OrdBatch<u64, (i64, i64), (), i64>> = vec![
        vec![((1u64, (10i64, 1i64)), 1i64), ((1, (12, 5)), 1)],
        vec![((1, (11, 2)), 1), ((2, (1, 1)), 1)],
        vec![((1, (10, 1)), -1)],
    ]
    .into_iter()
    .map(|rows| OrdBatch::from_tuples((), rows))
    .collect();
    let mut all = OrdBatch::from_tuples((), vec![]);
    for b in stream.iter() {
        all = all.merge(b);
    }
    let range = RelRange::new(RelOffset::Before(1), RelOffset::After(0));
    let rolled = partitioned_of_stream(RollingKernel::<i64, Sum>::new(range), stream.clone());
    let mut c = all.cursor();
    let scratch = rolling_aggregate::<u64, i64, Sum, _>(&mut c, &range);
    assert_eq!(rolled.len(), scratch.len());
    for i in 0..rolled.len() {
        assert_eq!((rolled.get(i).0 .0, rolled.get(i).1), scratch[i]);
    }
    assert_eq!(scratch, vec![((1, (11, 2)), 1), ((1, (12, 7)), 1), ((2, (1, 1)), 1)]);
    let counted = partitioned_of_stream(FoldKernel::<(i64, i64), Count>::new(), stream);
    assert_eq!(counted.len(), 2);
    assert_eq!(*counted.get(0), (((1, 2), ()), 1));
    assert_eq!(*counted.get(1), (((2, 1), ()), 1));
}
