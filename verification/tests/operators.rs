use dbsp::algebra::{scale_vec, HasZero, ZRingValue};
use dbsp::operator::join::{join_batches, join_probe, swap_values};
use dbsp::operator::{lookup, Differentiate, Distinct, Integrate, Join};
use dbsp::trace::ord::OrdBatch;
use dbsp::trace::{Batch, BatchReader, DBWeight};

type Z = OrdBatch<u64, u64, (), i64>;
type J = OrdBatch<u64, (u64, u64), (), i64>;

fn z(rows: Vec<(u64, u64, i64)>) -> Z {
    Z::from_tuples((), rows.into_iter().map(|(k, v, w)| ((k, v), w)).collect())
}

fn rows(b: &Z) -> Vec<(u64, u64, i64)> {
    (0..b.len())
        .map(|i| {
            let e = b.get(i);
            (e.0 .0 .0, e.0 .0 .1, e.1)
        })
        .collect()
}

fn joined(b: &J) -> Vec<(u64, u64, u64, i64)> {
    (0..b.len())
        .map(|i| {
            let e = b.get(i);
            (e.0 .0 .0, e.0 .0 .1 .0, e.0 .0 .1 .1, e.1)
        })
        .collect()
}

const A: u64 = 10;
const B: u64 = 11;
const X: u64 = 20;
const Y: u64 = 21;

#[test]
fn incremental_join_of_two_zsets() {
    let mut join: Join<u64, u64, u64, i64> = Join::new();
    let out = join.eval(z(vec![(1, A, 1)]), z(vec![(1, X, 1)]));
    assert_eq!(joined(&out), vec![(1, A, X, 1)]);
    let out = join.eval(z(vec![(1, B, 1)]), z(vec![(1, Y, 1)]));
    assert_eq!(joined(&out), vec![(1, A, Y, 1), (1, B, X, 1), (1, B, Y, 1)]);
}

#[test]
fn incremental_join_sums_to_the_join_of_the_sums() {
    let steps = vec![
        (vec![(1, A, 2), (2, A, 1)], vec![(1, X, 3)]),
        (vec![(1, A, -2), (3, B, 1)], vec![(2, Y, 5), (3, X, -1)]),
        (vec![], vec![(1, X, -3), (3, X, 1)]),
        (vec![(2, B, 4)], vec![]),
    ];
    let mut join: Join<u64, u64, u64, i64> = Join::new();
    let mut left = z(vec![]);
    let mut right = z(vec![]);
    let mut total = J::from_tuples((), vec![]);
    for (dl, dr) in steps {
        let out = join.eval(z(dl.clone()), z(dr.clone()));
        total = total.merge(&out);
        left = left.merge(&z(dl));
        right = right.merge(&z(dr));
        assert_eq!(joined(&total), joined(&join_batches(&left, &right)));
    }
    assert_eq!(joined(&total), vec![(2, A, Y, 5), (2, B, Y, 20)]);
}

#[test]
fn join_is_commutative_up_to_the_order_of_values() {
    let l = z(vec![(1, A, 2), (1, B, 3), (2, A, 1)]);
    let r = z(vec![(1, X, 5), (2, X, 7), (2, Y, -1), (4, X, 1)]);
    let lr = joined(&join_batches(&l, &r));
    assert_eq!(
        lr,
        vec![(1, A, X, 10), (1, B, X, 15), (2, A, X, 7), (2, A, Y, -1)]
    );
    let mut rl: Vec<(u64, u64, u64, i64)> = joined(&join_batches(&r, &l))
        .into_iter()
        .map(|(k, v2, v1, w)| (k, v1, v2, w))
        .collect();
    rl.sort();
    assert_eq!(rl, lr);
}

#[test]
fn join_probe_drops_products_that_wrap_to_zero() {
    let driver = vec![(((1u64, A), ()), 1i64 << 32)];
    let probe = z(vec![(1, X, 1 << 32), (1, Y, 3)]);
    let mut c = probe.cursor();
    let out = join_probe(&driver, &mut c);
    assert_eq!(out, vec![((1, (A, Y)), 3i64 << 32)]);
    assert_eq!(swap_values(&out), vec![((1, (Y, A)), 3i64 << 32)]);
}

#[test]
fn distinct_under_retraction() {
    let mut d: Distinct<u64, u64, i64> = Distinct::new();
    assert_eq!(rows(&d.eval(z(vec![(7, 8, 2)]))), vec![(7, 8, 1)]);
    assert_eq!(rows(&d.eval(z(vec![(7, 8, -1)]))), vec![]);
    assert_eq!(rows(&d.eval(z(vec![(7, 8, -1)]))), vec![(7, 8, -1)]);
}

#[test]
fn distinct_twice_equals_distinct_once() {
    let inputs = vec![
        vec![(1, 1, 3), (2, 2, -1), (3, 3, 1)],
        vec![(1, 1, -3), (2, 2, 2)],
        vec![(3, 3, -1), (1, 1, 1)],
    ];
    let mut first: Distinct<u64, u64, i64> = Distinct::new();
    let mut second: Distinct<u64, u64, i64> = Distinct::new();
    let mut once = z(vec![]);
    let mut twice = z(vec![]);
    for input in inputs {
        let a = first.eval(z(input));
        once = once.merge(&a);
        let b = second.eval(a);
        twice = twice.merge(&b);
        assert_eq!(rows(&twice), rows(&once));
    }
    assert_eq!(rows(&once), vec![(1, 1, 1), (2, 2, 1)]);
}

#[test]
fn integrate_and_differentiate_are_inverse() {
    let stream = vec![
        vec![(1, 1, 1)],
        vec![(1, 1, 1), (2, 2, -4)],
        vec![],
        vec![(2, 2, 4)],
    ];
    let mut integrate: Integrate<Z> = Integrate::new();
    let mut differentiate: Differentiate<u64, u64, i64> = Differentiate::new();
    let mut differentiate_first: Differentiate<u64, u64, i64> = Differentiate::new();
    let mut integrate_second: Integrate<Z> = Integrate::new();
    let mut sums = Vec::new();
    for input in stream {
        let sum = integrate.eval(z(input.clone()));
        sums.push(rows(&sum));
        assert_eq!(rows(&differentiate.eval(&sum)), rows(&z(input.clone())));
        let diff = differentiate_first.eval(&z(input.clone()));
        assert_eq!(rows(&integrate_second.eval(diff)), rows(&z(input)));
    }
    assert_eq!(
        sums,
        vec![
            vec![(1, 1, 1)],
            vec![(1, 1, 2), (2, 2, -4)],
            vec![(1, 1, 2), (2, 2, -4)],
            vec![(1, 1, 2)],
        ]
    );
}

#[test]
fn empty_inputs_give_empty_outputs_and_leave_flags_clear() {
    let mut integrate: Integrate<Z> = Integrate::new();
    assert!(integrate.eval(z(vec![])).is_empty());
    assert!(!integrate.dirty());
    let mut distinct: Distinct<u64, u64, i64> = Distinct::new();
    assert!(distinct.eval(z(vec![(1, 1, 0)])).is_empty());
    assert!(!distinct.dirty());
    let mut join: Join<u64, u64, u64, i64> = Join::new();
    assert!(join.eval(z(vec![]), z(vec![])).is_empty());
    assert!(!join.dirty());
    assert!(join.eval(z(vec![(1, 1, 1)]), z(vec![])).is_empty());
    assert!(join.dirty());
    join.clear_dirty_flag();
    assert!(!join.dirty());
}

#[test]
fn lookup_finds_weights_and_zero_for_absent_pairs() {
    let b = z(vec![(1, 5, 2), (3, 1, -1), (3, 4, 7)]);
    let mut c = b.cursor();
    assert_eq!(lookup(&mut c, &3, &4), 7);
    assert_eq!(lookup(&mut c, &1, &5), 2);
    assert_eq!(lookup(&mut c, &3, &2), 0);
    assert_eq!(lookup(&mut c, &2, &5), 0);
    assert_eq!(lookup(&mut c, &9, &9), 0);
}

#[test]
fn zset_algebra() {
    let a = z(vec![(1, 1, 2), (2, 2, -3)]);
    assert_eq!(rows(&a.neg()), vec![(1, 1, -2), (2, 2, 3)]);
    assert!(a.merge(&a.neg()).is_zero());
    assert!(Z::zero().is_zero());
    assert!(!a.is_zero());
    let v = vec![((1u64, 1u64), 2i64), ((2, 2), 1 << 62)];
    assert_eq!(scale_vec(&v, &4), vec![((1, 1), 8)]);
    assert_eq!(i64::MAX.add_by_ref(&1), i64::MIN);
    assert_eq!(i64::MIN.neg_by_ref(), i64::MIN);
    assert_eq!(3i64.mul_by_ref(&-4), -12);
    assert_eq!(<i64 as ZRingValue>::one(), 1);
    assert!(0i64.ge0());
    assert!(!(-1i64).ge0());
}
