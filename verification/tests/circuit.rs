use dbsp::circuit::runtime::shard_index;
use dbsp::circuit::schedule::{any_dirty, Circuit, FixedPoint, Verdict};
use dbsp::error::SchedulerError;
use dbsp::trace::ord::OrdBatch;
use dbsp::trace::{Batch, BatchReader, DBData};

type B = OrdBatch<u64, u64, u32, i64>;

fn position(order: &[usize], v: usize) -> usize {
    order.iter().position(|x| *x == v).unwrap()
}

#[test]
fn schedule_orders_nodes_after_their_inputs() {
    let mut c = Circuit::new();
    let sink = c.add_node(false);
    let join = c.add_node(false);
    let left = c.add_node(false);
    let right = c.add_node(false);
    assert_eq!((sink, join, left, right), (0, 1, 2, 3));
    assert!(c.connect(join, sink));
    assert!(c.connect(left, join));
    assert!(c.connect(right, join));
    assert!(c.connect(left, sink));
    assert!(!c.connect(4, sink));
    assert!(!c.connect(left, 9));
    assert_eq!(c.len(), 4);
    let order = c.schedule().unwrap();
    assert_eq!(order.len(), 4);
    assert!(position(&order, left) < position(&order, join));
    assert!(position(&order, right) < position(&order, join));
    assert!(position(&order, join) < position(&order, sink));
}

#[test]
fn cycle_without_delay_has_no_schedule() {
    let mut c = Circuit::new();
    let a = c.add_node(false);
    let b = c.add_node(false);
    let source = c.add_node(false);
    assert!(c.connect(source, a));
    assert!(c.connect(a, b));
    assert!(c.connect(b, a));
    assert_eq!(c.schedule(), Err(SchedulerError::CyclicCircuit));
    let mut own = Circuit::new();
    let n = own.add_node(false);
    assert!(own.connect(n, n));
    assert_eq!(own.schedule(), Err(SchedulerError::CyclicCircuit));
}

#[test]
fn cycle_through_a_delay_is_scheduled() {
    let mut c = Circuit::new();
    let plus = c.add_node(false);
    let delay = c.add_node(true);
    let input = c.add_node(false);
    assert!(c.connect(input, plus));
    assert!(c.connect(delay, plus));
    assert!(c.connect(plus, delay));
    let order = c.schedule().unwrap();
    assert_eq!(order.len(), 3);
    assert!(position(&order, delay) < position(&order, plus));
    assert!(position(&order, input) < position(&order, plus));
    assert_eq!(Circuit::new().schedule(), Ok(vec![]));
}

#[test]
fn fixed_point_is_detected_or_given_up_at_the_bound() {
    let mut f = FixedPoint::new(3);
    assert_eq!(f.observe(true), Ok(Verdict::Again));
    assert_eq!(f.observe(true), Ok(Verdict::Again));
    assert_eq!(f.observe(false), Ok(Verdict::Done));
    assert_eq!(f.observe(true), Ok(Verdict::Again));
    assert_eq!(f.observe(true), Ok(Verdict::Again));
    assert_eq!(f.observe(true), Err(SchedulerError::FixedPointNotReached));
    assert_eq!(f.observe(false), Ok(Verdict::Done));
    let mut none = FixedPoint::new(0);
    assert_eq!(none.observe(false), Ok(Verdict::Done));
    assert_eq!(none.observe(true), Err(SchedulerError::FixedPointNotReached));
    assert!(any_dirty(&vec![false, true, false]));
    assert!(!any_dirty(&vec![false, false]));
    assert!(!any_dirty(&vec![]));
}

#[test]
fn shards_hold_each_key_on_one_worker_and_add_up() {
    let rows: Vec<((u64, u64), i64)> = (0..40u64).map(|i| ((i % 13, i), 1 + i as i64)).collect();
    let b = B::from_tuples(5, rows);
    let shards = b.shard(4);
    assert_eq!(shards.len(), 4);
    let mut total = 0;
    for (w, s) in shards.iter().enumerate() {
        total += s.len();
        for i in 0..s.len() {
            let key = s.get(i).0 .0 .0;
            assert_eq!(shard_index(key.hash_code(), 4), w);
        }
        assert!(s.lower().same_as(b.lower()));
        assert!(s.upper().same_as(b.upper()));
    }
    assert_eq!(total, b.len());
    let back = B::gather(&shards);
    assert_eq!(back.len(), b.len());
    for i in 0..b.len() {
        assert_eq!(back.get(i), b.get(i));
    }
    let again = b.exchange(7);
    for i in 0..b.len() {
        assert_eq!(again.get(i), b.get(i));
    }
    assert_eq!(b.shard(1)[0].len(), b.len());
}

#[test]
fn hashes_are_stable() {
    assert_eq!(0u64.hash_code(), 0);
    assert_eq!(1u64.hash_code(), 0x9e37_79b9_7f4a_7c15);
    assert_eq!(i64::MIN.hash_code(), 0);
    assert_eq!((1u64, 0u64).hash_code(), 0x9e37_79b9_7f4a_7c15u64.wrapping_mul(31));
    assert_eq!(().hash_code(), 0);
    assert_eq!(None::<u64>.hash_code(), 0);
    assert_eq!(Some(0u64).hash_code(), 1);
    assert_eq!(shard_index(u64::MAX, 10), 5);
}
