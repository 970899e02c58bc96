use dbsp::circuit::operator::Inspect;
use dbsp::circuit::operator_traits::{Operator, SinkRefOperator};
use dbsp::trace::cursor::cursor_group::CursorGroup;
use dbsp::trace::cursor::Cursor;
use dbsp::trace::ord::OrdBatch;
use dbsp::trace::{Batch, BatchReader};
use std::cell::RefCell;

fn partitioned() -> OrdBatch<u64, (i64, i64), u32, i64> {
    let early: OrdBatch<u64, (i64, i64), u32, i64> = OrdBatch::from_tuples(
        1,
        vec![((1, (0, 10)), 1), ((1, (100, 20)), 1), ((2, (50, 5)), 1)],
    );
    let late: OrdBatch<u64, (i64, i64), u32, i64> =
        OrdBatch::from_tuples(4, vec![((1, (100, 20)), 2), ((1, (200, 30)), 1)]);
    early.merge(&late)
}

#[test]
fn group_iterates_values_of_current_key() {
    let b = partitioned();
    let mut c = b.cursor();
    assert_eq!(*c.key(), 1);
    {
        let mut g = CursorGroup::new(&mut c, 9u32);
        assert!(g.key_valid());
        assert!(g.val_valid());
        assert_eq!(*g.key(), (0, 10));
        assert_eq!(g.map_times(), vec![(1, 1)]);
        g.step_key();
        assert_eq!(*g.key(), (100, 20));
        assert_eq!(g.map_times(), vec![(1, 1), (4, 2)]);
        assert_eq!(g.weight(), 3);
        assert_eq!(g.map_times_through(&2), vec![(1, 1)]);
        g.step_val();
        assert!(!g.val_valid());
        assert!(g.key_valid());
        assert_eq!(g.map_times(), vec![]);
        g.rewind_vals();
        assert!(g.val_valid());
        g.step_key();
        assert_eq!(*g.key(), (200, 30));
        g.step_key();
        assert!(!g.key_valid());
        assert!(!g.val_valid());
        g.rewind_keys();
        assert_eq!(*g.key(), (0, 10));
        g.seek_key(&(100, 0));
        assert_eq!(*g.key(), (100, 20));
        g.seek_val(&());
        assert!(g.val_valid());
    }
    assert_eq!(*c.key(), 1);
    assert_eq!(*c.val(), (100, 20));
}

#[test]
fn group_clips_times_to_its_upper_bound() {
    let b = partitioned();
    let mut c = b.cursor();
    let mut g = CursorGroup::new(&mut c, 3u32);
    g.seek_key(&(100, 20));
    assert_eq!(g.map_times(), vec![(1, 1)]);
    assert_eq!(g.weight(), 1);
    assert_eq!(g.fold_times(0i64, |acc, _t, w| acc + *w), 1);
    assert_eq!(g.fold_times_through(&0, 0i64, |acc, _t, w| acc + *w), 0);
    g.step_key();
    assert_eq!(*g.key(), (200, 30));
    assert!(g.val_valid());
    assert_eq!(g.map_times(), vec![]);
}

#[test]
fn inspect_applies_callback_to_each_input() {
    let seen: RefCell<Vec<u64>> = RefCell::new(Vec::new());
    let mut op = Inspect::new(|x: &u64| seen.borrow_mut().push(*x));
    op.stream_start();
    op.eval(&3);
    op.eval(&5);
    op.stream_end();
    assert_eq!(*seen.borrow(), vec![3, 5]);
}
