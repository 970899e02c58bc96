use dbsp::trace::cursor::Cursor;
use dbsp::trace::ord::{OrdBatch, OrdBuilder};
use dbsp::trace::{Batch, BatchReader, Builder};

fn tuples_of(b: &OrdBatch<u64, u64, u32, i64>) -> Vec<(u64, u64, u32, i64)> {
    let mut out = Vec::new();
    for i in 0..b.len() {
        let e = b.get(i);
        out.push((e.0 .0 .0, e.0 .0 .1, e.0 .1, e.1));
    }
    out
}

#[test]
fn from_tuples_sorts_and_sums() {
    let b: OrdBatch<u64, u64, u32, i64> = OrdBatch::from_tuples(
        7,
        vec![((3, 1), 2), ((1, 5), 1), ((3, 1), -2), ((1, 2), 4), ((1, 5), 1)],
    );
    assert_eq!(tuples_of(&b), vec![(1, 2, 7, 4), (1, 5, 7, 2)]);
    assert_eq!(b.key_count(), 1);
    assert!(!b.is_empty());
    assert!(b.lower().less_equal(&7));
    assert!(!b.lower().less_equal(&6));
    assert!(b.upper().less_equal(&8));
    assert!(!b.upper().less_equal(&7));
}

#[test]
fn builder_keeps_pushed_order() {
    let mut builder: OrdBuilder<u64, u64, u32, i64> = OrdBuilder::new_builder(0);
    assert!(builder.accepts(&((1, 1), 5)));
    builder.push(((1, 1), 5));
    assert!(!builder.accepts(&((1, 1), 5)));
    assert!(!builder.accepts(&((1, 0), 5)));
    assert!(!builder.accepts(&((2, 0), 0)));
    builder.push(((2, 0), -1));
    let b = builder.done();
    assert_eq!(tuples_of(&b), vec![(1, 1, 0, 5), (2, 0, 0, -1)]);
}

#[test]
fn merge_adds_weights_and_joins_intervals() {
    let a: OrdBatch<u64, u64, u32, i64> =
        OrdBatch::from_tuples(0, vec![((1, 1), 1), ((2, 2), 2)]);
    let b: OrdBatch<u64, u64, u32, i64> =
        OrdBatch::from_tuples(1, vec![((1, 1), 1), ((0, 9), 3)]);
    let m = a.merge(&b);
    assert_eq!(
        tuples_of(&m),
        vec![(0, 9, 1, 3), (1, 1, 0, 1), (1, 1, 1, 1), (2, 2, 0, 2)]
    );
    assert!(m.lower().less_equal(&0));
    assert!(!m.upper().less_equal(&1));
    assert!(m.upper().less_equal(&2));
}

#[test]
fn cursor_walks_keys_and_values() {
    let b: OrdBatch<u64, u64, u32, i64> = OrdBatch::from_tuples(
        0,
        vec![((1, 10), 1), ((1, 20), 2), ((3, 30), 3), ((5, 50), 5)],
    );
    let mut c = b.cursor();
    assert!(c.key_valid());
    assert_eq!(*c.key(), 1);
    assert_eq!(*c.val(), 10);
    assert_eq!(c.map_times(), vec![(0, 1)]);
    c.step_val();
    assert_eq!(*c.val(), 20);
    c.step_val();
    assert!(!c.val_valid());
    c.rewind_vals();
    assert_eq!(*c.val(), 10);
    c.seek_val(&15);
    assert_eq!(*c.val(), 20);
    c.seek_key(&2);
    assert_eq!(*c.key(), 3);
    c.seek_key(&1);
    assert_eq!(*c.key(), 3);
    c.step_key();
    assert_eq!(*c.key(), 5);
    c.step_key();
    assert!(!c.key_valid());
    c.step_key();
    assert!(!c.key_valid());
    c.rewind_keys();
    assert_eq!(*c.key(), 1);
}
