use elden_analyzer::min_max_record::MinMaxRecord;
use elden_analyzer::seq_buf::{restore_order, SeqBuf};
use elden_analyzer::vec2d::Vec2d;

#[test]
fn seq_buf_basic() {
    let mut buf = SeqBuf::new();
    buf.push(1, "one");
    buf.push(3, "three");
    buf.push(2, "two");
    buf.push(5, "five");
    assert_eq!(buf.pop(), None);
    buf.push(0, "zero");
    assert_eq!(buf.pop(), Some((0, "zero")));
    assert_eq!(buf.pop(), Some((1, "one")));
    assert_eq!(buf.pop(), Some((2, "two")));
    assert_eq!(buf.pop(), Some((3, "three")));
    assert_eq!(buf.pop(), None);
    buf.push(4, "four");
    assert_eq!(buf.pop(), Some((4, "four")));
    assert_eq!(buf.pop(), Some((5, "five")));
}

#[test]
fn order_restoration_of_permutation() {
    let items = vec![(3, "d"), (0, "a"), (2, "c"), (4, "e"), (1, "b")];
    let restored = restore_order(items);
    assert_eq!(
        restored,
        vec![(0, "a"), (1, "b"), (2, "c"), (3, "d"), (4, "e")]
    );
}

#[test]
fn min_max_record_basic() {
    let mut record = MinMaxRecord::new();
    assert!(record.get_min().is_none());
    assert!(record.get_max().is_none());

    record.update(1, 10);
    assert_eq!(record.get_min(), Some((&1, 10)));
    assert_eq!(record.get_max(), Some((&1, 10)));

    record.update(2, 20);
    assert_eq!(record.get_min(), Some((&1, 10)));
    assert_eq!(record.get_max(), Some((&2, 20)));

    record.update(3, 0);
    assert_eq!(record.get_min(), Some((&3, 0)));
    assert_eq!(record.get_max(), Some((&2, 20)));

    record.update(4, 10);
    assert_eq!(record.get_min(), Some((&3, 0)));
    assert_eq!(record.get_max(), Some((&2, 20)));

    record.update(5, 20);
    assert_eq!(record.get_min(), Some((&3, 0)));
    assert_eq!(record.get_max(), Some((&2, 20)));
}

#[test]
fn min_max_record_append() {
    let mut a = MinMaxRecord::new();
    a.update("p", 5);
    a.update("q", 9);
    let mut b = MinMaxRecord::new();
    b.update("r", 3);
    b.update("s", 7);
    a.append(&mut b);
    assert_eq!(a.get_min(), Some((&"r", 3)));
    assert_eq!(a.get_max(), Some((&"q", 9)));
    assert!(b.get_min().is_none());
}

#[test]
fn index() {
    let vec2d = Vec2d::from_fn(3, 2, |x, y| x + y * 3);
    assert_eq!(*vec2d.get(0, 0), 0);
    assert_eq!(*vec2d.get(1, 0), 1);
    assert_eq!(*vec2d.get(2, 0), 2);
    assert_eq!(*vec2d.get(0, 1), 3);
    assert_eq!(*vec2d.get(1, 1), 4);
    assert_eq!(*vec2d.get(2, 1), 5);
}

#[test]
fn row() {
    let vec2d = Vec2d::from_fn(3, 2, |x, y| x + y * 3);
    assert_eq!(vec2d.row(0), &[0, 1, 2]);
    assert_eq!(vec2d.row(1), &[3, 4, 5]);

    let rows = vec2d.rows();
    assert_eq!(rows.len(), 2);
    assert_eq!(rows[0], [0, 1, 2].as_ref());
    assert_eq!(rows[1], [3, 4, 5].as_ref());
}

#[test]
fn vec2d_set_and_raw() {
    let mut v = Vec2d::new(2, 2, 0u8);
    v.set(1, 1, 9);
    assert_eq!(*v.get(1, 1), 9);
    let raw = v.into_raw();
    assert_eq!(raw, vec![0, 0, 0, 9]);
}
