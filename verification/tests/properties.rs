use hoop::{ConstructionError, Hoop, WriteResult};

#[test]
fn zero_capacity_is_rejected() {
    match Hoop::<char>::with_capacity(0) {
        Err(e) => assert_eq!(ConstructionError, e),
        Ok(_) => panic!("a zero-capacity buffer must be rejected"),
    }
}

#[test]
fn pop_on_fresh_buffer_returns_nothing() {
    for capacity in 1..6 {
        let mut buffer = Hoop::<u32>::with_capacity(capacity).unwrap();
        assert_eq!(None, buffer.pop());
    }
}

#[test]
fn fifo_order_up_to_capacity() {
    let items = [10u32, 20, 30, 40, 50];
    for n in 0..=items.len() {
        let mut buffer = Hoop::with_capacity(items.len()).unwrap();
        for item in &items[..n] {
            assert_eq!(WriteResult::Done, buffer.write(*item));
        }
        for item in &items[..n] {
            assert_eq!(Some(*item), buffer.pop());
        }
        assert_eq!(None, buffer.pop());
    }
}

#[test]
fn rejected_write_leaves_cells_unchanged() {
    let mut buffer = Hoop::with_capacity(2).unwrap();
    let _ = buffer.write('1');
    let _ = buffer.write('2');
    assert_eq!(WriteResult::TooMany, buffer.write('3'));
    assert_eq!(Some('1'), buffer.pop());
    assert_eq!(Some('2'), buffer.pop());
    assert_eq!(None, buffer.pop());
}

#[test]
fn overwrite_full_buffer_evicts_only_the_oldest() {
    let mut buffer = Hoop::with_capacity(3).unwrap();
    let _ = buffer.write(1);
    let _ = buffer.write(2);
    let _ = buffer.write(3);
    buffer.overwrite(4);
    assert_eq!(Some(2), buffer.pop());
    assert_eq!(Some(3), buffer.pop());
    assert_eq!(Some(4), buffer.pop());
    assert_eq!(None, buffer.pop());
}

#[test]
fn clear_preserves_capacity_and_acts_fresh() {
    let mut buffer = Hoop::with_capacity(2).unwrap();
    let _ = buffer.write('a');
    let _ = buffer.write('b');
    buffer.clear();
    assert_eq!(2, buffer.capacity());
    assert_eq!(None, buffer.pop());
    assert_eq!(WriteResult::Done, buffer.write('c'));
    assert_eq!(WriteResult::Done, buffer.write('d'));
    assert_eq!(WriteResult::TooMany, buffer.write('e'));
    assert_eq!(Some('c'), buffer.pop());
    assert_eq!(Some('d'), buffer.pop());
}

#[test]
fn full_iteration_does_not_disturb_pop() {
    let mut buffer = Hoop::with_capacity(3).unwrap();
    let _ = buffer.write(7);
    let _ = buffer.write(8);
    let mut iter = buffer.iter();
    assert_eq!(Some(&7), iter.next());
    assert_eq!(Some(&8), iter.next());
    assert_eq!(None, iter.next());
    assert_eq!(Some(7), buffer.pop());
    assert_eq!(Some(8), buffer.pop());
}

#[test]
fn overwrite_after_warp_then_fresh_iterator() {
    let mut buffer = Hoop::with_capacity(2).unwrap();
    let _ = buffer.write('1');
    let _ = buffer.write('2');
    buffer.overwrite('A');
    let mut iter = buffer.iter();
    assert_eq!(Some(&'2'), iter.next());
    assert_eq!(Some(&'A'), iter.next());
    assert_eq!(None, iter.next());
    assert_eq!(Some('2'), buffer.pop());
    assert_eq!(Some('A'), buffer.pop());
    assert_eq!(None, buffer.pop());
}

#[test]
fn overwrite_single_cell_evicts_the_occupant() {
    let mut buffer = Hoop::with_capacity(1).unwrap();
    let _ = buffer.write('x');
    buffer.overwrite('y');
    assert_eq!(Some('y'), buffer.pop());
    assert_eq!(None, buffer.pop());
}

#[test]
fn backward_traversal_yields_newest_first() {
    let mut buffer = Hoop::with_capacity(3).unwrap();
    let _ = buffer.write(1);
    let _ = buffer.write(2);
    let _ = buffer.write(3);
    let mut iter = buffer.iter();
    assert_eq!(Some(&3), iter.next_back());
    assert_eq!(Some(&2), iter.next_back());
    assert_eq!(Some(&1), iter.next_back());
    assert_eq!(None, iter.next_back());
    assert_eq!(None, iter.next());
}

#[test]
fn backward_traversal_of_full_buffer_covers_every_element() {
    let mut buffer = Hoop::with_capacity(2).unwrap();
    let _ = buffer.write('1');
    let _ = buffer.write('2');
    let mut iter = buffer.iter();
    assert_eq!(Some(&'2'), iter.next_back());
    assert_eq!(Some(&'1'), iter.next_back());
    assert_eq!(None, iter.next_back());
    assert_eq!(None, iter.next());
}

#[test]
fn ends_meet_in_partly_filled_buffer() {
    let mut buffer = Hoop::with_capacity(5).unwrap();
    let _ = buffer.write(1);
    let _ = buffer.write(2);
    let _ = buffer.write(3);
    let mut iter = buffer.iter();
    assert_eq!(Some(&3), iter.next_back());
    assert_eq!(Some(&1), iter.next());
    assert_eq!(Some(&2), iter.next());
    assert_eq!(None, iter.next());
    assert_eq!(None, iter.next_back());
}

#[test]
fn capacity_reports_the_construction_size() {
    let buffer = Hoop::<u32>::with_capacity(7).unwrap();
    assert_eq!(7, buffer.capacity());
}
