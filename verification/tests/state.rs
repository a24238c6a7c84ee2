use rivulet::buffer::State;

#[test]
fn new_ring_is_empty() {
    let ring = State::<u8>::new(4);
    assert_eq!(ring.capacity(), 5);
    assert_eq!(ring.head(), 0);
    assert_eq!(ring.tail(), 0);
    assert_eq!(ring.lent(), 0);
    assert_eq!(ring.readable_len(), 0);
    assert_eq!(ring.writable_len(), 4);
    assert_eq!(ring.window().len(), 0);
}

#[test]
fn ring_distance_and_advance() {
    let ring = State::with_fill(4, 0u8);
    assert_eq!(ring.distance(3, 1), 3);
    assert_eq!(ring.distance(1, 3), 2);
    assert_eq!(ring.distance(2, 2), 0);
    assert_eq!(ring.advance_value(3, 4), 2);
    assert_eq!(ring.advance_value(0, 4), 4);
    assert_eq!(ring.advance_value(5, 1), 1);
}

#[test]
fn lend_write_commit_consume() {
    let mut ring = State::with_fill(4, 0u8);
    ring.lend(3);
    assert_eq!(ring.lent(), 3);
    assert_eq!(ring.window(), &[0, 0, 0]);
    ring.window_mut().copy_from_slice(&[1, 2, 3]);
    assert_eq!(ring.window(), &[1, 2, 3]);
    ring.commit(2);
    assert_eq!(ring.tail(), 2);
    assert_eq!(ring.lent(), 1);
    assert_eq!(ring.window(), &[3]);
    assert_eq!(ring.readable_len(), 2);
    assert_eq!(ring.writable_len(), 2);
    assert_eq!(ring.slice(0, 2), &[1, 2]);
    assert_eq!(ring.slice(1, 1), &[2]);
    assert_eq!(ring.slice(2, 0).len(), 0);
    ring.consume(1);
    assert_eq!(ring.head(), 1);
    assert_eq!(ring.readable_len(), 1);
    assert_eq!(ring.writable_len(), 3);
    ring.lend(0);
    assert_eq!(ring.window().len(), 0);
}

#[test]
fn runs_across_the_end_are_flat() {
    let mut ring = State::with_fill(4, 0u8);
    ring.lend(4);
    ring.window_mut().copy_from_slice(&[1, 2, 3, 4]);
    ring.commit(4);
    assert_eq!(ring.tail(), 4);
    ring.consume(3);
    ring.lend(3);
    assert_eq!(ring.window().len(), 3);
    ring.window_mut().copy_from_slice(&[5, 6, 7]);
    assert_eq!(ring.window(), &[5, 6, 7]);
    ring.commit(3);
    assert_eq!(ring.tail(), 2);
    assert_eq!(ring.head(), 3);
    assert_eq!(ring.readable_len(), 4);
    assert_eq!(ring.slice(3, 4), &[4, 5, 6, 7]);
    assert_eq!(ring.slice(4, 3), &[5, 6, 7]);
    assert_eq!(ring.slice(0, 2), &[6, 7]);
}

#[test]
fn shrinking_the_window_keeps_what_was_written() {
    let mut ring = State::with_fill(4, 0u8);
    ring.lend(4);
    ring.commit(3);
    ring.consume(3);
    ring.lend(4);
    ring.window_mut().copy_from_slice(&[1, 2, 3, 4]);
    ring.lend(2);
    assert_eq!(ring.window(), &[1, 2]);
    ring.lend(4);
    assert_eq!(ring.window(), &[1, 2, 3, 4]);
    ring.commit(4);
    assert_eq!(ring.slice(3, 4), &[1, 2, 3, 4]);
}

#[test]
fn set_head_moves_within_the_readable_run() {
    let mut ring = State::with_fill(4, 0u8);
    ring.lend(4);
    ring.window_mut().copy_from_slice(&[1, 2, 3, 4]);
    ring.commit(4);
    ring.set_head(2);
    assert_eq!(ring.head(), 2);
    assert_eq!(ring.readable_len(), 2);
    assert_eq!(ring.slice(2, 2), &[3, 4]);
    ring.set_head(4);
    assert_eq!(ring.readable_len(), 0);
    assert_eq!(ring.writable_len(), 4);
}
