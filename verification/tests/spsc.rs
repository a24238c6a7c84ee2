use rivulet::error::Error;
use rivulet::buffer::spsc::{buffer, Buffer};
use rivulet::view::{Poll, View, ViewMut};

fn write(buf: &mut Buffer<u8>, values: &[u8]) {
    assert_eq!(buf.sink_poll_grant(values.len()), Poll::Ready(Ok(())));
    buf.sink_view_mut()[..values.len()].copy_from_slice(values);
    buf.sink_release(values.len());
}

#[test]
fn new_buffer_is_empty() {
    let buf = buffer::<u8>(4);
    assert_eq!(buf.capacity(), 5);
    assert_eq!(buf.readable_len(), 0);
    assert_eq!(buf.writable_len(), 4);
    assert_eq!(buf.sink_view().len(), 0);
    assert_eq!(buf.source_view().len(), 0);
}

#[test]
fn new_buffer_holds_default_values() {
    let mut buf = buffer::<u8>(4);
    assert_eq!(buf.sink_poll_grant(4), Poll::Ready(Ok(())));
    assert_eq!(buf.sink_view(), &[0, 0, 0, 0]);
}

#[test]
fn with_fill_sets_every_slot() {
    let mut buf = Buffer::with_fill(3, 7u8);
    assert_eq!(buf.capacity(), 4);
    assert_eq!(buf.sink_poll_grant(1), Poll::Ready(Ok(())));
    assert_eq!(buf.sink_view(), &[7, 7, 7]);
}

#[test]
fn smallest_buffer_holds_one_element() {
    let mut buf = buffer::<u8>(1);
    assert_eq!(buf.capacity(), 2);
    assert_eq!(buf.writable_len(), 1);
    write(&mut buf, &[9]);
    assert_eq!(buf.writable_len(), 0);
    assert_eq!(buf.sink_poll_grant(1), Poll::Pending);
    assert_eq!(buf.source_poll_grant(1), Poll::Ready(Ok(())));
    assert_eq!(buf.source_view(), &[9]);
}

#[test]
fn occupancy_adds_up_to_capacity() {
    let mut buf = buffer::<u8>(4);
    assert_eq!(buf.readable_len() + buf.writable_len() + 1, buf.capacity());
    write(&mut buf, &[1, 2, 3]);
    assert_eq!(buf.readable_len(), 3);
    assert_eq!(buf.writable_len(), 1);
    assert_eq!(buf.readable_len() + buf.writable_len() + 1, buf.capacity());
    assert_eq!(buf.source_poll_grant(2), Poll::Ready(Ok(())));
    buf.source_release(2);
    assert_eq!(buf.readable_len(), 1);
    assert_eq!(buf.writable_len(), 3);
    assert_eq!(buf.readable_len() + buf.writable_len() + 1, buf.capacity());
}

#[test]
fn simple_transfer() {
    let mut buf = buffer::<u8>(4);
    assert_eq!(buf.sink_poll_grant(3), Poll::Ready(Ok(())));
    assert!(buf.sink_view().len() >= 3);
    buf.sink_view_mut()[..3].copy_from_slice(&[1, 2, 3]);
    buf.sink_release(3);
    assert_eq!(buf.source_poll_grant(3), Poll::Ready(Ok(())));
    assert_eq!(buf.source_view(), &[1, 2, 3]);
    buf.source_release(3);
    assert_eq!(buf.readable_len(), 0);
    assert_eq!(buf.writable_len(), 4);
}

#[test]
fn fill_and_wrap() {
    let mut buf = buffer::<u8>(4);
    write(&mut buf, &[1, 2, 3, 4]);
    assert_eq!(buf.writable_len(), 0);
    assert_eq!(buf.source_poll_grant(2), Poll::Ready(Ok(())));
    assert_eq!(&buf.source_view()[..2], &[1, 2]);
    buf.source_release(2);
    write(&mut buf, &[5, 6]);
    assert_eq!(buf.source_poll_grant(4), Poll::Ready(Ok(())));
    assert_eq!(buf.source_view(), &[3, 4, 5, 6]);
}

#[test]
fn wraps_many_times() {
    let mut buf = buffer::<u8>(4);
    let mut next: u8 = 0;
    let mut expected: u8 = 0;
    for round in 0..40usize {
        let n = 1 + round % 4;
        assert_eq!(buf.sink_poll_grant(n), Poll::Ready(Ok(())));
        for slot in buf.sink_view_mut()[..n].iter_mut() {
            *slot = next;
            next = next.wrapping_add(1);
        }
        buf.sink_release(n);
        assert_eq!(buf.source_poll_grant(n), Poll::Ready(Ok(())));
        assert_eq!(buf.source_view().len(), n);
        for value in buf.source_view() {
            assert_eq!(*value, expected);
            expected = expected.wrapping_add(1);
        }
        buf.source_release(n);
    }
    assert_eq!(buf.readable_len(), 0);
}

#[test]
fn end_of_stream() {
    let mut buf = buffer::<u8>(4);
    write(&mut buf, &[1, 2]);
    buf.drop_sink();
    assert_eq!(buf.source_poll_grant(5), Poll::Ready(Ok(())));
    assert_eq!(buf.source_view().len(), 2);
    assert_eq!(buf.source_view(), &[1, 2]);
    buf.source_release(2);
    assert_eq!(buf.source_poll_grant(5), Poll::Ready(Err(Error::Closed)));
    assert_eq!(buf.source_view().len(), 0);
    assert_eq!(buf.source_poll_grant(1), Poll::Ready(Err(Error::Closed)));
}

#[test]
fn overflow() {
    let mut buf = buffer::<u8>(4);
    assert_eq!(buf.source_poll_grant(5), Poll::Ready(Err(Error::Overflow)));
    assert_eq!(buf.source_try_grant(5), Err(Error::Overflow));
    assert_eq!(buf.sink_poll_grant(5), Poll::Ready(Err(Error::Overflow)));
    assert_eq!(buf.sink_try_grant(5), Err(Error::Overflow));
    assert_eq!(buf.sink_view().len(), 0);
    assert_eq!(buf.source_view().len(), 0);
}

#[test]
fn largest_grant_is_one_less_than_capacity() {
    let mut buf = buffer::<u8>(4);
    assert_eq!(buf.sink_poll_grant(4), Poll::Ready(Ok(())));
    assert_eq!(buf.sink_view().len(), 4);
    buf.sink_view_mut().copy_from_slice(&[1, 2, 3, 4]);
    buf.sink_release(4);
    assert_eq!(buf.source_poll_grant(4), Poll::Ready(Ok(())));
    assert_eq!(buf.source_view(), &[1, 2, 3, 4]);
}

#[test]
fn full_ring_makes_sink_wait_until_release() {
    let mut buf = buffer::<u8>(4);
    write(&mut buf, &[1, 2, 3, 4]);
    assert_eq!(buf.sink_poll_grant(1), Poll::Pending);
    assert_eq!(buf.sink_try_grant(1), Ok(false));
    assert_eq!(buf.sink_view().len(), 0);
    assert_eq!(buf.source_poll_grant(1), Poll::Ready(Ok(())));
    buf.source_release(1);
    assert_eq!(buf.sink_poll_grant(1), Poll::Ready(Ok(())));
    assert_eq!(buf.sink_view().len(), 1);
}

#[test]
fn empty_ring_makes_source_wait_until_release() {
    let mut buf = buffer::<u8>(4);
    assert_eq!(buf.source_poll_grant(1), Poll::Pending);
    assert_eq!(buf.source_try_grant(1), Ok(false));
    write(&mut buf, &[8]);
    assert_eq!(buf.source_try_grant(1), Ok(true));
    assert_eq!(buf.source_view(), &[8]);
}

#[test]
fn grant_of_nothing_succeeds() {
    let mut buf = buffer::<u8>(4);
    assert_eq!(buf.source_poll_grant(0), Poll::Ready(Ok(())));
    assert_eq!(buf.source_view().len(), 0);
    assert_eq!(buf.sink_poll_grant(0), Poll::Ready(Ok(())));
    assert_eq!(buf.sink_view().len(), 4);
}

#[test]
fn grant_covers_everything_available() {
    let mut buf = buffer::<u8>(4);
    write(&mut buf, &[1, 2, 3]);
    assert_eq!(buf.source_poll_grant(1), Poll::Ready(Ok(())));
    assert_eq!(buf.source_view(), &[1, 2, 3]);
}

#[test]
fn repeated_grant_changes_nothing() {
    let mut buf = buffer::<u8>(4);
    write(&mut buf, &[1, 2]);
    assert_eq!(buf.source_poll_grant(2), Poll::Ready(Ok(())));
    let first: Vec<u8> = buf.source_view().to_vec();
    assert_eq!(buf.source_poll_grant(2), Poll::Ready(Ok(())));
    assert_eq!(buf.source_view(), &first[..]);
    assert_eq!(buf.readable_len(), 2);
    assert_eq!(buf.sink_poll_grant(2), Poll::Ready(Ok(())));
    let window = buf.sink_view().len();
    assert_eq!(buf.sink_poll_grant(2), Poll::Ready(Ok(())));
    assert_eq!(buf.sink_view().len(), window);
    assert_eq!(buf.writable_len(), 2);
}

#[test]
fn later_grant_only_lengthens_the_view() {
    let mut buf = buffer::<u8>(4);
    write(&mut buf, &[1, 2]);
    assert_eq!(buf.source_poll_grant(1), Poll::Ready(Ok(())));
    assert_eq!(buf.source_view(), &[1, 2]);
    write(&mut buf, &[3]);
    assert_eq!(buf.source_view(), &[1, 2]);
    assert_eq!(buf.source_poll_grant(1), Poll::Ready(Ok(())));
    assert_eq!(buf.source_view(), &[1, 2, 3]);
}

#[test]
fn round_trip_restores_occupancy() {
    let mut buf = buffer::<u8>(4);
    write(&mut buf, &[1]);
    let readable = buf.readable_len();
    let writable = buf.writable_len();
    write(&mut buf, &[2, 3]);
    assert_eq!(buf.source_poll_grant(2), Poll::Ready(Ok(())));
    buf.source_release(2);
    assert_eq!(buf.readable_len(), readable);
    assert_eq!(buf.writable_len(), writable);
    assert_eq!(buf.source_poll_grant(1), Poll::Ready(Ok(())));
    assert_eq!(buf.source_view(), &[3]);
}

#[test]
fn release_of_a_prefix_keeps_the_rest_in_view() {
    let mut buf = buffer::<u8>(4);
    write(&mut buf, &[1, 2, 3]);
    assert_eq!(buf.source_poll_grant(3), Poll::Ready(Ok(())));
    buf.source_release(1);
    assert_eq!(buf.source_view(), &[2, 3]);
    buf.source_release(0);
    assert_eq!(buf.source_view(), &[2, 3]);
    buf.source_release(2);
    assert_eq!(buf.source_view().len(), 0);
}

#[test]
fn sink_keeps_unreleased_writes_across_the_wrap() {
    let mut buf = buffer::<u8>(4);
    write(&mut buf, &[1, 2, 3]);
    assert_eq!(buf.source_poll_grant(3), Poll::Ready(Ok(())));
    buf.source_release(3);
    assert_eq!(buf.sink_poll_grant(4), Poll::Ready(Ok(())));
    buf.sink_view_mut().copy_from_slice(&[10, 11, 12, 13]);
    buf.sink_release(1);
    assert_eq!(buf.sink_view(), &[11, 12, 13]);
    buf.sink_release(2);
    assert_eq!(buf.sink_view(), &[13]);
    assert_eq!(buf.source_poll_grant(3), Poll::Ready(Ok(())));
    assert_eq!(buf.source_view(), &[10, 11, 12]);
}

#[test]
fn unreleased_writes_are_not_readable() {
    let mut buf = buffer::<u8>(4);
    assert_eq!(buf.sink_poll_grant(2), Poll::Ready(Ok(())));
    buf.sink_view_mut()[..2].copy_from_slice(&[1, 2]);
    assert_eq!(buf.source_poll_grant(1), Poll::Pending);
    buf.sink_release(1);
    buf.drop_sink();
    assert_eq!(buf.source_poll_grant(2), Poll::Ready(Ok(())));
    assert_eq!(buf.source_view(), &[1]);
}

#[test]
fn dropped_source_closes_the_sink() {
    let mut buf = buffer::<u8>(4);
    assert_eq!(buf.sink_poll_grant(2), Poll::Ready(Ok(())));
    buf.drop_source();
    assert_eq!(buf.sink_poll_grant(2), Poll::Ready(Err(Error::Closed)));
    assert_eq!(buf.sink_try_grant(1), Err(Error::Closed));
    assert_eq!(buf.sink_view().len(), 0);
    buf.sink_release(0);
    assert_eq!(buf.sink_view().len(), 0);
}

#[test]
fn dropped_source_does_not_hide_an_overflow() {
    let mut buf = buffer::<u8>(4);
    buf.drop_source();
    assert_eq!(buf.sink_poll_grant(5), Poll::Ready(Err(Error::Overflow)));
}

#[test]
fn dropped_endpoints_are_closed() {
    let mut buf = buffer::<u8>(4);
    buf.drop_sink();
    assert_eq!(buf.sink_poll_grant(1), Poll::Ready(Err(Error::Closed)));
    assert_eq!(buf.source_poll_grant(1), Poll::Ready(Err(Error::Closed)));
    buf.drop_source();
    assert_eq!(buf.source_poll_grant(1), Poll::Ready(Err(Error::Closed)));
    assert_eq!(buf.source_view().len(), 0);
}

#[test]
fn sink_end_implements_view() {
    let mut buf = buffer::<u8>(4);
    {
        let mut sink = buf.sink();
        assert_eq!(sink.view().len(), 0);
        assert_eq!(sink.try_grant(3), Ok(true));
        assert_eq!(sink.view().len(), 4);
        sink.view_mut()[..3].copy_from_slice(&[1, 2, 3]);
        sink.release(3);
        assert_eq!(sink.view().len(), 1);
        assert_eq!(sink.poll_grant(2), Poll::Pending);
        assert_eq!(sink.try_grant(5), Err(Error::Overflow));
    }
    let mut source = buf.source();
    assert_eq!(source.try_grant(4), Ok(false));
    assert_eq!(source.poll_grant(3), Poll::Ready(Ok(())));
    assert_eq!(source.view(), &[1, 2, 3]);
    source.release(3);
    assert_eq!(source.view().len(), 0);
}

#[test]
fn error_messages() {
    assert_eq!(Error::Closed.message(), "the stream has been closed");
    assert_eq!(Error::Overflow.message(), "buffer overflow");
    assert_eq!(Error::Other(String::from("disk on fire")).message(), "disk on fire");
    assert_eq!(Error::Other(String::new()).message(), "");
}

#[test]
fn new_buffer_holds_default_values_of_any_type() {
    let mut wide = buffer::<(u32, bool)>(2);
    assert_eq!(wide.sink_poll_grant(2), Poll::Ready(Ok(())));
    assert_eq!(wide.sink_view(), &[(0, false), (0, false)]);
    let mut ring = rivulet::buffer::State::<i64>::new(3);
    ring.lend(3);
    assert_eq!(ring.window(), &[0, 0, 0]);
}
