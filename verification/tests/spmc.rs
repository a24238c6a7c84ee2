use rivulet::error::Error;
use rivulet::buffer::spmc::{buffer, Buffer};
use rivulet::view::{Poll, View, ViewMut};

fn write(buf: &mut Buffer<u8>, values: &[u8]) {
    assert_eq!(buf.sink_poll_grant(values.len()), Poll::Ready(Ok(())));
    buf.sink_view_mut()[..values.len()].copy_from_slice(values);
    buf.sink_release(values.len());
}

fn read(buf: &mut Buffer<u8>, id: usize, values: &[u8]) {
    assert_eq!(buf.source_poll_grant(id, values.len()), Poll::Ready(Ok(())));
    assert_eq!(&buf.source_view(id)[..values.len()], values);
    buf.source_release(id, values.len());
}

#[test]
fn new_broadcast_buffer_has_one_source() {
    let buf = buffer::<u8>(4);
    assert_eq!(buf.capacity(), 5);
    assert_eq!(buf.sources(), 1);
    assert!(buf.is_live(0));
    assert!(!buf.is_live(1));
    assert!(buf.any_live());
    assert_eq!(buf.readable_len(), 0);
    assert_eq!(buf.writable_len(), 4);
}

#[test]
fn broadcast_with_fill_sets_every_slot() {
    let mut buf = Buffer::with_fill(2, 5u8);
    assert_eq!(buf.sink_poll_grant(2), Poll::Ready(Ok(())));
    assert_eq!(buf.sink_view(), &[5, 5]);
}

#[test]
fn broadcast() {
    let mut buf = buffer::<u8>(4);
    let a = 0;
    let b = buf.clone_source(a).unwrap();
    write(&mut buf, &[1, 2, 3]);
    read(&mut buf, a, &[1, 2, 3]);
    assert_eq!(buf.sink_poll_grant(3), Poll::Pending);
    assert_eq!(buf.writable_len(), 1);
    read(&mut buf, b, &[1, 2, 3]);
    assert_eq!(buf.sink_poll_grant(3), Poll::Ready(Ok(())));
    assert_eq!(buf.writable_len(), 4);
}

#[test]
fn mid_stream_clone() {
    let mut buf = buffer::<u8>(4);
    let a = 0;
    write(&mut buf, &[1, 2]);
    read(&mut buf, a, &[1, 2]);
    let b = buf.clone_source(a).unwrap();
    assert_eq!(b, 1);
    write(&mut buf, &[3, 4]);
    assert_eq!(buf.source_poll_grant(b, 2), Poll::Ready(Ok(())));
    assert_eq!(buf.source_view(b), &[3, 4]);
    assert_eq!(buf.source_poll_grant(a, 2), Poll::Ready(Ok(())));
    assert_eq!(buf.source_view(a), &[3, 4]);
}

#[test]
fn clone_sees_what_its_source_has_yet_to_release() {
    let mut buf = buffer::<u8>(4);
    write(&mut buf, &[1, 2, 3]);
    read(&mut buf, 0, &[1]);
    assert_eq!(buf.source_view(0), &[2, 3]);
    let b = buf.clone_source(0).unwrap();
    assert_eq!(buf.source_view(b), &[2, 3]);
    write(&mut buf, &[4]);
    assert_eq!(buf.source_poll_grant(b, 3), Poll::Ready(Ok(())));
    assert_eq!(buf.source_view(b), &[2, 3, 4]);
}

#[test]
fn every_source_reads_the_whole_stream_in_order() {
    let mut buf = buffer::<u8>(4);
    let b = buf.clone_source(0).unwrap();
    let c = buf.clone_source(b).unwrap();
    let mut next: u8 = 0;
    let mut seen = [0u8; 3];
    for round in 0..30usize {
        let n = 1 + round % 4;
        assert_eq!(buf.sink_poll_grant(n), Poll::Ready(Ok(())));
        for slot in buf.sink_view_mut()[..n].iter_mut() {
            *slot = next;
            next = next.wrapping_add(1);
        }
        buf.sink_release(n);
        for (k, id) in [0, b, c].iter().enumerate() {
            assert_eq!(buf.source_poll_grant(*id, n), Poll::Ready(Ok(())));
            assert_eq!(buf.source_view(*id).len(), n);
            for value in buf.source_view(*id) {
                assert_eq!(*value, seen[k]);
                seen[k] = seen[k].wrapping_add(1);
            }
            buf.source_release(*id, n);
        }
    }
    assert_eq!(buf.readable_len(), 0);
}

#[test]
fn head_follows_the_slowest_source() {
    let mut buf = buffer::<u8>(4);
    let b = buf.clone_source(0).unwrap();
    write(&mut buf, &[1, 2, 3, 4]);
    read(&mut buf, 0, &[1, 2, 3]);
    assert_eq!(buf.readable_len(), 4);
    read(&mut buf, b, &[1]);
    assert_eq!(buf.readable_len(), 3);
    assert_eq!(buf.writable_len(), 1);
    read(&mut buf, b, &[2, 3, 4]);
    assert_eq!(buf.readable_len(), 1);
    read(&mut buf, 0, &[4]);
    assert_eq!(buf.readable_len(), 0);
}

#[test]
fn dropping_the_slowest_source_unblocks_the_sink() {
    let mut buf = buffer::<u8>(4);
    let b = buf.clone_source(0).unwrap();
    write(&mut buf, &[1, 2, 3, 4]);
    read(&mut buf, 0, &[1, 2, 3, 4]);
    assert_eq!(buf.sink_poll_grant(1), Poll::Pending);
    buf.drop_source(b);
    assert!(!buf.is_live(b));
    assert_eq!(buf.sink_poll_grant(1), Poll::Ready(Ok(())));
    assert_eq!(buf.sink_view().len(), 4);
}

#[test]
fn dropping_every_source_closes_the_sink() {
    let mut buf = buffer::<u8>(4);
    let b = buf.clone_source(0).unwrap();
    buf.drop_source(0);
    assert!(buf.any_live());
    assert_eq!(buf.sink_poll_grant(1), Poll::Ready(Ok(())));
    buf.drop_source(b);
    assert!(!buf.any_live());
    assert_eq!(buf.sink_poll_grant(1), Poll::Ready(Err(Error::Closed)));
    assert_eq!(buf.sink_try_grant(1), Err(Error::Closed));
    assert_eq!(buf.sink_poll_grant(5), Poll::Ready(Err(Error::Overflow)));
    assert_eq!(buf.sink_view().len(), 0);
}

#[test]
fn dropped_source_is_closed_and_cannot_be_cloned() {
    let mut buf = buffer::<u8>(4);
    let b = buf.clone_source(0).unwrap();
    write(&mut buf, &[1]);
    buf.drop_source(b);
    assert_eq!(buf.source_poll_grant(b, 1), Poll::Ready(Err(Error::Closed)));
    assert_eq!(buf.source_view(b).len(), 0);
    assert_eq!(buf.clone_source(b), None);
    assert_eq!(buf.clone_source(7), None);
    assert_eq!(buf.source_poll_grant(7, 1), Poll::Ready(Err(Error::Closed)));
    assert_eq!(buf.sources(), 2);
    buf.drop_source(b);
    buf.drop_source(7);
    read(&mut buf, 0, &[1]);
}

#[test]
fn sources_drain_after_the_sink_is_dropped() {
    let mut buf = buffer::<u8>(4);
    let b = buf.clone_source(0).unwrap();
    write(&mut buf, &[1, 2]);
    read(&mut buf, 0, &[1]);
    buf.drop_sink();
    assert_eq!(buf.source_poll_grant(0, 5), Poll::Ready(Ok(())));
    assert_eq!(buf.source_view(0), &[2]);
    assert_eq!(buf.source_poll_grant(b, 4), Poll::Ready(Ok(())));
    assert_eq!(buf.source_view(b), &[1, 2]);
    buf.source_release(0, 1);
    assert_eq!(buf.source_poll_grant(0, 1), Poll::Ready(Err(Error::Closed)));
    buf.source_release(b, 2);
    assert_eq!(buf.source_try_grant(b, 1), Err(Error::Closed));
    assert_eq!(buf.sink_poll_grant(1), Poll::Ready(Err(Error::Closed)));
}

#[test]
fn broadcast_overflow() {
    let mut buf = buffer::<u8>(4);
    assert_eq!(buf.source_poll_grant(0, 5), Poll::Ready(Err(Error::Overflow)));
    assert_eq!(buf.source_try_grant(0, 5), Err(Error::Overflow));
    assert_eq!(buf.sink_try_grant(5), Err(Error::Overflow));
    assert_eq!(buf.source_try_grant(0, 4), Ok(false));
    assert_eq!(buf.sink_try_grant(4), Ok(true));
}

#[test]
fn broadcast_wraps_with_a_lagging_source() {
    let mut buf = buffer::<u8>(4);
    let b = buf.clone_source(0).unwrap();
    write(&mut buf, &[1, 2, 3]);
    read(&mut buf, 0, &[1, 2, 3]);
    read(&mut buf, b, &[1, 2]);
    write(&mut buf, &[4, 5, 6]);
    assert_eq!(buf.source_poll_grant(b, 4), Poll::Ready(Ok(())));
    assert_eq!(buf.source_view(b), &[3, 4, 5, 6]);
    assert_eq!(buf.source_poll_grant(0, 3), Poll::Ready(Ok(())));
    assert_eq!(buf.source_view(0), &[4, 5, 6]);
    assert_eq!(buf.sink_poll_grant(1), Poll::Pending);
}

#[test]
fn broadcast_ends_implement_view() {
    let mut buf = buffer::<u8>(4);
    let b = buf.clone_source(0).unwrap();
    {
        let mut sink = buf.sink();
        assert_eq!(sink.try_grant(2), Ok(true));
        sink.view_mut()[..2].copy_from_slice(&[7, 8]);
        sink.release(2);
        assert_eq!(sink.view().len(), 2);
    }
    {
        let mut first = buf.source(0);
        assert_eq!(first.poll_grant(2), Poll::Ready(Ok(())));
        assert_eq!(first.view(), &[7, 8]);
        first.release(2);
        assert_eq!(first.view().len(), 0);
    }
    let mut second = buf.source(b);
    assert_eq!(second.try_grant(3), Ok(false));
    assert_eq!(second.try_grant(1), Ok(true));
    assert_eq!(second.view(), &[7, 8]);
    second.release(1);
    assert_eq!(second.view(), &[8]);
}

#[test]
fn dropping_all_sources_at_once() {
    let mut buf = buffer::<u8>(4);
    let b = buf.clone_source(0).unwrap();
    write(&mut buf, &[1, 2]);
    assert_eq!(buf.source_poll_grant(b, 1), Poll::Ready(Ok(())));
    buf.drop_sources();
    assert!(!buf.is_live(0));
    assert!(!buf.is_live(b));
    assert_eq!(buf.sources(), 2);
    assert_eq!(buf.source_view(b).len(), 0);
    assert_eq!(buf.readable_len(), 2);
    assert_eq!(buf.sink_poll_grant(1), Poll::Ready(Err(Error::Closed)));
}

#[test]
fn clone_through_the_source_end() {
    let mut buf = buffer::<u8>(4);
    write(&mut buf, &[1, 2, 3]);
    read(&mut buf, 0, &[1]);
    let made = buf.source(0).clone();
    assert_eq!(made, Some(1));
    assert_eq!(buf.sources(), 2);
    assert_eq!(buf.source_view(1), &[2, 3]);
    assert_eq!(buf.source_view(0), &[2, 3]);
    assert_eq!(buf.readable_len(), 2);
    buf.drop_source(1);
    assert_eq!(buf.source(1).clone(), None);
    assert_eq!(buf.sources(), 2);
}

#[test]
fn clone_with_its_channel() {
    let mut buf = buffer::<u8>(4);
    let (first, _first_wake) = rivulet::buffer::notify::notifier();
    let mut triggers = vec![first];
    write(&mut buf, &[1, 2]);
    read(&mut buf, 0, &[1, 2]);
    let (b, mut wake) = buf.clone_source_notify(0, &mut triggers).unwrap();
    assert_eq!(b, 1);
    assert_eq!(triggers.len(), 2);
    assert_eq!(triggers[1].max_capacity(), 1);
    assert_eq!(buf.sources(), 2);
    assert_eq!(buf.readable_len(), 0);
    assert_eq!(buf.sink_poll_grant(2), Poll::Ready(Ok(())));
    buf.sink_view_mut()[..2].copy_from_slice(&[3, 4]);
    assert!(buf.sink_release_notify(2, &mut triggers));
    assert_eq!(wake.try_recv(), Ok(()));
    assert_eq!(buf.source_poll_grant_wake(b, 2, &mut wake), Poll::Ready(Ok(())));
    assert_eq!(buf.source_view(b), &[3, 4]);
    buf.drop_source(b);
    assert!(buf.clone_source_notify(b, &mut triggers).is_none());
    assert_eq!(triggers.len(), 2);
    assert_eq!(buf.sources(), 2);
}
