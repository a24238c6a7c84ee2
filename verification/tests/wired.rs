use rivulet::error::Error;
use rivulet::buffer::notify::{notifier, Signal, Wake};
use rivulet::view::Poll;

#[test]
fn spsc_release_wakes_the_source() {
    let mut buf = rivulet::buffer::spsc::buffer::<u8>(4);
    let (to_source, mut source_wake) = notifier();
    assert_eq!(buf.source_poll_grant_wake(1, &mut source_wake), Poll::Pending);
    assert_eq!(buf.sink_poll_grant(2), Poll::Ready(Ok(())));
    buf.sink_view_mut()[..2].copy_from_slice(&[1, 2]);
    assert!(buf.sink_release_notify(2, &to_source));
    assert_eq!(source_wake.try_recv(), Ok(()));
    assert_eq!(buf.source_poll_grant_wake(2, &mut source_wake), Poll::Ready(Ok(())));
    assert_eq!(buf.source_view(), &[1, 2]);
}

#[test]
fn spsc_source_release_wakes_the_sink() {
    let mut buf = rivulet::buffer::spsc::buffer::<u8>(4);
    let (to_sink, mut sink_wake) = notifier();
    assert_eq!(buf.sink_poll_grant_wake(4, &mut sink_wake), Poll::Ready(Ok(())));
    buf.sink_release(4);
    assert_eq!(buf.sink_poll_grant_wake(1, &mut sink_wake), Poll::Pending);
    assert_eq!(buf.source_poll_grant(4), Poll::Ready(Ok(())));
    buf.source_release_notify(3, &to_sink);
    assert_eq!(sink_wake.try_recv(), Ok(()));
    assert_eq!(buf.sink_poll_grant_wake(3, &mut sink_wake), Poll::Ready(Ok(())));
    assert_eq!(buf.readable_len(), 1);
}

#[test]
fn spsc_end_of_stream_through_the_channel() {
    let mut buf = rivulet::buffer::spsc::buffer::<u8>(4);
    let (to_source, mut source_wake) = notifier();
    assert_eq!(buf.sink_poll_grant(2), Poll::Ready(Ok(())));
    buf.sink_view_mut()[..2].copy_from_slice(&[1, 2]);
    assert!(buf.sink_release_notify(2, &to_source));
    drop(to_source);
    assert_eq!(buf.source_poll_grant_wake(5, &mut source_wake), Poll::Ready(Err(Error::Overflow)));
    assert_eq!(buf.source_poll_grant_wake(5, &mut source_wake), Poll::Ready(Ok(())));
    assert_eq!(buf.source_view(), &[1, 2]);
    buf.source_release(2);
    assert_eq!(buf.source_poll_grant_wake(5, &mut source_wake), Poll::Ready(Err(Error::Closed)));
    assert_eq!(buf.source_view().len(), 0);
}

#[test]
fn spsc_dropped_source_is_found_at_release() {
    let mut buf = rivulet::buffer::spsc::buffer::<u8>(4);
    let (to_source, source_wake) = notifier();
    assert_eq!(buf.sink_poll_grant(2), Poll::Ready(Ok(())));
    drop(source_wake);
    assert!(!buf.sink_release_notify(1, &to_source));
    assert_eq!(buf.readable_len(), 1);
    assert_eq!(buf.sink_poll_grant(1), Poll::Ready(Err(Error::Closed)));
}

#[test]
fn spsc_dropped_source_is_found_at_grant() {
    let mut buf = rivulet::buffer::spsc::buffer::<u8>(4);
    let (to_sink, mut sink_wake) = notifier();
    assert_eq!(buf.sink_poll_grant_wake(1, &mut sink_wake), Poll::Ready(Ok(())));
    drop(to_sink);
    assert_eq!(buf.sink_poll_grant_wake(1, &mut sink_wake), Poll::Ready(Err(Error::Closed)));
    assert_eq!(buf.sink_view().len(), 0);
}

#[test]
fn spsc_operations_on_given_outcomes() {
    let mut buf = rivulet::buffer::spsc::buffer::<u8>(4);
    assert_eq!(buf.sink_poll_grant_on(2, Wake::Idle), Poll::Ready(Ok(())));
    assert!(buf.sink_release_on(1, Signal::Sent));
    assert!(buf.sink_release_on(1, Signal::Coalesced));
    assert_eq!(buf.source_poll_grant_on(3, Wake::Signalled), Poll::Pending);
    assert_eq!(buf.source_poll_grant_on(3, Wake::Closed), Poll::Ready(Ok(())));
    assert_eq!(buf.source_view().len(), 2);
    assert_eq!(buf.sink_poll_grant_on(1, Wake::Idle), Poll::Ready(Err(Error::Closed)));
    let mut other = rivulet::buffer::spsc::buffer::<u8>(4);
    assert_eq!(other.sink_poll_grant_on(2, Wake::Signalled), Poll::Ready(Ok(())));
    assert!(!other.sink_release_on(2, Signal::Closed));
    assert_eq!(other.sink_poll_grant_on(1, Wake::Idle), Poll::Ready(Err(Error::Closed)));
    assert_eq!(other.source_poll_grant_on(1, Wake::Idle), Poll::Ready(Err(Error::Closed)));
}

#[test]
fn spmc_release_wakes_every_source() {
    let mut buf = rivulet::buffer::spmc::buffer::<u8>(4);
    let b = buf.clone_source(0).unwrap();
    let (first, mut first_wake) = notifier();
    let (second, mut second_wake) = notifier();
    let mut triggers = vec![first, second];
    assert_eq!(buf.sink_poll_grant(2), Poll::Ready(Ok(())));
    buf.sink_view_mut()[..2].copy_from_slice(&[1, 2]);
    assert!(buf.sink_release_notify(2, &mut triggers));
    assert_eq!(triggers.len(), 2);
    assert_eq!(first_wake.try_recv(), Ok(()));
    assert_eq!(buf.source_poll_grant_wake(0, 2, &mut first_wake), Poll::Ready(Ok(())));
    assert_eq!(buf.source_poll_grant_wake(b, 2, &mut second_wake), Poll::Ready(Ok(())));
    assert_eq!(buf.source_view(b), &[1, 2]);
}

#[test]
fn spmc_sink_closes_when_no_receiver_is_left() {
    let mut buf = rivulet::buffer::spmc::buffer::<u8>(4);
    let b = buf.clone_source(0).unwrap();
    let (first, first_wake) = notifier();
    let (second, second_wake) = notifier();
    let mut triggers = vec![first, second];
    assert_eq!(buf.sink_poll_grant(3), Poll::Ready(Ok(())));
    drop(first_wake);
    buf.drop_source(0);
    assert!(buf.sink_release_notify(1, &mut triggers));
    assert_eq!(triggers.len(), 1);
    assert!(buf.is_live(b));
    drop(second_wake);
    assert!(!buf.sink_release_notify(1, &mut triggers));
    assert!(triggers.is_empty());
    assert!(!buf.is_live(b));
    assert!(!buf.any_live());
    assert_eq!(buf.sink_poll_grant(1), Poll::Ready(Err(Error::Closed)));
}

#[test]
fn spmc_sources_drain_through_the_channel() {
    let mut buf = rivulet::buffer::spmc::buffer::<u8>(4);
    let (to_sink, mut sink_wake) = notifier();
    let (to_source, mut source_wake) = notifier();
    assert_eq!(buf.sink_poll_grant_wake(1, &mut sink_wake), Poll::Ready(Ok(())));
    buf.sink_view_mut()[..1].copy_from_slice(&[9]);
    buf.sink_release(1);
    drop(to_source);
    assert_eq!(buf.source_poll_grant_wake(0, 4, &mut source_wake), Poll::Ready(Ok(())));
    assert_eq!(buf.source_view(0), &[9]);
    buf.source_release_notify(0, 1, &to_sink);
    assert_eq!(sink_wake.try_recv(), Ok(()));
    assert_eq!(buf.source_poll_grant_wake(0, 1, &mut source_wake), Poll::Ready(Err(Error::Closed)));
    drop(to_sink);
    assert_eq!(buf.sink_poll_grant_wake(1, &mut sink_wake), Poll::Ready(Err(Error::Closed)));
}

#[test]
fn spmc_operations_on_given_outcomes() {
    let mut buf = rivulet::buffer::spmc::buffer::<u8>(4);
    assert_eq!(buf.sink_poll_grant_on(2, Wake::Idle), Poll::Ready(Ok(())));
    assert!(buf.sink_release_on(2, true));
    assert_eq!(buf.source_poll_grant_on(0, 3, Wake::Idle), Poll::Pending);
    assert_eq!(buf.source_poll_grant_on(0, 3, Wake::Closed), Poll::Ready(Ok(())));
    assert_eq!(buf.source_view(0).len(), 2);
    let mut other = rivulet::buffer::spmc::buffer::<u8>(4);
    assert_eq!(other.sink_poll_grant_on(2, Wake::Signalled), Poll::Ready(Ok(())));
    assert!(!other.sink_release_on(2, false));
    assert!(!other.any_live());
    let mut third = rivulet::buffer::spmc::buffer::<u8>(4);
    assert_eq!(third.sink_poll_grant_on(2, Wake::Closed), Poll::Ready(Err(Error::Closed)));
    assert!(!third.is_live(0));
}
