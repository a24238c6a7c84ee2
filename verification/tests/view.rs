use rivulet::error::Error;
use rivulet::buffer::spsc::buffer;
use rivulet::stream::{Sink, Source};
use rivulet::view::{at_once, map_error, Grant, MapError, Poll, View, ViewMut};

#[test]
fn at_once_turns_waiting_into_false() {
    assert_eq!(at_once::<Error>(Poll::Ready(Ok(()))), Ok(true));
    assert_eq!(at_once::<Error>(Poll::Pending), Ok(false));
    assert_eq!(at_once(Poll::Ready(Err(Error::Closed))), Err(Error::Closed));
    assert_eq!(at_once(Poll::Ready(Err(Error::Overflow))), Err(Error::Overflow));
}

#[test]
fn grant_asks_its_view() {
    let mut buf = buffer::<u8>(4);
    {
        let mut sink = buf.sink();
        let mut request = sink.grant(2);
        assert_eq!(request.count, 2);
        assert_eq!(request.poll(), Poll::Ready(Ok(())));
        sink.view_mut()[..2].copy_from_slice(&[4, 5]);
        sink.release(2);
    }
    let mut source = buf.source();
    let mut request = Grant::new(&mut source, 3);
    assert_eq!(request.poll(), Poll::Pending);
    assert_eq!(request.poll(), Poll::Pending);
    let mut request = source.grant(2);
    assert_eq!(request.poll(), Poll::Ready(Ok(())));
    assert_eq!(source.view(), &[4, 5]);
    assert_eq!(source.grant(5).poll(), Poll::Ready(Err(Error::Overflow)));
}

#[test]
fn map_error_maps_errors_only() {
    let mut buf = buffer::<u8>(4);
    let mut sink = map_error(buf.sink(), |e: Error| e.message());
    assert_eq!(sink.view().len(), 0);
    assert_eq!(sink.try_grant(5), Err(String::from("buffer overflow")));
    assert_eq!(sink.poll_grant(5), Poll::Ready(Err(String::from("buffer overflow"))));
    assert_eq!(sink.try_grant(3), Ok(true));
    assert_eq!(sink.poll_grant(3), Poll::Ready(Ok(())));
    sink.view_mut()[..3].copy_from_slice(&[1, 2, 3]);
    sink.release(3);
    assert_eq!(sink.view().len(), 1);
    assert_eq!(sink.try_grant(2), Ok(false));
    assert_eq!(sink.poll_grant(2), Poll::Pending);
    let mut sink = sink.into_inner();
    assert_eq!(sink.try_grant(2), Ok(false));
    drop(sink);
    buf.drop_sink();
    let mut source = MapError::new(buf.source(), |e: Error| e == Error::Closed);
    assert_eq!(source.try_grant(4), Ok(true));
    assert_eq!(source.view(), &[1, 2, 3]);
    source.release(3);
    assert_eq!(source.try_grant(1), Err(true));
    assert_eq!(source.poll_grant(1), Poll::Ready(Err(true)));
}

#[test]
fn views_are_sinks_and_sources() {
    let mut buf = buffer::<u8>(4);
    {
        let mut sink = buf.sink();
        assert_eq!(sink.poll_reserve(5), Poll::Ready(Err(Error::Overflow)));
        assert_eq!(sink.poll_reserve(2), Poll::Ready(Ok(())));
        assert_eq!(sink.sink().len(), 4);
        sink.sink()[..2].copy_from_slice(&[6, 7]);
        assert_eq!(sink.poll_commit(5), Poll::Ready(Err(Error::Overflow)));
        assert_eq!(sink.sink().len(), 4);
        assert_eq!(sink.poll_commit(2), Poll::Ready(Ok(())));
        assert_eq!(sink.sink().len(), 2);
        assert_eq!(sink.reserve(3).poll(), Poll::Pending);
        assert_eq!(sink.commit(1).poll(), Poll::Ready(Ok(())));
        assert_eq!(sink.commit(2).poll(), Poll::Ready(Err(Error::Overflow)));
    }
    let mut source = buf.source();
    assert_eq!(source.poll_request(4), Poll::Pending);
    assert_eq!(source.source().len(), 0);
    assert_eq!(source.poll_request(2), Poll::Ready(Ok(())));
    assert_eq!(source.source().len(), 3);
    assert_eq!(&source.source()[..2], &[6, 7]);
    assert_eq!(source.poll_consume(4), Poll::Ready(Err(Error::Overflow)));
    assert_eq!(source.poll_consume(1), Poll::Ready(Ok(())));
    assert_eq!(&source.source()[..1], &[7]);
    assert_eq!(source.request(2).poll(), Poll::Ready(Ok(())));
    assert_eq!(source.consume(2).poll(), Poll::Ready(Ok(())));
    assert_eq!(source.consume(1).poll(), Poll::Ready(Err(Error::Overflow)));
    assert_eq!(source.source().len(), 0);
}

#[test]
fn sink_end_is_a_sink_and_source_end_a_source() {
    fn reserve_through<S: Sink>(sink: &mut S, count: usize) -> Poll<Result<(), Error>> {
        sink.poll_reserve(count)
    }
    fn request_through<S: Source>(source: &mut S, count: usize) -> Poll<Result<(), Error>> {
        source.poll_request(count)
    }
    let mut buf = buffer::<u8>(4);
    let mut end = buf.sink();
    assert_eq!(reserve_through(&mut end, 1), Poll::Ready(Ok(())));
    end.view_mut()[0] = 9;
    assert_eq!(end.view()[0], 9);
    end.release(1);
    let mut end = buf.source();
    assert_eq!(request_through(&mut end, 2), Poll::Pending);
    assert_eq!(request_through(&mut end, 1), Poll::Ready(Ok(())));
    assert_eq!(end.view(), &[9]);
}

#[test]
fn errors_clone_to_equal_errors() {
    assert_eq!(Error::Closed.clone(), Error::Closed);
    assert_eq!(Error::Overflow.clone(), Error::Overflow);
    let other = Error::Other(String::from("worn out"));
    assert_eq!(other.clone(), other);
    assert_ne!(other, Error::Other(String::from("torn")));
    assert_ne!(other, Error::Closed);
}
