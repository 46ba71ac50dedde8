use uring_ops::buf::BoundedBuf;
use uring_ops::op::{complete_read, complete_splice, cqe_result, CompletionRecord, IoError};
use uring_ops::reactor::{DispatchError, Phase, Reactor, SubmitError};
use uring_ops::sqe::Request;

const HELLO: &[u8] = b"hello world...";

fn record(tag: u64, result: i32) -> CompletionRecord {
    CompletionRecord { tag, result, flags: 0 }
}

#[test]
fn buffer_with_capacity_starts_empty() {
    let buf = BoundedBuf::with_capacity(14);
    assert_eq!(buf.bytes_total(), 14);
    assert_eq!(buf.bytes_init(), 0);
    assert_eq!(buf.to_vec(), Vec::<u8>::new());
    assert_eq!(buf.into_region(), vec![0u8; 14]);
}

#[test]
fn buffer_from_vec_is_initialized() {
    let buf = BoundedBuf::from_vec(HELLO.to_vec());
    assert_eq!(buf.bytes_total(), 14);
    assert_eq!(buf.bytes_init(), 14);
    assert_eq!(buf.to_vec(), HELLO.to_vec());
    assert_eq!(buf.into_region(), HELLO.to_vec());
}

#[test]
fn signed_result_meaning() {
    assert_eq!(cqe_result(14), Ok(14));
    assert_eq!(cqe_result(0), Ok(0));
    assert_eq!(cqe_result(-9), Err(IoError { errno: 9 }));
    assert_eq!(cqe_result(i32::MIN), Err(IoError { errno: 2147483648 }));
}

#[test]
fn full_read_marks_every_byte() {
    let (r, buf) = complete_read(BoundedBuf::with_capacity(14), 14);
    assert_eq!(r, Ok(14));
    assert_eq!(buf.bytes_init(), 14);
    assert_eq!(buf.bytes_total(), 14);
}

#[test]
fn short_read_marks_only_count() {
    let (r, buf) = complete_read(BoundedBuf::with_capacity(14), 5);
    assert_eq!(r, Ok(5));
    assert_eq!(buf.bytes_init(), 5);
    assert_eq!(buf.to_vec(), vec![0u8; 5]);
}

#[test]
fn empty_read_marks_nothing() {
    let (r, buf) = complete_read(BoundedBuf::with_capacity(14), 0);
    assert_eq!(r, Ok(0));
    assert_eq!(buf.bytes_init(), 0);
}

#[test]
fn read_never_shrinks_initialized_prefix() {
    let (r, buf) = complete_read(BoundedBuf::from_vec(HELLO.to_vec()), 3);
    assert_eq!(r, Ok(3));
    assert_eq!(buf.bytes_init(), 14);
    assert_eq!(buf.to_vec(), HELLO.to_vec());
}

#[test]
fn failed_read_keeps_buffer() {
    let (r, buf) = complete_read(BoundedBuf::with_capacity(14), -5);
    assert_eq!(r, Err(IoError { errno: 5 }));
    assert_eq!(buf.bytes_init(), 0);
    let (r, buf) = complete_read(BoundedBuf::from_vec(HELLO.to_vec()), -11);
    assert_eq!(r, Err(IoError { errno: 11 }));
    assert_eq!(buf.bytes_init(), 14);
    assert_eq!(buf.to_vec(), HELLO.to_vec());
}

#[test]
fn splice_completion_is_the_count() {
    assert_eq!(complete_splice(14), Ok(14));
    assert_eq!(complete_splice(0), Ok(0));
    assert_eq!(complete_splice(-32), Err(IoError { errno: 32 }));
}

#[test]
fn read_round_trip_through_reactor() {
    let mut r = Reactor::new(4);
    let fd = r.open_fd(7).unwrap();
    assert_eq!(r.raw_fd(&fd), Some(7));
    let tag = r.read_at(&fd, BoundedBuf::with_capacity(14), 0).unwrap();
    assert!(r.take_read(tag).is_none());
    // not flushed yet: the kernel cannot have completed it
    assert_eq!(r.complete(record(tag, 14)), Err(DispatchError::UnknownTag));
    let entries = r.flush();
    assert_eq!(entries.len(), 1);
    let shown = format!("{:?}", entries[0].entry);
    assert!(shown.contains("op_code: 22"));
    assert!(shown.contains(&format!("user_data: {}", tag)));
    assert_eq!(entries[0].request, Request::Read { fd: 7, len: 14, offset: 0, tag });
    assert_eq!(r.complete(record(tag, 14)), Ok(vec![]));
    let (res, buf) = r.take_read(tag).unwrap();
    assert_eq!(res, Ok(14));
    assert_eq!(buf.bytes_init(), 14);
    assert!(r.take_read(tag).is_none());
    assert_eq!(r.release_fd(fd), Ok(Some(7)));
}

#[test]
fn close_deferred_until_read_completes() {
    let mut r = Reactor::new(4);
    let fd = r.open_fd(9).unwrap();
    let tag = r.read_at(&fd, BoundedBuf::with_capacity(14), 0).unwrap();
    assert_eq!(r.flush().len(), 1);
    // last handle goes while the read is in flight: no close yet
    assert_eq!(r.release_fd(fd), Ok(None));
    // the read's completion is the moment the descriptor closes
    assert_eq!(r.complete(record(tag, 14)), Ok(vec![9]));
    let (res, buf) = r.take_read(tag).unwrap();
    assert_eq!(res, Ok(14));
    assert_eq!(buf.bytes_init(), 14);
}

#[test]
fn clone_keeps_descriptor_open() {
    let mut r = Reactor::new(2);
    let a = r.open_fd(3).unwrap();
    let b = r.clone_fd(&a).unwrap();
    assert_eq!(r.raw_fd(&b), Some(3));
    assert_eq!(r.release_fd(a), Ok(None));
    assert_eq!(r.raw_fd(&b), Some(3));
    let c = r.clone_fd(&b).unwrap();
    assert_eq!(r.release_fd(b), Ok(None));
    assert_eq!(r.release_fd(c), Ok(Some(3)));
}

#[test]
fn released_descriptor_is_refused() {
    let mut r = Reactor::new(2);
    let a = r.open_fd(3).unwrap();
    let b = r.clone_fd(&a).unwrap();
    assert_eq!(r.release_fd(a), Ok(None));
    assert_eq!(r.release_fd(b), Ok(Some(3)));
    let other = Reactor::new(1).open_fd(4);
    let stray = other.unwrap();
    assert_eq!(r.raw_fd(&stray), None);
    let mut empty = Reactor::new(1);
    assert_eq!(empty.raw_fd(&stray), None);
    assert_eq!(
        empty.read_at(&stray, BoundedBuf::with_capacity(1), 0),
        Err(SubmitError::BadDescriptor)
    );
    assert_eq!(empty.clone_fd(&stray).err(), Some(SubmitError::BadDescriptor));
    assert_eq!(empty.release_fd(stray), Err(SubmitError::BadDescriptor));
}

#[test]
fn negative_descriptor_is_refused() {
    let mut r = Reactor::new(1);
    assert_eq!(r.open_fd(-1).err(), Some(SubmitError::BadDescriptor));
}

#[test]
fn splice_pins_both_descriptors() {
    let mut r = Reactor::new(4);
    let file = r.open_fd(5).unwrap();
    let sock = r.open_fd(6).unwrap();
    let tag = r.splice(&file, 0, &sock, -1, HELLO.len() as u32).unwrap();
    let entries = r.flush();
    let shown = format!("{:?}", entries[0].entry);
    assert!(shown.contains("op_code: 30"));
    assert!(shown.contains(&format!("user_data: {}", tag)));
    assert_eq!(
        entries[0].request,
        Request::Splice { fd_in: 5, off_in: 0, fd_out: 6, off_out: -1, len: 14, tag }
    );
    assert_eq!(r.release_fd(file), Ok(None));
    assert_eq!(r.release_fd(sock), Ok(None));
    let closes = r.complete(record(tag, 14)).unwrap();
    assert_eq!(closes, vec![5, 6]);
    assert_eq!(r.take_splice(tag), Some(Ok(14)));
    assert_eq!(r.take_splice(tag), None);
}

#[test]
fn splice_of_zero_bytes() {
    let mut r = Reactor::new(1);
    let a = r.open_fd(5).unwrap();
    let tag = r.splice(&a, -1, &a, -1, 0).unwrap();
    r.flush();
    assert_eq!(r.release_fd(a), Ok(None));
    assert_eq!(r.complete(record(tag, 0)), Ok(vec![5]));
    assert_eq!(r.take_splice(tag), Some(Ok(0)));
}

#[test]
fn failed_read_through_reactor() {
    let mut r = Reactor::new(1);
    let fd = r.open_fd(5).unwrap();
    let tag = r.read_at(&fd, BoundedBuf::from_vec(vec![1, 2, 3]), 0).unwrap();
    r.flush();
    assert_eq!(r.complete(record(tag, -9)), Ok(vec![]));
    let (res, buf) = r.take_read(tag).unwrap();
    assert_eq!(res, Err(IoError { errno: 9 }));
    assert_eq!(buf.bytes_init(), 3);
    assert_eq!(buf.to_vec(), vec![1, 2, 3]);
}

#[test]
fn overrun_record_is_refused() {
    let mut r = Reactor::new(1);
    let fd = r.open_fd(5).unwrap();
    let tag = r.read_at(&fd, BoundedBuf::with_capacity(4), 0).unwrap();
    r.flush();
    assert_eq!(r.complete(record(tag, 5)), Err(DispatchError::Overrun));
    assert_eq!(r.complete(record(tag, 4)), Ok(vec![]));
}

#[test]
fn unknown_tag_is_refused() {
    let mut r = Reactor::new(2);
    assert_eq!(r.complete(record(0, 1)), Err(DispatchError::UnknownTag));
    assert_eq!(r.complete(record(7, 1)), Err(DispatchError::UnknownTag));
}

#[test]
fn tags_are_distinct_and_bounded() {
    let mut r = Reactor::new(2);
    let fd = r.open_fd(5).unwrap();
    let t1 = r.read_at(&fd, BoundedBuf::with_capacity(1), 0).unwrap();
    let t2 = r.read_at(&fd, BoundedBuf::with_capacity(1), 0).unwrap();
    assert_ne!(t1, t2);
    assert_eq!(
        r.read_at(&fd, BoundedBuf::with_capacity(1), 0),
        Err(SubmitError::QueueFull)
    );
    r.flush();
    assert_eq!(r.complete(record(t1, 1)), Ok(vec![]));
    // a completed result still holds its tag until taken
    assert_eq!(
        r.read_at(&fd, BoundedBuf::with_capacity(1), 0),
        Err(SubmitError::QueueFull)
    );
    assert!(r.take_read(t1).is_some());
    let t3 = r.read_at(&fd, BoundedBuf::with_capacity(1), 0).unwrap();
    assert_eq!(t3, t1);
    assert_ne!(t3, t2);
}

#[test]
fn cancelled_read_stays_until_its_record() {
    let mut r = Reactor::new(1);
    let fd = r.open_fd(8).unwrap();
    let tag = r.read_at(&fd, BoundedBuf::with_capacity(4), 0).unwrap();
    r.flush();
    assert!(r.cancel(tag));
    assert_eq!(r.release_fd(fd), Ok(None));
    // the tag is still held while the kernel may use the buffer
    let fd2 = r.open_fd(10).unwrap();
    assert_eq!(
        r.read_at(&fd2, BoundedBuf::with_capacity(4), 0),
        Err(SubmitError::QueueFull)
    );
    assert_eq!(r.complete(record(tag, 4)), Ok(vec![8]));
    // the stale result was dropped and the tag is free again
    assert!(r.take_read(tag).is_none());
    assert!(!r.cancel(tag));
    assert!(r.read_at(&fd2, BoundedBuf::with_capacity(4), 0).is_ok());
}

#[test]
fn cancelling_completed_read_discards_it() {
    let mut r = Reactor::new(1);
    let fd = r.open_fd(8).unwrap();
    let tag = r.read_at(&fd, BoundedBuf::with_capacity(4), 0).unwrap();
    r.flush();
    assert_eq!(r.complete(record(tag, 2)), Ok(vec![]));
    assert!(r.cancel(tag));
    assert!(r.take_read(tag).is_none());
}

#[test]
fn shutdown_waits_for_every_operation() {
    let mut r = Reactor::new(2);
    let fd = r.open_fd(5).unwrap();
    let tag = r.read_at(&fd, BoundedBuf::with_capacity(4), 0).unwrap();
    assert!(!r.shutdown());
    assert_eq!(
        r.read_at(&fd, BoundedBuf::with_capacity(4), 0),
        Err(SubmitError::ShuttingDown)
    );
    assert_eq!(r.flush().len(), 1);
    assert!(!r.shutdown());
    assert_eq!(r.complete(record(tag, 4)), Ok(vec![]));
    assert!(r.shutdown());
    assert!(r.take_read(tag).is_some());
    assert!(r.shutdown());
}

#[test]
fn empty_reactor_shuts_down_at_once() {
    let mut r = Reactor::new(0);
    let fd = r.open_fd(1).unwrap();
    assert_eq!(
        r.read_at(&fd, BoundedBuf::with_capacity(1), 0),
        Err(SubmitError::QueueFull)
    );
    assert!(r.shutdown());
}

#[test]
fn lifecycle_phases_in_order() {
    let mut r = Reactor::new(2);
    let fd = r.open_fd(5).unwrap();
    assert_eq!(r.phase(0), Phase::Reaped);
    let tag = r.read_at(&fd, BoundedBuf::with_capacity(8), 0).unwrap();
    assert_eq!(r.phase(tag), Phase::Registered);
    r.flush();
    assert_eq!(r.phase(tag), Phase::Submitted);
    assert_eq!(r.complete(record(tag, 8)), Ok(vec![]));
    assert_eq!(r.phase(tag), Phase::Completed);
    // a second record for the same tag is stale
    assert_eq!(r.complete(record(tag, 8)), Err(DispatchError::UnknownTag));
    assert!(r.take_read(tag).is_some());
    assert_eq!(r.phase(tag), Phase::Reaped);
    assert_eq!(r.phase(99), Phase::Reaped);
}

#[test]
fn take_of_wrong_kind_is_none() {
    let mut r = Reactor::new(2);
    let fd = r.open_fd(5).unwrap();
    let tag = r.read_at(&fd, BoundedBuf::with_capacity(8), 0).unwrap();
    r.flush();
    assert_eq!(r.complete(record(tag, 3)), Ok(vec![]));
    assert_eq!(r.take_splice(tag), None);
    assert_eq!(r.phase(tag), Phase::Completed);
    let (res, buf) = r.take_read(tag).unwrap();
    assert_eq!(res, Ok(3));
    assert_eq!(buf.bytes_init(), 3);
}

#[test]
fn large_splice_count_is_reported_whole() {
    let mut r = Reactor::new(1);
    let a = r.open_fd(3).unwrap();
    let b = r.open_fd(4).unwrap();
    let tag = r.splice(&a, -1, &b, -1, 1 << 20).unwrap();
    r.flush();
    assert_eq!(r.complete(record(tag, 1 << 20)), Ok(vec![]));
    assert_eq!(r.take_splice(tag), Some(Ok(1 << 20)));
    assert_eq!(r.release_fd(a), Ok(Some(3)));
    assert_eq!(r.release_fd(b), Ok(Some(4)));
}

#[test]
fn splice_error_is_returned() {
    let mut r = Reactor::new(1);
    let a = r.open_fd(3).unwrap();
    let tag = r.splice(&a, 0, &a, -1, 14).unwrap();
    r.flush();
    assert_eq!(r.complete(record(tag, -22)), Ok(vec![]));
    assert_eq!(r.take_splice(tag), Some(Err(IoError { errno: 22 })));
}

#[test]
fn flush_keeps_submission_order() {
    let mut r = Reactor::new(4);
    let a = r.open_fd(3).unwrap();
    let b = r.open_fd(4).unwrap();
    let t1 = r.read_at(&b, BoundedBuf::with_capacity(8), 16).unwrap();
    let t2 = r.splice(&a, -1, &b, 100, 9).unwrap();
    let t3 = r.read_at(&a, BoundedBuf::with_capacity(2), 0).unwrap();
    let entries = r.flush();
    let requests: Vec<Request> = entries.iter().map(|s| s.request).collect();
    assert_eq!(
        requests,
        vec![
            Request::Read { fd: 4, len: 8, offset: 16, tag: t1 },
            Request::Splice { fd_in: 3, off_in: -1, fd_out: 4, off_out: 100, len: 9, tag: t2 },
            Request::Read { fd: 3, len: 2, offset: 0, tag: t3 },
        ]
    );
    for (s, t) in entries.iter().zip([t1, t2, t3]) {
        assert!(format!("{:?}", s.entry).contains(&format!("user_data: {}", t)));
    }
    assert!(r.flush().is_empty());
}

#[test]
fn splice_count_beyond_length_is_refused() {
    let mut r = Reactor::new(1);
    let a = r.open_fd(3).unwrap();
    let tag = r.splice(&a, -1, &a, -1, 0).unwrap();
    r.flush();
    assert_eq!(r.complete(record(tag, 1)), Err(DispatchError::Overrun));
    assert_eq!(r.phase(tag), Phase::Submitted);
    assert_eq!(r.complete(record(tag, 0)), Ok(vec![]));
    assert_eq!(r.take_splice(tag), Some(Ok(0)));
}
