use keyless_mux::frame::{parse_response, Parsed, Request, Response, ResponseFailure};
use keyless_mux::session::{Polled, Session, SessionError, Submitted, WriterAction, DEFAULT_QUEUE_CAPACITY};

fn request(body: &[u8]) -> Request {
    Request::new(body.to_vec()).unwrap()
}

/// Runs the writer until it has nothing left to write, returning the frames
/// it wrote and the last action it asked for.
fn drain_writer(s: &mut Session, now: u64) -> (Vec<Vec<u8>>, WriterAction, Vec<u64>) {
    let mut frames = Vec::new();
    let mut woken = Vec::new();
    loop {
        let step = s.writer_poll(now);
        woken.extend(step.wake.iter().copied());
        match step.action {
            WriterAction::Write => {
                let rest = s.frame()[s.offset()..].to_vec();
                s.writer_wrote(rest.len());
                if s.offset() == s.frame().len() {
                    frames.push(s.frame().clone());
                }
            }
            other => return (frames, other, woken),
        }
    }
}

fn queued_id(r: Submitted) -> u32 {
    match r {
        Submitted::Queued { id, .. } => id,
        _ => panic!("request was not queued"),
    }
}

fn response(id: u32, body: &[u8]) -> Response {
    Response { id, payload: body.to_vec() }
}

#[test]
fn responses_out_of_order_reach_their_callers() {
    let mut s = Session::new(DEFAULT_QUEUE_CAPACITY);
    s.publish_writer(1);
    let id1 = queued_id(s.submit(request(b"r1"), 11));
    let id2 = queued_id(s.submit(request(b"r2"), 12));
    let id3 = queued_id(s.submit(request(b"r3"), 13));
    assert_eq!((id1, id2, id3), (0, 1, 2));
    let (frames, action, _) = drain_writer(&mut s, 5);
    assert_eq!(frames.len(), 3);
    assert!(matches!(action, WriterAction::Flush));
    s.writer_flushed();
    for id in [id1, id2, id3] {
        assert!(matches!(s.poll_response(id, 20 + id as u64), Polled::Pending));
    }
    assert_eq!(s.deliver(response(id2, b"a2")), Some(21));
    assert_eq!(s.deliver(response(id1, b"a1")), Some(20));
    assert_eq!(s.deliver(response(id3, b"a3")), Some(22));
    for (id, body) in [(id1, b"a1"), (id2, b"a2"), (id3, b"a3")] {
        match s.poll_response(id, 0) {
            Polled::Ready(Some(r)) => {
                assert_eq!(r.id, id);
                assert_eq!(r.payload, body.to_vec());
            }
            _ => panic!("response missing"),
        }
    }
    assert!(s.table_is_empty());
}

#[test]
fn submission_wakes_published_writer() {
    let mut s = Session::new(4);
    assert_eq!(s.writer_token(), None);
    match s.submit(request(b"early"), 7) {
        Submitted::Queued { id, wake_writer } => {
            assert_eq!(id, 0);
            assert_eq!(wake_writer, None);
        }
        _ => panic!("not queued"),
    }
    s.publish_writer(99);
    assert_eq!(s.writer_token(), Some(99));
    match s.submit(request(b"later"), 8) {
        Submitted::Queued { wake_writer, .. } => assert_eq!(wake_writer, Some(99)),
        _ => panic!("not queued"),
    }
    let (frames, _, _) = drain_writer(&mut s, 0);
    assert_eq!(frames.len(), 2);
}

#[test]
fn full_queue_hands_request_back_until_writer_takes_one() {
    let mut s = Session::new(2);
    s.publish_writer(1);
    queued_id(s.submit(request(b"a"), 11));
    queued_id(s.submit(request(b"b"), 12));
    let third = match s.submit(request(b"c"), 13) {
        Submitted::Full(req) => req,
        _ => panic!("queue should be full"),
    };
    assert_eq!(third.payload, b"c".to_vec());
    let step = s.writer_poll(0);
    assert!(matches!(step.action, WriterAction::Write));
    assert_eq!(step.wake, vec![13]);
    assert_eq!(queued_id(s.submit(third, 13)), 2);
}

#[test]
fn silent_peer_times_out_with_empty_error_slot() {
    let mut s = Session::new(DEFAULT_QUEUE_CAPACITY);
    s.publish_writer(1);
    let id = queued_id(s.submit(request(b"x"), 5));
    drain_writer(&mut s, 0);
    assert!(matches!(s.poll_response(id, 5), Polled::Pending));
    assert!(s.evict_expired(100, 100).is_empty());
    assert!(!s.table_is_empty());
    assert_eq!(s.evict_expired(200, 100), vec![5]);
    assert!(matches!(s.poll_response(id, 5), Polled::Ready(None)));
    assert!(s.table_is_empty());
    assert_eq!(*s.fetch_error(), None);
}

#[test]
fn write_failure_after_partial_write_is_fatal() {
    let mut s = Session::new(DEFAULT_QUEUE_CAPACITY);
    s.publish_writer(1);
    let id = queued_id(s.submit(request(b"payload"), 5));
    assert!(matches!(s.writer_poll(0).action, WriterAction::Write));
    s.writer_wrote(3);
    assert_eq!(s.offset(), 3);
    let woken = s.writer_failed("broken pipe".to_string());
    assert_eq!(woken, vec![5]);
    assert!(s.is_closed());
    assert!(matches!(s.poll_response(id, 5), Polled::Ready(None)));
    assert!(matches!(s.submit(request(b"after"), 6), Submitted::Closed));
    assert_eq!(*s.fetch_error(), Some(SessionError::WriteFailed("broken pipe".to_string())));
}

#[test]
fn malformed_response_is_fatal() {
    let mut s = Session::new(DEFAULT_QUEUE_CAPACITY);
    s.publish_writer(1);
    let id = queued_id(s.submit(request(b"q"), 5));
    drain_writer(&mut s, 0);
    let bad = vec![9u8, 0, 0, 0, 0, 0, 0, 0];
    assert!(matches!(parse_response(&bad), Parsed::Malformed));
    let mut woken = s.reader_failed(ResponseFailure::Malformed);
    woken.sort();
    assert_eq!(woken, vec![1, 5]);
    assert!(matches!(s.poll_response(id, 5), Polled::Ready(None)));
    assert!(matches!(s.submit(request(b"after"), 6), Submitted::Closed));
    assert_eq!(*s.fetch_error(), Some(SessionError::ResponseFailed(ResponseFailure::Malformed)));
    assert_eq!(s.writer_token(), None);
}

#[test]
fn response_after_close_is_still_delivered() {
    let mut s = Session::new(DEFAULT_QUEUE_CAPACITY);
    s.publish_writer(1);
    let id = queued_id(s.submit(request(b"q"), 5));
    drain_writer(&mut s, 0);
    assert_eq!(s.close(), vec![1]);
    assert!(s.is_closed());
    assert_eq!(s.deliver(response(id, b"late")), Some(5));
    match s.poll_response(id, 5) {
        Polled::Ready(Some(r)) => assert_eq!(r.payload, b"late".to_vec()),
        _ => panic!("response lost"),
    }
    let (_, action, _) = drain_writer(&mut s, 50);
    assert!(matches!(action, WriterAction::Shutdown));
}

#[test]
fn queued_requests_are_written_before_shutdown() {
    let mut s = Session::new(DEFAULT_QUEUE_CAPACITY);
    s.publish_writer(1);
    queued_id(s.submit(request(b"q"), 5));
    s.close();
    let (frames, action, _) = drain_writer(&mut s, 0);
    assert_eq!(frames.len(), 1);
    assert!(matches!(action, WriterAction::Shutdown));
}

#[test]
fn abandoned_request_does_not_block_others() {
    let mut s = Session::new(DEFAULT_QUEUE_CAPACITY);
    s.publish_writer(1);
    let old = queued_id(s.submit(request(b"old"), 5));
    drain_writer(&mut s, 0);
    let fresh = queued_id(s.submit(request(b"new"), 6));
    drain_writer(&mut s, 150);
    assert_eq!(s.evict_expired(200, 100), vec![5]);
    assert_eq!(s.deliver(response(old, b"too late")), None);
    assert_eq!(s.deliver(response(fresh, b"ok")), Some(6));
    assert!(matches!(s.poll_response(fresh, 6), Polled::Ready(Some(_))));
}

#[test]
fn duplicate_response_is_dropped() {
    let mut s = Session::new(DEFAULT_QUEUE_CAPACITY);
    s.publish_writer(1);
    let id = queued_id(s.submit(request(b"q"), 5));
    drain_writer(&mut s, 0);
    assert_eq!(s.deliver(response(id, b"first")), Some(5));
    assert_eq!(s.deliver(response(id, b"second")), None);
    match s.poll_response(id, 5) {
        Polled::Ready(Some(r)) => assert_eq!(r.payload, b"first".to_vec()),
        _ => panic!("response lost"),
    }
    assert_eq!(s.deliver(response(77, b"stray")), None);
}

#[test]
fn poll_while_queued_is_pending() {
    let mut s = Session::new(DEFAULT_QUEUE_CAPACITY);
    let id = queued_id(s.submit(request(b"q"), 5));
    assert!(matches!(s.poll_response(id, 5), Polled::Pending));
    assert!(matches!(s.poll_response(id + 1, 5), Polled::Ready(None)));
}

#[test]
fn closed_session_mints_no_ids() {
    let mut s = Session::new(DEFAULT_QUEUE_CAPACITY);
    s.close();
    assert!(matches!(s.submit(request(b"q"), 5), Submitted::Closed));
    s.publish_writer(1);
    let (_, action, _) = drain_writer(&mut s, 0);
    assert!(matches!(action, WriterAction::Shutdown));
}

#[test]
fn first_failure_wins() {
    let mut s = Session::new(DEFAULT_QUEUE_CAPACITY);
    s.reader_failed(ResponseFailure::Closed);
    s.writer_failed("late".to_string());
    assert_eq!(*s.fetch_error(), Some(SessionError::ResponseFailed(ResponseFailure::Closed)));
}

#[test]
fn idle_writer_flushes_once() {
    let mut s = Session::new(DEFAULT_QUEUE_CAPACITY);
    assert!(matches!(s.writer_poll(0).action, WriterAction::Idle));
    queued_id(s.submit(request(b"q"), 5));
    let (_, action, _) = drain_writer(&mut s, 0);
    assert!(matches!(action, WriterAction::Flush));
    s.writer_flushed();
    assert!(matches!(s.writer_poll(0).action, WriterAction::Idle));
}

#[test]
fn many_submitters_against_small_queue_all_resolve() {
    let capacity: usize = 3;
    let callers: u64 = 30;
    let mut s = Session::new(capacity);
    s.publish_writer(0);
    let mut waiting: Vec<(u64, Request)> = (1..=callers).map(|c| (c, request(&c.to_be_bytes()))).collect();
    let mut ids: Vec<(u64, u32)> = Vec::new();
    let mut answered = 0;
    while answered < callers {
        let mut still = Vec::new();
        for (c, req) in waiting {
            match s.submit(req, c) {
                Submitted::Queued { id, .. } => ids.push((c, id)),
                Submitted::Full(req) => still.push((c, req)),
                Submitted::Closed => panic!("closed"),
            }
        }
        waiting = still;
        let (frames, _, _) = drain_writer(&mut s, 0);
        for f in frames {
            let id = u32::from_be_bytes([f[4], f[5], f[6], f[7]]);
            assert!(s.deliver(Response { id, payload: f[8..].to_vec() }).is_some());
        }
        for &(c, id) in &ids {
            if let Polled::Ready(Some(r)) = s.poll_response(id, c) {
                assert_eq!(r.id, id);
                assert_eq!(r.payload, c.to_be_bytes().to_vec());
                answered += 1;
            }
        }
    }
    assert!(waiting.is_empty());
    assert!(s.table_is_empty());
}
