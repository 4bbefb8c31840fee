use jjp::transfer::{
    settle, Body, BodyEnd, HandleEvent, HandleStep, Handles, Receipt, RetryStep, SegmentRetry,
    SegmentStep, Settlement,
};
use jjp::JjPBuilder;

#[test]
fn complete_body() {
    let mut body = Body::new(100, 10);
    assert_eq!(body.place(), 100);
    assert_eq!(body.on_bytes(4), 4);
    assert_eq!(body.on_bytes(6), 6);
    assert!(matches!(body.on_end(), BodyEnd::Complete));
}

#[test]
fn short_body_is_taken_back() {
    let mut body = Body::new(0, 10);
    let mut reported = body.on_bytes(4) + body.on_bytes(5);
    match body.on_end() {
        BodyEnd::WrongLength(progress, text) => {
            reported += progress;
            assert_eq!(text, "download fail, expected length: 10, written length: 9");
        }
        BodyEnd::Complete => panic!("complete"),
    }
    assert_eq!(reported, 0);
}

#[test]
fn long_body_is_taken_back() {
    let mut body = Body::new(0, 3);
    body.on_bytes(4);
    match body.on_end() {
        BodyEnd::WrongLength(progress, text) => {
            assert_eq!(progress, -4);
            assert_eq!(text, "download fail, expected length: 3, written length: 4");
        }
        BodyEnd::Complete => panic!("complete"),
    }
}

#[test]
fn unknown_length_is_always_complete() {
    let mut body = Body::new(0, 0);
    assert!(matches!(body.on_end(), BodyEnd::Complete));
    body.on_bytes(123);
    assert!(matches!(body.on_end(), BodyEnd::Complete));
}

#[test]
fn broken_body_is_taken_back() {
    let mut body = Body::new(7, 10);
    assert_eq!(body.on_stream_error(), 0);
    body.on_bytes(4);
    body.on_bytes(2);
    assert!(body.is_revocable());
    assert_eq!(body.on_stream_error(), -6);
    let body = Body { start: 0, length: 0, written_len: 1 << (usize::BITS - 1) };
    assert!(!body.is_revocable());
}

#[test]
fn single_download_waits_longer_and_gives_up() {
    let jjp = JjPBuilder::new("http://a/b".to_string()).set_max_retries(13).build(None);
    let mut single = jjp.single_download(77);
    let body = single.body();
    assert_eq!((body.start, body.length, body.written_len), (0, 77, 0));
    let mut waits = Vec::new();
    loop {
        match single.on_failure() {
            RetryStep::Wait(millis) => waits.push(millis),
            RetryStep::GiveUp(text) => {
                assert_eq!(text, "single download retries: 13");
                break;
            }
        }
    }
    assert_eq!(waits, vec![0, 100, 200, 300, 400, 500, 600, 700, 800, 900, 1000, 1000, 1000]);
}

#[test]
fn no_retries_give_up_at_once() {
    let jjp = JjPBuilder::new("http://a/b".to_string()).set_max_retries(0).build(None);
    match jjp.single_download(0).on_failure() {
        RetryStep::GiveUp(text) => assert_eq!(text, "single download retries: 0"),
        RetryStep::Wait(_) => panic!("waits"),
    }
}

#[test]
fn segments_wait_or_fall_back() {
    let mut retry = SegmentRetry::new();
    assert!(retry.is_countable());
    assert_eq!(retry.on_failure(true), SegmentStep::Wait(100));
    assert_eq!(retry.on_failure(true), SegmentStep::Wait(200));
    assert_eq!(retry.on_failure(false), SegmentStep::FallBack);
    assert_eq!(retry.retries, 2);
    assert!(SegmentRetry { retries: 184467440737095515 }.is_countable());
    assert!(!SegmentRetry { retries: 184467440737095516 }.is_countable());
}

#[test]
fn last_handles_are_kept() {
    let mut handles: Handles<u32> = Handles::new(3);
    for h in 0..10 {
        assert!(matches!(handles.on_event(HandleEvent::Begun(h), false), HandleStep::GoOn));
    }
    assert!(matches!(handles.on_event(HandleEvent::Timeout, false), HandleStep::GoOn));
    match handles.on_event(HandleEvent::Timeout, true) {
        HandleStep::Abort(all) => assert_eq!(all, vec![7, 8, 9]),
        _ => panic!("goes on"),
    }
}

#[test]
fn new_handle_is_aborted_too() {
    let mut handles: Handles<u32> = Handles::new(2);
    handles.on_event(HandleEvent::Begun(1), false);
    handles.on_event(HandleEvent::Begun(2), false);
    match handles.on_event(HandleEvent::Begun(3), true) {
        HandleStep::Abort(all) => assert_eq!(all, vec![1, 2, 3]),
        _ => panic!("goes on"),
    }
}

#[test]
fn closing_aborts_nothing() {
    let mut handles: Handles<u32> = Handles::new(2);
    handles.on_event(HandleEvent::Begun(1), false);
    assert!(matches!(handles.on_event(HandleEvent::Closed, true), HandleStep::Stop));
    let mut handles: Handles<u32> = Handles::new(2);
    assert!(matches!(handles.on_event(HandleEvent::Closed, false), HandleStep::Stop));
}

#[test]
fn download_settles() {
    assert_eq!(settle(true, Receipt::Done), Settlement::FallBack);
    assert_eq!(settle(true, Receipt::Empty), Settlement::FallBack);
    assert_eq!(settle(false, Receipt::Done), Settlement::Finish);
    assert_eq!(settle(false, Receipt::Empty), Settlement::Wait(100));
    assert_eq!(settle(false, Receipt::Closed), Settlement::Again);
}
