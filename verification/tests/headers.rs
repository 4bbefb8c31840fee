use jjp::download::{with_range, Segment, SegmentError};
use jjp::headers::range_total;
use jjp::text::NumberError;
use jjp::utils::{prepare, try_prepare, PrepareError};
use jjp::{JjP, JjPBuilder};
use reqwest::header::{HeaderMap, HeaderName, HeaderValue, CONTENT_RANGE, RANGE, USER_AGENT};

fn answer(content_range: &str) -> HeaderMap {
    let mut headers = HeaderMap::new();
    headers.insert(CONTENT_RANGE, HeaderValue::from_str(content_range).unwrap());
    headers
}

#[test]
fn success_tells_the_length() {
    assert_eq!(prepare(206, &answer("bytes 0-0/1234")), Ok((true, 1234)));
    assert_eq!(prepare(200, &answer("bytes 0-0/0")), Ok((true, 0)));
    assert_eq!(prepare(299, &answer("a/b/+7")), Ok((true, 7)));
}

#[test]
fn other_answers_serve_no_ranges() {
    assert_eq!(prepare(404, &HeaderMap::new()), Ok((false, 0)));
    assert_eq!(prepare(199, &answer("bytes 0-0/1234")), Ok((false, 0)));
    assert_eq!(prepare(300, &answer("nothing")), Ok((false, 0)));
}

#[test]
fn bad_lengths_are_refused() {
    assert_eq!(
        prepare(206, &answer("bytes 0-0/*")),
        Err(PrepareError::BadLength(NumberError::InvalidDigit))
    );
    assert_eq!(
        prepare(206, &answer("bytes 0-0/")),
        Err(PrepareError::BadLength(NumberError::Empty))
    );
    assert_eq!(
        prepare(206, &answer("bytes 0-0/18446744073709551616")),
        Err(PrepareError::BadLength(NumberError::TooLarge))
    );
}

#[test]
fn content_range_has_to_be_visible_text() {
    let mut headers = HeaderMap::new();
    headers.insert(CONTENT_RANGE, HeaderValue::from_bytes(b"bytes 0-0/\xfa").unwrap());
    assert_eq!(prepare(206, &headers), Err(PrepareError::NotText));
    assert_eq!(JjP::fetch_length(Some(&headers)), None);
}

#[test]
fn unreadable_answers_are_told_apart() {
    assert_eq!(try_prepare(206, &HeaderMap::new()), None);
    assert_eq!(try_prepare(206, &answer("bytes 0-0")), None);
    assert_eq!(try_prepare(404, &HeaderMap::new()), Some(Ok((false, 0))));
    assert_eq!(try_prepare(206, &answer("bytes 0-0/12")), Some(Ok((true, 12))));
    assert_eq!(
        try_prepare(206, &answer("bytes 0-0/x")),
        Some(Err(PrepareError::BadLength(NumberError::InvalidDigit)))
    );
    let mut headers = HeaderMap::new();
    headers.insert(CONTENT_RANGE, HeaderValue::from_bytes(b"\xfa").unwrap());
    assert_eq!(try_prepare(206, &headers), Some(Err(PrepareError::NotText)));
}

#[test]
fn first_content_range_counts() {
    let mut headers = answer("bytes 0-0/10");
    headers.append(CONTENT_RANGE, HeaderValue::from_static("bytes 0-0/20"));
    assert_eq!(prepare(206, &headers), Ok((true, 10)));
    assert_eq!(JjP::fetch_length(Some(&headers)), Some(10));
}

#[test]
fn length_is_fetched_where_it_is_told() {
    assert_eq!(JjP::fetch_length(None), None);
    assert_eq!(JjP::fetch_length(Some(&HeaderMap::new())), None);
    assert_eq!(JjP::fetch_length(Some(&answer("bytes 0-0/77"))), Some(77));
    assert_eq!(JjP::fetch_length(Some(&answer("77"))), Some(77));
    assert_eq!(JjP::fetch_length(Some(&answer("bytes 0-0/0"))), None);
    assert_eq!(JjP::fetch_length(Some(&answer("bytes 0-0/*"))), None);
    assert_eq!(JjP::fetch_length(Some(&answer("bytes 0-0/"))), None);
}

#[test]
fn total_stands_behind_the_last_slash() {
    assert_eq!(range_total("bytes 0-0/5"), Ok(5));
    assert_eq!(range_total("5"), Ok(5));
    assert_eq!(range_total("bytes 0-0/"), Err(NumberError::Empty));
}

#[test]
fn segment_request_carries_the_range() {
    let mut headers = HeaderMap::new();
    headers.insert(USER_AGENT, HeaderValue::from_static("someone"));
    headers.insert(RANGE, HeaderValue::from_static("bytes=7-8"));
    headers.append(RANGE, HeaderValue::from_static("bytes=9-10"));
    headers.append("x-many", HeaderValue::from_static("one"));
    headers.append("x-many", HeaderValue::from_static("two"));
    let jjp = JjPBuilder::new("http://host/f".to_string())
        .set_headers(headers)
        .set_chunk_len(100)
        .set_parallel_num(3)
        .build(None);
    let mut segments = jjp.parallel_download(250).unwrap().segments;
    let first = jjp.segment_headers(&segments.next(false).unwrap()).unwrap();
    let second = jjp.segment_headers(&segments.next(false).unwrap()).unwrap();
    let third = jjp.segment_headers(&segments.next(false).unwrap()).unwrap();
    for (headers, range) in [(first, "bytes=0-99"), (second, "bytes=100-199"), (third, "bytes=200-249")] {
        let ranges: Vec<_> = headers.get_all(RANGE).iter().collect();
        assert_eq!(ranges, vec![range]);
        assert_eq!(headers.get(USER_AGENT).unwrap(), "someone");
        let many: Vec<_> = headers.get_all("x-many").iter().collect();
        assert_eq!(many, vec!["one", "two"]);
        assert_eq!(headers.keys_len(), 3);
    }
    let ranges: Vec<_> = jjp.headers().get_all(RANGE).iter().collect();
    assert_eq!(ranges, vec!["bytes=7-8", "bytes=9-10"]);
}

fn with_names(count: usize) -> HeaderMap {
    let mut headers = HeaderMap::new();
    for i in 0..count {
        let name = HeaderName::from_bytes(format!("x-{}", i).as_bytes()).unwrap();
        headers.append(name, HeaderValue::from_static("v"));
    }
    headers
}

#[test]
fn many_fields_leave_room() {
    let segment = Segment { start: 3, end: 5 };
    for count in [0, 1, 6552, 6553, 6554, 20000, 24575] {
        let jjp = JjPBuilder::new("u".to_string()).set_headers(with_names(count)).build(None);
        let made = jjp.segment_headers(&segment).unwrap();
        assert_eq!(made.get(RANGE).unwrap(), "bytes=3-5");
        assert_eq!(made.keys_len(), count + 1);
    }
}

#[test]
fn range_is_put_or_refused() {
    let headers = answer("bytes 0-0/1");
    assert_eq!(with_range(headers.clone(), Ok(Ok(()))).unwrap(), headers);
    let full = with_names(24576).try_insert(RANGE, HeaderValue::from_static("v"));
    let put = Ok(full.map(|_| ()));
    assert!(matches!(with_range(headers.clone(), put), Err(SegmentError::HeadersFull)));
    let bad = HeaderValue::from_str("\n").map(|_| Ok(()));
    assert!(matches!(with_range(headers, bad), Err(SegmentError::BadRange)));
}

#[test]
fn full_map_refuses_the_range() {
    let segment = Segment { start: 3, end: 5 };
    let jjp = JjPBuilder::new("u".to_string()).set_headers(with_names(24576)).build(None);
    assert!(matches!(jjp.segment_headers(&segment), Err(SegmentError::HeadersFull)));
    assert_eq!(jjp.headers().keys_len(), 24576);
}
