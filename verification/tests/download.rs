use jjp::download::{
    Plan, Segment, CHUNK_LEN, FALLBACK_PARALLEL_NUM, KEEP_ALIVE_SECS, MAX_RETRIES, PROBE_RANGE,
};
use jjp::transfer::BodyEnd;
use jjp::{JjP, JjPBuilder};

const URL: &str = "http://host.example/dir/file.bin";

fn with(parallel_num: usize, chunk_len: usize) -> JjP {
    JjPBuilder::new(URL.to_string())
        .set_parallel_num(parallel_num)
        .set_chunk_len(chunk_len)
        .build(None)
}

fn segments(jjp: &JjP, length: usize) -> Vec<(usize, usize)> {
    let mut fanout = jjp.parallel_download(length).unwrap();
    let mut out = Vec::new();
    while let Some(s) = fanout.segments.next(false) {
        out.push((s.start, s.end));
    }
    out
}

#[test]
fn usual_choices() {
    let jjp = JjPBuilder::new(URL.to_string()).build(Some(6));
    assert_eq!(jjp.url(), URL);
    assert_eq!(jjp.filename(), "file.bin");
    assert_eq!(jjp.max_retries(), 3);
    assert_eq!(jjp.chunk_len(), 32 << 20);
    assert!(jjp.headers().is_empty());
    assert_eq!(jjp.parallel_download(usize::MAX).unwrap().lanes, 6);
    let jjp = JjPBuilder::new(URL.to_string()).build(None);
    assert_eq!(jjp.parallel_download(usize::MAX).unwrap().lanes, 8);
    assert_eq!((CHUNK_LEN, MAX_RETRIES, FALLBACK_PARALLEL_NUM), (33554432, 3, 8));
    assert_eq!((KEEP_ALIVE_SECS, PROBE_RANGE), (15, "bytes=0-0"));
}

#[test]
fn own_choices() {
    let jjp = JjPBuilder::new(URL.to_string())
        .set_filename("other".to_string())
        .set_parallel_num(2)
        .set_max_retries(9)
        .set_chunk_len(7)
        .build(Some(6));
    assert_eq!(jjp.filename(), "other");
    assert_eq!(jjp.max_retries(), 9);
    assert_eq!(jjp.chunk_len(), 7);
    assert_eq!(jjp.parallel_download(700).unwrap().lanes, 2);
    let jjp = JjPBuilder::default().build(None);
    assert_eq!((jjp.url(), jjp.filename()), ("", ""));
}

#[test]
fn file_is_called_like_the_end_of_the_url() {
    for (url, name) in [("http://a/b/c?d=1", "c?d=1"), ("http://a/b/", ""), ("plain", "plain")] {
        assert_eq!(JjPBuilder::new(url.to_string()).build(None).filename(), name);
    }
}

#[test]
fn plan_follows_the_length() {
    assert_eq!(with(4, 10).download(None), Plan::Single(0));
    assert_eq!(with(4, 10).download(Some(100)), Plan::Parallel(100));
    assert_eq!(with(1, 10).download(Some(100)), Plan::Single(100));
    assert_eq!(with(0, 10).download(Some(100)), Plan::Parallel(100));
}

#[test]
fn lanes_follow_the_full_segments() {
    assert!(with(4, 10).parallel_download(9).is_none());
    assert!(with(4, 10).parallel_download(19).is_none());
    let fanout = with(4, 10).parallel_download(20).unwrap();
    assert_eq!((fanout.lanes, fanout.spare), (2, 1));
    let fanout = with(4, 10).parallel_download(39).unwrap();
    assert_eq!((fanout.lanes, fanout.spare), (3, 2));
    let fanout = with(4, 10).parallel_download(1000).unwrap();
    assert_eq!((fanout.lanes, fanout.spare), (4, 3));
    assert!(with(0, 10).parallel_download(1000).is_none());
    assert!(with(1, 10).parallel_download(1000).is_none());
}

#[test]
fn segments_of_a_file() {
    assert_eq!(segments(&with(2, 10), 20), vec![(0, 9), (10, 19)]);
    assert_eq!(segments(&with(2, 10), 25), vec![(0, 9), (10, 19), (20, 24)]);
    assert_eq!(segments(&with(2, 1), 3), vec![(0, 0), (1, 1), (2, 2)]);
    let half = usize::MAX / 2;
    assert_eq!(
        segments(&with(2, half), usize::MAX),
        vec![(0, half - 1), (half, 2 * half - 1), (2 * half, 2 * half)]
    );
}

#[test]
fn every_byte_lies_in_one_segment() {
    for chunk_len in 1..12 {
        for length in 2 * chunk_len..60 {
            let all = segments(&with(3, chunk_len), length);
            for byte in 0..length {
                let owners: Vec<usize> = (0..all.len())
                    .filter(|&k| all[k].0 <= byte && byte <= all[k].1)
                    .collect();
                assert_eq!(owners, vec![byte / chunk_len]);
            }
            let sum: usize = all.iter().map(|(s, e)| Segment { start: *s, end: *e }.length()).sum();
            assert_eq!(sum, length);
        }
    }
}

#[test]
fn full_bodies_make_the_file() {
    let mut segments = with(2, 10).parallel_download(37).unwrap().segments;
    let mut written = 0;
    while let Some(segment) = segments.next(false) {
        let mut body = segment.body();
        assert_eq!(body.place(), segment.start as u64);
        while body.written_len < body.length {
            body.on_bytes(1);
        }
        assert!(matches!(body.on_end(), BodyEnd::Complete));
        assert_eq!(body.start + body.written_len - 1, segment.end);
        written += body.written_len;
    }
    assert_eq!(written, 37);
}

#[test]
fn full_bodies_hold_the_content() {
    let content: Vec<u8> = (0..37u8).map(|i| i * 7 + 1).collect();
    let mut file = vec![0u8; 37];
    let mut segments = with(2, 10).parallel_download(37).unwrap().segments;
    while let Some(segment) = segments.next(false) {
        for attempt in 0..2 {
            let mut body = segment.body();
            for piece in content[segment.start..=segment.end].chunks(3 + attempt) {
                let at = body.place() as usize + body.written_len;
                file[at..at + piece.len()].copy_from_slice(piece);
                body.on_bytes(piece.len());
                if attempt == 0 {
                    break;
                }
            }
        }
    }
    assert_eq!(file, content);
}

#[test]
fn fallback_stops_the_segments() {
    let mut segments = with(2, 10).parallel_download(30).unwrap().segments;
    assert_eq!(segments.next(false), Some(Segment { start: 0, end: 9 }));
    assert_eq!(segments.next(true), None);
    assert_eq!(segments.next(false), Some(Segment { start: 10, end: 19 }));
    assert_eq!(segments.next(false), Some(Segment { start: 20, end: 29 }));
    assert_eq!(segments.next(false), None);
    assert_eq!(segments.next(false), None);
}

#[test]
fn segment_gives_its_body() {
    let s = Segment { start: 10, end: 19 };
    assert_eq!(s.length(), 10);
    let body = s.body();
    assert_eq!((body.start, body.length, body.written_len), (10, 10, 0));
}
