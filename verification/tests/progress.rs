use jjp::clock::Elapsed;
use jjp::progress::{Notice, Progress};
use std::time::Duration;

fn span(millis: u64) -> Elapsed {
    Elapsed { secs: millis / 1000, nanos: (millis % 1000) as u32 * 1_000_000 }
}

fn human(mut speed: f32) -> String {
    let units = ["B", "KB", "MB", "GB", "TB"];
    let mut index = 0;
    while speed > 1024.0 && index + 1 < units.len() {
        speed /= 1024.0;
        index += 1;
    }
    format!("{:.02}{}", speed, units[index])
}

#[test]
fn a_line_tells_everything() {
    let mut p = Progress::new("file.bin".to_string(), 2048, 4);
    let r = p.on_notice(Notice::Received(1024), span(500));
    assert_eq!(
        r.line.unwrap(),
        "\rf:file.bin c:4 p:50.00% ps:1024.00B/2.00KB s:2.00KB/s "
    );
    assert!(r.restart);
    assert!(!r.stop);
}

#[test]
fn size_may_be_unknown() {
    let mut p = Progress::new("x".to_string(), 0, 1);
    let r = p.on_notice(Notice::Received(10), span(1000));
    assert_eq!(r.line.unwrap(), "\rf:x c:1 p:0.00% ps:10.00B/0.00B s:10.00B/s ");
}

#[test]
fn lines_become_rarer() {
    let mut p = Progress::new("x".to_string(), 1000, 1);
    let mut flag: f32 = 0.0;
    for millis in [150, 150, 350, 350, 550, 550, 750, 750, 950, 950, 1000, 999, 1001] {
        flag += 0.1;
        flag = flag.min(1.0);
        let early = Duration::from_millis(millis).as_secs_f32() < flag;
        let r = p.on_notice(Notice::Received(1), span(millis));
        assert_eq!(r.line.is_none(), early, "{}", millis);
        assert_eq!(r.restart, !early);
        assert!(!r.stop);
    }
}

#[test]
fn bytes_without_a_line_are_kept_for_the_next() {
    let mut p = Progress::new("x".to_string(), 1000, 2);
    assert!(p.on_notice(Notice::Received(100), span(10)).line.is_none());
    assert!(p.on_notice(Notice::Received(100), span(20)).line.is_none());
    let r = p.on_notice(Notice::Received(50), span(500));
    assert_eq!(r.line.unwrap(), "\rf:x c:2 p:25.00% ps:250.00B/1000.00B s:500.00B/s ");
    let r = p.on_notice(Notice::Timeout, span(1000));
    assert_eq!(r.line.unwrap(), "\rf:x c:2 p:25.00% ps:250.00B/1000.00B s:0.00B/s ");
}

#[test]
fn setbacks_are_taken_back() {
    let mut p = Progress::new("x".to_string(), 1000, 2);
    p.on_notice(Notice::Received(100), span(500));
    let r = p.on_notice(Notice::Received(-60), span(500));
    assert!(r.line.is_none());
    assert!(r.restart);
    let r = p.on_notice(Notice::Received(60), span(1000));
    assert_eq!(r.line.unwrap(), "\rf:x c:2 p:10.00% ps:100.00B/1000.00B s:60.00B/s ");
    let r = p.on_notice(Notice::Received(-100), span(1000));
    assert!(r.line.is_none());
    assert!(p.on_notice(Notice::Timeout, span(1000)).line.is_none());
}

#[test]
fn no_time_gives_no_line() {
    let mut p = Progress::new("x".to_string(), 1000, 2);
    p.on_notice(Notice::Received(100), span(10));
    let r = p.on_notice(Notice::Timeout, Elapsed { secs: 0, nanos: 119 });
    assert!(r.line.is_none());
    assert!(r.restart && !r.stop);
    let r = p.on_notice(Notice::Closed, Elapsed { secs: 0, nanos: 120 });
    assert!(r.line.is_some());
    assert!(r.restart && r.stop);
    assert!(Duration::new(0, 119).as_secs_f32() < f32::EPSILON);
    assert!(Duration::new(0, 120).as_secs_f32() >= f32::EPSILON);
}

#[test]
fn closing_ends_the_watch() {
    let mut p = Progress::new("x".to_string(), 0, 1);
    let r = p.on_notice(Notice::Closed, span(1));
    assert!(r.line.is_none() && r.restart && r.stop);
}

#[test]
fn sums_have_to_fit() {
    let mut p = Progress::new("x".to_string(), 0, 1);
    assert!(p.has_room(Notice::Received(isize::MAX)));
    p.on_notice(Notice::Received(isize::MAX), span(0));
    assert!(!p.has_room(Notice::Received(1)));
    assert!(p.has_room(Notice::Received(isize::MIN)));
    assert!(p.has_room(Notice::Timeout));
}

#[test]
fn lines_agree_with_floats() {
    let size: usize = 123_456_789_012;
    let mut p = Progress::new("some name".to_string(), size, 7);
    let mut total: isize = 0;
    let mut x: u64 = 88172645463325252;
    for i in 0..1000u64 {
        x ^= x << 13;
        x ^= x >> 7;
        x ^= x << 17;
        let gain = (x >> (40 + x % 20)) as isize;
        let millis = 1000 + i;
        total += gain;
        let line = p.on_notice(Notice::Received(gain), span(millis)).line;
        let dur = Duration::from_millis(millis).as_secs_f32();
        let percent = total as f32 / size as f32;
        let speed = gain as f32 / dur;
        let expected = format!(
            "\rf:{} c:{} p:{:.02}% ps:{}/{} s:{}/s ",
            "some name",
            7,
            (100.0 * percent),
            human(total as f32),
            human(size as f32),
            human(speed as f32)
        );
        assert_eq!(line, if total > 0 { Some(expected) } else { None });
    }
}
