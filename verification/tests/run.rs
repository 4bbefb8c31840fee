use jjp::clock::Elapsed;
use jjp::jjp::JjpBuilder;
use jjp::map_file::{MapFile, SeekFrom};
use jjp::run::{Counters, Run, Transfer};
use memmap2::MmapMut;

const URL: &str = "http://host.example/file.bin";
const SECOND: Elapsed = Elapsed { secs: 1, nanos: 0 };

fn begin(num: usize, prepared: (bool, usize)) -> Run {
    JjpBuilder::new(URL).unwrap().parallel_num(num).build(prepared).run(Counters::default())
}

#[test]
fn tasks_are_handed_out_in_order() {
    let mut run = begin(2, (true, 10));
    assert_eq!(run.next_transfer(), Some(Transfer { index: 0, start: 0, end: 4 }));
    assert_eq!(run.next_transfer(), Some(Transfer { index: 1, start: 5, end: 9 }));
    assert_eq!(run.next_transfer(), None);
    assert_eq!(run.counters(), Counters { count: 2, received_len: 0, done: 0 });
    assert!(run.is_unfinished());
}

#[test]
fn requests_ask_for_the_rest_of_a_task() {
    let mut run = begin(2, (true, 10));
    let mut t = run.next_transfer().unwrap();
    assert_eq!(run.request_range(&t), Some("bytes=0-4".to_string()));
    assert_eq!(run.write_place(&t), Some(0));
    assert!(run.on_status(&t, 206));
    run.on_bytes(&mut t, 3);
    assert_eq!(run.write_place(&t), Some(3));
    run.on_end(&t);
    assert_eq!(run.counters(), Counters { count: 0, received_len: 3, done: 0 });
    let t = run.next_transfer().unwrap();
    assert_eq!(t, Transfer { index: 0, start: 3, end: 4 });
    assert_eq!(run.request_range(&t), Some("bytes=3-4".to_string()));
}

#[test]
fn without_ranges_nothing_is_asked_for() {
    let mut run = begin(5, (false, 0));
    let mut t = run.next_transfer().unwrap();
    assert_eq!(t, Transfer { index: 0, start: 0, end: 0 });
    assert_eq!(run.request_range(&t), None);
    assert_eq!(run.write_place(&t), None);
    run.on_bytes(&mut t, 1);
    run.on_end(&t);
    assert!(!run.is_unfinished());
}

#[test]
fn whole_file_is_received_once_all_tasks_are_done() {
    let mut run = begin(3, (true, 10));
    let mut pending = Vec::new();
    while let Some(t) = run.next_transfer() {
        pending.push(t);
    }
    assert_eq!(pending.len(), 3);
    for t in pending.iter_mut() {
        while t.start <= t.end {
            run.on_bytes(t, 1);
        }
        assert!(run.is_unfinished());
        run.on_end(t);
    }
    assert!(!run.is_unfinished());
    assert_eq!(run.counters(), Counters { count: 0, received_len: 10, done: 3 });
    assert_eq!(run.next_transfer(), None);
}

/// Serves the tasks of a download in pieces of some length, in turn, and breaks off every
/// third transfer. Gives what stands in the file at the end.
fn serve(num: usize, content: &[u8], piece: usize) -> Vec<u8> {
    let mut run = begin(num, (true, content.len()));
    let map = MmapMut::map_anon(content.len()).unwrap();
    let mut file = MapFile::try_new(map, content.len()).unwrap();
    let mut pending: Vec<Transfer> = Vec::new();
    let mut begun = 0;
    while run.is_unfinished() {
        while let Some(t) = run.next_transfer() {
            begun += 1;
            assert!(run.on_status(&t, 206));
            pending.push(t);
        }
        let mut t = pending.remove(0);
        let to = (t.start + piece).min(t.end + 1);
        let data = &content[t.start..to];
        let place = run.write_place(&t).unwrap();
        assert_eq!(file.start_seek(SeekFrom::Start(place)), Ok(()));
        assert_eq!(file.poll_write(data), data.len());
        run.on_bytes(&mut t, data.len());
        if t.start > t.end || begun % 3 == 0 {
            run.on_end(&t);
        } else {
            pending.push(t);
        }
    }
    assert_eq!(run.counters().received_len, content.len());
    file.map().to_vec()
}

#[test]
fn finished_file_is_whole() {
    let content: Vec<u8> = (0..1000u32).map(|i| (i * i % 251) as u8).collect();
    for num in [1, 2, 3, 4, 7] {
        for piece in [1, 13, 100, 5000] {
            assert_eq!(serve(num, &content, piece), content);
        }
    }
}

#[test]
fn refused_tasks_are_tried_again() {
    let mut run = begin(2, (true, 10));
    let t = run.next_transfer().unwrap();
    assert!(!run.on_status(&t, 503));
    assert_eq!(run.counters().count, 0);
    assert_eq!(run.next_transfer(), Some(t));
    run.on_send_error(&t, false);
    assert_eq!(run.next_transfer(), Some(t));
}

#[test]
fn statuses_of_success_go_on() {
    let mut run = begin(1, (true, 10));
    let t = run.next_transfer().unwrap();
    assert!(run.on_status(&t, 200));
    assert!(run.on_status(&t, 299));
    assert_eq!(run.counters().count, 1);
    assert!(!run.on_status(&t, 199));
    assert_eq!(run.counters().count, 0);
}

#[test]
fn forbidden_leaves_one_transfer_at_a_time() {
    let mut run = begin(3, (true, 9));
    let first = run.next_transfer().unwrap();
    let second = run.next_transfer().unwrap();
    run.on_send_error(&first, true);
    assert_eq!(run.counters().count, 1);
    assert_eq!(run.next_transfer(), None);
    assert_eq!(run.next_transfer(), None);
    run.on_send_error(&second, false);
    assert_eq!(run.counters().count, 0);
    assert_eq!(run.next_transfer(), Some(second));
}

#[test]
fn totals_are_carried_on() {
    let jjp = JjpBuilder::new(URL).unwrap().parallel_num(2).build((true, 10));
    let mut run = jjp.run(Counters { count: 0, received_len: 100, done: 1 });
    let mut t = run.next_transfer().unwrap();
    run.on_bytes(&mut t, 5);
    run.on_end(&t);
    assert_eq!(run.counters(), Counters { count: 0, received_len: 105, done: 2 });
    assert!(!run.is_unfinished());
    assert_eq!(Counters::default(), Counters { count: 0, received_len: 0, done: 0 });
}

#[test]
fn lines_cover_the_line_before() {
    let mut run = begin(2, (true, 10));
    assert!(run.can_show(10));
    let first = run.show("file.bin", 10, SECOND);
    assert_eq!(
        first,
        "\rfile.bin [__________________________] 0.00% 0.00B /10.00B  0.00B /s con:2"
    );
    let mut t = run.next_transfer().unwrap();
    run.on_bytes(&mut t, 5);
    let second = run.show("file.bin", 10, SECOND);
    assert_eq!(
        second,
        "\rfile.bin [>>>>>>>>>>>>>_____________] 50.00% 5.00B /10.00B  5.00B /s con:2"
    );
    run.on_end(&t);
    let third = run.show("f", 10, SECOND);
    assert_eq!(
        third,
        "\rf [>>>>>>>>>>>>>_____________] 50.00% 5.00B /10.00B  5.00B /s con:1       "
    );
    assert_eq!(third.len(), second.len());
    let fourth = run.show("ü", 10, SECOND);
    assert_eq!(fourth.len(), second.len());
}

#[test]
fn too_many_bytes_cannot_be_shown() {
    let mut run = begin(1, (true, 10));
    let mut t = run.next_transfer().unwrap();
    run.on_bytes(&mut t, 10);
    assert!(run.can_show(10));
    run.on_bytes(&mut t, 1);
    assert!(!run.can_show(10));
    assert!(run.can_show(0));
    let jjp = JjpBuilder::new(URL).unwrap().parallel_num(1).build((true, 10));
    assert!(!jjp.run(Counters { count: 0, received_len: 0, done: 2 }).can_show(10));
}
