use jjp::jjp::{JjP, JjpBuilder, Task, UrlError, UrlParts};

fn ranges(url: &str, num: usize, length: usize) -> Vec<(usize, usize)> {
    let jjp = JjpBuilder::new(url).unwrap().parallel_num(num).build((true, length));
    assert!(jjp.is_splittable());
    jjp.split_task().iter().map(|t| (t.start_pos, t.end_pos)).collect()
}

const URL: &str = "http://host.example/dir/file.bin?x=/1";

#[test]
fn url_is_normalised() {
    let b = JjpBuilder::new("HTTP://Host.Example/a/../b c").unwrap();
    assert_eq!(b.url(), "http://host.example/b%20c");
    let jjp = b.build((true, 1));
    assert_eq!(jjp.url(), "http://host.example/b%20c");
    assert_eq!(jjp.name(), "b%20c");
}

#[test]
fn bad_urls_are_refused() {
    match JjpBuilder::new("no url") {
        Err(UrlError::Invalid(reason)) => assert_eq!(reason, "relative URL without a base"),
        _ => panic!("accepted"),
    }
    match JjpBuilder::new("DATA:text/plain,hello") {
        Err(UrlError::NoHost(url)) => assert_eq!(url, "data:text/plain,hello"),
        _ => panic!("accepted"),
    }
    assert!(matches!(JjP::new("file:///etc/hosts", (true, 1)), Err(UrlError::NoHost(_))));
    assert!(matches!(JjP::new("", (true, 1)), Err(UrlError::Invalid(_))));
}

#[test]
fn parsed_urls_are_taken_as_they_are() {
    let parts = |has_host| UrlParts {
        text: "http://a/b".to_string(),
        path: "/b".to_string(),
        has_host,
    };
    assert_eq!(JjpBuilder::from_parsed(Ok(parts(true))).unwrap().build((true, 1)).name(), "b");
    match JjpBuilder::from_parsed(Ok(parts(false))) {
        Err(UrlError::NoHost(url)) => assert_eq!(url, "http://a/b"),
        _ => panic!("accepted"),
    }
    match JjpBuilder::from_parsed(Err("why".to_string())) {
        Err(UrlError::Invalid(reason)) => assert_eq!(reason, "why"),
        _ => panic!("accepted"),
    }
}

#[test]
fn usual_settings() {
    let jjp = JjP::new(URL, (true, 100)).unwrap();
    assert_eq!(jjp.url(), URL);
    assert_eq!(jjp.name(), "file.bin");
    assert_eq!(jjp.length(), 100);
    assert_eq!(jjp.tasks_wanted(), 4);
    assert!(jjp.parallel());
    assert!(jjp.writes_to_map());
}

#[test]
fn chosen_settings() {
    let jjp = JjpBuilder::new(URL)
        .unwrap()
        .parallel_num(7)
        .name("other".to_string())
        .mmap(false)
        .build((true, 100));
    assert_eq!(jjp.name(), "other");
    assert_eq!(jjp.tasks_wanted(), 7);
    assert!(!jjp.writes_to_map());
}

#[test]
fn no_tasks_are_not_chosen() {
    let b = JjpBuilder::new(URL).unwrap().parallel_num(9).parallel_num(0);
    assert_eq!(b.build((true, 100)).tasks_wanted(), 9);
    let b = JjpBuilder::new(URL).unwrap().parallel_num(0);
    assert_eq!(b.build((true, 100)).tasks_wanted(), 4);
}

#[test]
fn path_without_a_name() {
    let jjp = JjP::new("http://host.example", (true, 1)).unwrap();
    assert_eq!(jjp.url(), "http://host.example/");
    assert_eq!(jjp.name(), "");
}

#[test]
fn without_ranges_there_is_one_task() {
    let jjp = JjpBuilder::new(URL).unwrap().parallel_num(8).build((false, 0));
    assert_eq!(jjp.tasks_wanted(), 1);
    assert!(!jjp.writes_to_map());
    assert!(jjp.is_splittable());
    assert_eq!(jjp.split_task(), vec![Task::default()]);
    assert_eq!(Task::default(), Task { running: false, done: false, start_pos: 0, end_pos: 0 });
}

#[test]
fn client_is_set_up_from_the_settings() {
    let b = JjpBuilder::new(URL).unwrap().no_proxy(true);
    let (options, rest) = b.client_options();
    assert_eq!(options.user_agent, "Hello");
    assert!(options.no_proxy);
    assert!(options.proxy.is_none());
    assert_eq!(rest.url(), URL);
    let proxy = reqwest::Proxy::all("http://proxy.example:8080").unwrap();
    let b = JjpBuilder::new(URL).unwrap().proxy(proxy);
    let (options, rest) = b.client_options();
    assert!(options.proxy.is_some());
    assert!(!options.no_proxy);
    let (options, rest) = rest.client_options();
    assert!(options.proxy.is_none());
    assert_eq!(rest.build((true, 3)).length(), 3);
}

#[test]
fn even_split() {
    assert_eq!(ranges(URL, 4, 100), vec![(0, 24), (25, 49), (50, 74), (75, 99)]);
}

#[test]
fn uneven_split() {
    assert_eq!(ranges(URL, 4, 103), vec![(0, 25), (26, 51), (52, 77), (78, 102)]);
    assert_eq!(ranges(URL, 3, 10), vec![(0, 3), (4, 7), (8, 9)]);
    assert_eq!(ranges(URL, 1, 10), vec![(0, 9)]);
}

#[test]
fn small_files_are_split_beyond_their_end() {
    assert_eq!(ranges(URL, 4, 5), vec![(0, 1), (2, 3), (4, 5), (6, 4)]);
    assert_eq!(ranges(URL, 4, 1), vec![(0, 0), (1, 1), (2, 2), (3, 0)]);
}

#[test]
fn every_byte_lies_in_one_task() {
    for num in 1..9 {
        for length in 1..60 {
            let all = ranges(URL, num, length);
            assert_eq!(all.len(), num);
            for byte in 0..length {
                let n = all.iter().filter(|(s, e)| *s <= byte && byte <= *e).count();
                assert_eq!(n, 1);
            }
            for i in 1..num {
                assert_eq!(all[i].0, all[i - 1].1 + 1);
            }
            assert_eq!(all[0].0, 0);
            assert_eq!(all[num - 1].1, length - 1);
        }
    }
}

#[test]
fn empty_files_cannot_be_split() {
    assert!(!JjP::new(URL, (true, 0)).unwrap().is_splittable());
    assert!(JjP::new(URL, (false, 0)).unwrap().is_splittable());
    let many = JjpBuilder::new(URL).unwrap().parallel_num(usize::MAX).build((true, usize::MAX - 1));
    assert!(many.is_splittable());
    let most = JjpBuilder::new(URL).unwrap().parallel_num(usize::MAX / 2 + 2).build((true, usize::MAX));
    assert!(!most.is_splittable());
}
