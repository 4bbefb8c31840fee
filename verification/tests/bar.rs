use jjp::clock::Elapsed;
use jjp::utils::{bar_fill, show_bar, to_unit};

const SECOND: Elapsed = Elapsed { secs: 1, nanos: 0 };

#[test]
fn half_way() {
    let line = show_bar("file.bin", 50, 100, 50, SECOND, 4);
    assert_eq!(
        line,
        "file.bin [>>>>>>>>>>>>>_____________] 50.00% 50.00B /0.10KB 50.00B /s con:4"
    );
}

#[test]
fn nothing_yet() {
    assert_eq!(
        show_bar("f", 0, 2048, 0, SECOND, 1),
        "f [__________________________] 0.00% 0.00B /2.00KB 0.00B /s con:1"
    );
}

#[test]
fn all_there() {
    assert_eq!(
        show_bar("f", 4096, 4096, 4096, Elapsed { secs: 0, nanos: 500_000_000 }, 0),
        "f [>>>>>>>>>>>>>>>>>>>>>>>>>>] 100.00% 4.00KB/4.00KB 8.00KB/s con:0"
    );
}

#[test]
fn unknown_length() {
    assert_eq!(
        show_bar("f", 4096, 0, 4096, SECOND, 1),
        "f [__________________________] 0.00% 4.00KB/0.00B  4.00KB/s con:1"
    );
}

#[test]
fn first_byte_fills_a_place() {
    assert_eq!(bar_fill(0, 1000), 0);
    assert_eq!(bar_fill(1, 1000), 1);
    assert_eq!(bar_fill(38, 1000), 1);
    assert_eq!(bar_fill(39, 1000), 2);
    assert_eq!(bar_fill(1000, 1000), 26);
    assert_eq!(bar_fill(1001, 1000), 27);
    assert_eq!(bar_fill(1001, 0), 0);
}

#[test]
fn names_up_to_the_limit_stay() {
    let name = "abcdefghijklmnopqrs";
    assert_eq!(name.len(), 19);
    assert!(show_bar(name, 0, 1, 0, SECOND, 1).starts_with("abcdefghijklmnopqrs ["));
}

#[test]
fn longer_names_lose_their_middle() {
    let line = show_bar("abcdefghijklmnopqrst", 0, 1, 0, SECOND, 1);
    assert!(line.starts_with("abcdefgh...mnopqrst ["));
    let line = show_bar("äöüabcdefghijklmnopqrstäöü", 0, 1, 0, SECOND, 1);
    assert!(line.starts_with("äöüabcde...pqrstäöü ["));
}

#[test]
fn bar_keeps_its_width() {
    for received in 0..=300usize {
        let line = show_bar("n", received, 300, received, SECOND, 2);
        let bar: String = line.chars().skip(2).take(28).collect();
        assert!(bar.starts_with('[') && bar.ends_with(']'));
        let head = bar.chars().filter(|c| *c == '>').count();
        let tail = bar.chars().filter(|c| *c == '_').count();
        assert_eq!(head + tail, 26);
        assert_eq!(head as u128, bar_fill(received, 300));
    }
    assert_eq!(to_unit(300), "0.29KB");
}

#[test]
fn bar_never_becomes_shorter() {
    for total in [1usize, 7, 300, 167_772, 671_091, 1 << 30, usize::MAX] {
        let mut before = 0;
        for k in 0..=64usize {
            let fill = bar_fill((total / 64).saturating_mul(k), total);
            assert!(before <= fill);
            before = fill;
        }
        assert!(before <= bar_fill(total, total));
    }
}

#[test]
fn complete_file_fills_the_bar() {
    for total in [1, 2, 3, 1000, 99_999, 167_772] {
        assert_eq!(bar_fill(0, total), 0);
        assert_eq!(bar_fill(total, total), 26);
    }
    for total in 671_000..672_000 {
        assert_eq!(bar_fill(0, total), 0);
        assert!(bar_fill(total, total) >= 26);
    }
}

#[test]
fn some_complete_files_do_not_fit_the_bar() {
    assert_eq!(bar_fill(671_090, 671_090), 26);
    assert_eq!(bar_fill(671_091, 671_091), 27);
    assert_eq!(bar_fill(671_090, 671_091), 26);
    let percent = 100.0 * 671_091f32 / 671_091f32;
    assert_eq!((26f32 * percent / 100.0).ceil(), 27.0);
}
