use jjp::clock::{rate, Elapsed};
use jjp::progress::to_human;
use jjp::single::Single;
use jjp::utils::{bar_fill, show_bar, to_unit};
use std::time::Duration;

/// A simple generator of numbers of all sizes.
fn numbers(count: usize) -> Vec<u64> {
    let mut out = vec![
        0, 1, 2, 3, 9, 10, 99, 100, 101, 127, 128, 129, 384, 511, 512, 513, 640, 1023, 1024, 1025,
        1152, 16777215, 16777216, 16777217, 16777218, 16777219, 33554433, 33554434, 33554435,
        33554437, 33554438, 102297, 102298, 102400, 104754, 1073741824, 107374182400, u32::MAX as u64,
        u32::MAX as u64 + 1, i64::MAX as u64, i64::MAX as u64 + 1, u64::MAX - 1, u64::MAX,
    ];
    let mut x: u64 = 0x9e37_79b9_7f4a_7c15;
    while out.len() < count {
        x ^= x << 13;
        x ^= x >> 7;
        x ^= x << 17;
        out.push(x >> (x % 64));
    }
    out
}

/// `x` in hundredths, as it is displayed.
fn shown(x: f32) -> u128 {
    format!("{:.2}", x).replace('.', "").parse().unwrap()
}

fn float_unit(num: usize) -> String {
    let units = ["B ", "KB", "MB", "GB"];
    let mut num = num as f32;
    let mut idx = 0;
    while num > 99.9 && idx + 1 < units.len() {
        num /= 1024.0;
        idx += 1;
    }
    format!("{:02.02}{}", num, units[idx])
}

fn float_human(mut speed: f32) -> String {
    let units = ["B", "KB", "MB", "GB", "TB"];
    let mut index = 0;
    while speed > 1024.0 && index + 1 < units.len() {
        speed /= 1024.0;
        index += 1;
    }
    format!("{:.02}{}", speed, units[index])
}

fn float_head(received: usize, total: usize) -> usize {
    let percent = if total != 0 { (100.0 * received as f32) / (total as f32) } else { 0.0 };
    (26f32 * percent / 100.0).ceil() as usize
}

fn float_bar(received: usize, total: usize, bytes: usize, dur: Duration, con: usize) -> String {
    let speed = (bytes as f32 / dur.as_secs_f32()) as usize;
    let percent = if total != 0 { (100.0 * received as f32) / (total as f32) } else { 0.0 };
    let head = float_head(received, total);
    format!(
        "name [{}{}] {:02.02}% {}/{} {}/s con:{}",
        ">".repeat(head),
        "_".repeat(26 - head),
        percent,
        float_unit(received),
        float_unit(total),
        float_unit(speed),
        con
    )
}

#[test]
fn integers_convert_as_floats_do() {
    for n in numbers(4000) {
        let s = Single::of_int(n);
        assert_eq!(s.floor(), (n as f32) as u128, "{}", n);
        assert_eq!(s.ceiling(), (n as f32) as u128, "{}", n);
        assert_eq!(s.is_zero(), n == 0);
    }
}

#[test]
fn quotients_round_as_floats_do() {
    let all = numbers(600);
    for (i, &a) in all.iter().enumerate() {
        for &b in [all[(i * 7 + 3) % all.len()], all[(i * 31 + 11) % all.len()], 1024, 100].iter() {
            if b == 0 {
                continue;
            }
            let q = Single::of_int(a).over(Single::of_int(b));
            let f = a as f32 / b as f32;
            assert_eq!(q.hundredths(), shown(f), "{} / {}", a, b);
            assert_eq!(q.floor(), f as u128, "{} / {}", a, b);
            assert_eq!(q.ceiling(), f.ceil() as u128, "{} / {}", a, b);
        }
    }
}

#[test]
fn products_sums_and_order_agree_with_floats() {
    let all = numbers(600);
    for (i, &a) in all.iter().enumerate() {
        let b = all[(i * 17 + 5) % all.len()] % 1_000_000;
        let (x, y) = (Single::of_int(a), Single::of_int(b).over(Single::whole(100)));
        let (f, g) = (a as f32, b as f32 / 100.0);
        if b < 1 << 24 {
            assert_eq!(Single::whole(100).times(x).floor(), (100.0 * f) as u128);
        }
        let sum = x.plus(y);
        assert_eq!(sum.hundredths(), shown(f + g), "{} + {} / 100", a, b);
        assert_eq!(x.less(y), f < g);
        assert_eq!(y.less(x), g < f);
    }
}

#[test]
fn seconds_are_those_of_a_duration() {
    let all = numbers(2000);
    for (i, &a) in all.iter().enumerate() {
        let nanos = (all[(i * 13 + 1) % all.len()] % 1_000_000_000) as u32;
        for secs in [a, a % 100, 0] {
            let s = Elapsed { secs, nanos }.seconds();
            let f = Duration::new(secs, nanos).as_secs_f32();
            assert_eq!(s.hundredths(), shown(f), "{} {}", secs, nanos);
            assert_eq!(s.floor(), f as u128);
        }
    }
}

#[test]
fn rates_are_those_of_floats() {
    let all = numbers(2000);
    for (i, &bytes) in all.iter().enumerate() {
        let nanos = (all[(i * 29 + 7) % all.len()] % 1_000_000_000) as u32;
        for secs in [0, 1, all[(i * 3 + 2) % all.len()] % 1000] {
            let r = rate(bytes as usize, Elapsed { secs, nanos });
            let f = (bytes as f32 / Duration::new(secs, nanos).as_secs_f32()) as usize;
            assert_eq!(r, f, "{} in {} {}", bytes, secs, nanos);
        }
    }
}

#[test]
fn rate_in_no_time() {
    let none = Elapsed { secs: 0, nanos: 0 };
    assert_eq!(rate(0, none), 0);
    assert_eq!(rate(1, none), usize::MAX);
    assert_eq!(rate(usize::MAX, Elapsed { secs: 0, nanos: 1 }), usize::MAX);
    assert_eq!(rate(1000, Elapsed { secs: 2, nanos: 0 }), 500);
}

#[test]
fn units_are_those_of_floats() {
    for n in numbers(4000) {
        assert_eq!(to_unit(n as usize), float_unit(n as usize), "{}", n);
    }
}

#[test]
fn units_change_above_a_hundred() {
    assert_eq!(to_unit(0), "0.00B ");
    assert_eq!(to_unit(99), "99.00B ");
    assert_eq!(to_unit(100), "0.10KB");
    assert_eq!(to_unit(128), "0.12KB");
    assert_eq!(to_unit(384), "0.38KB");
    assert_eq!(to_unit(1 << 20), "1.00MB");
    assert_eq!(to_unit(1 << 30), "1.00GB");
    assert_eq!(to_unit(1 << 40), "1024.00GB");
}

#[test]
fn sizes_are_those_of_floats() {
    for n in numbers(4000) {
        assert_eq!(to_human(Single::of_int(n)), float_human(n as f32), "{}", n);
    }
}

/// Finite floats of all sizes, the smallest and the largest among them.
fn floats(count: usize) -> Vec<f32> {
    let mut out = vec![
        0.0, f32::from_bits(1), f32::from_bits(0x7f_ffff), f32::MIN_POSITIVE, f32::EPSILON, 0.004,
        0.005, 0.006, 0.125, 0.375, 1.0, 1023.995, 1023.999, 1024.0, 1024.0001, 1048576.0,
        1048577.0, 1.0e20, 1.0e38, f32::MAX,
    ];
    let mut x: u64 = 0x2545_f491_4f6c_dd1d;
    while out.len() < count {
        x ^= x << 13;
        x ^= x >> 7;
        x ^= x << 17;
        let f = f32::from_bits((x >> 33) as u32);
        if f.is_finite() {
            out.push(f);
        }
    }
    out
}

#[test]
fn every_finite_float_is_shown_as_a_size() {
    for f in floats(20000) {
        let s = Single::from_bits(f.to_bits()).unwrap();
        assert_eq!(to_human(s), float_human(f), "{:e}", f);
    }
    let largest = Single::from_bits(f32::MAX.to_bits()).unwrap();
    assert_eq!(to_human(largest), "309484991374600995015229440.00TB");
    let smallest = Single::from_bits(1).unwrap();
    assert_eq!(to_human(smallest), "0.00B");
}

#[test]
fn finite_floats_keep_their_order_and_whole_parts() {
    let all = floats(4000);
    for (i, &f) in all.iter().enumerate() {
        let s = Single::from_bits(f.to_bits()).unwrap();
        assert_eq!(s.floor(), f as u128, "{:e}", f);
        assert_eq!(s.ceiling(), f.ceil() as u128, "{:e}", f);
        assert_eq!(s.is_zero(), f == 0.0);
        if f < 1.0e30 {
            assert_eq!(s.hundredths(), shown(f), "{:e}", f);
        }
        for &g in [all[(i * 7 + 5) % all.len()], f, f32::from_bits(f.to_bits() ^ 1)].iter() {
            if g.is_finite() {
                let t = Single::from_bits(g.to_bits()).unwrap();
                assert_eq!(s.less(t), f < g, "{:e} {:e}", f, g);
            }
        }
    }
}

#[test]
fn other_floats_are_refused() {
    for f in [f32::INFINITY, f32::NEG_INFINITY, f32::NAN, -1.0, -0.0] {
        assert!(Single::from_bits(f.to_bits()).is_none());
    }
}

#[test]
fn sizes_change_above_1024() {
    assert_eq!(to_human(Single::of_int(0)), "0.00B");
    assert_eq!(to_human(Single::of_int(1024)), "1024.00B");
    assert_eq!(to_human(Single::of_int(1025)), "1.00KB");
    assert_eq!(to_human(Single::of_int(1 << 30)), "1024.00MB");
    assert_eq!(to_human(Single::of_int(1 << 50)), "1024.00TB");
}

#[test]
fn bars_are_those_of_floats() {
    let all = numbers(1500);
    for (i, &total) in all.iter().enumerate() {
        let other = all[(i * 41 + 13) % all.len()];
        let parts = [0, total, total / 2, total / 3, other % (total / 2 + 1), other];
        for (k, &received) in parts.iter().enumerate() {
            let (r, t) = (received as usize, total as usize);
            assert_eq!(bar_fill(r, t), {
                let percent = if t != 0 { (100.0 * r as f32) / (t as f32) } else { 0.0 };
                (26f32 * percent / 100.0).ceil() as u128
            });
            if bar_fill(r, t) <= 26 {
                let (secs, nanos) = (other % 5000, (other % 999_999_937) as u32);
                assert_eq!(
                    show_bar("name", r, t, r, Elapsed { secs, nanos }, k),
                    float_bar(r, t, r, Duration::new(secs, nanos), k)
                );
            }
        }
    }
}
