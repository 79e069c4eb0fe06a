use gitplot::app::short_count;
use gitplot::chart::{format_count, ChartBounds, LocChart};
use gitplot::text::decimal_string;

fn float_label(v: u64) -> String {
    if v >= 1_000_000 {
        format!("{:.1}M", v as f64 / 1_000_000.0)
    } else if v >= 1_000 {
        format!("{:.1}k", v as f64 / 1_000.0)
    } else {
        v.to_string()
    }
}

#[test]
fn short_count_small_values_in_full() {
    assert_eq!(short_count(0), "0");
    assert_eq!(short_count(7), "7");
    assert_eq!(short_count(999), "999");
}

#[test]
fn short_count_thousands_and_millions() {
    assert_eq!(short_count(1_000), "1.0k");
    assert_eq!(short_count(1_234), "1.2k");
    assert_eq!(short_count(999_999), "1000.0k");
    assert_eq!(short_count(1_000_000), "1.0M");
    assert_eq!(short_count(1_500_000), "1.5M");
    assert_eq!(short_count(12_345_678), "12.3M");
}

#[test]
fn short_count_ties_follow_the_double() {
    // 1.25 is exact in binary: the tie goes to the even digit.
    assert_eq!(short_count(1_250), "1.2k");
    // 1.05 is a little above in binary, 1.15 a little below.
    assert_eq!(short_count(1_050), "1.1k");
    assert_eq!(short_count(1_150), "1.1k");
    assert_eq!(short_count(2_750_000), "2.8M");
}

#[test]
fn short_count_agrees_with_float_formatting_below_two_million() {
    for v in 0..2_000_000u64 {
        assert_eq!(short_count(v), float_label(v), "at {v}");
    }
}

#[test]
fn short_count_agrees_with_float_formatting_on_large_values() {
    let mut x: u64 = 0x9E37_79B9_7F4A_7C15;
    for _ in 0..200_000 {
        x = x.wrapping_mul(6364136223846793005).wrapping_add(1442695040888963407);
        for v in [x, x >> 7, x >> 20, x >> 33, (x >> 40) * 50_000, u64::MAX - (x >> 50)] {
            assert_eq!(short_count(v), float_label(v), "at {v}");
        }
    }
    assert_eq!(short_count(u64::MAX), float_label(u64::MAX));
    assert_eq!(short_count(1 << 53), float_label(1 << 53));
    assert_eq!(short_count((1 << 53) + 1), float_label((1 << 53) + 1));
}

#[test]
fn format_count_is_short_count() {
    assert_eq!(format_count(42), "42");
    assert_eq!(format_count(4_200), "4.2k");
}

#[test]
fn decimal_string_renders_digits() {
    assert_eq!(decimal_string(0), "0");
    assert_eq!(decimal_string(10), "10");
    assert_eq!(decimal_string(u64::MAX), u64::MAX.to_string());
}

#[test]
fn chart_bounds_of_points() {
    let c = LocChart::new(vec![(1, 5), (3, 100), (4, 40)]);
    assert_eq!(c.unit_label, "LOC");
    assert_eq!(c.bounds(), Some(ChartBounds { x_min: 1, x_max: 4, y_top: 110 }));
}

#[test]
fn chart_bounds_small_and_empty() {
    assert_eq!(LocChart::new(vec![]).bounds(), None);
    let flat = LocChart::new(vec![(7, 0)]);
    assert_eq!(flat.bounds(), Some(ChartBounds { x_min: 7, x_max: 7, y_top: 2 }));
    let c = LocChart::labelled(vec![(1, 9), (2, 19)], "commits".to_string());
    assert_eq!(c.unit_label, "commits");
    assert_eq!(c.bounds(), Some(ChartBounds { x_min: 1, x_max: 2, y_top: 20 }));
}

#[test]
fn every_point_below_the_top() {
    let pts = vec![(1, 0), (2, 17), (3, 1_000), (4, 999)];
    let c = LocChart::new(pts.clone());
    let b = c.bounds().unwrap();
    for (_, y) in pts {
        assert!(y < b.y_top);
    }
}
