//! Dates, rounding and the order of tiles.

use disk_ui::calendar::{date_at, days_to_ymd};
use disk_ui::decimals::{nearest, percent, quotient, rounded, Precision};
use disk_ui::treemap::layout_order;

#[test]
fn days_become_dates() {
    for (days, date) in [
        (0, (1970, 1, 1)), (-1, (1969, 12, 31)), (59, (1970, 3, 1)), (11016, (2000, 2, 29)), (11017, (2000, 3, 1)),
        (-719_468, (0, 3, 1)), (-134_774, (1601, 1, 1)), (47_541, (2100, 3, 1)), (47_540, (2100, 2, 28)),
    ] {
        assert_eq!(days_to_ymd(days), date);
        assert_eq!(date_at(days), date);
    }
}

#[test]
fn later_days_have_later_dates() {
    let mut last = days_to_ymd(-800_000);
    for d in -799_999..-790_000 {
        let date = days_to_ymd(d);
        assert!(date > last);
        last = date;
    }
}

#[test]
fn numbers_are_rounded_as_doubles_are() {
    for n in [0u64, 1, 9_007_199_254_740_993, 9_007_199_254_740_995, u64::MAX, u64::MAX - 1024, 1 << 63] {
        assert_eq!(rounded(n as u128, Precision::Double), n as f64 as u128);
        assert_eq!(rounded(n as u128, Precision::Single), n as f32 as u128);
    }
    assert_eq!((nearest(5, 2), nearest(7, 2), nearest(8, 3)), (2, 4, 3));
}

#[test]
fn quotients_and_shares_agree_with_double_precision() {
    let shown = |h: u128| format!("{}.{:02}", h / 100, h % 100);
    for (a, b) in [(1u64, 3u64), (2, 3), (5, 8), (1, 800), (12_345, 7), (1 << 52, 3), (999_999, 1_000_000)] {
        assert_eq!(shown(quotient(a as u128, b as u128, Precision::Double)), format!("{:.2}", a as f64 / b as f64));
        assert_eq!(shown(percent(a as u128, b as u128, Precision::Double, 100)), format!("{:.2}", a as f64 / b as f64 * 100.0));
    }
}

#[test]
fn larger_tiles_come_first() {
    assert_eq!(layout_order(&vec![5, 9, 5, 0, 9]), [1, 4, 0, 2, 3]);
    assert!(layout_order(&Vec::new()).is_empty());
}
