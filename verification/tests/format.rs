//! Sizes, times and attributes as the user reads them.
use disk_ui::format::{
    format_attributes, format_filetime, format_filetime_local, human_size, human_size_compact,
    truncate_text,
};

#[test]
fn test_human_size_bytes() {
    assert_eq!(human_size(0), "0.00 B");
    assert_eq!(human_size(1), "1.00 B");
    assert_eq!(human_size(1023), "1023.00 B");
}

#[test]
fn test_human_size_kb_mb_gb() {
    assert_eq!(human_size(1024), "1.00 KB");
    assert_eq!(human_size(1024 * 1024), "1.00 MB");
    assert_eq!(human_size(1024 * 1024 * 1024), "1.00 GB");
    assert_eq!(human_size(1024_u64.pow(4)), "1.00 TB");
}

#[test]
fn test_human_size_compact() {
    assert_eq!(human_size_compact(0), "0B");
    assert_eq!(human_size_compact(1024), "1.00K");
    assert_eq!(human_size_compact(1024 * 1024), "1.00M");
    assert_eq!(human_size_compact(1024 * 1024 * 1024), "1.00G");
    assert_eq!(human_size_compact(1024_u64.pow(4)), "1.00T");
}

#[test]
fn test_format_filetime_zero() {
    assert_eq!(format_filetime(0), "");
}

#[test]
fn test_format_filetime_unix_epoch() {
    let ft = 11_644_473_600u64 * 10_000_000;
    let s = format_filetime(ft);
    assert!(s.starts_with("1970-01-01"), "got: {}", s);
}

#[test]
fn test_format_filetime_known_date() {
    // 2024-01-15 10:30:00 UTC, Unix ts = 1705314600
    let ft = 13_349_788_200u64 * 10_000_000;
    let s = format_filetime(ft);
    assert_eq!(s, "2024-01-15 10:30");
}

#[test]
fn test_format_attributes_empty() {
    assert_eq!(format_attributes(0), "—");
}

#[test]
fn test_format_attributes_normal() {
    assert_eq!(format_attributes(0x80), "—");
}

#[test]
fn test_format_attributes_directory() {
    assert_eq!(format_attributes(0x10), "—");
}

#[test]
fn test_format_attributes_system_archive() {
    let s = format_attributes(0x24);
    assert!(s.contains('S'), "should contain S: {}", s);
    assert!(s.contains('A'), "should contain A: {}", s);
    assert!(!s.contains('D'), "should not contain D: {}", s);
}

#[test]
fn test_format_attributes_hidden_system_directory() {
    let s = format_attributes(0x16);
    assert!(s.contains('H'));
    assert!(s.contains('S'));
}

/// The same sizes in double precision.
fn as_double(bytes: u64) -> (f64, usize) {
    let mut v = bytes as f64;
    let mut u = 0;
    while v >= 1024.0 && u < 4 {
        v /= 1024.0;
        u += 1;
    }
    (v, u)
}

#[test]
fn sizes_agree_with_double_precision() {
    let names = ["B", "KB", "MB", "GB", "TB"];
    let letters = ["B", "K", "M", "G", "T"];
    let mut sizes: Vec<u64> = vec![
        0,
        1,
        1023,
        1024,
        1152,
        1408,
        1_048_575,
        (1 << 53) - 1,
        1 << 53,
        (1 << 53) + 1,
        (1 << 53) + 3,
        (1 << 60) + 12345,
        u64::MAX - 1024,
        u64::MAX,
    ];
    let mut x: u64 = 0x2545_F491_4F6C_DD1D;
    for k in 0..4000u32 {
        x ^= x << 13;
        x ^= x >> 7;
        x ^= x << 17;
        sizes.push(x >> (k % 64));
    }
    // Sizes whose third decimal is exactly a five.
    for k in 0..2000u64 {
        sizes.push(128 * k);
    }
    for n in sizes {
        let (v, u) = as_double(n);
        assert_eq!(human_size(n), format!("{:.2} {}", v, names[u]));
        let compact = if u == 0 {
            format!("{}{}", v as u64, letters[u])
        } else {
            format!("{:.2}{}", v, letters[u])
        };
        assert_eq!(human_size_compact(n), compact);
    }
}

#[test]
fn ties_go_to_the_even_digit() {
    assert_eq!(human_size(1152), "1.12 KB");
    assert_eq!(human_size(1408), "1.38 KB");
}

#[test]
fn leap_days_and_last_days() {
    // 29 February 2000, 23:59
    let ft = (11_644_473_600u64 + 951_868_740) * 10_000_000;
    assert_eq!(format_filetime(ft), "2000-02-29 23:59");
    // 31 December 1999, 23:59
    let ft = (11_644_473_600u64 + 946_684_740) * 10_000_000;
    assert_eq!(format_filetime(ft), "1999-12-31 23:59");
    // 1 March 2100, after a February of 28 days
    let ft = (11_644_473_600u64 + 4_107_542_400) * 10_000_000;
    assert_eq!(format_filetime(ft), "2100-03-01 00:00");
}

#[test]
fn times_before_1970_are_not_shown() {
    assert_eq!(format_filetime(1), "");
    assert_eq!(format_filetime(11_644_473_600u64 * 10_000_000 - 1), "");
    assert_eq!(format_filetime(u64::MAX), "60056-05-28 05:36");
}

#[test]
fn local_time_is_shown_where_it_is_known() {
    let ft = 13_349_788_200u64 * 10_000_000;
    assert_eq!(format_filetime_local(ft, Some((2024, 1, 15, 18, 30))), "2024-01-15 18:30");
    assert_eq!(format_filetime_local(ft, Some((7, 1, 5, 8, 3))), "0007-01-05 08:03");
    assert_eq!(format_filetime_local(ft, Some((-7, 1, 5, 8, 3))), "-007-01-05 08:03");
    assert_eq!(format_filetime_local(ft, None), "2024-01-15 10:30");
    assert_eq!(format_filetime_local(0, None), "");
}

#[test]
fn all_shown_attributes() {
    assert_eq!(format_attributes(0xFFFF_FFFF), "RHSAC");
    assert_eq!(format_attributes(0x801), "RC");
}

#[test]
fn text_is_cut_to_what_fits() {
    let room = |n: usize| move |s: &str| s.chars().count() <= n;
    assert_eq!(truncate_text("abcdef", room(6)), "abcdef");
    assert_eq!(truncate_text("abcdef", room(4)), "abc…");
    assert_eq!(truncate_text("磁盘空间分析", room(3)), "磁盘…");
    assert_eq!(truncate_text("abcdef", room(1)), "");
    assert_eq!(truncate_text("abcdef", room(0)), "");
    assert_eq!(truncate_text("", room(0)), "");
}
