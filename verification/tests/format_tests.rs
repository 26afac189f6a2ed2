use meshviewer::format_helpers::{decimal_string, format_file_size, format_number, push_decimal, truncate_path};

/// The size text computed with `f64`: the byte count divided by the unit, with
/// one decimal place.
fn size_by_float(bytes: u64) -> String {
    const KB: u64 = 1024;
    const MB: u64 = 1024 * KB;
    const GB: u64 = 1024 * MB;
    if bytes >= GB {
        format!("{:.1} GB", bytes as f64 / GB as f64)
    } else if bytes >= MB {
        format!("{:.1} MB", bytes as f64 / MB as f64)
    } else if bytes >= KB {
        format!("{:.1} KB", bytes as f64 / KB as f64)
    } else {
        format!("{} B", bytes)
    }
}

/// The middle cut of a long path, counted in characters.
fn truncate_by_chars(path: &str, max_len: usize) -> String {
    let chars: Vec<char> = path.chars().collect();
    if chars.len() <= max_len {
        return path.to_string();
    }
    if max_len <= 3 {
        return ".".repeat(max_len);
    }
    let keep = max_len - 3;
    let tail = keep / 2;
    let head = keep - tail;
    let front: String = chars[..head].iter().collect();
    let back: String = chars[chars.len() - tail..].iter().collect();
    format!("{}...{}", front, back)
}

#[test]
fn decimal_digits() {
    assert_eq!(decimal_string(0), "0");
    assert_eq!(decimal_string(7), "7");
    assert_eq!(decimal_string(1234567890), "1234567890");
    assert_eq!(decimal_string(u128::MAX), u128::MAX.to_string());
    let mut s = String::from("n=");
    push_decimal(&mut s, 42);
    assert_eq!(s, "n=42");
}

#[test]
fn number_grouping() {
    assert_eq!(format_number(1), "1");
    assert_eq!(format_number(12), "12");
    assert_eq!(format_number(123), "123");
    assert_eq!(format_number(1234), "1,234");
    assert_eq!(format_number(12345), "12,345");
    assert_eq!(format_number(123456), "123,456");
    assert_eq!(format_number(1000000), "1,000,000");
    assert_eq!(format_number(u64::MAX), "18,446,744,073,709,551,615");
}

#[test]
fn number_grouping_keeps_digits() {
    for n in [0u64, 5, 99, 1000, 987654321, 10_000_000_000, u64::MAX] {
        assert_eq!(format_number(n).replace(',', ""), n.to_string());
    }
}

#[test]
fn file_size_units() {
    assert_eq!(format_file_size(0), "0 B");
    assert_eq!(format_file_size(1023), "1023 B");
    assert_eq!(format_file_size(1536), "1.5 KB");
    assert_eq!(format_file_size(1024 * 1024), "1.0 MB");
    assert_eq!(format_file_size(1024 * 1024 * 1024), "1.0 GB");
    assert_eq!(format_file_size(1024 * 1024 - 1), "1024.0 KB");
}

#[test]
fn file_size_ties_round_to_even() {
    // 1.25 KB and 1.75 KB are exact halves of a tenth.
    assert_eq!(format_file_size(1280), "1.2 KB");
    assert_eq!(format_file_size(1792), "1.8 KB");
    assert_eq!(format_file_size(1280), size_by_float(1280));
    assert_eq!(format_file_size(1792), size_by_float(1792));
}

#[test]
fn file_size_agrees_with_float_formula() {
    let mut samples: Vec<u64> = vec![
        1,
        1023,
        1024,
        1025,
        1_500_000,
        2_500_000_000,
        10 * 1024 * 1024 * 1024,
        (1u64 << 53) - 1,
        1u64 << 53,
        (1u64 << 53) + 1,
        (1u64 << 60) + 12345,
        u64::MAX - 1,
        u64::MAX,
    ];
    let mut x: u64 = 0x9E37_79B9_7F4A_7C15;
    for _ in 0..2000 {
        x ^= x << 13;
        x ^= x >> 7;
        x ^= x << 17;
        samples.push(x >> (x % 64));
    }
    for k in 0..4096u64 {
        samples.push(1024 + k * 37);
        samples.push(1024 * 1024 + k * 52_429);
    }
    for b in samples {
        assert_eq!(format_file_size(b), size_by_float(b), "bytes = {}", b);
    }
}

#[test]
fn truncation_keeps_short_paths() {
    assert_eq!(truncate_path("", 0), "");
    assert_eq!(truncate_path("abc", 3), "abc");
    assert_eq!(truncate_path("abcd", 3), "...");
    assert_eq!(truncate_path("abcd", 0), "");
    assert_eq!(truncate_path("abcdef", 2), "..");
    assert_eq!(truncate_path("abcdef", 1), ".");
}

#[test]
fn truncation_cuts_the_middle() {
    assert_eq!(truncate_path("/very/long/path/to/some/file.glb", 20), "/very/lon...file.glb");
    assert_eq!(truncate_path("abcdefghij", 9), "abc...hij");
    assert_eq!(truncate_path("abcdefghij", 8), "abc...ij");
    assert_eq!(truncate_path("abcdefghij", 4), "a...");
    for max in 0..40 {
        let long = "/very/long/path/to/some/file.glb";
        let t = truncate_path(long, max);
        assert_eq!(t, truncate_by_chars(long, max));
        if long.len() > max {
            assert_eq!(t.chars().count(), max);
            if max >= 3 {
                assert!(t.contains("..."));
            }
        }
    }
}

#[test]
fn truncation_counts_characters() {
    assert_eq!(truncate_path("日本語", 3), "日本語");
    assert_eq!(truncate_path("ééééé", 4), "é...");
    assert_eq!(truncate_path("éééééééé", 6), "éé...é");
    let path = "/home/用户/模型/hero.glb";
    let n = path.chars().count();
    for max in 0..n + 2 {
        let t = truncate_path(path, max);
        assert_eq!(t, truncate_by_chars(path, max), "max = {}", max);
        assert!(t.chars().count() <= max, "max = {}", max);
    }
}
