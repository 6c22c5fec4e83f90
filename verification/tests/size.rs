use edu_sync_cli::format_size;

fn reference(size: u64) -> String {
    if size >= 1024 * 1024 {
        format!("{:.1} MB", size as f64 / (1024.0 * 1024.0))
    } else if size >= 1024 {
        format!("{:.1} KB", size as f64 / 1024.0)
    } else {
        format!("{} B", size)
    }
}

#[test]
fn format_size_small_sizes_in_bytes() {
    assert_eq!(format_size(0), "0 B");
    assert_eq!(format_size(1), "1 B");
    assert_eq!(format_size(512), "512 B");
    assert_eq!(format_size(1023), "1023 B");
}

#[test]
fn format_size_kilobytes_and_megabytes() {
    assert_eq!(format_size(1024), "1.0 KB");
    assert_eq!(format_size(1536), "1.5 KB");
    assert_eq!(format_size(1024 * 1024), "1.0 MB");
    assert_eq!(format_size(5 * 1024 * 1024 + 512 * 1024), "5.5 MB");
}

#[test]
fn format_size_ties_round_to_even() {
    // 1.25 KB and 1.75 KB are exact ties at one decimal.
    assert_eq!(format_size(1280), reference(1280));
    assert_eq!(format_size(1792), reference(1792));
    assert_eq!(format_size(1024 * 1024 + 256 * 1024), reference(1024 * 1024 + 256 * 1024));
}

#[test]
fn format_size_matches_double_formatting() {
    let mut n: u64 = 1;
    while n < 50_000_000 {
        assert_eq!(format_size(n), reference(n), "size {}", n);
        n = n * 3 / 2 + 7;
    }
    for n in 1000..5000u64 {
        assert_eq!(format_size(n), reference(n), "size {}", n);
    }
}

#[test]
fn format_size_huge_sizes_round_like_a_double() {
    let samples = [
        (1u64 << 53) - 1,
        1u64 << 53,
        (1u64 << 53) + 1,
        (1u64 << 53) + 3,
        (1u64 << 60) + 12345,
        u64::MAX - 1,
        u64::MAX,
        123_456_789_012_345_678,
    ];
    for n in samples {
        assert_eq!(format_size(n), reference(n), "size {}", n);
    }
}
