use parquet_viewer::size::{fmt_byte_count, fmt_num, fmt_size};

/// The status bar's size text as the viewer computes it with floating point.
fn float_status_size(n: u64) -> String {
    let mut v = n as f64;
    for unit in &["B", "KB", "MB", "GB"] {
        if v < 1024.0 {
            return if *unit == "B" { format!("{v:.0} {unit}") } else { format!("{v:.1} {unit}") };
        }
        v /= 1024.0;
    }
    format!("{v:.1} TB")
}

/// The metadata's size text as the viewer computes it with floating point.
fn float_meta_size(bytes: f64) -> String {
    let mut value = bytes;
    for unit in ["B", "KB", "MB", "GB", "TB"] {
        if value < 1024.0 {
            if unit == "B" {
                return format!("{value:.0} {unit}");
            }
            return format!("{value:.1} {unit}");
        }
        value /= 1024.0;
    }
    format!("{value:.1} PB")
}

fn samples() -> Vec<u64> {
    let mut v: Vec<u64> = vec![0, 1, 5, 999, 1000, 1023, 1024, 1025, 1280, 1331, 1536, 10239, 10240,
        1048575, 1048576, 1572864, 1073741823, 1073741824, 1099511627775, 1099511627776,
        1125899906842623, 1125899906842624, u64::MAX, u64::MAX - 1, 1 << 53, (1 << 53) + 1,
        (1 << 53) + 3, (1 << 60) + 12345, 9_007_199_254_740_993, 12_345_678_901_234_567_890];
    let mut x: u64 = 0x9E37_79B9_7F4A_7C15;
    for _ in 0..20000 {
        x ^= x << 13;
        x ^= x >> 7;
        x ^= x << 17;
        let bits = x % 64;
        v.push(x >> (63 - bits));
        v.push((x % 4096) * 1024 + (x % 3) * 512);
    }
    for k in 0..5000u64 {
        v.push(k * 512);
        v.push(k * 1024 * 1024 / 10);
    }
    v
}

#[test]
fn status_size_matches_float_formatting() {
    for n in samples() {
        assert_eq!(fmt_size(n), float_status_size(n), "n = {n}");
    }
}

#[test]
fn metadata_size_matches_float_formatting() {
    for n in samples() {
        assert_eq!(fmt_byte_count(n as i128), float_meta_size(n as f64), "n = {n}");
        let s = (n / 2) as i64;
        assert_eq!(fmt_byte_count(-(s as i128)), float_meta_size(-s as f64), "s = {s}");
    }
    assert_eq!(fmt_byte_count(i64::MIN as i128), float_meta_size(i64::MIN as f64));
}

#[test]
fn size_examples() {
    assert_eq!(fmt_size(0), "0 B");
    assert_eq!(fmt_size(1023), "1023 B");
    assert_eq!(fmt_size(1024), "1.0 KB");
    assert_eq!(fmt_size(1536), "1.5 KB");
    assert_eq!(fmt_size(1280), "1.2 KB");
    assert_eq!(fmt_size(1048575), "1024.0 KB");
    assert_eq!(fmt_size(1 << 40), "1.0 TB");
    assert_eq!(fmt_byte_count(1 << 50), "1.0 PB");
    assert_eq!(fmt_byte_count(-5), "-5 B");
}

#[test]
fn grouped_numbers() {
    assert_eq!(fmt_num(0), "0");
    assert_eq!(fmt_num(999), "999");
    assert_eq!(fmt_num(1000), "1,000");
    assert_eq!(fmt_num(1234567), "1,234,567");
    assert_eq!(fmt_num(100200), "100,200");
    assert_eq!(fmt_num(usize::MAX), "18,446,744,073,709,551,615");
}

#[test]
fn grouped_numbers_read_back_without_commas() {
    for n in [0usize, 7, 999, 1000, 1001, 999_999, 1_000_000, 12_345_678, usize::MAX] {
        let s = fmt_num(n);
        assert_eq!(s.replace(',', ""), n.to_string());
        for group in s.split(',').skip(1) {
            assert_eq!(group.len(), 3);
        }
    }
    assert_eq!(fmt_num(1_234_567), "1,234,567");
}
