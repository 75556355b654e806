use task_explorer::format::{format_bytes, format_duration, format_rate};

fn float_reference(bytes: u64) -> String {
    const KB: u64 = 1024;
    const MB: u64 = KB * 1024;
    const GB: u64 = MB * 1024;
    const TB: u64 = GB * 1024;
    if bytes >= TB {
        format!("{:.2} TB", bytes as f64 / TB as f64)
    } else if bytes >= GB {
        format!("{:.2} GB", bytes as f64 / GB as f64)
    } else if bytes >= MB {
        format!("{:.1} MB", bytes as f64 / MB as f64)
    } else if bytes >= KB {
        format!("{:.1} KB", bytes as f64 / KB as f64)
    } else {
        format!("{} B", bytes)
    }
}

#[test]
fn format_bytes_small_values() {
    assert_eq!(format_bytes(0), "0 B");
    assert_eq!(format_bytes(1), "1 B");
    assert_eq!(format_bytes(1023), "1023 B");
}

#[test]
fn format_bytes_each_unit() {
    assert_eq!(format_bytes(1024), "1.0 KB");
    assert_eq!(format_bytes(1536), "1.5 KB");
    assert_eq!(format_bytes(10 * 1024 * 1024), "10.0 MB");
    assert_eq!(format_bytes(5 * 1024 * 1024 * 1024 / 4), "1.25 GB");
    assert_eq!(format_bytes(2 * 1024 * 1024 * 1024 * 1024), "2.00 TB");
}

#[test]
fn format_bytes_halves_go_to_even() {
    // 1280 / 1024 = 1.25 exactly, 1792 / 1024 = 1.75 exactly.
    assert_eq!(format_bytes(1280), "1.2 KB");
    assert_eq!(format_bytes(1792), "1.8 KB");
    assert_eq!(format_bytes(1280), float_reference(1280));
    assert_eq!(format_bytes(1792), float_reference(1792));
}

#[test]
fn format_bytes_agrees_with_float_formatting() {
    let mut samples: Vec<u64> = Vec::new();
    for k in 0..64u32 {
        let p = 1u64 << k;
        samples.push(p);
        samples.push(p - 1);
        samples.push(p.saturating_add(1));
        samples.push(p / 2 * 3);
    }
    let mut x: u64 = 0x9E37_79B9_7F4A_7C15;
    for _ in 0..20000 {
        x ^= x << 13;
        x ^= x >> 7;
        x ^= x << 17;
        samples.push(x);
        samples.push(x >> (x % 60));
    }
    for t in 0..4000u64 {
        samples.push(1024 * 1024 + t * 13107);
        samples.push(1024 + t);
        samples.push((1u64 << 40) * t / 400);
    }
    samples.push(u64::MAX);
    samples.push(u64::MAX - 1024);
    samples.push((1u64 << 53) + 1);
    samples.push((1u64 << 54) + 2);
    samples.push((1u64 << 54) + 6);
    for b in samples {
        assert_eq!(format_bytes(b), float_reference(b), "bytes = {}", b);
    }
}

#[test]
fn format_rate_appends_per_second() {
    assert_eq!(format_rate(0), "0 B/s");
    assert_eq!(format_rate(2048), "2.0 KB/s");
    assert_eq!(format_rate(3 * 1024 * 1024), "3.0 MB/s");
}

#[test]
fn format_duration_each_shape() {
    assert_eq!(format_duration(0), "0s");
    assert_eq!(format_duration(59), "59s");
    assert_eq!(format_duration(60), "1m 0s");
    assert_eq!(format_duration(3599), "59m 59s");
    assert_eq!(format_duration(3600), "1h 0m 0s");
    assert_eq!(format_duration(3 * 3600 + 4 * 60 + 5), "3h 4m 5s");
    assert_eq!(format_duration(86400), "1d 0h 0m");
    assert_eq!(format_duration(2 * 86400 + 3 * 3600 + 4 * 60 + 59), "2d 3h 4m");
}
