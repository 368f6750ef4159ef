use purify::format_bytes;

#[test]
fn format_bytes_handles_zero() {
    assert_eq!(format_bytes(0), "0 B");
}

#[test]
fn format_bytes_stays_in_bytes_below_a_kib() {
    assert_eq!(format_bytes(512), "512 B");
    assert_eq!(format_bytes(1023), "1023 B");
}

#[test]
fn format_bytes_scales_to_binary_units() {
    assert_eq!(format_bytes(1024), "1.00 KiB");
    assert_eq!(format_bytes(1024 * 1024), "1.00 MiB");
    assert_eq!(format_bytes(1024 * 1024 * 1024), "1.00 GiB");
}

#[test]
fn format_bytes_rounds_to_two_decimals() {
    assert_eq!(format_bytes(1536), "1.50 KiB");
}

/// The same computation done in floating point, as a reference.
fn float_reference(bytes: u64) -> String {
    const UNITS: [&str; 6] = ["B", "KiB", "MiB", "GiB", "TiB", "PiB"];
    if bytes == 0 {
        return "0 B".to_string();
    }
    let mut value = bytes as f64;
    let mut unit = 0;
    while value >= 1024.0 && unit < UNITS.len() - 1 {
        value /= 1024.0;
        unit += 1;
    }
    if unit == 0 {
        format!("{bytes} B")
    } else {
        format!("{value:.2} {}", UNITS[unit])
    }
}

#[test]
fn format_bytes_agrees_with_floating_point_rounding() {
    let mut samples: Vec<u64> = vec![
        1, 9, 10, 99, 100, 1023, 1024, 1025, 1152, 1535, 1536, 1537, 10_239, 10_240,
        1_048_575, 1_048_576, 1_073_741_823, 5_000_000_000, 1 << 40, (1 << 50) - 1, 1 << 50,
        (1 << 53) - 1, 1 << 53, (1 << 53) + 1, (1 << 53) + 3, u64::MAX, u64::MAX - 1, 1 << 63,
        (1 << 60) + 12345, 999_999_999_999_999_999,
    ];
    let mut x: u64 = 0x9E37_79B9_7F4A_7C15;
    for _ in 0..2000 {
        x ^= x << 13;
        x ^= x >> 7;
        x ^= x << 17;
        samples.push(x >> (x % 64));
    }
    for b in samples {
        assert_eq!(format_bytes(b), float_reference(b), "bytes = {b}");
    }
}

#[test]
fn format_bytes_tie_rounds_to_even() {
    // 1152 / 1024 = 1.125 exactly
    assert_eq!(format_bytes(1152), "1.12 KiB");
    assert_eq!(format_bytes(u64::MAX), "16.00 EiB".replace("EiB", "PiB").replace("16.00", "16384.00"));
}
