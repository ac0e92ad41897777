use depclean::size::format_size;
use depclean::size::parse_docker_size;
use depclean::text::is_white_space;

// --- parse_docker_size ---

#[test]
fn parse_docker_size_gb() {
    assert_eq!(parse_docker_size("1.5GB"), (1.5 * 1024.0 * 1024.0 * 1024.0) as u64);
}

#[test]
fn parse_docker_size_mb() {
    assert_eq!(parse_docker_size("123MB"), (123.0 * 1024.0 * 1024.0) as u64);
}

#[test]
fn parse_docker_size_kb() {
    assert_eq!(parse_docker_size("45.3kB"), (45.3 * 1024.0) as u64);
}

#[test]
fn parse_docker_size_bytes() {
    assert_eq!(parse_docker_size("512B"), 512);
}

#[test]
fn parse_docker_size_zero_gb() {
    assert_eq!(parse_docker_size("0GB"), 0);
}

#[test]
fn parse_docker_size_with_whitespace() {
    assert_eq!(parse_docker_size("  256MB  "), (256.0 * 1024.0 * 1024.0) as u64);
}

#[test]
fn parse_docker_size_invalid() {
    assert_eq!(parse_docker_size("invalid"), 0);
    assert_eq!(parse_docker_size(""), 0);
}

#[test]
fn parse_docker_size_fractional_gb() {
    assert_eq!(parse_docker_size("0.5GB"), (0.5 * 1024.0 * 1024.0 * 1024.0) as u64);
}

fn by_floating_point(number: &str, unit: u64) -> u64 {
    number.trim().parse::<f64>().map(|n| (n * unit as f64) as u64).unwrap_or(0)
}

fn agrees(number: &str) {
    let kb: u64 = 1024;
    assert_eq!(parse_docker_size(&format!("{}B", number)), by_floating_point(number, 1), "{}B", number);
    assert_eq!(parse_docker_size(&format!("{}kB", number)), by_floating_point(number, kb), "{}kB", number);
    assert_eq!(parse_docker_size(&format!("{}MB", number)), by_floating_point(number, kb * kb), "{}MB", number);
    assert_eq!(parse_docker_size(&format!("{}GB", number)), by_floating_point(number, kb * kb * kb), "{}GB", number);
}

#[test]
fn numerals_agree_with_floating_point() {
    for number in [
        "1", "1.", ".5", ".", "", "+", "-", "+1", "-1", "-0", "0.1", "00012.500", "1e3", "1E3", "1e+3", "1e-3",
        "1e", "1e+", "e3", "1.e2", ".e2", "1.5.2", "1_000", "0x10", "inf", "INF", "+Infinity", "-inf", "nan",
        "NaN", "-nan", "infinit", "infinityy", "1e400", "1e-400", "1e99999999999999999999", "1e-99999999999999999999",
        "0e99999999999999999999", "18446744073709551615", "18446744073709551616", "18446744073709550591",
        "18446744073709550592", "9007199254740993", "9007199254740992.5", "9007199254740991.5", "4503599627370496.5",
        "4503599627370497.5", "0.9999999999999999", "0.99999999999999994", "0.99999999999999994448884876874217",
        "0.99999999999999994448884876874218", "0.99999999999999999999999999", "1023.9999999999999999", " 7 ", "1.5T",
        "0.00000000046566128730773926", "0.00000000093132257461547852", "17179869183.99999999999",
        "1\u{a0}", "\u{3000}2", "12\u{e9}",
    ] {
        agrees(number);
    }
}

#[test]
fn many_numerals_agree_with_floating_point() {
    let mut state: u64 = 0x1234_5678_9abc_def1;
    for _ in 0..4000 {
        state ^= state << 13;
        state ^= state >> 7;
        state ^= state << 17;
        let whole = state >> (state % 64);
        let places = state.wrapping_mul(0x9e37_79b9_7f4a_7c15);
        agrees(&format!("{}.{}", whole, places));
        agrees(&format!("{}.{}e{}", whole % 1000, places, (state % 60) as i64 - 30));
        agrees(&format!("{}", whole));
    }
}

#[test]
fn long_numerals_agree_with_floating_point() {
    let zeros = "0".repeat(400);
    let nines = "9".repeat(400);
    agrees(&format!("{}1", zeros));
    agrees(&format!("0.{}1", zeros));
    agrees(&format!("0.{}", nines));
    agrees(&format!("1{}e-400", zeros));
    agrees(&format!("0.{}5e402", zeros));
    agrees(&nines);
    agrees(&format!("9007199254740992.5{}1", zeros));
    agrees(&format!("9007199254740992.5{}", zeros));
}

#[test]
fn only_known_units_are_read() {
    assert_eq!(parse_docker_size("12KB"), 0);
    assert_eq!(parse_docker_size("12TB"), 0);
    assert_eq!(parse_docker_size("12"), 0);
    assert_eq!(parse_docker_size("B"), 0);
    assert_eq!(parse_docker_size("GB"), 0);
    assert_eq!(parse_docker_size("3 MB"), 3 * 1024 * 1024);
    assert_eq!(parse_docker_size("\t3\u{2003}GB\n"), 3 * 1024 * 1024 * 1024);
}

// --- format_size ---

#[test]
fn format_size_bytes() {
    assert_eq!(format_size(500), "500 B");
}

#[test]
fn format_size_kb() {
    assert_eq!(format_size(2048), "2 KB");
}

#[test]
fn format_size_mb() {
    assert_eq!(format_size(5 * 1024 * 1024), "5.0 MB");
}

#[test]
fn format_size_gb() {
    assert_eq!(format_size(2 * 1024 * 1024 * 1024), "2.0 GB");
}

#[test]
fn format_size_zero() {
    assert_eq!(format_size(0), "0 B");
}

fn by_formatting(bytes: u64) -> String {
    let kb: u64 = 1024;
    let mb: u64 = 1024 * kb;
    let gb: u64 = 1024 * mb;
    if bytes >= gb {
        format!("{:.1} GB", bytes as f64 / gb as f64)
    } else if bytes >= mb {
        format!("{:.1} MB", bytes as f64 / mb as f64)
    } else if bytes >= kb {
        format!("{:.0} KB", bytes as f64 / kb as f64)
    } else {
        format!("{} B", bytes)
    }
}

#[test]
fn sizes_are_written_as_floating_point_formats_them() {
    for shift in 0..64 {
        for near in 0..70u64 {
            let bytes = (1u64 << shift).wrapping_add(near).wrapping_sub(35);
            assert_eq!(format_size(bytes), by_formatting(bytes), "{}", bytes);
        }
    }
    // Halves and quarters, where a tie is broken.
    for k in 0..5000u64 {
        assert_eq!(format_size(k * 512), by_formatting(k * 512));
        assert_eq!(format_size(k * 256 * 1024), by_formatting(k * 256 * 1024));
        let quarter = k * 256 * 1024 * 1024;
        assert_eq!(format_size(quarter), by_formatting(quarter));
        // Beyond 53 bits the number of bytes itself is rounded.
        let far = (1u64 << 61) + quarter + 1;
        assert_eq!(format_size(far), by_formatting(far));
    }
    assert_eq!(format_size(u64::MAX), "17179869184.0 GB");
    assert_eq!(format_size(1536), "2 KB");
    assert_eq!(format_size(2560), "2 KB");
    assert_eq!(format_size(1024 * 1024 + 256 * 1024), "1.2 MB");
    assert_eq!(format_size(1024 * 1024 - 1), "1024 KB");
}

#[test]
fn many_sizes_are_written_as_floating_point_formats_them() {
    let mut state: u64 = 0xdead_beef_1234_5671;
    for _ in 0..20000 {
        state ^= state << 13;
        state ^= state >> 7;
        state ^= state << 17;
        let bytes = state >> (state % 64);
        assert_eq!(format_size(bytes), by_formatting(bytes), "{}", bytes);
    }
}

#[test]
fn whole_sizes_come_back() {
    for n in [0u64, 1, 9, 10, 1023, 8191, 8388607] {
        assert_eq!(parse_docker_size(&format!("{}B", n)), n);
        assert_eq!(parse_docker_size(&format!("{}kB", n)), n * 1024);
        assert_eq!(parse_docker_size(&format!("{}MB", n)), n * 1024 * 1024);
        assert_eq!(parse_docker_size(&format!("{}GB", n)), n * 1024 * 1024 * 1024);
    }
    assert_eq!(parse_docker_size("9007199254740991B"), 9007199254740991);
}

#[test]
fn white_space_is_that_of_unicode() {
    for code in 0..=0x10ffffu32 {
        if let Some(c) = char::from_u32(code) {
            assert_eq!(is_white_space(c), c.is_whitespace(), "{:x}", code);
        }
    }
}

#[test]
fn whole_sizes_with_noughts_in_front_are_read_back() {
    let n: u64 = (1 << 53) - 1;
    for digits in [format!("{}", n), format!("000{}", n)] {
        assert_eq!(parse_docker_size(&format!("{}B", digits)), n);
        assert_eq!(parse_docker_size(&format!("{}kB", digits)), n * 1024);
        assert_eq!(parse_docker_size(&format!("{}MB", digits)), u64::MAX);
    }
    assert_eq!(parse_docker_size("0017179869183GB"), 17179869183 * 1024 * 1024 * 1024);
    assert_eq!(parse_docker_size("17179869184GB"), u64::MAX);
}
