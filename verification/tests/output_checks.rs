use std::time::Duration;

use rc_carve::output::{human_bytes, human_duration, indent, log_filter, pad, Elapsed, Table};

#[test]
fn formats_byte_counts() {
    assert_eq!(human_bytes(0), "0 B");
    assert_eq!(human_bytes(512), "512 B");
    assert_eq!(human_bytes(1024), "1.00 KiB");
    assert_eq!(human_bytes(1536), "1.50 KiB");
    assert_eq!(human_bytes(1024 * 1024), "1.00 MiB");
    assert_eq!(human_bytes(536_870_912), "512 MiB");
    assert_eq!(human_bytes(1024u64.pow(4)), "1.00 TiB");
}

/// What rounds up to ten or a hundred of its unit loses a decimal.
#[test]
fn byte_counts_keep_three_figures() {
    assert_eq!(human_bytes(10_234), "9.99 KiB");
    assert_eq!(human_bytes(10_236), "10.0 KiB");
    assert_eq!(human_bytes(10_240), "10.0 KiB");
    assert_eq!(human_bytes(102_348), "99.9 KiB");
    assert_eq!(human_bytes(102_349), "100 KiB");
    assert_eq!(human_bytes(102_400), "100 KiB");
    assert_eq!(human_bytes(1_048_575), "1024 KiB");
    assert_eq!(human_bytes(u64::MAX), "16.0 EiB");
}

/// The number that is told is the nearest of its kind.
#[test]
fn byte_counts_are_rounded_to_the_nearest() {
    const UNITS: [&str; 7] = ["B", "KiB", "MiB", "GiB", "TiB", "PiB", "EiB"];
    let mut state = 0x1234_5678_9ABC_DEF1u64;
    for i in 0..2000 {
        state ^= state << 13;
        state ^= state >> 7;
        state ^= state << 17;
        let n = state >> (i % 60);
        if n < 1024 {
            continue;
        }
        let told = human_bytes(n);
        let (number, unit) = told.split_once(' ').expect("unit");
        let figures = number.chars().filter(|c| c.is_ascii_digit()).count();
        assert!(figures == 3 || !number.contains('.'), "{n}: {told}");
        assert!(figures == 3 || figures == 4, "{n}: {told}");
        let decimals = number.split_once('.').map_or(0, |(_, d)| d.len());
        let size = 1024f64.powi(UNITS.iter().position(|u| *u == unit).expect("known") as i32);
        assert_eq!(number, format!("{:.*}", decimals, n as f64 / size), "{n}");
    }
}

fn elapsed(d: std::time::Duration) -> Elapsed {
    Elapsed {
        secs: d.as_secs(),
        nanos: d.subsec_nanos(),
    }
}

#[test]
fn formats_durations() {
    assert_eq!(human_duration(elapsed(Duration::from_secs_f64(1.5))), "1.5s");
    assert_eq!(human_duration(elapsed(Duration::from_secs(90))), "1m 30s");
    assert_eq!(human_duration(elapsed(Duration::from_secs(3700))), "1h 1m");
}

/// The same figures as the floating-point way to write them.
#[test]
fn durations_agree_with_floating_point() {
    let mut state = 0x9E37_79B9_7F4A_7C15u64;
    for i in 0..4000u64 {
        state ^= state << 13;
        state ^= state >> 7;
        state ^= state << 17;
        let nanos = if i % 2 == 0 {
            (state % 1_000_000_000) as u32
        } else {
            // Halfway between two tenths, where rounding shows.
            ((state % 20) * 50_000_000) as u32
        };
        let d = Duration::new((state >> 40) % 60, nanos);
        assert_eq!(human_duration(elapsed(d)), format!("{:.1}s", d.as_secs_f64()));
    }
    assert_eq!(human_duration(elapsed(Duration::new(0, 0))), "0.0s");
    assert_eq!(human_duration(elapsed(Duration::new(59, 999_999_999))), "60.0s");
}

#[test]
fn pads_cells_to_the_column_width() {
    assert_eq!(pad("ab", 5), "ab   ");
    assert_eq!(pad("abcdef", 3), "abcdef");
}

#[test]
fn numbers_are_indented_to_the_column_width() {
    assert_eq!(indent("42", 5), "   42");
    assert_eq!(indent("123456", 3), "123456");
}

#[test]
fn a_table_lines_its_columns_up() {
    let mut t = Table::new(&["name", "size"]);
    assert!(t.is_empty());
    t.row(vec!["a".to_string(), "1.00 KiB".to_string()]);
    t.row(vec!["longer \u{e9}".to_string(), "5".to_string()]);
    assert!(!t.is_empty());
    assert_eq!(
        t.lines(),
        vec![
            "name      size",
            "--------  --------",
            "a         1.00 KiB",
            "longer \u{e9}  5",
        ]
    );
}

#[test]
fn verbosity_picks_the_log_level() {
    assert_eq!(log_filter(0), "rc_=warn,warn");
    assert_eq!(log_filter(1), "rc_=info,info");
    assert_eq!(log_filter(2), "rc_=debug,debug");
    assert_eq!(log_filter(9), "rc_=trace,trace");
}
