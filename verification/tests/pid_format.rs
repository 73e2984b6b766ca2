use nono_cli::decimal::{format_pid_decimal, MAX_PID_DIGITS};

/// The self-attach write depends on a correct, allocation-free decimal
/// rendering of the child's pid; spot-check the encoder across widths.
#[test]
fn formats_pid_as_decimal() {
    let mut buf = [0u8; MAX_PID_DIGITS];
    assert_eq!(format_pid_decimal(1, &mut buf), b"1");
    assert_eq!(format_pid_decimal(7, &mut buf), b"7");
    assert_eq!(format_pid_decimal(12345, &mut buf), b"12345");
    assert_eq!(format_pid_decimal(i32::MAX, &mut buf), b"2147483647");
}

#[test]
fn formats_nonpositive_pid_defensively_as_zero() {
    let mut buf = [0u8; MAX_PID_DIGITS];
    assert_eq!(format_pid_decimal(0, &mut buf), b"0");
    assert_eq!(format_pid_decimal(-1, &mut buf), b"0");
}

/// `format_pid_decimal` must equal the allocating `i32::to_string()` for every
/// positive pid, including the boundaries that exercise digit-count transitions
/// and the exact buffer fill at `i32::MAX`.
#[test]
fn format_pid_decimal_matches_to_string_over_wide_range_and_boundaries() {
    let mut buf = [0u8; MAX_PID_DIGITS];

    // Explicit boundaries: digit-count transitions + exact buffer fill.
    for &pid in &[
        1i32,
        9,
        10,
        99,
        100,
        999,
        1000,
        9999,
        10000,
        1_000_000,
        i32::MAX,
    ] {
        assert_eq!(
            format_pid_decimal(pid, &mut buf),
            pid.to_string().as_bytes(),
            "pid {pid} must encode identically to to_string()"
        );
    }
    // i32::MAX fills the buffer exactly: 10 digits, no leading slack.
    assert_eq!(format_pid_decimal(i32::MAX, &mut buf).len(), MAX_PID_DIGITS);

    // Dense sweep over a contiguous low range (covers the 9->10, 99->100,
    // 999->1000 width transitions).
    for pid in 1..=10_000_i32 {
        assert_eq!(
            format_pid_decimal(pid, &mut buf),
            pid.to_string().as_bytes(),
            "mismatch at pid {pid}"
        );
    }
    // Wide property sweep across the positive i32 range (a prime stride avoids
    // aliasing to round numbers while staying fast).
    let mut pid: i64 = 1;
    while pid <= i32::MAX as i64 {
        let p = pid as i32;
        assert_eq!(format_pid_decimal(p, &mut buf), p.to_string().as_bytes());
        pid += 7919;
    }

    // Non-positive defensively renders as "0" (a real pid never is); i32::MIN
    // is included because a naive `pid.abs()` would overflow/panic.
    for pid in [0_i32, -1, -42, -2_147_483_647, i32::MIN] {
        assert_eq!(
            format_pid_decimal(pid, &mut buf),
            b"0",
            "non-positive pid {pid} must render as 0"
        );
    }
}

/// Only the tail of the buffer that holds the digits is written.
#[test]
fn leaves_the_head_of_the_buffer_alone() {
    let mut buf = [b'x'; MAX_PID_DIGITS];
    assert_eq!(format_pid_decimal(407, &mut buf), b"407");
    assert_eq!(&buf, b"xxxxxxx407");
}
