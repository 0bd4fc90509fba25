//! How a duration, a size and a percentage read.

use pail::fmt::{bytes, cpu_pct, dash, secs};
use pail::Secs;

/// Nanoseconds in a second.
const S: i128 = 1_000_000_000;

fn clock(nanos: i128) -> Option<Secs> {
    Some(Secs { nanos })
}

fn cpu(nanos: i128) -> Secs {
    Secs { nanos }
}

#[test]
fn bytes_picks_a_unit_at_each_boundary() {
    assert_eq!(bytes(0), "0.00KiB");
    assert_eq!(bytes(1023), "1023KiB");
    assert_eq!(bytes(1024), "1.00MiB");
    assert_eq!(bytes(1024 * 1024 - 1), "1024MiB");
    assert_eq!(bytes(1024 * 1024), "1.00GiB");
}

#[test]
fn bytes_keeps_three_figures_across_the_precision_switches() {
    // under 10 gets two decimals, 10 to 100 gets one, 100 and over gets none
    assert_eq!(bytes(9 * 1024), "9.00MiB");
    assert_eq!(bytes(10 * 1024), "10.0MiB");
    assert_eq!(bytes(99 * 1024), "99.0MiB");
    assert_eq!(bytes(100 * 1024), "100MiB");
}

#[test]
fn bytes_rounds_up_into_an_extra_figure_just_below_a_switch() {
    // 99.98MiB is under the cutoff, so it takes the one-decimal branch and
    // rounds to a four-figure "100.0MiB". a character wider than the rest of
    // the column, and the only place this happens
    assert_eq!(bytes(99 * 1024 + 1013), "100.0MiB");
}

#[test]
fn bytes_has_nothing_to_say_about_a_negative() {
    assert_eq!(bytes(-1), "-");
}

#[test]
fn bytes_agrees_with_doubles_everywhere() {
    let printed = |kib: i64| {
        let (value, unit) = match kib as f64 {
            v if v < 1024.0 => (v, "KiB"),
            v if v < 1024.0 * 1024.0 => (v / 1024.0, "MiB"),
            v => (v / (1024.0 * 1024.0), "GiB"),
        };
        if value >= 100.0 {
            format!("{value:.0}{unit}")
        } else if value >= 10.0 {
            format!("{value:.1}{unit}")
        } else {
            format!("{value:.2}{unit}")
        }
    };
    let mut kib: i64 = 0;
    while kib < 3_000_000 {
        assert_eq!(bytes(kib), printed(kib), "{kib}");
        kib += 37;
    }
    for shift in 20..62 {
        for off in [-3, -1, 0, 1, 2, 5, 511, 512, 513] {
            let kib = (1i64 << shift) + off;
            assert_eq!(bytes(kib), printed(kib), "{kib}");
        }
    }
    assert_eq!(bytes(i64::MAX), printed(i64::MAX));
}

#[test]
fn cpu_pct_truncates_rather_than_rounding() {
    // gnu time divides two integers, so 199.9% reads 199%, not 200%
    assert_eq!(cpu_pct(cpu(1_999_000_000), clock(1_000_000_000)), "199%");
    assert_eq!(cpu_pct(cpu(999_900_000), clock(1_000_000_000)), "99%");
    assert_eq!(cpu_pct(cpu(4 * S), clock(1_000_000_000)), "400%");
}

#[test]
fn cpu_pct_needs_a_clock_to_divide_by() {
    assert_eq!(cpu_pct(cpu(S), None), "-");
    assert_eq!(cpu_pct(cpu(S), clock(0)), "-");
}

#[test]
fn cpu_pct_survives_the_largest_numbers_there_are() {
    assert_eq!(
        cpu_pct(cpu(i128::MAX), clock(1)),
        "17014118346046923173168730371588410572700%"
    );
    assert_eq!(
        cpu_pct(cpu(i128::MIN), clock(1)),
        "-17014118346046923173168730371588410572800%"
    );
    assert_eq!(cpu_pct(cpu(i128::MAX), clock(i128::MAX)), "100%");
    assert_eq!(cpu_pct(cpu(i128::MAX - 1), clock(i128::MAX)), "99%");
}

#[test]
fn a_clock_that_ran_backwards_reads_as_it_is() {
    assert_eq!(secs(clock(-1_500_000_000)), "-1.50");
    assert_eq!(secs(clock(-1_000_000)), format!("{:.2}", -0.001));
    assert_eq!(cpu_pct(cpu(-S), clock(S)), "-100%");
    // down rather than towards nothing
    assert_eq!(cpu_pct(cpu(-1), clock(S)), "-1%");
    assert_eq!(cpu_pct(cpu(-1_999_000_000), clock(S)), "-200%");
    assert_eq!(cpu_pct(cpu(-1_985_000_000), clock(S)), "-199%");
    assert_eq!(cpu_pct(cpu(S), clock(-S)), "-");
}

#[test]
fn secs_is_two_places_or_a_dash() {
    assert_eq!(secs(clock(1_500_000_000)), "1.50");
    assert_eq!(secs(clock(4_000_000)), "0.00");
    assert_eq!(secs(None), "-");
    assert_eq!(dash(), "-");
}

#[test]
fn secs_rounds_to_the_nearest_hundredth() {
    assert_eq!(secs(clock(5_000_001)), "0.01");
    assert_eq!(secs(clock(4_999_999)), "0.00");
    assert_eq!(secs(clock(125_000_000)), "0.12");
    assert_eq!(secs(clock(375_000_000)), "0.38");
    assert_eq!(secs(clock(61 * S + 995_000_001)), "62.00");
}

#[test]
fn secs_agrees_with_doubles_everywhere() {
    let printed = |nanos: u64| format!("{:.2}", nanos as f64 / 1e9);
    // every half of a hundredth for a while, where a double falls either side
    let mut nanos: u64 = 5_000_000;
    while nanos < 2_000_000_000_000 {
        assert_eq!(secs(clock(nanos as i128)), printed(nanos), "{nanos}");
        nanos += 10_000_000;
    }
    assert_eq!(secs(clock(5_000_000)), "0.01");
    assert_eq!(secs(clock(15_000_000)), "0.01");
    for shift in 0..53 {
        for off in [0, 1, 5, 4_999_999, 5_000_000, 5_000_001] {
            let nanos = (1u64 << shift) / 2 + off;
            assert_eq!(secs(clock(nanos as i128)), printed(nanos), "{nanos}");
        }
    }
    // past where doubles have a fraction
    assert_eq!(
        secs(clock(i128::MAX)),
        format!("{:.2}", i128::MAX as f64 / 1e9)
    );
    assert_eq!(secs(clock((1 << 53) * S)), "9007199254740992.00");
    assert_eq!(secs(clock(((1 << 53) + 1) * S)), "9007199254740992.00");
}
