use delocal_engine::time::{
    civil_from_days, format_utc_compact, COMMIT_DEADLINE_NANOS, DEBOUNCE_NANOS, FETCH_STALL_NANOS,
    NANOS_PER_SECOND, Timestamp, WINDOW_NANOS,
};

#[test]
fn civil_date_table() {
    let s = NANOS_PER_SECOND;
    let cases: [(i64, &str); 11] = [
        (0, "19700101-000000"),
        (-s, "19691231-235959"),
        (951_782_400 * s, "20000229-000000"), // 2000 is a leap year (400 rule)
        (1_709_251_199 * s, "20240229-235959"), // 2024-02-29
        (1_709_251_200 * s, "20240301-000000"),
        (2_147_483_647 * s, "20380119-031407"), // i32 seconds rollover
        (2_147_483_648 * s, "20380119-031408"),
        (4_107_542_399 * s, "21000228-235959"), // 2100 is not a leap year
        (4_107_542_400 * s, "21000301-000000"),
        (1_758_551_405 * s + 999_999_999, "20250922-143005"), // sub-second part ignored
        (i64::MAX, "22620411-234716"),
    ];
    for (nanos, want) in cases {
        assert_eq!(format_utc_compact(nanos), want, "nanos = {nanos}");
    }
}

#[test]
fn civil_from_days_round_trips_over_a_wide_range() {
    // Walk day by day across several century boundaries and check the
    // calendar advances by exactly one day each time.
    let mut prev = civil_from_days(-150_000); // ~1559
    for day in -149_999..200_000 {
        let (y, m, d) = civil_from_days(day);
        let days_in_month = match m {
            1 | 3 | 5 | 7 | 8 | 10 | 12 => 31,
            4 | 6 | 9 | 11 => 30,
            _ => {
                if (y % 4 == 0 && y % 100 != 0) || y % 400 == 0 {
                    29
                } else {
                    28
                }
            }
        };
        let expected = if prev.2 < days_in_month_of(prev) {
            (prev.0, prev.1, prev.2 + 1)
        } else if prev.1 < 12 {
            (prev.0, prev.1 + 1, 1)
        } else {
            (prev.0 + 1, 1, 1)
        };
        assert_eq!((y, m, d), expected, "day {day}");
        assert!(d <= days_in_month);
        prev = (y, m, d);
    }
}

fn days_in_month_of((y, m, _): (i64, u32, u32)) -> u32 {
    match m {
        1 | 3 | 5 | 7 | 8 | 10 | 12 => 31,
        4 | 6 | 9 | 11 => 30,
        _ => {
            if (y % 4 == 0 && y % 100 != 0) || y % 400 == 0 {
                29
            } else {
                28
            }
        }
    }
}

#[test]
fn arithmetic_and_ordering() {
    let t = Timestamp::from_unix_nanos(100);
    assert_eq!(t.plus_nanos(50).as_unix_nanos(), 150);
    assert_eq!(t.plus_nanos(50).since(t), 50);
    assert_eq!(t.since(t.plus_nanos(50)), -50);
    assert!(t < t.plus_nanos(1));
    assert_eq!(Timestamp::default().as_unix_nanos(), 0);
}

#[test]
fn saturates_at_the_ends() {
    let max = Timestamp::from_unix_nanos(i64::MAX);
    assert_eq!(max.plus_nanos(1), max);
    let min = Timestamp::from_unix_nanos(i64::MIN);
    assert_eq!(min.plus_nanos(-1), min);
    assert_eq!(max.since(min), i64::MAX);
}

#[test]
fn constants_are_what_the_design_says() {
    assert_eq!(DEBOUNCE_NANOS, 2_000_000_000);
    assert_eq!(WINDOW_NANOS, 10_000_000_000);
    assert_eq!(FETCH_STALL_NANOS, 60_000_000_000);
    assert_eq!(COMMIT_DEADLINE_NANOS, 30_000_000_000);
}
