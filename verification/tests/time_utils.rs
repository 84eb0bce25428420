use event_timers::time_utils::{append_decimal, calculate_tyria_time, elapsed_since, format_clock, TYRIA_REFERENCE_TIME};

#[test]
fn reference_moment_is_six_in_the_morning() {
    assert_eq!(calculate_tyria_time(TYRIA_REFERENCE_TIME), (6, 0));
    assert_eq!(calculate_tyria_time(1759264200), (6, 0));
}

#[test]
fn one_tyrian_minute_every_five_seconds() {
    assert_eq!(calculate_tyria_time(TYRIA_REFERENCE_TIME + 4), (6, 0));
    assert_eq!(calculate_tyria_time(TYRIA_REFERENCE_TIME + 5), (6, 1));
    assert_eq!(calculate_tyria_time(TYRIA_REFERENCE_TIME + 300), (7, 0));
    assert_eq!(calculate_tyria_time(TYRIA_REFERENCE_TIME + 1234 + 5), {
        let (h, m) = calculate_tyria_time(TYRIA_REFERENCE_TIME + 1234);
        let next = (h * 60 + m + 1) % 1440;
        (next / 60, next % 60)
    });
}

#[test]
fn tyrian_day_is_two_real_hours() {
    assert_eq!(calculate_tyria_time(TYRIA_REFERENCE_TIME + 3600), (18, 0));
    assert_eq!(calculate_tyria_time(TYRIA_REFERENCE_TIME + 5400), (0, 0));
    assert_eq!(calculate_tyria_time(TYRIA_REFERENCE_TIME + 7200), (6, 0));
    let t = TYRIA_REFERENCE_TIME + 987_654;
    assert_eq!(calculate_tyria_time(t + 7200), calculate_tyria_time(t));
    let t = TYRIA_REFERENCE_TIME - 987_654;
    assert_eq!(calculate_tyria_time(t - 7200), calculate_tyria_time(t));
}

#[test]
fn before_the_reference_minutes_round_toward_zero() {
    assert_eq!(calculate_tyria_time(TYRIA_REFERENCE_TIME - 1), (6, 0));
    assert_eq!(calculate_tyria_time(TYRIA_REFERENCE_TIME - 4), (6, 0));
    assert_eq!(calculate_tyria_time(TYRIA_REFERENCE_TIME - 5), (5, 59));
    assert_eq!(calculate_tyria_time(TYRIA_REFERENCE_TIME - 1800), (0, 0));
    assert_eq!(calculate_tyria_time(0), {
        let minutes = 360 + (-TYRIA_REFERENCE_TIME * 12) / 60;
        let in_day = minutes.rem_euclid(1440);
        ((in_day / 60) as i32, (in_day % 60) as i32)
    });
}

#[test]
fn tyria_time_at_the_range_edges() {
    let top = i64::MAX / 12 + TYRIA_REFERENCE_TIME;
    let (h, m) = calculate_tyria_time(top);
    assert!((0..24).contains(&h) && (0..60).contains(&m));
    let bottom = i64::MIN / 12 + TYRIA_REFERENCE_TIME;
    let (h, m) = calculate_tyria_time(bottom);
    assert!((0..24).contains(&h) && (0..60).contains(&m));
}

#[test]
fn clock_text_is_zero_padded() {
    assert_eq!(format_clock(7, 5), "07:05");
    assert_eq!(format_clock(0, 0), "00:00");
    assert_eq!(format_clock(23, 59), "23:59");
    assert_eq!(format_clock(12, 30), "12:30");
}

#[test]
fn elapsed_saturates_at_zero() {
    assert_eq!(elapsed_since(10, 25), 15);
    assert_eq!(elapsed_since(25, 10), 0);
    assert_eq!(elapsed_since(7, 7), 0);
}

#[test]
fn decimal_digits() {
    for n in [0usize, 7, 10, 99, 100, 407, 1234567, usize::MAX] {
        let mut text = String::from("n=");
        append_decimal(&mut text, n);
        assert_eq!(text, format!("n={}", n));
    }
}
