use vstd::prelude::*;

verus! {

/// 2025-09-30 17:30:00 UTC-3, a moment at which the Tyrian clock read 06:00.
pub const TYRIA_REFERENCE_TIME: i64 = 1759264200;

/// Division of `a` by a positive `b`, rounded toward zero (Rust's `/` on integers).
pub open spec fn spec_div_toward_zero(a: int, b: int) -> int {
    if a >= 0 {
        a / b
    } else {
        -((-a) / b)
    }
}

/// Whole Tyrian minutes elapsed since the reference moment (negative before it):
/// one real second is twelve Tyrian seconds.
pub open spec fn spec_tyria_minutes_elapsed(utc_timestamp: int) -> int {
    spec_div_toward_zero((utc_timestamp - TYRIA_REFERENCE_TIME) * 12, 60)
}

/// The Tyrian minute of the day, counted from Tyrian midnight, in `0..1440`.
pub open spec fn spec_tyria_minute_of_day(utc_timestamp: int) -> int {
    (360 + spec_tyria_minutes_elapsed(utc_timestamp)) % 1440
}

/// The timestamps on which the computation stays within `i64`.
pub open spec fn tyria_time_in_range(utc_timestamp: int) -> bool {
    i64::MIN <= (utc_timestamp - TYRIA_REFERENCE_TIME) * 12 <= i64::MAX
}

/// The Tyrian time of day `(hours, minutes)` at a Unix timestamp.
pub fn calculate_tyria_time(utc_timestamp: i64) -> (hm: (i32, i32))
    requires
        tyria_time_in_range(utc_timestamp as int),
    ensures
        hm.0 == spec_tyria_minute_of_day(utc_timestamp as int) / 60,
        hm.1 == spec_tyria_minute_of_day(utc_timestamp as int) % 60,
        hm.0 * 60 + hm.1 == spec_tyria_minute_of_day(utc_timestamp as int),
        0 <= hm.0 < 24,
        0 <= hm.1 < 60,
{
    let reference_time: i64 = TYRIA_REFERENCE_TIME;
    let real_seconds_elapsed: i64 = utc_timestamp - reference_time;
    let tyria_seconds_elapsed: i64 = real_seconds_elapsed * 12;
    let tyria_minutes_elapsed: i64 = match tyria_seconds_elapsed.checked_div(60) {
        Some(q) => q,
        None => 0,
    };
    let total_tyria_minutes: i64 = 360 + tyria_minutes_elapsed;
    let tyria_minutes_in_day: i64 = match total_tyria_minutes.checked_rem_euclid(1440) {
        Some(r) => r,
        None => 0,
    };
    let in_day: u64 = tyria_minutes_in_day as u64;
    let hours: i32 = (in_day / 60) as i32;
    let minutes: i32 = (in_day % 60) as i32;
    (hours, minutes)
}

/// The character of a decimal digit.
pub open spec fn digit_char(d: int) -> char {
    ((48 + d) as u32) as char
}

/// Whether `c` is one of the decimal digits `0`..`9`.
pub open spec fn is_digit(c: char) -> bool {
    48 <= (c as u32) <= 57
}

/// The value of a decimal digit character.
pub open spec fn digit_value(c: char) -> int {
    (c as u32) - 48
}

/// The number a run of decimal digit characters spells, most significant first.
pub open spec fn digits_value(s: Seq<char>) -> int
    decreases s.len(),
{
    if s.len() == 0 {
        0
    } else {
        digits_value(s.drop_last()) * 10 + digit_value(s.last())
    }
}

/// `hh:mm`, each field zero-padded to two digits.
pub open spec fn spec_clock_text(hour: int, minute: int) -> Seq<char> {
    seq![digit_char(hour / 10), digit_char(hour % 10), ':', digit_char(minute / 10), digit_char(minute % 10)]
}

pub(crate) fn digit_text(d: i32) -> (text: &'static str)
    requires
        0 <= d < 10,
    ensures
        text@ == seq![digit_char(d as int)],
{
    proof {
        reveal_strlit("0");
        reveal_strlit("1");
        reveal_strlit("2");
        reveal_strlit("3");
        reveal_strlit("4");
        reveal_strlit("5");
        reveal_strlit("6");
        reveal_strlit("7");
        reveal_strlit("8");
        reveal_strlit("9");
    }
    if d == 0 {
        "0"
    } else if d == 1 {
        "1"
    } else if d == 2 {
        "2"
    } else if d == 3 {
        "3"
    } else if d == 4 {
        "4"
    } else if d == 5 {
        "5"
    } else if d == 6 {
        "6"
    } else if d == 7 {
        "7"
    } else if d == 8 {
        "8"
    } else {
        "9"
    }
}

/// Renders a local clock time as `hh:mm`, each field zero-padded to two digits.
pub fn format_clock(hour: i32, minute: i32) -> (text: String)
    requires
        0 <= hour < 24,
        0 <= minute < 60,
    ensures
        text@ == spec_clock_text(hour as int, minute as int),
        text@.len() == 5,
        text@[2] == ':',
        is_digit(text@[0]) && is_digit(text@[1]) && is_digit(text@[3]) && is_digit(text@[4]),
        digit_value(text@[0]) * 10 + digit_value(text@[1]) == hour,
        digit_value(text@[3]) * 10 + digit_value(text@[4]) == minute,
{
    let mut text = String::from_str(digit_text(hour / 10));
    text.append(digit_text(hour % 10));
    proof {
        reveal_strlit(":");
    }
    text.append(":");
    text.append(digit_text(minute / 10));
    text.append(digit_text(minute % 10));
    assert(text@ =~= spec_clock_text(hour as int, minute as int));
    proof {
        law_clock_text_reads_back(hour as int, minute as int);
    }
    text
}

proof fn lemma_digit_char(d: int)
    requires
        0 <= d < 10,
    ensures
        is_digit(digit_char(d)),
        digit_value(digit_char(d)) == d,
{
}

/// The clock text reads back as the time it renders: five characters, two digits
/// spelling the hour, a colon, and two digits spelling the minute.
pub proof fn law_clock_text_reads_back(hour: int, minute: int)
    requires
        0 <= hour < 24,
        0 <= minute < 60,
    ensures
        spec_clock_text(hour, minute).len() == 5,
        spec_clock_text(hour, minute)[2] == ':',
        is_digit(spec_clock_text(hour, minute)[0]) && is_digit(spec_clock_text(hour, minute)[1]),
        is_digit(spec_clock_text(hour, minute)[3]) && is_digit(spec_clock_text(hour, minute)[4]),
        digit_value(spec_clock_text(hour, minute)[0]) * 10 + digit_value(spec_clock_text(hour, minute)[1]) == hour,
        digit_value(spec_clock_text(hour, minute)[3]) * 10 + digit_value(spec_clock_text(hour, minute)[4]) == minute,
{
    lemma_digit_char(hour / 10);
    lemma_digit_char(hour % 10);
    lemma_digit_char(minute / 10);
    lemma_digit_char(minute % 10);
}

/// The Tyrian day lasts two real hours: away from the reference moment itself,
/// the clock shows the same time 7200 seconds later.
pub proof fn law_tyria_day_is_two_real_hours(utc_timestamp: int)
    requires
        utc_timestamp >= TYRIA_REFERENCE_TIME || utc_timestamp + 7200 <= TYRIA_REFERENCE_TIME,
    ensures
        spec_tyria_minute_of_day(utc_timestamp + 7200) == spec_tyria_minute_of_day(utc_timestamp),
{
    let e = utc_timestamp - TYRIA_REFERENCE_TIME;
    assert((e + 7200) * 12 == e * 12 + 1440 * 60);
    if e >= 0 {
        assert((e * 12 + 1440 * 60) / 60 == e * 12 / 60 + 1440);
    } else {
        assert(-((e + 7200) * 12) == -(e * 12) - 1440 * 60);
        assert((-(e * 12) - 1440 * 60) / 60 == -(e * 12) / 60 - 1440);
    }
}

/// The Tyrian clock read as a formula of real time: from the reference moment on it
/// shows 06:00 plus one minute for every five whole real seconds past it; before
/// it, 06:00 minus one minute for every five whole real seconds still to go (so it
/// stays on one minute for five real seconds, and wraps at midnight).
pub proof fn law_tyria_clock_from_real_time(utc_timestamp: int)
    ensures
        utc_timestamp >= TYRIA_REFERENCE_TIME ==> spec_tyria_minute_of_day(utc_timestamp)
            == (360 + (utc_timestamp - TYRIA_REFERENCE_TIME) / 5) % 1440,
        utc_timestamp <= TYRIA_REFERENCE_TIME ==> spec_tyria_minute_of_day(utc_timestamp)
            == (360 - (TYRIA_REFERENCE_TIME - utc_timestamp) / 5) % 1440,
{
    let e = utc_timestamp - TYRIA_REFERENCE_TIME;
    if e >= 0 {
        assert((e * 12) / 60 == e / 5) by (nonlinear_arith)
            requires
                e >= 0,
        ;
    } else {
        let d = -e;
        assert(-(e * 12) == d * 12);
        assert((d * 12) / 60 == d / 5) by (nonlinear_arith)
            requires
                d >= 0,
        ;
    }
}

/// From the reference moment on, the Tyrian clock advances one minute every five
/// real seconds.
pub proof fn law_tyria_minute_every_five_seconds(utc_timestamp: int)
    requires
        utc_timestamp >= TYRIA_REFERENCE_TIME,
    ensures
        spec_tyria_minute_of_day(utc_timestamp + 5) == (spec_tyria_minute_of_day(utc_timestamp) + 1) % 1440,
{
    let e = utc_timestamp - TYRIA_REFERENCE_TIME;
    assert((e + 5) * 12 == e * 12 + 60);
    assert((e * 12 + 60) / 60 == e * 12 / 60 + 1);
}

/// Time passed from `since` to `now` on a monotonic clock, never negative: a
/// `since` later than `now` counts as no time at all.
pub open spec fn spec_elapsed(since: int, now: int) -> int {
    if now >= since {
        now - since
    } else {
        0
    }
}

/// Nanoseconds passed from `since` to `now` on a monotonic clock, saturating at zero.
pub fn elapsed_since(since: u128, now: u128) -> (elapsed: u128)
    ensures
        elapsed == spec_elapsed(since as int, now as int),
{
    if now >= since {
        now - since
    } else {
        0
    }
}

/// The decimal digits of `n`, most significant first, without leading zeros.
pub open spec fn spec_decimal(n: nat) -> Seq<char>
    decreases n,
{
    if n < 10 {
        seq![digit_char(n as int)]
    } else {
        spec_decimal(n / 10).push(digit_char((n % 10) as int))
    }
}

/// Appends the decimal digits of `n` to `text`.
pub fn append_decimal(text: &mut String, n: usize)
    ensures
        final(text)@ == old(text)@ + spec_decimal(n as nat),
    decreases n,
{
    if n >= 10 {
        append_decimal(text, n / 10);
    }
    let ghost before = text@;
    text.append(digit_text((n % 10) as i32));
    proof {
        if n >= 10 {
            assert(old(text)@ + spec_decimal(n as nat) =~= before + seq![digit_char((n % 10) as int)]);
        } else {
            assert(old(text)@ + spec_decimal(n as nat) =~= before + seq![digit_char((n % 10) as int)]);
        }
    }
}

/// The decimal text of `n` reads back as `n`: it is all digits, spells `n`, and
/// starts with a zero only when `n` is a single digit.
pub proof fn law_decimal_reads_back(n: nat)
    ensures
        forall|i: int| 0 <= i < spec_decimal(n).len() ==> is_digit(#[trigger] spec_decimal(n)[i]),
        digits_value(spec_decimal(n)) == n,
        spec_decimal(n).len() >= 1,
        n >= 10 ==> spec_decimal(n)[0] != '0',
    decreases n,
{
    lemma_digit_char((n % 10) as int);
    if n < 10 {
        assert(spec_decimal(n).drop_last() =~= Seq::<char>::empty());
        assert(digits_value(spec_decimal(n)) == digits_value(Seq::<char>::empty()) * 10 + digit_value(spec_decimal(n).last()));
    } else {
        law_decimal_reads_back(n / 10);
        let s = spec_decimal(n);
        let p = spec_decimal(n / 10);
        assert(s.drop_last() =~= p);
        assert(s[0] == p[0]);
        assert forall|i: int| 0 <= i < s.len() implies is_digit(#[trigger] s[i]) by {
            if i < p.len() {
                assert(s[i] == p[i]);
            }
        }
        assert(s.last() == digit_char((n % 10) as int));
        assert(digits_value(s) == digits_value(p) * 10 + digit_value(s.last()));
        assert(n == (n / 10) * 10 + n % 10);
        if n / 10 < 10 {
            assert(p[0] == digit_char((n / 10) as int));
            lemma_digit_char((n / 10) as int);
            assert(digit_value(p[0]) == n / 10);
        }
    }
}

} // verus!
