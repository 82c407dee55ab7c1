//! Parsing of `HH:MM:SS` time-of-day strings into seconds since midnight.
//!
//! All times handled by the search engine live within a single service day;
//! a parsed value is therefore always below [`SECONDS_PER_DAY`].

use vstd::prelude::*;

verus! {

/// Number of seconds in one service day; every parsed time is below this.
pub const SECONDS_PER_DAY: usize = 86400;

/// `c` is an ASCII decimal digit.
pub open spec fn is_digit(c: char) -> bool {
    48 <= c as int <= 57
}

/// Numeric value of an ASCII decimal digit.
pub open spec fn digit_val(c: char) -> int {
    c as int - 48
}

/// `s` is exactly of the shape `HH:MM:SS` and denotes a valid time of day.
pub open spec fn valid_time_str(s: Seq<char>) -> bool {
    &&& s.len() == 8
    &&& s[2] == ':'
    &&& s[5] == ':'
    &&& is_digit(s[0]) && is_digit(s[1])
    &&& is_digit(s[3]) && is_digit(s[4])
    &&& is_digit(s[6]) && is_digit(s[7])
    &&& time_hours(s) < 24
    &&& time_minutes(s) < 60
    &&& time_secs_field(s) < 60
}

/// The hour field of an `HH:MM:SS` string.
pub open spec fn time_hours(s: Seq<char>) -> int {
    10 * digit_val(s[0]) + digit_val(s[1])
}

/// The minute field of an `HH:MM:SS` string.
pub open spec fn time_minutes(s: Seq<char>) -> int {
    10 * digit_val(s[3]) + digit_val(s[4])
}

/// The second field of an `HH:MM:SS` string.
pub open spec fn time_secs_field(s: Seq<char>) -> int {
    10 * digit_val(s[6]) + digit_val(s[7])
}

/// The time of day denoted by a valid `HH:MM:SS` string, in seconds since
/// midnight.
pub open spec fn time_seconds(s: Seq<char>) -> int {
    3600 * time_hours(s) + 60 * time_minutes(s) + time_secs_field(s)
}

/// A valid time of day lies within one service day.
pub proof fn lemma_time_seconds_bounds(s: Seq<char>)
    requires
        valid_time_str(s),
    ensures
        0 <= time_seconds(s) < SECONDS_PER_DAY,
{
}

/// Numeric value of one ASCII digit character, or `None` when `c` is not a
/// digit.
fn digit_of(c: char) -> (r: Option<usize>)
    ensures
        r is Some <==> is_digit(c),
        r is Some ==> r->0 == digit_val(c) && r->0 <= 9,
{
    let v = c as u32;
    if 48 <= v && v <= 57 {
        Some((v - 48) as usize)
    } else {
        None
    }
}

/// Parses a time-of-day string of the exact shape `HH:MM:SS` into seconds
/// since midnight. Returns `None` on any other input.
pub fn parse_time(time: &str) -> (r: Option<usize>)
    ensures
        r is Some <==> valid_time_str(time@),
        r is Some ==> r->0 == time_seconds(time@) && r->0 < SECONDS_PER_DAY,
{
    if time.unicode_len() != 8 {
        return None;
    }
    if time.get_char(2) != ':' || time.get_char(5) != ':' {
        return None;
    }
    let h = match (digit_of(time.get_char(0)), digit_of(time.get_char(1))) {
        (Some(a), Some(b)) => 10 * a + b,
        _ => {
            return None;
        },
    };
    let m = match (digit_of(time.get_char(3)), digit_of(time.get_char(4))) {
        (Some(a), Some(b)) => 10 * a + b,
        _ => {
            return None;
        },
    };
    let s = match (digit_of(time.get_char(6)), digit_of(time.get_char(7))) {
        (Some(a), Some(b)) => 10 * a + b,
        _ => {
            return None;
        },
    };
    if h >= 24 || m >= 60 || s >= 60 {
        return None;
    }
    Some(3600 * h + 60 * m + s)
}

/// Time spent on a leg that departs at `departure_time` and arrives at
/// `arrival_time`, in seconds. Returns `None` when either string is
/// malformed or the arrival lies before the departure.
pub fn calculate_travel_duration(departure_time: &str, arrival_time: &str) -> (r: Option<usize>)
    ensures
        r is Some <==> valid_time_str(departure_time@) && valid_time_str(arrival_time@)
            && time_seconds(departure_time@) <= time_seconds(arrival_time@),
        r is Some ==> r->0 == time_seconds(arrival_time@) - time_seconds(departure_time@),
{
    let dep = match parse_time(departure_time) {
        Some(d) => d,
        None => {
            return None;
        },
    };
    let arr = match parse_time(arrival_time) {
        Some(a) => a,
        None => {
            return None;
        },
    };
    if arr < dep {
        return None;
    }
    Some(arr - dep)
}

} // verus!
