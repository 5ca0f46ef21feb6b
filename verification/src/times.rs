//! Session times. Times are `HHmm` 24-hour strings, dates are `YYYY-MM-DD`
//! strings; internally both are carried as integers (`HHmm` concatenated onto
//! `YYYYMMDD` gives the `YYYYMMDDHHmm` timestamps the candle store uses).
//! The session opens at 09:00; screening windows step back from a target time
//! in 30-minute decrements, never below the 09:00 floor.

use vstd::prelude::*;

verus! {

/// Minutes past midnight of the 09:00 session-open floor.
pub open spec fn session_open_minutes() -> int {
    540
}

/// Minutes past midnight of 09:30, the earliest window upper bound that the
/// sub-interval sequence uses.
pub open spec fn first_interval_minutes() -> int {
    570
}

pub open spec fn is_digit(c: char) -> bool {
    48 <= c as u32 <= 57
}

pub open spec fn digit_val(c: char) -> int {
    c as u32 - 48
}

pub open spec fn digit_char(d: int) -> char {
    ((48 + d) as u32) as char
}

/// A well-formed `HHmm` time string.
pub open spec fn is_time(s: Seq<char>) -> bool {
    &&& s.len() == 4
    &&& (forall|i: int| 0 <= i < 4 ==> is_digit(#[trigger] s[i]))
    &&& digit_val(s[0]) * 10 + digit_val(s[1]) <= 23
    &&& digit_val(s[2]) * 10 + digit_val(s[3]) <= 59
}

/// Minutes past midnight denoted by an `HHmm` string.
pub open spec fn time_minutes(s: Seq<char>) -> int {
    (digit_val(s[0]) * 10 + digit_val(s[1])) * 60 + digit_val(s[2]) * 10 + digit_val(s[3])
}

/// The `HHmm` rendering of `m` minutes past midnight.
pub open spec fn fmt_time(m: int) -> Seq<char> {
    let h = m / 60;
    let mi = m % 60;
    seq![digit_char(h / 10), digit_char(h % 10), digit_char(mi / 10), digit_char(mi % 10)]
}

/// Appends one character.
/// Relies on std's `String::push`.
#[verifier::external_body]
fn push_char(s: &mut String, c: char)
    ensures
        final(s)@ == old(s)@.push(c),
{
    s.push(c);
}

/// Renders `m` minutes past midnight as an `HHmm` string.
pub fn minutes_to_time(m: u16) -> (r: String)
    requires
        m < 1440,
    ensures
        r@ == fmt_time(m as int),
        is_time(r@),
        time_minutes(r@) == m,
{
    let h = m / 60;
    let mi = m % 60;
    let mut r = String::new();
    push_char(&mut r, (48 + (h / 10) as u8) as char);
    push_char(&mut r, (48 + (h % 10) as u8) as char);
    push_char(&mut r, (48 + (mi / 10) as u8) as char);
    push_char(&mut r, (48 + (mi % 10) as u8) as char);
    proof {
        assert(r@ =~= fmt_time(m as int));
    }
    r
}

/// Reads an `HHmm` string as minutes past midnight.
pub fn time_to_minutes(time: &str) -> (m: u16)
    requires
        is_time(time@),
    ensures
        m == time_minutes(time@),
        m < 1440,
{
    let c0 = time.get_char(0);
    let c1 = time.get_char(1);
    let c2 = time.get_char(2);
    let c3 = time.get_char(3);
    let h = (c0 as u8 - 48) as u16 * 10 + (c1 as u8 - 48) as u16;
    let mi = (c2 as u8 - 48) as u16 * 10 + (c3 as u8 - 48) as u16;
    h * 60 + mi
}

/// Thirty minutes earlier, clamped at the 09:00 session-open floor.
pub open spec fn sub30(m: int) -> int {
    if m - 30 < session_open_minutes() {
        session_open_minutes()
    } else {
        m - 30
    }
}

/// The time thirty minutes before `time`, clamped at the 09:00 floor:
/// a window lower than session open is never formed.
pub fn subtract_30_minutes(time: &str) -> (r: String)
    requires
        is_time(time@),
    ensures
        r@ == fmt_time(sub30(time_minutes(time@))),
        is_time(r@),
        time_minutes(r@) == sub30(time_minutes(time@)),
{
    let m = time_to_minutes(time);
    let earlier: u16 = if m < 570 {
        540
    } else {
        m - 30
    };
    minutes_to_time(earlier)
}

/// The ascending sequence of window upper bounds from 09:30 up to `m`
/// in 30-minute steps (empty when `m` is before 09:30).
pub open spec fn intervals_from(m: int) -> Seq<Seq<char>>
    decreases m,
{
    if m < first_interval_minutes() {
        Seq::empty()
    } else {
        intervals_from(m - 30).push(fmt_time(m))
    }
}

/// A time rendered from in-range minutes is well formed and reads back to
/// the same minutes.
pub proof fn lemma_fmt_time_valid(m: int)
    requires
        0 <= m < 1440,
    ensures
        is_time(fmt_time(m)),
        time_minutes(fmt_time(m)) == m,
{
}

/// Every generated interval bound is a well-formed time between 09:30 and
/// the starting bound.
pub proof fn lemma_intervals_from_valid(m: int)
    requires
        m < 1440,
    ensures
        forall|i: int|
            0 <= i < intervals_from(m).len() ==> is_time(#[trigger] intervals_from(m)[i])
                && first_interval_minutes() <= time_minutes(intervals_from(m)[i]) <= m,
    decreases m,
{
    if m >= first_interval_minutes() {
        lemma_intervals_from_valid(m - 30);
        lemma_fmt_time_valid(m);
        assert forall|i: int| 0 <= i < intervals_from(m).len() implies is_time(
            #[trigger] intervals_from(m)[i],
        ) && first_interval_minutes() <= time_minutes(intervals_from(m)[i]) <= m by {
            if i < intervals_from(m).len() - 1 {
                assert(intervals_from(m)[i] == intervals_from(m - 30)[i]);
            } else {
                assert(intervals_from(m)[i] == fmt_time(m));
            }
        }
    }
}

/// The ascending list of times stepping back from `to` by 30 minutes down to
/// 09:30 inclusive; 09:00 itself is never a generated upper bound.
pub fn generate_time_intervals(to: &str) -> (r: Vec<String>)
    requires
        is_time(to@),
    ensures
        r@.map_values(|t: String| t@) == intervals_from(time_minutes(to@)),
        forall|i: int| 0 <= i < r@.len() ==> is_time(#[trigger] r@[i]@),
{
    proof {
        lemma_intervals_from_valid(time_minutes(to@));
    }
    let ghost m0: int = time_minutes(to@);
    let mut m = time_to_minutes(to);
    let mut out: Vec<String> = Vec::new();
    while m >= 570
        invariant
            m < 1440,
            intervals_from(m0) =~= intervals_from(m as int) + out@.map_values(|t: String| t@),
        decreases m,
    {
        let t = minutes_to_time(m);
        let ghost prev = out@;
        out.insert(0, t);
        proof {
            assert(out@.map_values(|t: String| t@) =~= seq![fmt_time(m as int)]
                + prev.map_values(|t: String| t@)) by {
                assert(out@ =~= seq![t].add(prev));
            }
        }
        m = m - 30;
        proof {
            assert(intervals_from(m0) =~= intervals_from(m as int) + out@.map_values(
                |t: String| t@,
            ));
        }
    }
    proof {
        assert(intervals_from(m as int) =~= Seq::empty());
        assert(intervals_from(m0) =~= out@.map_values(|t: String| t@));
        assert forall|i: int| 0 <= i < out@.len() implies is_time(#[trigger] out@[i]@) by {
            assert(out@[i]@ == out@.map_values(|t: String| t@)[i]);
            assert(out@[i]@ == intervals_from(m0)[i]);
        }
    }
    out
}

/// A well-formed `YYYY-MM-DD` date string.
pub open spec fn is_date(s: Seq<char>) -> bool {
    &&& s.len() == 10
    &&& s[4] == '-'
    &&& s[7] == '-'
    &&& is_digit(s[0]) && is_digit(s[1]) && is_digit(s[2]) && is_digit(s[3])
    &&& is_digit(s[5]) && is_digit(s[6])
    &&& is_digit(s[8]) && is_digit(s[9])
}

/// The `YYYYMMDD` integer written by a `YYYY-MM-DD` string.
pub open spec fn date_num_of(s: Seq<char>) -> int {
    digit_val(s[0]) * 10000000 + digit_val(s[1]) * 1000000 + digit_val(s[2]) * 100000
        + digit_val(s[3]) * 10000 + digit_val(s[5]) * 1000 + digit_val(s[6]) * 100 + digit_val(
        s[8],
    ) * 10 + digit_val(s[9])
}

/// Reads a `YYYY-MM-DD` string as its `YYYYMMDD` integer.
pub fn date_to_num(date: &str) -> (n: i64)
    requires
        is_date(date@),
    ensures
        n == date_num_of(date@),
        0 <= n <= 99999999,
{
    let mut n: i64 = 0;
    n = n * 10 + (date.get_char(0) as u8 - 48) as i64;
    n = n * 10 + (date.get_char(1) as u8 - 48) as i64;
    n = n * 10 + (date.get_char(2) as u8 - 48) as i64;
    n = n * 10 + (date.get_char(3) as u8 - 48) as i64;
    n = n * 10 + (date.get_char(5) as u8 - 48) as i64;
    n = n * 10 + (date.get_char(6) as u8 - 48) as i64;
    n = n * 10 + (date.get_char(8) as u8 - 48) as i64;
    n = n * 10 + (date.get_char(9) as u8 - 48) as i64;
    n
}

/// The `HHmm` integer for `m` minutes past midnight.
pub open spec fn hhmm_of_minutes(m: int) -> int {
    (m / 60) * 100 + m % 60
}

/// The `YYYYMMDDHHmm` timestamp of minute `m` on day `date_num`.
pub open spec fn ts_of(date_num: int, m: int) -> int {
    date_num * 10000 + hhmm_of_minutes(m)
}

/// Builds the `YYYYMMDDHHmm` timestamp of minute `m` on day `date_num`.
pub fn timestamp_of(date_num: i64, m: u16) -> (ts: i64)
    requires
        0 <= date_num <= 99999999,
        m < 1440,
    ensures
        ts == ts_of(date_num as int, m as int),
        0 <= ts <= 999999992359,
{
    let hhmm = (m / 60) as i64 * 100 + (m % 60) as i64;
    date_num * 10000 + hhmm
}

/// Checks that a string is a well-formed `HHmm` time.
pub fn check_time(time: &str) -> (r: bool)
    ensures
        r == is_time(time@),
{
    if time.unicode_len() != 4 {
        return false;
    }
    let c0 = time.get_char(0);
    let c1 = time.get_char(1);
    let c2 = time.get_char(2);
    let c3 = time.get_char(3);
    if !(digit_ok(c0) && digit_ok(c1) && digit_ok(c2) && digit_ok(c3)) {
        return false;
    }
    let h = (c0 as u8 - 48) * 10 + (c1 as u8 - 48);
    let mi = (c2 as u8 - 48) * 10 + (c3 as u8 - 48);
    h <= 23 && mi <= 59
}

fn digit_ok(c: char) -> (r: bool)
    ensures
        r == is_digit(c),
{
    let u = c as u32;
    48 <= u && u <= 57
}

/// Checks that a string is a well-formed `YYYY-MM-DD` date.
pub fn check_date(date: &str) -> (r: bool)
    ensures
        r == is_date(date@),
{
    if date.unicode_len() != 10 {
        return false;
    }
    let dash4 = date.get_char(4);
    let dash7 = date.get_char(7);
    if !(dash4 == '-' && dash7 == '-') {
        return false;
    }
    digit_ok(date.get_char(0)) && digit_ok(date.get_char(1)) && digit_ok(date.get_char(2))
        && digit_ok(date.get_char(3)) && digit_ok(date.get_char(5)) && digit_ok(date.get_char(6))
        && digit_ok(date.get_char(8)) && digit_ok(date.get_char(9))
}

} // verus!
