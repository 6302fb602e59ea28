//! Second-precision local timestamps and their fixed-width text form
//! `YYYY-MM-DDTHH:MM:SS+HH:MM`.
use vstd::prelude::*;
use chrono::{Datelike, Timelike};

verus! {

/// The character of a decimal digit `0..=9`.
pub open spec fn digit_char(n: int) -> char {
    if n == 0 {
        '0'
    } else if n == 1 {
        '1'
    } else if n == 2 {
        '2'
    } else if n == 3 {
        '3'
    } else if n == 4 {
        '4'
    } else if n == 5 {
        '5'
    } else if n == 6 {
        '6'
    } else if n == 7 {
        '7'
    } else if n == 8 {
        '8'
    } else {
        '9'
    }
}

pub open spec fn is_digit(c: char) -> bool {
    '0' <= c <= '9'
}

pub open spec fn digit_value(c: char) -> int {
    c as int - '0' as int
}

/// Two decimal digits, with a leading zero.
pub open spec fn two_digits(n: int) -> Seq<char> {
    seq![digit_char(n / 10), digit_char(n % 10)]
}

/// Four decimal digits, with leading zeros.
pub open spec fn four_digits(n: int) -> Seq<char> {
    two_digits(n / 100) + two_digits(n % 100)
}

/// The number written by two digits starting at `i`.
pub open spec fn value2(s: Seq<char>, i: int) -> int {
    10 * digit_value(s[i]) + digit_value(s[i + 1])
}

/// The number written by four digits starting at `i`.
pub open spec fn value4(s: Seq<char>, i: int) -> int {
    100 * value2(s, i) + value2(s, i + 2)
}

pub open spec fn is_leap_year(y: int) -> bool {
    (y % 4 == 0 && y % 100 != 0) || y % 400 == 0
}

pub open spec fn days_in_month(y: int, m: int) -> int {
    if m == 2 {
        if is_leap_year(y) {
            29
        } else {
            28
        }
    } else if m == 4 || m == 6 || m == 9 || m == 11 {
        30
    } else {
        31
    }
}

/// A calendar date of the proleptic Gregorian calendar with a four-digit year.
pub open spec fn valid_date(y: int, m: int, d: int) -> bool {
    &&& 0 <= y <= 9999
    &&& 1 <= m <= 12
    &&& 1 <= d <= days_in_month(y, m)
}

/// The length of the text form of a timestamp.
pub const TIMESTAMP_LEN: usize = 25;

/// A local date and time of day, to the second, with the offset of the local
/// time zone from UTC in minutes.
#[derive(Clone, Copy, Debug, PartialEq, Eq, Structural)]
pub struct Timestamp {
    pub year: i32,
    pub month: u32,
    pub day: u32,
    pub hour: u32,
    pub minute: u32,
    pub second: u32,
    pub offset_minutes: i32,
}

impl Timestamp {
    pub open spec fn wf(&self) -> bool {
        &&& valid_date(self.year as int, self.month as int, self.day as int)
        &&& self.hour < 24
        &&& self.minute < 60
        &&& self.second < 60
        &&& -1440 < self.offset_minutes < 1440
    }

    /// The text form `YYYY-MM-DDTHH:MM:SS+HH:MM`.
    pub open spec fn text(&self) -> Seq<char> {
        let off = if self.offset_minutes < 0 {
            -self.offset_minutes
        } else {
            self.offset_minutes as int
        };
        let sign = if self.offset_minutes < 0 {
            '-'
        } else {
            '+'
        };
        four_digits(self.year as int) + seq!['-'] + two_digits(self.month as int) + seq!['-']
            + two_digits(self.day as int) + seq!['T'] + two_digits(self.hour as int) + seq![':']
            + two_digits(self.minute as int) + seq![':'] + two_digits(self.second as int) + seq![
            sign,
        ] + two_digits(off / 60) + seq![':'] + two_digits(off % 60)
    }

    /// Builds a timestamp from its parts, if they form one.
    pub fn from_parts(
        year: i32,
        month: u32,
        day: u32,
        hour: u32,
        minute: u32,
        second: u32,
        offset_minutes: i32,
    ) -> (r: Option<Timestamp>)
        ensures
            r matches Some(t) ==> t.wf() && t == (Timestamp {
                year,
                month,
                day,
                hour,
                minute,
                second,
                offset_minutes,
            }),
            r is None ==> !(Timestamp { year, month, day, hour, minute, second, offset_minutes }).wf(),
    {
        let t = Timestamp { year, month, day, hour, minute, second, offset_minutes };
        if is_valid_date(year, month, day) && hour < 24 && minute < 60 && second < 60
            && -1440 < offset_minutes && offset_minutes < 1440 {
            Some(t)
        } else {
            None
        }
    }
}

/// Whether `y-m-d` is a calendar date with a four-digit year.
pub fn is_valid_date(y: i32, m: u32, d: u32) -> (r: bool)
    ensures
        r == valid_date(y as int, m as int, d as int),
{
    if y < 0 || y > 9999 || m < 1 || m > 12 || d < 1 {
        return false;
    }
    let leap = (y % 4 == 0 && y % 100 != 0) || y % 400 == 0;
    let last: u32 = if m == 2 {
        if leap {
            29
        } else {
            28
        }
    } else if m == 4 || m == 6 || m == 9 || m == 11 {
        30
    } else {
        31
    };
    d <= last
}

fn digit_of(n: u32) -> (c: char)
    requires
        n <= 9,
    ensures
        c == digit_char(n as int),
{
    if n == 0 {
        '0'
    } else if n == 1 {
        '1'
    } else if n == 2 {
        '2'
    } else if n == 3 {
        '3'
    } else if n == 4 {
        '4'
    } else if n == 5 {
        '5'
    } else if n == 6 {
        '6'
    } else if n == 7 {
        '7'
    } else if n == 8 {
        '8'
    } else {
        '9'
    }
}

fn push_two_digits(out: &mut Vec<char>, n: u32)
    requires
        n < 100,
    ensures
        final(out)@ == old(out)@ + two_digits(n as int),
{
    out.push(digit_of(n / 10));
    out.push(digit_of(n % 10));
    assert(final(out)@ =~= old(out)@ + two_digits(n as int));
}

/// Appends the text form of `t` to `out`.
#[verifier::rlimit(30)]
pub fn push_timestamp_text(out: &mut Vec<char>, t: &Timestamp)
    requires
        t.wf(),
    ensures
        final(out)@ == old(out)@ + t.text(),
{
    let ghost start = out@;
    let y = t.year as u32;
    push_two_digits(out, y / 100);
    push_two_digits(out, y % 100);
    assert(out@ =~= start + four_digits(t.year as int));
    out.push('-');
    push_two_digits(out, t.month);
    out.push('-');
    push_two_digits(out, t.day);
    let ghost date = four_digits(t.year as int) + seq!['-'] + two_digits(t.month as int) + seq!['-']
        + two_digits(t.day as int);
    assert(out@ =~= start + date);
    out.push('T');
    push_two_digits(out, t.hour);
    out.push(':');
    push_two_digits(out, t.minute);
    out.push(':');
    push_two_digits(out, t.second);
    let ghost time = date + seq!['T'] + two_digits(t.hour as int) + seq![':'] + two_digits(
        t.minute as int,
    ) + seq![':'] + two_digits(t.second as int);
    assert(out@ =~= start + time);
    let ghost mid = out@;
    let off: u32 = if t.offset_minutes < 0 {
        out.push('-');
        (-t.offset_minutes) as u32
    } else {
        out.push('+');
        t.offset_minutes as u32
    };
    push_two_digits(out, off / 60);
    out.push(':');
    push_two_digits(out, off % 60);
    assert(out@ =~= start + t.text());
}

pub open spec fn digits_at(s: Seq<char>) -> bool {
    &&& is_digit(s[0]) && is_digit(s[1]) && is_digit(s[2]) && is_digit(s[3])
    &&& is_digit(s[5]) && is_digit(s[6]) && is_digit(s[8]) && is_digit(s[9])
    &&& is_digit(s[11]) && is_digit(s[12]) && is_digit(s[14]) && is_digit(s[15])
    &&& is_digit(s[17]) && is_digit(s[18]) && is_digit(s[20]) && is_digit(s[21])
    &&& is_digit(s[23]) && is_digit(s[24])
}

pub open spec fn separators_at(s: Seq<char>) -> bool {
    &&& s[4] == '-' && s[7] == '-' && s[10] == 'T'
    &&& s[13] == ':' && s[16] == ':' && s[22] == ':'
    &&& (s[19] == '+' || s[19] == '-')
}

/// The timestamp whose text form is `s`, if there is one.
pub open spec fn parse_timestamp_text(s: Seq<char>) -> Option<Timestamp> {
    if s.len() == TIMESTAMP_LEN && digits_at(s) && separators_at(s) {
        let off_abs = 60 * value2(s, 20) + value2(s, 23);
        let off = if s[19] == '-' {
            -off_abs
        } else {
            off_abs
        };
        let t = Timestamp {
            year: value4(s, 0) as i32,
            month: value2(s, 5) as u32,
            day: value2(s, 8) as u32,
            hour: value2(s, 11) as u32,
            minute: value2(s, 14) as u32,
            second: value2(s, 17) as u32,
            offset_minutes: off as i32,
        };
        if t.wf() && value2(s, 23) < 60 && !(s[19] == '-' && off_abs == 0) {
            Some(t)
        } else {
            None
        }
    } else {
        None
    }
}

proof fn lemma_two_digits(n: int)
    requires
        0 <= n < 100,
    ensures
        two_digits(n).len() == 2,
        is_digit(two_digits(n)[0]),
        is_digit(two_digits(n)[1]),
        value2(two_digits(n), 0) == n,
{
}

/// Reading back the text form of a timestamp gives that timestamp.
pub proof fn lemma_timestamp_text_round_trip(t: Timestamp)
    requires
        t.wf(),
    ensures
        parse_timestamp_text(t.text()) == Some(t),
{
    let s = t.text();
    let off = if t.offset_minutes < 0 {
        -t.offset_minutes
    } else {
        t.offset_minutes as int
    };
    lemma_two_digits(t.year as int / 100);
    lemma_two_digits(t.year as int % 100);
    lemma_two_digits(t.month as int);
    lemma_two_digits(t.day as int);
    lemma_two_digits(t.hour as int);
    lemma_two_digits(t.minute as int);
    lemma_two_digits(t.second as int);
    lemma_two_digits(off / 60);
    lemma_two_digits(off % 60);
    assert(s.subrange(0, 2) =~= two_digits(t.year as int / 100));
    assert(s.subrange(2, 4) =~= two_digits(t.year as int % 100));
    assert(s.subrange(5, 7) =~= two_digits(t.month as int));
    assert(s.subrange(8, 10) =~= two_digits(t.day as int));
    assert(s.subrange(11, 13) =~= two_digits(t.hour as int));
    assert(s.subrange(14, 16) =~= two_digits(t.minute as int));
    assert(s.subrange(17, 19) =~= two_digits(t.second as int));
    assert(s.subrange(20, 22) =~= two_digits(off / 60));
    assert(s.subrange(23, 25) =~= two_digits(off % 60));
    assert(value2(s, 0) == value2(s.subrange(0, 2), 0));
    assert(value2(s, 2) == value2(s.subrange(2, 4), 0));
    assert(value2(s, 5) == value2(s.subrange(5, 7), 0));
    assert(value2(s, 8) == value2(s.subrange(8, 10), 0));
    assert(value2(s, 11) == value2(s.subrange(11, 13), 0));
    assert(value2(s, 14) == value2(s.subrange(14, 16), 0));
    assert(value2(s, 17) == value2(s.subrange(17, 19), 0));
    assert(value2(s, 20) == value2(s.subrange(20, 22), 0));
    assert(value2(s, 23) == value2(s.subrange(23, 25), 0));
    assert(digits_at(s));
    assert(separators_at(s));
}

proof fn lemma_two_digits_of(s: Seq<char>, i: int)
    requires
        0 <= i,
        i + 1 < s.len(),
        is_digit(s[i]),
        is_digit(s[i + 1]),
    ensures
        two_digits(value2(s, i)) == s.subrange(i, i + 2),
        0 <= value2(s, i) < 100,
{
    assert(two_digits(value2(s, i)) =~= s.subrange(i, i + 2));
}

/// A text that reads as a timestamp is the text form of that timestamp.
pub proof fn lemma_timestamp_text_sound(s: Seq<char>)
    requires
        parse_timestamp_text(s) is Some,
    ensures
        parse_timestamp_text(s)->Some_0.wf(),
        parse_timestamp_text(s)->Some_0.text() == s,
{
    let t = parse_timestamp_text(s)->Some_0;
    lemma_two_digits_of(s, 0);
    lemma_two_digits_of(s, 2);
    lemma_two_digits_of(s, 5);
    lemma_two_digits_of(s, 8);
    lemma_two_digits_of(s, 11);
    lemma_two_digits_of(s, 14);
    lemma_two_digits_of(s, 17);
    lemma_two_digits_of(s, 20);
    lemma_two_digits_of(s, 23);
    let off = if t.offset_minutes < 0 {
        -t.offset_minutes
    } else {
        t.offset_minutes as int
    };
    assert(off == 60 * value2(s, 20) + value2(s, 23));
    assert(off / 60 == value2(s, 20));
    assert(off % 60 == value2(s, 23));
    assert(t.year as int / 100 == value2(s, 0));
    assert(t.year as int % 100 == value2(s, 2));
    let parts = four_digits(t.year as int) + seq!['-'] + two_digits(t.month as int) + seq!['-']
        + two_digits(t.day as int) + seq!['T'] + two_digits(t.hour as int) + seq![':']
        + two_digits(t.minute as int) + seq![':'] + two_digits(t.second as int);
    assert(parts =~= s.subrange(0, 19));
    assert(t.text() =~= s);
}

fn digit_value_of(c: char) -> (r: u32)
    requires
        is_digit(c),
    ensures
        r == digit_value(c),
        r <= 9,
{
    (c as u32) - ('0' as u32)
}

fn is_digit_char(c: char) -> (r: bool)
    ensures
        r == is_digit(c),
{
    '0' <= c && c <= '9'
}

fn read_two(s: &Vec<char>, i: usize) -> (r: u32)
    requires
        i + 1 < s@.len(),
        is_digit(s@[i as int]),
        is_digit(s@[i + 1]),
    ensures
        r == value2(s@, i as int),
        r < 100,
{
    let n = s.len();
    assert(i + 1 < n);
    10 * digit_value_of(s[i]) + digit_value_of(s[i + 1])
}

/// Whether the digit positions of the text form that starts at `b` hold digits.
fn digits_in(s: &Vec<char>, b: usize) -> (r: bool)
    requires
        b + TIMESTAMP_LEN <= s@.len(),
    ensures
        r == digits_at(s@.subrange(b as int, b + TIMESTAMP_LEN)),
{
    let n = s.len();
    assert(b + TIMESTAMP_LEN <= n);
    is_digit_char(s[b]) && is_digit_char(s[b + 1]) && is_digit_char(s[b + 2]) && is_digit_char(
        s[b + 3],
    ) && is_digit_char(s[b + 5]) && is_digit_char(s[b + 6]) && is_digit_char(s[b + 8])
        && is_digit_char(s[b + 9]) && is_digit_char(s[b + 11]) && is_digit_char(s[b + 12])
        && is_digit_char(s[b + 14]) && is_digit_char(s[b + 15]) && is_digit_char(s[b + 17])
        && is_digit_char(s[b + 18]) && is_digit_char(s[b + 20]) && is_digit_char(s[b + 21])
        && is_digit_char(s[b + 23]) && is_digit_char(s[b + 24])
}

/// Reads the timestamp whose text form stands at `start`.
pub fn parse_timestamp(s: &Vec<char>, start: usize) -> (r: Option<Timestamp>)
    requires
        start + TIMESTAMP_LEN <= s@.len(),
    ensures
        r == parse_timestamp_text(s@.subrange(start as int, start + TIMESTAMP_LEN)),
{
    let ghost g = s@.subrange(start as int, start + TIMESTAMP_LEN);
    let n = s.len();
    assert(start + TIMESTAMP_LEN <= n);
    if !digits_in(s, start) {
        return None;
    }
    let b = start;
    if !(s[b + 4] == '-' && s[b + 7] == '-' && s[b + 10] == 'T' && s[b + 13] == ':' && s[b + 16]
        == ':' && s[b + 22] == ':' && (s[b + 19] == '+' || s[b + 19] == '-')) {
        return None;
    }
    assert(separators_at(g));
    let year = 100 * read_two(s, b) + read_two(s, b + 2);
    let month = read_two(s, b + 5);
    let day = read_two(s, b + 8);
    let hour = read_two(s, b + 11);
    let minute = read_two(s, b + 14);
    let second = read_two(s, b + 17);
    let off_hours = read_two(s, b + 20);
    let off_mins = read_two(s, b + 23);
    let negative = s[b + 19] == '-';
    assert(year == value4(g, 0));
    assert(month == value2(g, 5));
    assert(day == value2(g, 8));
    assert(hour == value2(g, 11));
    assert(minute == value2(g, 14));
    assert(second == value2(g, 17));
    assert(off_hours == value2(g, 20));
    assert(off_mins == value2(g, 23));
    let off_abs = 60 * off_hours + off_mins;
    if off_mins >= 60 || off_abs >= 1440 || (negative && off_abs == 0) {
        return None;
    }
    let off: i32 = if negative {
        -(off_abs as i32)
    } else {
        off_abs as i32
    };
    Timestamp::from_parts(year as i32, month, day, hour, minute, second, off)
}

/// The text form of `t`.
pub fn serialize(t: &Timestamp) -> (r: String)
    requires
        t.wf(),
    ensures
        r@ == t.text(),
{
    let mut v: Vec<char> = Vec::new();
    push_timestamp_text(&mut v, t);
    assert(v@ =~= t.text());
    crate::text::string_of(&v)
}

/// The timestamp whose text form is `s`; fails where `s` is the text form of
/// no timestamp.
pub fn deserialize(s: &str) -> (r: Result<Timestamp, crate::codec::DecodeError>)
    ensures
        r matches Ok(t) ==> t.wf() && t.text() == s@,
        r is Err <==> forall|t: Timestamp| t.wf() ==> t.text() != s@,
{
    let v = crate::text::chars_of(s);
    if v.len() != TIMESTAMP_LEN {
        assert forall|t: Timestamp| t.wf() implies t.text() != s@ by {
            assert(t.text().len() == TIMESTAMP_LEN);
        }
        return Err(crate::codec::DecodeError);
    }
    assert(v@.subrange(0, TIMESTAMP_LEN as int) =~= s@);
    proof {
        assert forall|t: Timestamp| t.wf() && t.text() == s@ implies parse_timestamp_text(s@) == Some(t) by {
            lemma_timestamp_text_round_trip(t);
        }
    }
    match parse_timestamp(&v, 0) {
        Some(t) => {
            proof {
                lemma_timestamp_text_sound(s@);
            }
            Ok(t)
        },
        None => Err(crate::codec::DecodeError),
    }
}

/// The number of days of year `y` before the first of month `m`.
pub open spec fn days_before_month(y: int, m: int) -> int
    decreases m,
{
    if m <= 1 {
        0
    } else {
        days_before_month(y, m - 1) + days_in_month(y, m - 1)
    }
}

/// The day number of a date in the proleptic Gregorian calendar: January 1
/// of the year 1 is day 1.
pub open spec fn days_from_ce(y: int, m: int, d: int) -> int {
    let p = y - 1;
    365 * p + p / 4 - p / 100 + p / 400 + days_before_month(y, m) + d
}

/// Relies on chrono's `NaiveDate::from_ymd_opt`, which gives a date for every
/// valid calendar date with a year in its range, and `Datelike::num_days_from_ce`,
/// which counts the days in the proleptic Gregorian calendar with January 1
/// of the year 1 as day 1.
#[verifier::external_body]
fn day_number_of(y: i32, m: u32, d: u32) -> (r: i32)
    requires
        valid_date(y as int, m as int, d as int),
    ensures
        r == days_from_ce(y as int, m as int, d as int),
{
    chrono::NaiveDate::from_ymd_opt(y, m, d).unwrap().num_days_from_ce()
}

/// Relies on chrono's `Local::now`: the local date and time of day, and the
/// offset of the local time zone from UTC in seconds. Nothing is promised of
/// the values.
#[verifier::external_body]
fn local_now_parts() -> (r: (i32, u32, u32, u32, u32, u32, i32))
{
    let now = chrono::Local::now();
    (
        now.year(),
        now.month(),
        now.day(),
        now.hour(),
        now.minute(),
        now.second(),
        now.offset().local_minus_utc(),
    )
}

impl Timestamp {
    /// The day number of the date of this timestamp.
    pub fn day_number(&self) -> (r: i32)
        requires
            self.wf(),
        ensures
            r == days_from_ce(self.year as int, self.month as int, self.day as int),
    {
        day_number_of(self.year, self.month, self.day)
    }

    /// The date, `YYYY-MM-DD`.
    pub fn date_text(&self) -> (r: String)
        requires
            self.wf(),
        ensures
            r@ == self.text().take(10),
    {
        let mut v: Vec<char> = Vec::new();
        push_timestamp_text(&mut v, self);
        let mut out: Vec<char> = Vec::new();
        let mut i: usize = 0;
        while i < 10
            invariant
                v@ == self.text(),
                v@.len() == TIMESTAMP_LEN,
                i <= 10,
                out@ == v@.take(i as int),
            decreases 10 - i,
        {
            out.push(v[i]);
            i += 1;
            assert(out@ =~= v@.take(i as int));
        }
        crate::text::string_of(&out)
    }

    /// The time of day, `HH:MM:SS`.
    pub fn time_text(&self) -> (r: String)
        requires
            self.wf(),
        ensures
            r@ == self.text().subrange(11, 19),
    {
        let mut v: Vec<char> = Vec::new();
        push_timestamp_text(&mut v, self);
        let mut out: Vec<char> = Vec::new();
        let mut i: usize = 11;
        while i < 19
            invariant
                v@ == self.text(),
                v@.len() == TIMESTAMP_LEN,
                11 <= i <= 19,
                out@ == v@.subrange(11, i as int),
            decreases 19 - i,
        {
            out.push(v[i]);
            i += 1;
            assert(out@ =~= v@.subrange(11, i as int));
        }
        crate::text::string_of(&out)
    }

    /// The local time now, to the second, when the clock gives a timestamp
    /// with a four-digit year.
    pub fn now() -> (r: Option<Timestamp>)
        ensures
            r matches Some(t) ==> t.wf(),
    {
        let (year, month, day, hour, minute, second, offset_seconds) = local_now_parts();
        Timestamp::from_parts(year, month, day, hour, minute, second, offset_seconds / 60)
    }
}

} // verus!
