use vstd::prelude::*;

use crate::text::digit_char;
use crate::text::digit_val;
use crate::text::is_digit;
use crate::text::str_chars;

verus! {

broadcast use vstd::std_specs::vec::group_vec_axioms;

// ---------------------------------------------------------------------------
// Calendar arithmetic
// ---------------------------------------------------------------------------

pub open spec fn is_leap_year(y: int) -> bool {
    y % 4 == 0 && (y % 100 != 0 || y % 400 == 0)
}

pub open spec fn days_in_month(y: int, m: int) -> int {
    if m == 2 {
        if is_leap_year(y) {
            29
        } else {
            28
        }
    } else if m == 4 || m == 6 || m == 9 || m == 11 {
        30
    } else {
        31
    }
}

pub open spec fn valid_date(y: int, m: int, d: int) -> bool {
    0 <= y <= 9999 && 1 <= m <= 12 && 1 <= d <= days_in_month(y, m)
}

pub open spec fn valid_time(h: int, mi: int) -> bool {
    0 <= h < 24 && 0 <= mi < 60
}

// ---------------------------------------------------------------------------
// Fixed-width numerals
// ---------------------------------------------------------------------------

pub open spec fn pad2(n: int) -> Seq<char> {
    seq![digit_char(n / 10 % 10), digit_char(n % 10)]
}

pub open spec fn pad4(n: int) -> Seq<char> {
    seq![
        digit_char(n / 1000 % 10),
        digit_char(n / 100 % 10),
        digit_char(n / 10 % 10),
        digit_char(n % 10),
    ]
}

pub open spec fn two_digit_at(s: Seq<char>, i: int) -> bool {
    is_digit(s[i]) && is_digit(s[i + 1])
}

pub open spec fn two_val(s: Seq<char>, i: int) -> int {
    digit_val(s[i]) * 10 + digit_val(s[i + 1])
}

pub open spec fn four_val(s: Seq<char>, i: int) -> int {
    ((digit_val(s[i]) * 10 + digit_val(s[i + 1])) * 10 + digit_val(s[i + 2])) * 10 + digit_val(
        s[i + 3],
    )
}

// ---------------------------------------------------------------------------
// The rendered shapes
// ---------------------------------------------------------------------------

/// `YYYY-MM-DD`.
pub open spec fn date_chars(v: (int, int, int)) -> Seq<char> {
    pad4(v.0) + seq!['-'] + pad2(v.1) + seq!['-'] + pad2(v.2)
}

/// `HH:MM`.
pub open spec fn time_chars(v: (int, int)) -> Seq<char> {
    pad2(v.0) + seq![':'] + pad2(v.1)
}

/// `YYYY-MM-DDTHH:MM`.
pub open spec fn datetime_chars(v: ((int, int, int), (int, int))) -> Seq<char> {
    date_chars(v.0) + seq!['T'] + time_chars(v.1)
}

pub open spec fn date_chars_ok_at(s: Seq<char>, i: int) -> bool {
    &&& is_digit(s[i]) && is_digit(s[i + 1]) && is_digit(s[i + 2]) && is_digit(s[i + 3])
    &&& s[i + 4] == '-'
    &&& two_digit_at(s, i + 5)
    &&& s[i + 7] == '-'
    &&& two_digit_at(s, i + 8)
    &&& valid_date(four_val(s, i), two_val(s, i + 5), two_val(s, i + 8))
}

pub open spec fn date_str_ok(s: Seq<char>) -> bool {
    s.len() == 10 && date_chars_ok_at(s, 0)
}

pub open spec fn time_chars_ok_at(s: Seq<char>, i: int) -> bool {
    &&& two_digit_at(s, i)
    &&& s[i + 2] == ':'
    &&& two_digit_at(s, i + 3)
    &&& valid_time(two_val(s, i), two_val(s, i + 3))
}

pub open spec fn time_str_ok(s: Seq<char>) -> bool {
    s.len() == 5 && time_chars_ok_at(s, 0)
}

pub open spec fn datetime_str_ok(s: Seq<char>) -> bool {
    s.len() == 16 && date_chars_ok_at(s, 0) && s[10] == 'T' && time_chars_ok_at(s, 11)
}

/// The error returned when a date or time does not parse.
#[derive(Debug, Clone, Copy, PartialEq, Eq, Structural)]
pub enum DateTimeError {
    Parse,
}

// ---------------------------------------------------------------------------
// Date
// ---------------------------------------------------------------------------

/// A calendar date without a time, rendered as `YYYY-MM-DD`.
#[derive(Debug, Clone, Copy, PartialEq, Eq, Structural)]
pub struct Date {
    year: u16,
    month: u8,
    day: u8,
}

impl View for Date {
    type V = (int, int, int);

    closed spec fn view(&self) -> (int, int, int) {
        (self.year as int, self.month as int, self.day as int)
    }
}

fn two_digits(v: &Vec<char>, i: usize) -> (r: Option<u8>)
    requires
        i + 2 <= v@.len(),
    ensures
        (r is Some) == two_digit_at(v@, i as int),
        r matches Some(n) ==> n as int == two_val(v@, i as int),
{
    proof {
        vstd::std_specs::vec::axiom_spec_len(v);
    }
    let c0 = v[i];
    let c1 = v[i + 1];
    if c0 >= '0' && c0 <= '9' && c1 >= '0' && c1 <= '9' {
        Some((c0 as u8 - 48) * 10 + (c1 as u8 - 48))
    } else {
        None
    }
}

fn date_at(v: &Vec<char>, i: usize) -> (r: Option<Date>)
    requires
        i + 10 <= v@.len(),
    ensures
        (r is Some) == date_chars_ok_at(v@, i as int),
        r matches Some(d) ==> d@ == (
            four_val(v@, i as int),
            two_val(v@, i + 5),
            two_val(v@, i + 8),
        ) && d.wf(),
{
    proof {
        vstd::std_specs::vec::axiom_spec_len(v);
    }
    let hi = match two_digits(v, i) {
        Some(n) => n,
        None => {
            return None;
        },
    };
    let lo = match two_digits(v, i + 2) {
        Some(n) => n,
        None => {
            return None;
        },
    };
    let year: u16 = hi as u16 * 100 + lo as u16;
    if !(v[i + 4] == '-') {
        return None;
    }
    let month = match two_digits(v, i + 5) {
        Some(n) => n,
        None => {
            return None;
        },
    };
    if !(v[i + 7] == '-') {
        return None;
    }
    let day = match two_digits(v, i + 8) {
        Some(n) => n,
        None => {
            return None;
        },
    };
    if month < 1 || month > 12 {
        return None;
    }
    let leap: bool = year % 4 == 0 && (year % 100 != 0 || year % 400 == 0);
    let dim: u8 = if month == 2 {
        if leap {
            29
        } else {
            28
        }
    } else if month == 4 || month == 6 || month == 9 || month == 11 {
        30
    } else {
        31
    };
    if day < 1 || day > dim {
        return None;
    }
    Some(Date { year, month, day })
}

impl Date {
    /// Whether this value denotes a real calendar date.
    pub open spec fn wf(&self) -> bool {
        valid_date(self@.0, self@.1, self@.2)
    }

    /// Builds a date from its parts; the parts must form a real calendar
    /// date.
    pub fn new(year: u16, month: u8, day: u8) -> (r: Date)
        requires
            valid_date(year as int, month as int, day as int),
        ensures
            r@ == (year as int, month as int, day as int),
            r.wf(),
    {
        Date { year, month, day }
    }

    pub fn year(&self) -> (r: u16)
        ensures
            r as int == self@.0,
    {
        self.year
    }

    pub fn month(&self) -> (r: u8)
        ensures
            r as int == self@.1,
    {
        self.month
    }

    pub fn day(&self) -> (r: u8)
        ensures
            r as int == self@.2,
    {
        self.day
    }

    /// Reads a date from `YYYY-MM-DD`.
    pub fn from_str(s: &str) -> (r: Result<Date, DateTimeError>)
        ensures
            date_str_ok(s@) ==> (r matches Ok(d) && d@ == (
                four_val(s@, 0),
                two_val(s@, 5),
                two_val(s@, 8),
            ) && d.wf()),
            !date_str_ok(s@) ==> (r matches Err(e) && e == DateTimeError::Parse),
    {
        let v = str_chars(s);
        if v.len() != 10 {
            return Err(DateTimeError::Parse);
        }
        match date_at(&v, 0) {
            Some(d) => Ok(d),
            None => Err(DateTimeError::Parse),
        }
    }

    /// Renders this date as `YYYY-MM-DD`.
    pub fn to_string(&self) -> (r: String)
        ensures
            r@ == date_chars(self@),
    {
        let mut out: Vec<char> = Vec::new();
        push_pad4(&mut out, self.year);
        out.push('-');
        push_pad2(&mut out, self.month as u16);
        out.push('-');
        push_pad2(&mut out, self.day as u16);
        proof {
            assert(out@ =~= date_chars(self@));
        }
        crate::text::chars_string(&out)
    }
}

fn push_pad2(out: &mut Vec<char>, n: u16)
    ensures
        final(out)@ == old(out)@ + pad2(n as int),
{
    out.push((48 + ((n / 10) % 10) as u8) as char);
    out.push((48 + (n % 10) as u8) as char);
    proof {
        assert(final(out)@ =~= old(out)@ + pad2(n as int));
    }
}

fn push_pad4(out: &mut Vec<char>, n: u16)
    ensures
        final(out)@ == old(out)@ + pad4(n as int),
{
    out.push((48 + ((n / 1000) % 10) as u8) as char);
    out.push((48 + ((n / 100) % 10) as u8) as char);
    out.push((48 + ((n / 10) % 10) as u8) as char);
    out.push((48 + (n % 10) as u8) as char);
    proof {
        assert(final(out)@ =~= old(out)@ + pad4(n as int));
    }
}

// ---------------------------------------------------------------------------
// Time
// ---------------------------------------------------------------------------

/// A time of day in minutes, rendered as `HH:MM`.
#[derive(Debug, Clone, Copy, PartialEq, Eq, Structural)]
pub struct Time {
    hour: u8,
    minute: u8,
}

impl View for Time {
    type V = (int, int);

    closed spec fn view(&self) -> (int, int) {
        (self.hour as int, self.minute as int)
    }
}

fn time_at(v: &Vec<char>, i: usize) -> (r: Option<Time>)
    requires
        i + 5 <= v@.len(),
    ensures
        (r is Some) == time_chars_ok_at(v@, i as int),
        r matches Some(t) ==> t@ == (two_val(v@, i as int), two_val(v@, i + 3)) && t.wf(),
{
    proof {
        vstd::std_specs::vec::axiom_spec_len(v);
    }
    let hour = match two_digits(v, i) {
        Some(n) => n,
        None => {
            return None;
        },
    };
    if !(v[i + 2] == ':') {
        return None;
    }
    let minute = match two_digits(v, i + 3) {
        Some(n) => n,
        None => {
            return None;
        },
    };
    if hour > 23 || minute > 59 {
        return None;
    }
    Some(Time { hour, minute })
}

impl Time {
    /// Whether this value denotes a real time of day.
    pub open spec fn wf(&self) -> bool {
        valid_time(self@.0, self@.1)
    }

    pub fn new(hour: u8, minute: u8) -> (r: Time)
        requires
            valid_time(hour as int, minute as int),
        ensures
            r@ == (hour as int, minute as int),
            r.wf(),
    {
        Time { hour, minute }
    }

    pub fn hour(&self) -> (r: u8)
        ensures
            r as int == self@.0,
    {
        self.hour
    }

    pub fn minute(&self) -> (r: u8)
        ensures
            r as int == self@.1,
    {
        self.minute
    }

    /// Reads a time from `HH:MM`.
    pub fn from_str(s: &str) -> (r: Result<Time, DateTimeError>)
        ensures
            time_str_ok(s@) ==> (r matches Ok(t) && t@ == (two_val(s@, 0), two_val(s@, 3))
                && t.wf()),
            !time_str_ok(s@) ==> (r matches Err(e) && e == DateTimeError::Parse),
    {
        let v = str_chars(s);
        if v.len() != 5 {
            return Err(DateTimeError::Parse);
        }
        match time_at(&v, 0) {
            Some(t) => Ok(t),
            None => Err(DateTimeError::Parse),
        }
    }

    /// Renders this time as `HH:MM`.
    pub fn to_string(&self) -> (r: String)
        ensures
            r@ == time_chars(self@),
    {
        let mut out: Vec<char> = Vec::new();
        push_pad2(&mut out, self.hour as u16);
        out.push(':');
        push_pad2(&mut out, self.minute as u16);
        proof {
            assert(out@ =~= time_chars(self@));
        }
        crate::text::chars_string(&out)
    }
}

// ---------------------------------------------------------------------------
// DateTime
// ---------------------------------------------------------------------------

/// A date and a time of day, without a time zone, rendered as
/// `YYYY-MM-DDTHH:MM`.
#[derive(Debug, Clone, Copy, PartialEq, Eq, Structural)]
pub struct DateTime {
    date: Date,
    time: Time,
}

impl View for DateTime {
    type V = ((int, int, int), (int, int));

    closed spec fn view(&self) -> ((int, int, int), (int, int)) {
        (self.date@, self.time@)
    }
}

impl DateTime {
    pub open spec fn wf(&self) -> bool {
        valid_date(self@.0.0, self@.0.1, self@.0.2) && valid_time(self@.1.0, self@.1.1)
    }

    pub fn new(date: Date, time: Time) -> (r: DateTime)
        ensures
            r@ == (date@, time@),
    {
        DateTime { date, time }
    }

    pub fn date(&self) -> (r: Date)
        ensures
            r@ == self@.0,
    {
        self.date
    }

    pub fn time(&self) -> (r: Time)
        ensures
            r@ == self@.1,
    {
        self.time
    }

    /// Reads a date and time from `YYYY-MM-DDTHH:MM`.
    pub fn from_str(s: &str) -> (r: Result<DateTime, DateTimeError>)
        ensures
            datetime_str_ok(s@) ==> (r matches Ok(t) && t@ == (
                (four_val(s@, 0), two_val(s@, 5), two_val(s@, 8)),
                (two_val(s@, 11), two_val(s@, 14)),
            ) && t.wf()),
            !datetime_str_ok(s@) ==> (r matches Err(e) && e == DateTimeError::Parse),
    {
        let v = str_chars(s);
        if v.len() != 16 {
            return Err(DateTimeError::Parse);
        }
        let date = match date_at(&v, 0) {
            Some(d) => d,
            None => {
                return Err(DateTimeError::Parse);
            },
        };
        if !(v[10] == 'T') {
            return Err(DateTimeError::Parse);
        }
        let time = match time_at(&v, 11) {
            Some(t) => t,
            None => {
                return Err(DateTimeError::Parse);
            },
        };
        Ok(DateTime { date, time })
    }

    /// Renders this date and time as `YYYY-MM-DDTHH:MM`.
    pub fn to_string(&self) -> (r: String)
        ensures
            r@ == datetime_chars(self@),
    {
        let mut out: Vec<char> = Vec::new();
        push_pad4(&mut out, self.date.year);
        out.push('-');
        push_pad2(&mut out, self.date.month as u16);
        out.push('-');
        push_pad2(&mut out, self.date.day as u16);
        out.push('T');
        push_pad2(&mut out, self.time.hour as u16);
        out.push(':');
        push_pad2(&mut out, self.time.minute as u16);
        proof {
            assert(out@ =~= datetime_chars(self@));
        }
        crate::text::chars_string(&out)
    }
}

} // verus!
