//! Timestamps for reminders.
//!
//! A [`Timestamp`] is a number of whole seconds since 0000-01-01T00:00:00 UTC
//! (proleptic Gregorian calendar), kept below the start of year 10000 so that
//! every timestamp has a four-digit year. The calendar arithmetic, the
//! RFC 3339 text form and its parser are all verified here; only the system
//! clock and the relative-duration grammar are taken from outside crates.

use crate::text::{
    char_digit, char_of_digit, digit_char, digit_of, is_digit, is_digit_char, lemma_digit_char,
};
use vstd::prelude::*;

verus! {

// ---------------------------------------------------------------------------
// Calendar specification
// ---------------------------------------------------------------------------

pub open spec fn is_leap_year(y: int) -> bool {
    (y % 4 == 0 && y % 100 != 0) || y % 400 == 0
}

pub open spec fn days_in_year(y: int) -> int {
    if is_leap_year(y) {
        366
    } else {
        365
    }
}

pub open spec fn days_in_month(y: int, m: int) -> int {
    if m == 2 {
        if is_leap_year(y) {
            29
        } else {
            28
        }
    } else if m == 4 || m == 6 || m == 9 || m == 11 {
        30
    } else {
        31
    }
}

/// Days from the start of year `y` to the start of month `m` of year `y`.
pub open spec fn days_before_month(y: int, m: int) -> int
    decreases m,
{
    if m <= 1 {
        0
    } else {
        days_before_month(y, m - 1) + days_in_month(y, m - 1)
    }
}

/// Days from 0000-01-01 to the start of year `y`.
pub open spec fn days_before_year(y: int) -> int
    decreases y,
{
    if y <= 0 {
        0
    } else {
        days_before_year(y - 1) + days_in_year(y - 1)
    }
}

pub open spec fn valid_civil(y: int, m: int, d: int, h: int, mi: int, s: int) -> bool {
    &&& 0 <= y < 10000
    &&& 1 <= m <= 12
    &&& 1 <= d <= days_in_month(y, m)
    &&& 0 <= h < 24
    &&& 0 <= mi < 60
    &&& 0 <= s < 60
}

/// Seconds since 0000-01-01T00:00:00 of the given civil date and time.
pub open spec fn civil_secs(y: int, m: int, d: int, h: int, mi: int, s: int) -> int {
    (days_before_year(y) + days_before_month(y, m) + (d - 1)) * 86400 + h * 3600 + mi * 60 + s
}

/// One more second than any valid timestamp: the start of year 10000.
pub open spec fn max_secs() -> int {
    days_before_year(10000) * 86400
}

// ---------------------------------------------------------------------------
// From a day count back to a civil date, as a specification
// ---------------------------------------------------------------------------

/// Year containing day `days` (counted from the start of year `y`), and the
/// day's offset within that year.
pub open spec fn year_split_of(days: int, y: int) -> (int, int)
    decreases days,
{
    if days < 0 {
        (y, 0)
    } else if days >= days_in_year(y) {
        year_split_of(days - days_in_year(y), y + 1)
    } else {
        (y, days)
    }
}

/// Month containing day-of-year `doy` (counted from the start of month `m`),
/// and the one-based day within that month.
pub open spec fn month_day_of(y: int, doy: int, m: int) -> (int, int)
    decreases 12 - m,
{
    if m >= 12 || doy < days_in_month(y, m) {
        (m, doy + 1)
    } else {
        month_day_of(y, doy - days_in_month(y, m), m + 1)
    }
}

/// Civil date and time of the instant `t` seconds after 0000-01-01T00:00:00.
pub open spec fn civil_of_secs(t: int) -> (int, int, int, int, int, int) {
    let days = t / 86400;
    let tod = t % 86400;
    let (y, doy) = year_split_of(days, 0);
    let (m, d) = month_day_of(y, doy, 1);
    let h = tod / 3600;
    let rem = tod % 3600;
    (y, m, d, h, rem / 60, rem % 60)
}

// ---------------------------------------------------------------------------
// Calendar lemmas
// ---------------------------------------------------------------------------

pub proof fn lemma_days_before_year_step(y: int)
    requires
        y >= 0,
    ensures
        days_before_year(y + 1) == days_before_year(y) + days_in_year(y),
{
}

/// `days_before_year` grows by at least 365 and at most 366 per year.
pub proof fn lemma_days_before_year_bounds(y: int)
    requires
        y >= 0,
    ensures
        365 * y <= days_before_year(y) <= 366 * y,
    decreases y,
{
    if y > 0 {
        lemma_days_before_year_bounds(y - 1);
    }
}

pub proof fn lemma_days_before_year_mono(y1: int, y2: int)
    requires
        0 <= y1 <= y2,
    ensures
        days_before_year(y1) + 365 * (y2 - y1) <= days_before_year(y2),
    decreases y2 - y1,
{
    if y1 < y2 {
        lemma_days_before_year_mono(y1, y2 - 1);
    }
}

/// The months of a year account for exactly its days.
pub proof fn lemma_months_cover_year(y: int)
    ensures
        days_before_month(y, 13) == days_in_year(y),
{
    reveal_with_fuel(days_before_month, 14);
}

pub proof fn lemma_days_before_month_mono(y: int, m1: int, m2: int)
    requires
        1 <= m1 <= m2 <= 13,
    ensures
        days_before_month(y, m1) <= days_before_month(y, m2),
    decreases m2 - m1,
{
    if m1 < m2 {
        lemma_days_before_month_mono(y, m1, m2 - 1);
    }
}

/// A valid day number lies strictly inside its year.
pub proof fn lemma_day_in_year(y: int, m: int, d: int)
    requires
        1 <= m <= 12,
        1 <= d <= days_in_month(y, m),
    ensures
        0 <= days_before_month(y, m) + (d - 1) < days_in_year(y),
{
    lemma_days_before_month_mono(y, 1, m);
    lemma_days_before_month_mono(y, m + 1, 13);
    lemma_months_cover_year(y);
}

pub proof fn lemma_year_split_of(days: int, y: int)
    requires
        days >= 0,
        y >= 0,
    ensures
        ({
            let (yy, doy) = year_split_of(days, y);
            &&& yy >= y
            &&& 0 <= doy < days_in_year(yy)
            &&& days_before_year(yy) + doy == days_before_year(y) + days
        }),
    decreases days,
{
    if days >= days_in_year(y) {
        lemma_days_before_year_step(y);
        lemma_year_split_of(days - days_in_year(y), y + 1);
    }
}

pub proof fn lemma_month_day_of(y: int, doy: int, m: int)
    requires
        1 <= m <= 12,
        0 <= doy,
        days_before_month(y, m) + doy < days_in_year(y),
    ensures
        ({
            let (mm, d) = month_day_of(y, doy, m);
            &&& 1 <= mm <= 12
            &&& 1 <= d <= days_in_month(y, mm)
            &&& days_before_month(y, mm) + (d - 1) == days_before_month(y, m) + doy
        }),
    decreases 12 - m,
{
    if m == 12 {
        lemma_months_cover_year(y);
    } else if doy >= days_in_month(y, m) {
        lemma_month_day_of(y, doy - days_in_month(y, m), m + 1);
    }
}

/// The civil form of a valid timestamp is valid and maps back to it.
pub proof fn lemma_civil_of_secs(t: int)
    requires
        0 <= t < max_secs(),
    ensures
        ({
            let (y, m, d, h, mi, s) = civil_of_secs(t);
            &&& valid_civil(y, m, d, h, mi, s)
            &&& civil_secs(y, m, d, h, mi, s) == t
        }),
{
    let days = t / 86400;
    let tod = t % 86400;
    vstd::arithmetic::div_mod::lemma_fundamental_div_mod(t, 86400);
    vstd::arithmetic::div_mod::lemma_mod_bound(t, 86400);
    vstd::arithmetic::div_mod::lemma_div_pos_is_pos(t, 86400);
    assert(days * 86400 + tod == t);
    assert(0 <= tod < 86400);
    assert(days >= 0);
    assert(days < days_before_year(10000)) by {
        if days >= days_before_year(10000) {
            vstd::arithmetic::mul::lemma_mul_inequality(days_before_year(10000), days, 86400);
        }
    }
    lemma_year_split_of(days, 0);
    let (y, doy) = year_split_of(days, 0);
    assert(y < 10000) by {
        if y >= 10000 {
            lemma_days_before_year_mono(10000, y);
            lemma_days_before_year_bounds(10000);
        }
    }
    lemma_month_day_of(y, doy, 1);
    let h = tod / 3600;
    let rem = tod % 3600;
    vstd::arithmetic::div_mod::lemma_fundamental_div_mod(tod, 3600);
    vstd::arithmetic::div_mod::lemma_mod_bound(tod, 3600);
    vstd::arithmetic::div_mod::lemma_div_pos_is_pos(tod, 3600);
    vstd::arithmetic::div_mod::lemma_fundamental_div_mod(rem, 60);
    vstd::arithmetic::div_mod::lemma_mod_bound(rem, 60);
    vstd::arithmetic::div_mod::lemma_div_pos_is_pos(rem, 60);
    assert(h < 24 && rem / 60 < 60) by {
        if h >= 24 {
            vstd::arithmetic::mul::lemma_mul_inequality(24, h, 3600);
        }
        if rem / 60 >= 60 {
            vstd::arithmetic::mul::lemma_mul_inequality(60, rem / 60, 60);
        }
    }
    let (m, d) = month_day_of(y, doy, 1);
    assert((days_before_year(y) + days_before_month(y, m) + (d - 1)) == days);
    assert((days_before_year(y) + days_before_month(y, m) + (d - 1)) * 86400 == days * 86400);
}

// ---------------------------------------------------------------------------
// The timestamp type and executable conversions
// ---------------------------------------------------------------------------

/// An instant in UTC: whole seconds since 0000-01-01T00:00:00.
#[derive(Clone, Copy, PartialEq, Eq, Structural, Debug)]
pub struct Timestamp {
    pub secs: u64,
}

impl Timestamp {
    /// Valid timestamps lie before the start of year 10000.
    pub open spec fn is_valid(self) -> bool {
        self.secs < max_secs()
    }
}

/// A civil date and time, field by field, as read or shown to people.
#[derive(Clone, Copy, PartialEq, Eq, Structural, Debug)]
pub struct CivilTime {
    pub year: u64,
    pub month: u64,
    pub day: u64,
    pub hour: u64,
    pub minute: u64,
    pub second: u64,
}

impl CivilTime {
    pub open spec fn is_valid(self) -> bool {
        valid_civil(
            self.year as int,
            self.month as int,
            self.day as int,
            self.hour as int,
            self.minute as int,
            self.second as int,
        )
    }

    pub open spec fn secs(self) -> int {
        civil_secs(
            self.year as int,
            self.month as int,
            self.day as int,
            self.hour as int,
            self.minute as int,
            self.second as int,
        )
    }
}

fn year_len(y: u64) -> (r: u64)
    ensures
        r as int == days_in_year(y as int),
{
    if (y % 4 == 0 && y % 100 != 0) || y % 400 == 0 {
        366
    } else {
        365
    }
}

fn month_len(y: u64, m: u64) -> (r: u64)
    ensures
        r as int == days_in_month(y as int, m as int),
{
    if m == 2 {
        if (y % 4 == 0 && y % 100 != 0) || y % 400 == 0 {
            29
        } else {
            28
        }
    } else if m == 4 || m == 6 || m == 9 || m == 11 {
        30
    } else {
        31
    }
}

/// Days from 0000-01-01 to the start of year `y`.
fn days_before_year_x(y: u64) -> (r: u64)
    requires
        y <= 10000,
    ensures
        r as int == days_before_year(y as int),
{
    let mut acc: u64 = 0;
    let mut i: u64 = 0;
    while i < y
        invariant
            i <= y <= 10000,
            acc as int == days_before_year(i as int),
            acc <= 366 * i,
        decreases y - i,
    {
        proof {
            lemma_days_before_year_step(i as int);
        }
        acc = acc + year_len(i);
        i = i + 1;
    }
    acc
}

/// One more second than any valid timestamp holds.
pub fn max_timestamp_secs() -> (r: u64)
    ensures
        r as int == max_secs(),
{
    let days = days_before_year_x(10000);
    proof {
        lemma_days_before_year_bounds(10000);
    }
    days * 86400
}

impl Timestamp {
    /// The civil date and time that this timestamp falls on.
    pub fn to_civil(&self) -> (c: CivilTime)
        requires
            self.is_valid(),
        ensures
            c.is_valid(),
            c.secs() == self.secs as int,
            (c.year as int, c.month as int, c.day as int, c.hour as int, c.minute as int,
            c.second as int) == civil_of_secs(self.secs as int),
    {
        proof {
            lemma_civil_of_secs(self.secs as int);
        }
        let ghost t = self.secs as int;
        let mut days: u64 = self.secs / 86400;
        let tod: u64 = self.secs % 86400;
        let ghost days0 = days as int;
        proof {
            vstd::arithmetic::div_mod::lemma_fundamental_div_mod(t, 86400);
            vstd::arithmetic::div_mod::lemma_mod_bound(t, 86400);
            vstd::arithmetic::div_mod::lemma_div_pos_is_pos(t, 86400);
            assert(days0 < days_before_year(10000)) by {
                if days0 >= days_before_year(10000) {
                    vstd::arithmetic::mul::lemma_mul_inequality(
                        days_before_year(10000),
                        days0,
                        86400,
                    );
                }
            }
        }
        let mut y: u64 = 0;
        while days >= year_len(y)
            invariant
                y < 10000,
                days_before_year(y as int) + days as int == days0,
                days0 < days_before_year(10000),
                year_split_of(days0, 0) == year_split_of(days as int, y as int),
            decreases days,
        {
            proof {
                lemma_days_before_year_step(y as int);
                if y as int + 1 >= 10000 {
                    lemma_days_before_year_mono(10000, y as int + 1);
                }
            }
            days = days - year_len(y);
            y = y + 1;
        }
        let ghost doy0 = days as int;
        let mut m: u64 = 1;
        while m < 12 && days >= month_len(y, m)
            invariant
                1 <= m <= 12,
                days_before_month(y as int, m as int) + days as int == doy0,
                0 <= doy0 < days_in_year(y as int),
                month_day_of(y as int, doy0, 1) == month_day_of(y as int, days as int, m as int),
            decreases 12 - m,
        {
            days = days - month_len(y, m);
            m = m + 1;
        }
        proof {
            if m == 12 && days as int >= days_in_month(y as int, 12) {
                lemma_months_cover_year(y as int);
            }
        }
        let d: u64 = days + 1;
        let hour: u64 = tod / 3600;
        let rem: u64 = tod % 3600;
        let minute: u64 = rem / 60;
        let second: u64 = rem % 60;
        proof {
            lemma_year_split_of(days0, 0);
            lemma_month_day_of(y as int, doy0, 1);
            vstd::arithmetic::div_mod::lemma_fundamental_div_mod(tod as int, 3600);
            vstd::arithmetic::div_mod::lemma_fundamental_div_mod(rem as int, 60);
        }
        CivilTime { year: y, month: m, day: d, hour, minute, second }
    }
}

impl CivilTime {
    /// The timestamp of this civil date and time, or `None` when a field is
    /// out of range.
    pub fn to_timestamp(&self) -> (r: Option<Timestamp>)
        ensures
            match r {
                Some(t) => {
                    &&& self.is_valid()
                    &&& t.is_valid()
                    &&& t.secs as int == self.secs()
                },
                None => !self.is_valid(),
            },
    {
        if !(self.year < 10000 && 1 <= self.month && self.month <= 12 && 1 <= self.day
            && self.hour < 24 && self.minute < 60 && self.second < 60) {
            return None;
        }
        if self.day > month_len(self.year, self.month) {
            return None;
        }
        let before_year = days_before_year_x(self.year);
        let mut before_month: u64 = 0;
        let mut i: u64 = 1;
        while i < self.month
            invariant
                1 <= i <= self.month <= 12,
                before_month as int == days_before_month(self.year as int, i as int),
                before_month <= 31 * i,
        decreases self.month - i,
        {
            before_month = before_month + month_len(self.year, i);
            i = i + 1;
        }
        proof {
            lemma_days_before_year_bounds(self.year as int);
        }
        let days: u64 = before_year + before_month + (self.day - 1);
        proof {
            lemma_day_in_year(self.year as int, self.month as int, self.day as int);
            lemma_days_before_year_step(self.year as int);
            lemma_days_before_year_mono(self.year as int + 1, 10000);
            lemma_days_before_year_bounds(10000);
            vstd::arithmetic::mul::lemma_mul_inequality(
                days as int + 1,
                days_before_year(10000),
                86400,
            );
        }
        let secs: u64 = days * 86400 + self.hour * 3600 + self.minute * 60 + self.second;
        Some(Timestamp { secs })
    }
}

// ---------------------------------------------------------------------------
// RFC 3339 text form
// ---------------------------------------------------------------------------

/// The RFC 3339 form of the instant `t` seconds after 0000-01-01T00:00:00:
/// `YYYY-MM-DDThh:mm:ss+00:00`, 25 characters.
pub open spec fn rfc3339_of(t: int) -> Seq<char> {
    let (y, m, d, h, mi, s) = civil_of_secs(t);
    seq![
        digit_char(y / 1000 % 10),
        digit_char(y / 100 % 10),
        digit_char(y / 10 % 10),
        digit_char(y % 10),
        '-',
        digit_char(m / 10 % 10),
        digit_char(m % 10),
        '-',
        digit_char(d / 10 % 10),
        digit_char(d % 10),
        'T',
        digit_char(h / 10 % 10),
        digit_char(h % 10),
        ':',
        digit_char(mi / 10 % 10),
        digit_char(mi % 10),
        ':',
        digit_char(s / 10 % 10),
        digit_char(s % 10),
        '+',
        '0',
        '0',
        ':',
        '0',
        '0',
    ]
}

/// Appends the two decimal digits of `n` (zero padded) to `out`.
fn push_two_digits(out: &mut Vec<char>, n: u64)
    requires
        n < 100,
    ensures
        final(out)@ == old(out)@ + seq![
            digit_char(n as int / 10 % 10),
            digit_char(n as int % 10),
        ],
{
    out.push(char_of_digit(n / 10));
    out.push(char_of_digit(n % 10));
    proof {
        assert(final(out)@ =~= old(out)@ + seq![
            digit_char(n as int / 10 % 10),
            digit_char(n as int % 10),
        ]);
    }
}

/// Appends `rfc3339_of(t.secs)` to `out`.
#[verifier::rlimit(60)]
#[verifier::spinoff_prover]
pub fn push_rfc3339(out: &mut Vec<char>, t: &Timestamp)
    requires
        t.is_valid(),
    ensures
        final(out)@ == old(out)@ + rfc3339_of(t.secs as int),
{
    let c = t.to_civil();
    out.push(char_of_digit(c.year / 1000));
    out.push(char_of_digit(c.year / 100 % 10));
    out.push(char_of_digit(c.year / 10 % 10));
    out.push(char_of_digit(c.year % 10));
    out.push('-');
    push_two_digits(out, c.month);
    out.push('-');
    push_two_digits(out, c.day);
    out.push('T');
    push_two_digits(out, c.hour);
    out.push(':');
    push_two_digits(out, c.minute);
    out.push(':');
    push_two_digits(out, c.second);
    out.push('+');
    out.push('0');
    out.push('0');
    out.push(':');
    out.push('0');
    out.push('0');
    proof {
        assert(c.year as int / 1000 % 10 == c.year as int / 1000);
        assert(final(out)@ =~= old(out)@ + rfc3339_of(t.secs as int));
    }
}

/// The RFC 3339 form of `t`, as a `String`.
pub fn timestamp_to_rfc3339(t: &Timestamp) -> (r: String)
    requires
        t.is_valid(),
    ensures
        r@ == rfc3339_of(t.secs as int),
{
    let mut out: Vec<char> = Vec::new();
    push_rfc3339(&mut out, t);
    crate::text::chars_to_string(&out)
}

// ---------------------------------------------------------------------------
// RFC 3339 parsing
// ---------------------------------------------------------------------------

pub open spec fn digit2_at(s: Seq<char>, i: int) -> bool {
    is_digit(s[i]) && is_digit(s[i + 1])
}

pub open spec fn num2_at(s: Seq<char>, i: int) -> int {
    char_digit(s[i]) * 10 + char_digit(s[i + 1])
}

pub open spec fn digit4_at(s: Seq<char>, i: int) -> bool {
    digit2_at(s, i) && digit2_at(s, i + 2)
}

pub open spec fn num4_at(s: Seq<char>, i: int) -> int {
    char_digit(s[i]) * 1000 + char_digit(s[i + 1]) * 100 + char_digit(s[i + 2]) * 10 + char_digit(
        s[i + 3],
    )
}

/// The fixed-width `YYYY-MM-DDThh:mm:ss` head of an RFC 3339 string at `i`.
pub open spec fn rfc3339_head_ok(s: Seq<char>, i: int) -> bool {
    &&& digit4_at(s, i)
    &&& s[i + 4] == '-'
    &&& digit2_at(s, i + 5)
    &&& s[i + 7] == '-'
    &&& digit2_at(s, i + 8)
    &&& s[i + 10] == 'T'
    &&& digit2_at(s, i + 11)
    &&& s[i + 13] == ':'
    &&& digit2_at(s, i + 14)
    &&& s[i + 16] == ':'
    &&& digit2_at(s, i + 17)
}

/// The first position at or after `i` that does not hold a decimal digit.
pub open spec fn skip_digits(s: Seq<char>, i: int) -> int
    decreases s.len() - i,
{
    if 0 <= i < s.len() && is_digit(s[i]) {
        skip_digits(s, i + 1)
    } else {
        i
    }
}

/// The position after an optional fractional-seconds part at `i`: fractional
/// digits are read over and dropped, a bare dot is malformed.
pub open spec fn fraction_end(s: Seq<char>, i: int) -> Option<int> {
    if 0 <= i < s.len() && s[i] == '.' {
        let k = skip_digits(s, i + 1);
        if k > i + 1 {
            Some(k)
        } else {
            None
        }
    } else {
        Some(i)
    }
}

/// A numeric offset `+hh:mm` / `-hh:mm` or `Z` at `i`: the signed offset in
/// seconds and the position after it.
pub open spec fn parse_offset_at(s: Seq<char>, i: int) -> Option<(int, int)> {
    if i < s.len() && (s[i] == 'Z' || s[i] == 'z') {
        Some((0, i + 1))
    } else if i + 6 <= s.len() && (s[i] == '+' || s[i] == '-') && digit2_at(s, i + 1) && s[i + 3]
        == ':' && digit2_at(s, i + 4) {
        let oh = num2_at(s, i + 1);
        let om = num2_at(s, i + 4);
        if oh < 24 && om < 60 {
            let off = oh * 3600 + om * 60;
            Some((if s[i] == '-' { -off } else { off }, i + 6))
        } else {
            None
        }
    } else {
        None
    }
}

/// An RFC 3339 date-time at `i`: the instant in seconds since
/// 0000-01-01T00:00:00 UTC and the position after it, or `None` when the
/// text does not fit or the instant falls outside years 0 to 9999.
/// Fractional seconds are read over and dropped.
pub open spec fn parse_rfc3339_at(s: Seq<char>, i: int) -> Option<(u64, int)> {
    if i < 0 || i + 19 > s.len() || !rfc3339_head_ok(s, i) {
        None
    } else {
        let y = num4_at(s, i);
        let mo = num2_at(s, i + 5);
        let d = num2_at(s, i + 8);
        let h = num2_at(s, i + 11);
        let mi = num2_at(s, i + 14);
        let se = num2_at(s, i + 17);
        if !valid_civil(y, mo, d, h, mi, se) {
            None
        } else {
            match fraction_end(s, i + 19) {
                None => None,
                Some(f) => match parse_offset_at(s, f) {
                    None => None,
                    Some((off, j)) => {
                        let t = civil_secs(y, mo, d, h, mi, se) - off;
                        if 0 <= t < max_secs() {
                            Some((t as u64, j))
                        } else {
                            None
                        }
                    },
                },
            }
        }
    }
}

fn read_num2(v: &Vec<char>, i: usize) -> (r: Option<u64>)
    requires
        i + 2 <= v@.len(),
    ensures
        match r {
            Some(n) => digit2_at(v@, i as int) && n as int == num2_at(v@, i as int) && n < 100,
            None => !digit2_at(v@, i as int),
        },
{
    let n = v.len();
    assert(i + 2 <= n);
    if is_digit_char(v[i]) && is_digit_char(v[i + 1]) {
        Some(digit_of(v[i]) * 10 + digit_of(v[i + 1]))
    } else {
        None
    }
}

/// Parses an RFC 3339 date-time in `v` starting at `i`, as `parse_rfc3339_at`
/// describes.
pub fn parse_rfc3339(v: &Vec<char>, i: usize) -> (r: Option<(Timestamp, usize)>)
    requires
        i <= v@.len(),
    ensures
        match r {
            Some((t, j)) => {
                &&& parse_rfc3339_at(v@, i as int) == Some((t.secs, j as int))
                &&& t.is_valid()
                &&& i < j <= v@.len()
            },
            None => parse_rfc3339_at(v@, i as int) is None,
        },
{
    if v.len() - i < 19 {
        return None;
    }
    let y0 = read_num2(v, i);
    let y1 = read_num2(v, i + 2);
    let mo = read_num2(v, i + 5);
    let d = read_num2(v, i + 8);
    let h = read_num2(v, i + 11);
    let mi = read_num2(v, i + 14);
    let se = read_num2(v, i + 17);
    let seps_ok = v[i + 4] == '-' && v[i + 7] == '-' && v[i + 10] == 'T' && v[i + 13] == ':' && v[i
        + 16] == ':';
    match (y0, y1, mo, d, h, mi, se) {
        (Some(y0), Some(y1), Some(mo), Some(d), Some(h), Some(mi), Some(se)) if seps_ok => {
            let year = y0 * 100 + y1;
            assert(year as int == num4_at(v@, i as int));
            let civil = CivilTime {
                year,
                month: mo,
                day: d,
                hour: h,
                minute: mi,
                second: se,
            };
            let base = match civil.to_timestamp() {
                Some(t) => t,
                None => {
                    return None;
                },
            };
            // the optional fraction, read over and dropped
            let mut j = i + 19;
            if j < v.len() && v[j] == '.' {
                let mut k = j + 1;
                while k < v.len() && is_digit_char(v[k])
                    invariant
                        j + 1 <= k <= v@.len(),
                        skip_digits(v@, j as int + 1) == skip_digits(v@, k as int),
                    decreases v@.len() - k,
                {
                    k = k + 1;
                }
                if k == j + 1 {
                    return None;
                }
                j = k;
            }
            // the offset
            if j < v.len() && (v[j] == 'Z' || v[j] == 'z') {
                return Some((base, j + 1));
            }
            if v.len() - j < 6 {
                return None;
            }
            let sign_minus = if v[j] == '-' {
                true
            } else if v[j] == '+' {
                false
            } else {
                return None;
            };
            let oh = read_num2(v, j + 1);
            let om = read_num2(v, j + 4);
            match (oh, om) {
                (Some(oh), Some(om)) if v[j + 3] == ':' && oh < 24 && om < 60 => {
                    let off: u64 = oh * 3600 + om * 60;
                    if sign_minus {
                        proof {
                            lemma_days_before_year_bounds(10000);
                        }
                        let t = base.secs + off;
                        let limit = max_timestamp_secs();
                        if t < limit {
                            Some((Timestamp { secs: t }, j + 6))
                        } else {
                            None
                        }
                    } else {
                        if base.secs < off {
                            None
                        } else {
                            Some((Timestamp { secs: base.secs - off }, j + 6))
                        }
                    }
                },
                _ => None,
            }
        },
        _ => None,
    }
}

/// Every valid timestamp's RFC 3339 form parses back to it, wherever it
/// stands in the surrounding text.
pub proof fn lemma_rfc3339_round_trip(t: u64, s: Seq<char>, i: int)
    requires
        (t as int) < max_secs(),
        0 <= i,
        i + 25 <= s.len(),
        s.subrange(i, i + 25) == rfc3339_of(t as int),
    ensures
        parse_rfc3339_at(s, i) == Some((t, i + 25)),
{
    lemma_civil_of_secs(t as int);
    let (y, m, d, h, mi, se) = civil_of_secs(t as int);
    let enc = rfc3339_of(t as int);
    assert forall|k: int| 0 <= k < 25 implies s[i + k] == enc[k] by {
        assert(s.subrange(i, i + 25)[k] == s[i + k]);
    }
    assert forall|x: int| 0 <= x < 10 implies is_digit(#[trigger] digit_char(x)) && char_digit(
        digit_char(x),
    ) == x by {
        lemma_digit_char(x);
    }
    lemma_dec4(y);
    lemma_dec2(m);
    lemma_dec2(d);
    lemma_dec2(h);
    lemma_dec2(mi);
    lemma_dec2(se);
    assert(rfc3339_head_ok(s, i));
    assert(num4_at(s, i) == y);
    assert(num2_at(s, i + 5) == m);
    assert(num2_at(s, i + 8) == d);
    assert(num2_at(s, i + 11) == h);
    assert(num2_at(s, i + 14) == mi);
    assert(num2_at(s, i + 17) == se);
    assert(s[i + 19] == '+');
    assert(num2_at(s, i + 20) == 0);
    assert(num2_at(s, i + 23) == 0);
    assert(parse_offset_at(s, i + 19) == Some((0int, i + 25)));
}

/// RFC 3339 text is digits and date separators only: it holds none of the
/// characters that delimit the line-oriented reminder format.
pub proof fn lemma_rfc3339_no_delimiters(t: int)
    ensures
        forall|k: int|
            0 <= k < rfc3339_of(t).len() ==> (#[trigger] rfc3339_of(t)[k]) != '\n'
                && rfc3339_of(t)[k] != ',' && rfc3339_of(t)[k] != '"',
{
    let r = rfc3339_of(t);
    assert(forall|x: int|
        digit_char(x) != '\n' && #[trigger] digit_char(x) != ',' && digit_char(x) != '"');
    assert forall|k: int| 0 <= k < r.len() implies (#[trigger] r[k]) != '\n' && r[k] != ','
        && r[k] != '"' by {
        assert(r.len() == 25);
    }
}

// ---------------------------------------------------------------------------
// The clock and the relative-duration grammar
// ---------------------------------------------------------------------------

/// What `duration_str::parse` yields on `s`, truncated to whole seconds: a
/// fixed function of the characters alone.
pub uninterp spec fn duration_secs_of(s: Seq<char>) -> Option<u64>;

/// Relies on `duration_str::parse`: the relative-duration grammar
/// ("1d2h3m10s" and the like) is deterministic in its input; the parsed
/// duration is truncated to whole seconds.
#[verifier::external_body]
pub(crate) fn parse_duration_secs(s: &str) -> (r: Option<u64>)
    ensures
        r == duration_secs_of(s@),
{
    match duration_str::parse(s) {
        Ok(d) => Some(d.as_secs()),
        Err(_) => None,
    }
}

/// Relies on `std::time::SystemTime::now`: the system clock, read as whole
/// seconds since the Unix epoch, or `None` when the clock reads before the
/// epoch. Nothing is promised of the value; callers must range-check it.
#[verifier::external_body]
fn unix_now_secs() -> Option<u64> {
    match std::time::SystemTime::now().duration_since(std::time::UNIX_EPOCH) {
        Ok(elapsed) => Some(elapsed.as_secs()),
        Err(_) => None,
    }
}

/// Seconds between the Unix epoch and this crate's year-0 epoch.
fn unix_epoch_offset() -> (r: u64)
    ensures
        r as int == civil_secs(1970, 1, 1, 0, 0, 0),
        r <= 63000000000,
{
    let days = days_before_year_x(1970);
    proof {
        lemma_days_before_year_bounds(1970);
    }
    days * 86400
}

impl Timestamp {
    /// The current instant, from the system clock; `None` when the clock
    /// reads before 1970 or at year 10000 or later.
    pub fn now() -> (r: Option<Timestamp>)
        ensures
            r matches Some(t) ==> t.is_valid(),
    {
        let unix = match unix_now_secs() {
            Some(u) => u,
            None => {
                return None;
            },
        };
        let offset = unix_epoch_offset();
        if unix > u64::MAX - offset {
            return None;
        }
        let secs = unix + offset;
        if secs < max_timestamp_secs() {
            Some(Timestamp { secs })
        } else {
            None
        }
    }

    /// This instant moved `extra` seconds later, while still valid.
    pub fn add_secs(&self, extra: u64) -> (r: Option<Timestamp>)
        ensures
            match r {
                Some(t) => {
                    &&& self.secs + extra < max_secs()
                    &&& t.secs == self.secs + extra
                    &&& t.is_valid()
                },
                None => self.secs + extra >= max_secs(),
            },
    {
        let limit = max_timestamp_secs();
        if extra < limit && self.secs < limit - extra {
            Some(Timestamp { secs: self.secs + extra })
        } else {
            None
        }
    }
}

/// A number below 100 is its two digits.
proof fn lemma_dec2(n: int)
    requires
        0 <= n < 100,
    ensures
        (n / 10 % 10) * 10 + n % 10 == n,
        0 <= n / 10 % 10 < 10,
        0 <= n % 10 < 10,
{
    vstd::arithmetic::div_mod::lemma_fundamental_div_mod(n, 10);
    vstd::arithmetic::div_mod::lemma_mod_bound(n, 10);
}

/// A number below 10000 is its four digits.
proof fn lemma_dec4(n: int)
    requires
        0 <= n < 10000,
    ensures
        (n / 1000 % 10) * 1000 + (n / 100 % 10) * 100 + (n / 10 % 10) * 10 + n % 10 == n,
        0 <= n / 1000 % 10 < 10,
        0 <= n / 100 % 10 < 10,
        0 <= n / 10 % 10 < 10,
        0 <= n % 10 < 10,
{
    vstd::arithmetic::div_mod::lemma_fundamental_div_mod(n, 10);
    vstd::arithmetic::div_mod::lemma_mod_bound(n, 10);
    vstd::arithmetic::div_mod::lemma_fundamental_div_mod(n / 10, 10);
    vstd::arithmetic::div_mod::lemma_mod_bound(n / 10, 10);
    vstd::arithmetic::div_mod::lemma_fundamental_div_mod(n / 100, 10);
    vstd::arithmetic::div_mod::lemma_mod_bound(n / 100, 10);
    assert(n / 10 / 10 == n / 100) by {
        vstd::arithmetic::div_mod::lemma_div_denominator(n, 10, 10);
    }
    assert(n / 100 / 10 == n / 1000) by {
        vstd::arithmetic::div_mod::lemma_div_denominator(n, 100, 10);
    }
    assert(n / 1000 < 10);
    vstd::arithmetic::div_mod::lemma_small_mod((n / 1000) as nat, 10);
}

} // verus!
