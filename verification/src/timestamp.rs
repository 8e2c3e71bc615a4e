//! Minute-precision timestamps with an explicit UTC offset.
//!
//! A log line carries an absolute timestamp in the fixed pattern
//! `YYYY-MM-DDTHH:MM±HHMM`. This module holds the calendar model: field
//! validity (including leap years), and the conversion of a timestamp to an
//! absolute count of minutes since the epoch, from which all elapsed-time
//! arithmetic in the registry is computed.

use crate::text::{
    char_of_digit, digit_at, digit_val, is_digit, no_tabs, push_four_digits, push_two_digits,
};
use vstd::arithmetic::div_mod::{
    lemma_div_denominator, lemma_fundamental_div_mod, lemma_mod_bound,
};
use vstd::prelude::*;

verus! {

/// Minutes since the epoch are below this bound for every well-formed
/// timestamp (years 0000 through 9999, offsets within one day).
pub const MAX_INSTANT: i64 = 4223467000;

/// Minutes since the epoch are above this bound for every well-formed
/// timestamp.
pub const MIN_INSTANT: i64 = -1246416000;

/// Minutes from the shifted day count down to the epoch 1970-01-01T00:00 UTC:
/// (719468 + 146097) * 1440.
pub const EPOCH_SHIFT_MINUTES: i64 = 1246413600;

/// An absolute point in time with minute precision, together with the fixed
/// UTC offset it was written in.
#[derive(PartialEq, Eq, Structural, Clone, Copy, Debug, Hash)]
pub struct Timestamp {
    pub year: u16,
    pub month: u8,
    pub day: u8,
    pub hour: u8,
    pub minute: u8,
    /// Offset east of UTC, in minutes.
    pub offset_minutes: i16,
}

pub open spec fn is_leap_year(y: int) -> bool {
    y % 4 == 0 && (y % 100 != 0 || y % 400 == 0)
}

pub open spec fn days_in_month(y: int, m: int) -> int {
    if m == 2 {
        if is_leap_year(y) {
            29
        } else {
            28
        }
    } else if m == 4 || m == 6 || m == 9 || m == 11 {
        30
    } else {
        31
    }
}

/// Day count of a civil date, shifted by 400 years so that every
/// intermediate quantity is non-negative for well-formed dates.
/// `shifted_days(1970, 1, 1) * 1440 == EPOCH_SHIFT_MINUTES`.
pub open spec fn shifted_days(y: int, m: int, d: int) -> int {
    let yy = if m <= 2 {
        y + 399
    } else {
        y + 400
    };
    let era = yy / 400;
    let yoe = yy % 400;
    let mp = if m > 2 {
        m - 3
    } else {
        m + 9
    };
    let doy = (153 * mp + 2) / 5 + d - 1;
    let doe = yoe * 365 + yoe / 4 - yoe / 100 + doy;
    era * 146097 + doe
}

impl Timestamp {
    /// Field validity: a real calendar date (leap years included), a time of
    /// day, and an offset strictly within one day.
    pub open spec fn wf(self) -> bool {
        &&& self.year <= 9999
        &&& 1 <= self.month <= 12
        &&& 1 <= self.day <= days_in_month(self.year as int, self.month as int)
        &&& self.hour <= 23
        &&& self.minute <= 59
        &&& -1439 <= self.offset_minutes <= 1439
    }

    /// The absolute instant this timestamp denotes, as minutes since
    /// 1970-01-01T00:00 UTC. Two timestamps written with different offsets
    /// denote the same instant exactly when these values agree.
    #[verifier::opaque]
    pub open spec fn instant(self) -> int {
        shifted_days(self.year as int, self.month as int, self.day as int) * 1440
            + self.hour as int * 60 + self.minute as int - EPOCH_SHIFT_MINUTES as int
            - self.offset_minutes as int
    }

    /// Builds a timestamp, accepting exactly the well-formed field values.
    pub fn new(year: u16, month: u8, day: u8, hour: u8, minute: u8, offset_minutes: i16) -> (r:
        Option<Timestamp>)
        ensures
            match r {
                Some(t) => t == (Timestamp { year, month, day, hour, minute, offset_minutes })
                    && t.wf(),
                None => !(Timestamp { year, month, day, hour, minute, offset_minutes }).wf(),
            },
    {
        if year <= 9999 && 1 <= month && month <= 12 && 1 <= day && hour <= 23 && minute <= 59
            && -1439 <= offset_minutes && offset_minutes <= 1439 && day <= days_in_month_exec(
            year,
            month,
        ) {
            Some(Timestamp { year, month, day, hour, minute, offset_minutes })
        } else {
            None
        }
    }

    /// The instant as an `i64`, for elapsed-time arithmetic.
    pub fn instant_minutes(&self) -> (r: i64)
        requires
            self.wf(),
        ensures
            r == self.instant(),
            MIN_INSTANT < r < MAX_INSTANT,
    {
        proof {
            reveal(Timestamp::instant);
        }
        let yy: u64 = if self.month <= 2 {
            self.year as u64 + 399
        } else {
            self.year as u64 + 400
        };
        let era: u64 = yy / 400;
        let yoe: u64 = yy % 400;
        let mp: u64 = if self.month > 2 {
            self.month as u64 - 3
        } else {
            self.month as u64 + 9
        };
        let doy: u64 = (153 * mp + 2) / 5 + self.day as u64 - 1;
        assert(yoe / 100 <= yoe / 4);
        let doe: u64 = yoe * 365 + yoe / 4 - yoe / 100 + doy;
        let sdays: u64 = era * 146097 + doe;
        let mins: i64 = (sdays * 1440 + self.hour as u64 * 60 + self.minute as u64) as i64;
        mins - EPOCH_SHIFT_MINUTES - self.offset_minutes as i64
    }
}

/// Exact bounds on the instant of every well-formed timestamp; they bound
/// every duration the registry can accumulate.
pub proof fn lemma_instant_bounds(t: Timestamp)
    requires
        t.wf(),
    ensures
        MIN_INSTANT < t.instant() < MAX_INSTANT,
{
    reveal(Timestamp::instant);
}

/// The 21 characters `YYYY-MM-DDTHH:MM±HHMM` that denote `t` in a log line.
pub open spec fn ts_text(t: Timestamp) -> Seq<char> {
    let y = t.year as int;
    let mo = t.month as int;
    let d = t.day as int;
    let h = t.hour as int;
    let mi = t.minute as int;
    let a = if t.offset_minutes < 0 {
        -(t.offset_minutes as int)
    } else {
        t.offset_minutes as int
    };
    seq![
        char_of_digit(y / 1000),
        char_of_digit(y / 100 % 10),
        char_of_digit(y / 10 % 10),
        char_of_digit(y % 10),
        '-',
        char_of_digit(mo / 10),
        char_of_digit(mo % 10),
        '-',
        char_of_digit(d / 10),
        char_of_digit(d % 10),
        'T',
        char_of_digit(h / 10),
        char_of_digit(h % 10),
        ':',
        char_of_digit(mi / 10),
        char_of_digit(mi % 10),
        if t.offset_minutes < 0 {
            '-'
        } else {
            '+'
        },
        char_of_digit(a / 60 / 10),
        char_of_digit(a / 60 % 10),
        char_of_digit(a % 60 / 10),
        char_of_digit(a % 60 % 10),
    ]
}

/// Whether `s` has the shape `YYYY-MM-DDTHH:MM±HHMM`: exactly 21 characters,
/// digits and separators in their fixed places.
pub open spec fn ts_shape(s: Seq<char>) -> bool {
    &&& s.len() == 21
    &&& is_digit(s[0]) && is_digit(s[1]) && is_digit(s[2]) && is_digit(s[3])
    &&& s[4] == '-'
    &&& is_digit(s[5]) && is_digit(s[6])
    &&& s[7] == '-'
    &&& is_digit(s[8]) && is_digit(s[9])
    &&& s[10] == 'T'
    &&& is_digit(s[11]) && is_digit(s[12])
    &&& s[13] == ':'
    &&& is_digit(s[14]) && is_digit(s[15])
    &&& (s[16] == '+' || s[16] == '-')
    &&& is_digit(s[17]) && is_digit(s[18]) && is_digit(s[19]) && is_digit(s[20])
}

/// The timestamp a text of the right shape denotes, before validity checks.
pub open spec fn ts_of_shape(s: Seq<char>) -> Timestamp {
    let y = 1000 * digit_val(s[0]) + 100 * digit_val(s[1]) + 10 * digit_val(s[2]) + digit_val(
        s[3],
    );
    let mo = 10 * digit_val(s[5]) + digit_val(s[6]);
    let d = 10 * digit_val(s[8]) + digit_val(s[9]);
    let h = 10 * digit_val(s[11]) + digit_val(s[12]);
    let mi = 10 * digit_val(s[14]) + digit_val(s[15]);
    let oh = 10 * digit_val(s[17]) + digit_val(s[18]);
    let om = 10 * digit_val(s[19]) + digit_val(s[20]);
    let off = if s[16] == '-' {
        -(oh * 60 + om)
    } else {
        oh * 60 + om
    };
    Timestamp {
        year: y as u16,
        month: mo as u8,
        day: d as u8,
        hour: h as u8,
        minute: mi as u8,
        offset_minutes: off as i16,
    }
}

/// Reads a timestamp from its fixed textual pattern. `None` exactly when the
/// shape is wrong, a calendar field is out of range, or the offset minutes
/// exceed 59.
pub open spec fn parse_ts(s: Seq<char>) -> Option<Timestamp> {
    if ts_shape(s) {
        let t = ts_of_shape(s);
        if t.wf() && 10 * digit_val(s[19]) + digit_val(s[20]) <= 59 {
            Some(t)
        } else {
            None
        }
    } else {
        None
    }
}

proof fn lemma_two_digit_decomp(v: int)
    requires
        0 <= v < 100,
    ensures
        10 * (v / 10) + v % 10 == v,
        0 <= v / 10 <= 9,
        0 <= v % 10 <= 9,
{
    lemma_fundamental_div_mod(v, 10);
    lemma_mod_bound(v, 10);
}

proof fn lemma_four_digit_decomp(v: int)
    requires
        0 <= v < 10000,
    ensures
        1000 * (v / 1000) + 100 * (v / 100 % 10) + 10 * (v / 10 % 10) + v % 10 == v,
        0 <= v / 1000 <= 9,
        0 <= v / 100 % 10 <= 9,
        0 <= v / 10 % 10 <= 9,
        0 <= v % 10 <= 9,
{
    lemma_fundamental_div_mod(v, 10);
    lemma_mod_bound(v, 10);
    lemma_fundamental_div_mod(v, 100);
    lemma_mod_bound(v, 100);
    lemma_div_denominator(v, 10, 10);
    lemma_fundamental_div_mod(v / 10, 10);
    lemma_mod_bound(v / 10, 10);
    lemma_div_denominator(v, 100, 10);
    lemma_fundamental_div_mod(v / 100, 10);
    lemma_mod_bound(v / 100, 10);
}

/// The textual form of a well-formed timestamp is tab-free and parses back to
/// the same timestamp.
pub proof fn lemma_ts_text_parses(t: Timestamp)
    requires
        t.wf(),
    ensures
        ts_text(t).len() == 21,
        no_tabs(ts_text(t)),
        parse_ts(ts_text(t)) == Some(t),
{
    let s = ts_text(t);
    let y = t.year as int;
    let a = if t.offset_minutes < 0 {
        -(t.offset_minutes as int)
    } else {
        t.offset_minutes as int
    };
    lemma_four_digit_decomp(y);
    lemma_two_digit_decomp(t.month as int);
    lemma_two_digit_decomp(t.day as int);
    lemma_two_digit_decomp(t.hour as int);
    lemma_two_digit_decomp(t.minute as int);
    lemma_fundamental_div_mod(a, 60);
    lemma_mod_bound(a, 60);
    lemma_two_digit_decomp(a / 60);
    lemma_two_digit_decomp(a % 60);
    assert forall|i: int| 0 <= i < 21 implies s[i] != '\t' by {
        assert(48 <= '0' as int <= 57 && 48 <= '1' as int <= 57 && 48 <= '2' as int <= 57 && 48
            <= '3' as int <= 57 && 48 <= '4' as int <= 57 && 48 <= '5' as int <= 57 && 48
            <= '6' as int <= 57 && 48 <= '7' as int <= 57 && 48 <= '8' as int <= 57 && 48
            <= '9' as int <= 57);
    }
    assert(ts_shape(s));
    assert(ts_of_shape(s) == t);
}

/// Writes a well-formed timestamp in its fixed textual pattern.
pub fn format_ts(t: &Timestamp) -> (r: String)
    requires
        t.wf(),
    ensures
        r@ == ts_text(*t),
{
    proof {
        reveal_strlit("-");
        reveal_strlit("T");
        reveal_strlit(":");
        reveal_strlit("+");
    }
    let mut s = String::new();
    push_four_digits(&mut s, t.year);
    s.append("-");
    push_two_digits(&mut s, t.month);
    s.append("-");
    push_two_digits(&mut s, t.day);
    s.append("T");
    push_two_digits(&mut s, t.hour);
    s.append(":");
    push_two_digits(&mut s, t.minute);
    let a: u16 = if t.offset_minutes < 0 {
        (-(t.offset_minutes as i32)) as u16
    } else {
        t.offset_minutes as u16
    };
    if t.offset_minutes < 0 {
        s.append("-");
    } else {
        s.append("+");
    }
    push_two_digits(&mut s, (a / 60) as u8);
    push_two_digits(&mut s, (a % 60) as u8);
    assert(s@ =~= ts_text(*t));
    s
}

/// Reads a timestamp from its fixed textual pattern.
pub fn parse_ts_str(s: &str) -> (r: Option<Timestamp>)
    ensures
        r == parse_ts(s@),
{
    if s.unicode_len() != 21 {
        return None;
    }
    let d0 = match digit_at(s, 0) {
        Some(d) => d,
        None => { return None; },
    };
    let d1 = match digit_at(s, 1) {
        Some(d) => d,
        None => { return None; },
    };
    let d2 = match digit_at(s, 2) {
        Some(d) => d,
        None => { return None; },
    };
    let d3 = match digit_at(s, 3) {
        Some(d) => d,
        None => { return None; },
    };
    if s.get_char(4) != '-' {
        return None;
    }
    let d5 = match digit_at(s, 5) {
        Some(d) => d,
        None => { return None; },
    };
    let d6 = match digit_at(s, 6) {
        Some(d) => d,
        None => { return None; },
    };
    if s.get_char(7) != '-' {
        return None;
    }
    let d8 = match digit_at(s, 8) {
        Some(d) => d,
        None => { return None; },
    };
    let d9 = match digit_at(s, 9) {
        Some(d) => d,
        None => { return None; },
    };
    if s.get_char(10) != 'T' {
        return None;
    }
    let d11 = match digit_at(s, 11) {
        Some(d) => d,
        None => { return None; },
    };
    let d12 = match digit_at(s, 12) {
        Some(d) => d,
        None => { return None; },
    };
    if s.get_char(13) != ':' {
        return None;
    }
    let d14 = match digit_at(s, 14) {
        Some(d) => d,
        None => { return None; },
    };
    let d15 = match digit_at(s, 15) {
        Some(d) => d,
        None => { return None; },
    };
    let c16 = s.get_char(16);
    if c16 != '+' && c16 != '-' {
        return None;
    }
    let d17 = match digit_at(s, 17) {
        Some(d) => d,
        None => { return None; },
    };
    let d18 = match digit_at(s, 18) {
        Some(d) => d,
        None => { return None; },
    };
    let d19 = match digit_at(s, 19) {
        Some(d) => d,
        None => { return None; },
    };
    let d20 = match digit_at(s, 20) {
        Some(d) => d,
        None => { return None; },
    };
    assert(ts_shape(s@));
    let year: u16 = 1000 * d0 as u16 + 100 * d1 as u16 + 10 * d2 as u16 + d3 as u16;
    let month: u8 = 10 * d5 + d6;
    let day: u8 = 10 * d8 + d9;
    let hour: u8 = 10 * d11 + d12;
    let minute: u8 = 10 * d14 + d15;
    let oh: i16 = 10 * d17 as i16 + d18 as i16;
    let om: i16 = 10 * d19 as i16 + d20 as i16;
    let off: i16 = if c16 == '-' {
        -(oh * 60 + om)
    } else {
        oh * 60 + om
    };
    assert(ts_of_shape(s@) == (Timestamp { year, month, day, hour, minute, offset_minutes: off }));
    if om > 59 {
        return None;
    }
    Timestamp::new(year, month, day, hour, minute, off)
}

/// The number of days in the given month of the given year.
pub fn days_in_month_exec(year: u16, month: u8) -> (r: u8)
    ensures
        r as int == days_in_month(year as int, month as int),
{
    if month == 2 {
        if year % 4 == 0 && (year % 100 != 0 || year % 400 == 0) {
            29
        } else {
            28
        }
    } else if month == 4 || month == 6 || month == 9 || month == 11 {
        30
    } else {
        31
    }
}

} // verus!
