//! Calendar dates as plain values, written and read in the fixed
//! `YYYY-MM-DD` form the spreadsheet uses. Rows whose date field does not
//! parse under this grammar are dropped by the import pipeline.

use vstd::prelude::*;

verus! {

/// A calendar date. Well-formed values satisfy [`Date::wf`]: a four-digit
/// year and a day that exists in the month.
#[derive(Debug, Clone, Copy, PartialEq, Eq, Structural, Hash)]
pub struct Date {
    pub year: u32,
    pub month: u8,
    pub day: u8,
}

/// Numeric value of a decimal digit character, or -1 for any other
/// character.
pub open spec fn digit_val(c: char) -> int {
    match c {
        '0' => 0,
        '1' => 1,
        '2' => 2,
        '3' => 3,
        '4' => 4,
        '5' => 5,
        '6' => 6,
        '7' => 7,
        '8' => 8,
        '9' => 9,
        _ => -1,
    }
}

pub open spec fn is_digit(c: char) -> bool {
    digit_val(c) >= 0
}

/// The decimal digit character for a value between 0 and 9.
pub open spec fn digit_char(v: int) -> char {
    if v == 0 {
        '0'
    } else if v == 1 {
        '1'
    } else if v == 2 {
        '2'
    } else if v == 3 {
        '3'
    } else if v == 4 {
        '4'
    } else if v == 5 {
        '5'
    } else if v == 6 {
        '6'
    } else if v == 7 {
        '7'
    } else if v == 8 {
        '8'
    } else {
        '9'
    }
}

pub open spec fn is_leap(y: int) -> bool {
    y % 4 == 0 && (y % 100 != 0 || y % 400 == 0)
}

pub open spec fn days_in_month(y: int, m: int) -> int {
    if m == 2 {
        if is_leap(y) {
            29
        } else {
            28
        }
    } else if m == 4 || m == 6 || m == 9 || m == 11 {
        30
    } else {
        31
    }
}

pub open spec fn valid_ymd(y: int, m: int, d: int) -> bool {
    &&& 0 <= y <= 9999
    &&& 1 <= m <= 12
    &&& 1 <= d <= days_in_month(y, m)
}

impl Date {
    pub open spec fn wf(self) -> bool {
        valid_ymd(self.year as int, self.month as int, self.day as int)
    }
}

/// Whether a character sequence has the shape `YYYY-MM-DD`.
pub open spec fn date_str_wf(s: Seq<char>) -> bool {
    &&& s.len() == 10
    &&& s[4] == '-' && s[7] == '-'
    &&& is_digit(s[0]) && is_digit(s[1]) && is_digit(s[2]) && is_digit(s[3])
    &&& is_digit(s[5]) && is_digit(s[6]) && is_digit(s[8]) && is_digit(s[9])
}

pub open spec fn year_of(s: Seq<char>) -> int {
    digit_val(s[0]) * 1000 + digit_val(s[1]) * 100 + digit_val(s[2]) * 10 + digit_val(s[3])
}

pub open spec fn month_of(s: Seq<char>) -> int {
    digit_val(s[5]) * 10 + digit_val(s[6])
}

pub open spec fn day_of(s: Seq<char>) -> int {
    digit_val(s[8]) * 10 + digit_val(s[9])
}

/// What parsing a date field yields: a date exactly when the field has the
/// `YYYY-MM-DD` shape and names a day that exists in the calendar.
pub open spec fn parse_date_spec(s: Seq<char>) -> Option<Date> {
    if date_str_wf(s) && valid_ymd(year_of(s), month_of(s), day_of(s)) {
        Some(
            Date {
                year: year_of(s) as u32,
                month: month_of(s) as u8,
                day: day_of(s) as u8,
            },
        )
    } else {
        None
    }
}

/// The ten-character `YYYY-MM-DD` rendering of a date.
pub open spec fn date_seq(d: Date) -> Seq<char> {
    seq![
        digit_char(d.year as int / 1000),
        digit_char((d.year as int / 100) % 10),
        digit_char((d.year as int / 10) % 10),
        digit_char(d.year as int % 10),
        '-',
        digit_char(d.month as int / 10),
        digit_char(d.month as int % 10),
        '-',
        digit_char(d.day as int / 10),
        digit_char(d.day as int % 10),
    ]
}

fn digit_of(c: char) -> (r: Option<u32>)
    ensures
        r is Some <==> is_digit(c),
        r matches Some(v) ==> v == digit_val(c),
{
    match c {
        '0' => Some(0),
        '1' => Some(1),
        '2' => Some(2),
        '3' => Some(3),
        '4' => Some(4),
        '5' => Some(5),
        '6' => Some(6),
        '7' => Some(7),
        '8' => Some(8),
        '9' => Some(9),
        _ => None,
    }
}

fn digit_str(v: u32) -> (r: &'static str)
    requires
        v <= 9,
    ensures
        r@ =~= seq![digit_char(v as int)],
{
    if v == 0 {
        proof {
            reveal_strlit("0");
        }
        "0"
    } else if v == 1 {
        proof {
            reveal_strlit("1");
        }
        "1"
    } else if v == 2 {
        proof {
            reveal_strlit("2");
        }
        "2"
    } else if v == 3 {
        proof {
            reveal_strlit("3");
        }
        "3"
    } else if v == 4 {
        proof {
            reveal_strlit("4");
        }
        "4"
    } else if v == 5 {
        proof {
            reveal_strlit("5");
        }
        "5"
    } else if v == 6 {
        proof {
            reveal_strlit("6");
        }
        "6"
    } else if v == 7 {
        proof {
            reveal_strlit("7");
        }
        "7"
    } else if v == 8 {
        proof {
            reveal_strlit("8");
        }
        "8"
    } else {
        proof {
            reveal_strlit("9");
        }
        "9"
    }
}

fn days_in_month_of(y: u32, m: u32) -> (r: u32)
    requires
        1 <= m <= 12,
    ensures
        r as int == days_in_month(y as int, m as int),
{
    if m == 2 {
        if y % 4 == 0 && (y % 100 != 0 || y % 400 == 0) {
            29
        } else {
            28
        }
    } else if m == 4 || m == 6 || m == 9 || m == 11 {
        30
    } else {
        31
    }
}

/// Parse a `YYYY-MM-DD` date field; anything else yields `None`.
pub fn parse_date(s: &str) -> (r: Option<Date>)
    ensures
        r == parse_date_spec(s@),
        r matches Some(d) ==> d.wf(),
{
    if s.unicode_len() != 10 {
        return None;
    }
    if s.get_char(4) != '-' || s.get_char(7) != '-' {
        return None;
    }
    let d0 = digit_of(s.get_char(0));
    let d1 = digit_of(s.get_char(1));
    let d2 = digit_of(s.get_char(2));
    let d3 = digit_of(s.get_char(3));
    let m0 = digit_of(s.get_char(5));
    let m1 = digit_of(s.get_char(6));
    let a0 = digit_of(s.get_char(8));
    let a1 = digit_of(s.get_char(9));
    match (d0, d1, d2, d3, m0, m1, a0, a1) {
        (
            Some(d0),
            Some(d1),
            Some(d2),
            Some(d3),
            Some(m0),
            Some(m1),
            Some(a0),
            Some(a1),
        ) => {
            let y = d0 * 1000 + d1 * 100 + d2 * 10 + d3;
            let m = m0 * 10 + m1;
            let d = a0 * 10 + a1;
            if m < 1 || m > 12 {
                return None;
            }
            if d < 1 || d > days_in_month_of(y, m) {
                return None;
            }
            Some(Date { year: y, month: m as u8, day: d as u8 })
        },
        _ => None,
    }
}

proof fn lemma_digit_round(v: int)
    requires
        0 <= v <= 9,
    ensures
        digit_val(digit_char(v)) == v,
{
}

/// Law: rendering a date and parsing the rendering gives the date back.
pub proof fn lemma_date_round_trip(d: Date)
    requires
        d.wf(),
    ensures
        parse_date_spec(date_seq(d)) == Some(d),
{
    let s = date_seq(d);
    let y = d.year as int;
    let m = d.month as int;
    let dd = d.day as int;
    vstd::arithmetic::div_mod::lemma_fundamental_div_mod(y, 10);
    vstd::arithmetic::div_mod::lemma_fundamental_div_mod(y / 10, 10);
    vstd::arithmetic::div_mod::lemma_fundamental_div_mod(y / 100, 10);
    vstd::arithmetic::div_mod::lemma_div_denominator(y, 10, 10);
    vstd::arithmetic::div_mod::lemma_div_denominator(y, 100, 10);
    assert((y / 10) / 10 == y / 100);
    assert((y / 100) / 10 == y / 1000);
    lemma_digit_round(y / 1000);
    lemma_digit_round((y / 100) % 10);
    lemma_digit_round((y / 10) % 10);
    lemma_digit_round(y % 10);
    lemma_digit_round(m / 10);
    lemma_digit_round(m % 10);
    lemma_digit_round(dd / 10);
    lemma_digit_round(dd % 10);
    assert(digit_val(s[0]) == y / 1000);
    assert(digit_val(s[1]) == (y / 100) % 10);
    assert(digit_val(s[2]) == (y / 10) % 10);
    assert(digit_val(s[3]) == y % 10);
    assert(year_of(s) == y);
    vstd::arithmetic::div_mod::lemma_fundamental_div_mod(m, 10);
    vstd::arithmetic::div_mod::lemma_fundamental_div_mod(dd, 10);
    assert(month_of(s) == m);
    assert(day_of(s) == dd);
    assert(date_str_wf(s));
}

impl Date {
    /// The `YYYY-MM-DD` rendering, as used in anchor-event notes.
    pub fn to_text(&self) -> (r: String)
        requires
            self.wf(),
        ensures
            r@ == date_seq(*self),
    {
        let mut out = String::new();
        out.append(digit_str(self.year / 1000));
        out.append(digit_str((self.year / 100) % 10));
        out.append(digit_str((self.year / 10) % 10));
        out.append(digit_str(self.year % 10));
        proof {
            reveal_strlit("-");
        }
        out.append("-");
        out.append(digit_str(self.month as u32 / 10));
        out.append(digit_str(self.month as u32 % 10));
        out.append("-");
        out.append(digit_str(self.day as u32 / 10));
        out.append(digit_str(self.day as u32 % 10));
        proof {
            assert(out@ =~= date_seq(*self));
        }
        out
    }
}

} // verus!
