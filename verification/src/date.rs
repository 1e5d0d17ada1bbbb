//! Calendar days: the day a draw belongs to, read from the provider's
//! `DD/MM/YYYY` and kept as year, month and day.

use vstd::prelude::*;
use crate::parse::read_digits;
use crate::text::{
    all_digits, chars_of, decimal_digits, decimal_value, lemma_decimal_digits_len,
    lemma_decimal_round_trip, lemma_decimal_value_bound, lemma_decimal_value_leading_zeros, pow10,
    push_zero_padded, string_of, zero_padded, zeros,
};

verus! {

/// A day of the calendar.
#[derive(Clone, Copy, Debug, PartialEq, Eq, Structural)]
pub struct Date {
    pub year: u16,
    pub month: u8,
    pub day: u8,
}

/// Whether `year` is a leap year of the Gregorian calendar.
pub open spec fn is_leap_year(year: int) -> bool {
    year % 4 == 0 && (year % 100 != 0 || year % 400 == 0)
}

/// The number of days of `month` in `year`; 0 where `month` is not a month.
pub open spec fn days_in_month(year: int, month: int) -> int {
    if month == 1 || month == 3 || month == 5 || month == 7 || month == 8 || month == 10 || month
        == 12 {
        31
    } else if month == 4 || month == 6 || month == 9 || month == 11 {
        30
    } else if month == 2 {
        if is_leap_year(year) {
            29
        } else {
            28
        }
    } else {
        0
    }
}

/// Whether `day`, `month` and `year` name a day of the calendar, in a year
/// of at most four digits.
pub open spec fn is_calendar_day(year: int, month: int, day: int) -> bool {
    0 <= year <= 9999 && 1 <= month <= 12 && 1 <= day <= days_in_month(year, month)
}

/// The date with these numbers, if they name a day of the calendar.
pub open spec fn date_of_numbers(year: int, month: int, day: int) -> Option<Date> {
    if is_calendar_day(year, month, day) {
        Some(Date { year: year as u16, month: month as u8, day: day as u8 })
    } else {
        None
    }
}

/// The date that `s` writes as `DD/MM/YYYY`: two digits, a slash, two
/// digits, a slash and four digits that name a day of the calendar.
pub open spec fn date_of_text(s: Seq<char>) -> Option<Date> {
    if s.len() == 10 && s[2] == '/' && s[5] == '/' && all_digits(s.subrange(0, 2)) && all_digits(
        s.subrange(3, 5),
    ) && all_digits(s.subrange(6, 10)) {
        date_of_numbers(
            decimal_value(s.subrange(6, 10)),
            decimal_value(s.subrange(3, 5)),
            decimal_value(s.subrange(0, 2)),
        )
    } else {
        None
    }
}

/// The date that `s` writes as `YYYY-MM-DD`.
pub open spec fn date_of_iso(s: Seq<char>) -> Option<Date> {
    if s.len() == 10 && s[4] == '-' && s[7] == '-' && all_digits(s.subrange(0, 4)) && all_digits(
        s.subrange(5, 7),
    ) && all_digits(s.subrange(8, 10)) {
        date_of_numbers(
            decimal_value(s.subrange(0, 4)),
            decimal_value(s.subrange(5, 7)),
            decimal_value(s.subrange(8, 10)),
        )
    } else {
        None
    }
}

/// The day that stands for a date that is missing or cannot be read:
/// 1 January 1970.
pub open spec fn epoch() -> Date {
    Date { year: 1970, month: 1, day: 1 }
}

/// The date of a draw whose date field holds `text`: the date it writes as
/// `DD/MM/YYYY`, and 1 January 1970 where the field is absent or writes no
/// date.
pub open spec fn normalized_date(text: Option<Seq<char>>) -> Date {
    match text {
        Some(s) => match date_of_text(s) {
            Some(d) => d,
            None => epoch(),
        },
        None => epoch(),
    }
}

/// Whether `year` is a leap year.
pub fn leap_year(year: u16) -> (leap: bool)
    ensures
        leap == is_leap_year(year as int),
{
    year % 4 == 0 && (year % 100 != 0 || year % 400 == 0)
}

/// The number of days of `month` in `year`; 0 where `month` is not a month.
pub fn month_length(year: u16, month: u8) -> (days: u8)
    ensures
        days == days_in_month(year as int, month as int),
{
    if month == 1 || month == 3 || month == 5 || month == 7 || month == 8 || month == 10 || month
        == 12 {
        31
    } else if month == 4 || month == 6 || month == 9 || month == 11 {
        30
    } else if month == 2 {
        if leap_year(year) {
            29
        } else {
            28
        }
    } else {
        0
    }
}

impl Date {
    /// Whether this is a day of the calendar.
    pub open spec fn wf(self) -> bool {
        is_calendar_day(self.year as int, self.month as int, self.day as int)
    }

    /// Whether this day comes before `other`.
    pub open spec fn before(self, other: Date) -> bool {
        self.year < other.year || (self.year == other.year && (self.month < other.month || (
        self.month == other.month && self.day < other.day)))
    }

    /// How this date is written as `YYYY-MM-DD`.
    pub open spec fn iso_text(self) -> Seq<char> {
        zero_padded(self.year as nat, 4) + seq!['-'] + zero_padded(self.month as nat, 2) + seq![
            '-',
        ] + zero_padded(self.day as nat, 2)
    }

    /// The date with these numbers, if they name a day of the calendar.
    pub fn new(year: u16, month: u8, day: u8) -> (date: Option<Date>)
        ensures
            date == date_of_numbers(year as int, month as int, day as int),
            date matches Some(d) ==> d.wf(),
    {
        if year <= 9999 && 1 <= month && month <= 12 && 1 <= day && day <= month_length(
            year,
            month,
        ) {
            Some(Date { year, month, day })
        } else {
            None
        }
    }

    /// 1 January 1970.
    pub fn epoch() -> (date: Date)
        ensures
            date == epoch(),
            date.wf(),
    {
        Date { year: 1970, month: 1, day: 1 }
    }

    /// Whether this is a day of the calendar.
    pub fn is_valid(&self) -> (valid: bool)
        ensures
            valid == self.wf(),
    {
        self.year <= 9999 && 1 <= self.month && self.month <= 12 && 1 <= self.day && self.day
            <= month_length(self.year, self.month)
    }

    /// Whether this day comes before `other`.
    pub fn is_before(&self, other: &Date) -> (earlier: bool)
        ensures
            earlier == self.before(*other),
    {
        self.year < other.year || (self.year == other.year && (self.month < other.month || (
        self.month == other.month && self.day < other.day)))
    }

    /// This date written as `YYYY-MM-DD`.
    pub fn to_iso(&self) -> (text: String)
        ensures
            text@ == self.iso_text(),
    {
        let mut out: Vec<char> = Vec::new();
        push_zero_padded(&mut out, self.year as u64, 4);
        out.push('-');
        push_zero_padded(&mut out, self.month as u64, 2);
        out.push('-');
        push_zero_padded(&mut out, self.day as u64, 2);
        assert(out@ == self.iso_text());
        string_of(&out)
    }

    /// The date that `text` writes as `YYYY-MM-DD`.
    pub fn from_iso(text: &str) -> (date: Option<Date>)
        ensures
            date == date_of_iso(text@),
            date matches Some(d) ==> d.wf(),
    {
        let chars = chars_of(text);
        if chars.len() != 10 || chars[4] != '-' || chars[7] != '-' {
            return None;
        }
        read_date_fields(&chars, 0, 4, 5, 7, 8, 10)
    }

    /// The date that `text` writes as `DD/MM/YYYY`.
    pub fn parse(text: &str) -> (date: Option<Date>)
        ensures
            date == date_of_text(text@),
            date matches Some(d) ==> d.wf(),
    {
        let chars = chars_of(text);
        if chars.len() != 10 || chars[2] != '/' || chars[5] != '/' {
            return None;
        }
        read_date_fields(&chars, 6, 10, 3, 5, 0, 2)
    }

    /// The date of a draw whose date field holds `text`.
    pub fn normalized(text: &Option<String>) -> (date: Date)
        ensures
            date == normalized_date(text.deep_view()),
    {
        match text {
            Some(s) => match Date::parse(s.as_str()) {
                Some(d) => d,
                None => Date::epoch(),
            },
            None => Date::epoch(),
        }
    }
}

/// Reads a year, a month and a day from three runs of `chars`, each of which
/// must hold digits only, and checks that they name a day of the calendar.
fn read_date_fields(
    chars: &Vec<char>,
    y0: usize,
    y1: usize,
    m0: usize,
    m1: usize,
    d0: usize,
    d1: usize,
) -> (date: Option<Date>)
    requires
        y0 + 4 == y1 <= chars.len(),
        m0 + 2 == m1 <= chars.len(),
        d0 + 2 == d1 <= chars.len(),
    ensures
        date == (if all_digits(chars@.subrange(y0 as int, y1 as int)) && all_digits(
            chars@.subrange(m0 as int, m1 as int),
        ) && all_digits(chars@.subrange(d0 as int, d1 as int)) {
            date_of_numbers(
                decimal_value(chars@.subrange(y0 as int, y1 as int)),
                decimal_value(chars@.subrange(m0 as int, m1 as int)),
                decimal_value(chars@.subrange(d0 as int, d1 as int)),
            )
        } else {
            None
        }),
        date matches Some(d) ==> d.wf(),
{
    proof {
        lemma_pow10_small();
        let ys = chars@.subrange(y0 as int, y1 as int);
        let ms = chars@.subrange(m0 as int, m1 as int);
        let ds = chars@.subrange(d0 as int, d1 as int);
        if all_digits(ys) {
            lemma_decimal_value_bound(ys);
        }
        if all_digits(ms) {
            lemma_decimal_value_bound(ms);
        }
        if all_digits(ds) {
            lemma_decimal_value_bound(ds);
        }
    }
    let year = match read_digits(chars, y0, y1, 9999) {
        Some(v) => v,
        None => {
            return None;
        },
    };
    let month = match read_digits(chars, m0, m1, 99) {
        Some(v) => v,
        None => {
            return None;
        },
    };
    let day = match read_digits(chars, d0, d1, 99) {
        Some(v) => v,
        None => {
            return None;
        },
    };
    Date::new(year as u16, month as u8, day as u8)
}

/// The first powers of ten.
pub proof fn lemma_pow10_small()
    ensures
        pow10(0) == 1,
        pow10(1) == 10,
        pow10(2) == 100,
        pow10(3) == 1000,
        pow10(4) == 10000,
{
    reveal_with_fuel(pow10, 5);
}

/// A number below ten to the power `width`, written with zeros in front, has
/// exactly `width` digits and reads back as itself.
pub proof fn lemma_zero_padded(n: nat, width: nat)
    requires
        width >= 1,
        n < pow10(width),
    ensures
        zero_padded(n, width).len() == width,
        all_digits(zero_padded(n, width)),
        decimal_value(zero_padded(n, width)) == n,
{
    lemma_decimal_digits_len(n, width);
    lemma_decimal_round_trip(n);
    let digits = decimal_digits(n);
    if digits.len() < width {
        lemma_decimal_value_leading_zeros((width - digits.len()) as nat, digits);
    }
}

/// A day of the calendar, written as `YYYY-MM-DD`, reads back as itself.
pub proof fn lemma_iso_round_trip(d: Date)
    requires
        d.wf(),
    ensures
        d.iso_text().len() == 10,
        date_of_iso(d.iso_text()) == Some(d),
{
    lemma_pow10_small();
    lemma_zero_padded(d.year as nat, 4);
    lemma_zero_padded(d.month as nat, 2);
    lemma_zero_padded(d.day as nat, 2);
    let s = d.iso_text();
    let y = zero_padded(d.year as nat, 4);
    let m = zero_padded(d.month as nat, 2);
    let dd = zero_padded(d.day as nat, 2);
    assert(s.len() == 10);
    assert(s.subrange(0, 4) == y);
    assert(s.subrange(5, 7) == m);
    assert(s.subrange(8, 10) == dd);
    assert(s[4] == '-');
    assert(s[7] == '-');
}

/// The order of the days is total: of two different days one comes before
/// the other, and never both.
pub proof fn lemma_date_order(a: Date, b: Date, c: Date)
    ensures
        !a.before(a),
        a.before(b) ==> !b.before(a),
        a == b || a.before(b) || b.before(a),
        a.before(b) && b.before(c) ==> a.before(c),
{
}

} // verus!
