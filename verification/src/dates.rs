//! Calendar days of the proleptic Gregorian calendar, within the years a date of the
//! game can have.

use vstd::prelude::*;
use crate::text::{decimal, digit_char, push_char, push_decimal, push_padded4, push_two_digits, zero_padded};

verus! {

/// Earliest year a date can have.
pub const MIN_YEAR: i32 = -262143;

/// Latest year a date can have.
pub const MAX_YEAR: i32 = 262142;

/// Leap years of the proleptic Gregorian calendar.
pub open spec fn is_leap_year(y: int) -> bool {
    y % 4 == 0 && (y % 100 != 0 || y % 400 == 0)
}

/// Number of days of month `m` of year `y`.
pub open spec fn days_in_month(y: int, m: int) -> int {
    if m == 2 {
        if is_leap_year(y) {
            29
        } else {
            28
        }
    } else if m == 4 || m == 6 || m == 9 || m == 11 {
        30
    } else {
        31
    }
}

/// A day that exists in the calendar, within the supported years.
pub open spec fn is_calendar_date(y: int, m: int, d: int) -> bool {
    &&& MIN_YEAR <= y <= MAX_YEAR
    &&& 1 <= m <= 12
    &&& 1 <= d <= days_in_month(y, m)
}

/// Days of year `y` before the first of month `m`.
pub open spec fn days_before_month(y: int, m: int) -> int
    decreases m,
{
    if m <= 1 {
        0
    } else {
        days_before_month(y, m - 1) + days_in_month(y, m - 1)
    }
}

/// Number of the day counted from January 1 of year 1 (day 1), backwards into year 0 and
/// before (day 0 is December 31 of year 0).
pub open spec fn days_from_ce(y: int, m: int, d: int) -> int {
    let p = y - 1;
    365 * p + p / 4 - p / 100 + p / 400 + days_before_month(y, m) + d
}

/// The year as `%Y` writes it: four digits in 0..=9999, otherwise a sign and at least
/// four digits.
pub open spec fn year_text(y: int) -> Seq<char> {
    if 0 <= y <= 9999 {
        zero_padded(y as nat, 4)
    } else if y < 0 {
        seq!['-'] + zero_padded((-y) as nat, 4)
    } else {
        seq!['+'] + decimal(y as nat)
    }
}

/// `n < 100` as two digits.
pub open spec fn two_digit_text(n: int) -> Seq<char> {
    seq![digit_char(n / 10), digit_char(n % 10)]
}

/// The date as `%Y-%m-%d`.
pub open spec fn date_text(y: int, m: int, d: int) -> Seq<char> {
    year_text(y) + seq!['-'] + two_digit_text(m) + seq!['-'] + two_digit_text(d)
}

/// A calendar day.
#[derive(Debug, Clone, Copy)]
pub struct GameDate {
    year: i32,
    month: u32,
    day: u32,
}

impl GameDate {
    pub closed spec fn spec_year(self) -> int {
        self.year as int
    }

    pub closed spec fn spec_month(self) -> int {
        self.month as int
    }

    pub closed spec fn spec_day(self) -> int {
        self.day as int
    }

    /// The day exists in the calendar.
    pub closed spec fn wf(self) -> bool {
        is_calendar_date(self.year as int, self.month as int, self.day as int)
    }

    /// Day number of the date counted from the common era.
    pub open spec fn day_number(self) -> int {
        days_from_ce(self.spec_year(), self.spec_month(), self.spec_day())
    }

    /// The date as text.
    pub open spec fn text(self) -> Seq<char> {
        date_text(self.spec_year(), self.spec_month(), self.spec_day())
    }

    /// The date of year `year`, month `month` and day `day`, if that day exists.
    pub fn new(year: i32, month: u32, day: u32) -> (r: Option<GameDate>)
        ensures
            r is Some <==> is_calendar_date(year as int, month as int, day as int),
            r matches Some(g) ==> g.wf() && g.spec_year() == year && g.spec_month() == month
                && g.spec_day() == day,
    {
        if year < MIN_YEAR || year > MAX_YEAR || month < 1 || month > 12 || day < 1 {
            return None;
        }
        let leap = is_leap(year);
        let last: u32 = if month == 2 {
            if leap {
                29
            } else {
                28
            }
        } else if month == 4 || month == 6 || month == 9 || month == 11 {
            30
        } else {
            31
        };
        if day > last {
            None
        } else {
            Some(GameDate { year, month, day })
        }
    }

    pub fn year(&self) -> (r: i32)
        ensures
            r == self.spec_year(),
    {
        self.year
    }

    pub fn month(&self) -> (r: u32)
        ensures
            r == self.spec_month(),
    {
        self.month
    }

    pub fn day(&self) -> (r: u32)
        ensures
            r == self.spec_day(),
    {
        self.day
    }

    /// Day number counted from the common era (`Datelike::num_days_from_ce`).
    pub fn num_days_from_ce(&self) -> (n: i64)
        requires
            self.wf(),
        ensures
            n == self.day_number(),
            -100_000_000 <= n <= 100_000_000,
    {
        let p: i64 = self.year as i64 - 1;
        let q4: i64 = match p.checked_div_euclid(4) {
            Some(q) => q,
            None => 0,
        };
        let q100: i64 = match p.checked_div_euclid(100) {
            Some(q) => q,
            None => 0,
        };
        let q400: i64 = match p.checked_div_euclid(400) {
            Some(q) => q,
            None => 0,
        };
        let leap = is_leap(self.year);
        let mut before: i64 = 0;
        let mut m: u32 = 1;
        while m < self.month
            invariant
                1 <= m <= self.month <= 12,
                leap == is_leap_year(self.year as int),
                before == days_before_month(self.year as int, m as int),
                0 <= before <= 31 * (m - 1),
            decreases self.month - m,
        {
            let len: i64 = if m == 2 {
                if leap {
                    29
                } else {
                    28
                }
            } else if m == 4 || m == 6 || m == 9 || m == 11 {
                30
            } else {
                31
            };
            before = before + len;
            m = m + 1;
        }
        proof {
            lemma_day_number_bounds(self.year as int, self.month as int, self.day as int);
        }
        365 * p + q4 - q100 + q400 + before + self.day as i64
    }

    /// The date as `%Y-%m-%d` (`Display` of a calendar date).
    pub fn to_text(&self) -> (s: String)
        requires
            self.wf(),
        ensures
            s@ == self.text(),
    {
        let mut s = String::new();
        if 0 <= self.year && self.year <= 9999 {
            push_padded4(&mut s, self.year as u64);
        } else if self.year < 0 {
            push_char(&mut s, '-');
            push_padded4(&mut s, (0 - self.year as i64) as u64);
        } else {
            push_char(&mut s, '+');
            push_decimal(&mut s, self.year as u64);
        }
        push_char(&mut s, '-');
        push_two_digits(&mut s, self.month);
        push_char(&mut s, '-');
        push_two_digits(&mut s, self.day);
        assert(s@ =~= self.text());
        s
    }
}

/// Days before a month stay within a year.
pub proof fn lemma_days_before_month_bounds(y: int, m: int)
    requires
        1 <= m <= 12,
    ensures
        0 <= days_before_month(y, m) <= 31 * (m - 1),
    decreases m,
{
    if m > 1 {
        lemma_days_before_month_bounds(y, m - 1);
    }
}

/// Day numbers of the supported years lie well within 32 bits.
pub proof fn lemma_day_number_bounds(y: int, m: int, d: int)
    requires
        is_calendar_date(y, m, d),
    ensures
        -100_000_000 <= days_from_ce(y, m, d) <= 100_000_000,
{
    lemma_days_before_month_bounds(y, m);
    let p = y - 1;
    assert(-262144 <= p <= 262141);
    assert(-65536 <= p / 4 <= 65536);
    assert(-2622 <= p / 100 <= 2622);
    assert(-656 <= p / 400 <= 656);
}

fn is_leap(year: i32) -> (r: bool)
    ensures
        r == is_leap_year(year as int),
{
    year % 4 == 0 && (year % 100 != 0 || year % 400 == 0)
}

} // verus!
