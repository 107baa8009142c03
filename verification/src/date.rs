//! Calendar dates as plain values: validity, ordering, and parsing of the
//! feed's `YYYY-MM-DD` form.

use crate::arith::pow10;
use crate::text::{all_digits, digits_val, lemma_digits_val_nonneg};
use vstd::prelude::*;
use vstd::string::StrSliceExecFns;

verus! {

/// A calendar date in the proleptic Gregorian calendar.
#[derive(Clone, Copy, Debug, Eq, Hash, PartialEq, Structural)]
pub struct Date {
    /// The year, from 1 through 9999.
    pub year: u32,
    /// The month, from 1 through 12.
    pub month: u32,
    /// The day of the month, from 1 through the month's length.
    pub day: u32,
}

/// Whether `y` is a leap year.
pub open spec fn is_leap_year(y: int) -> bool {
    y % 4 == 0 && (y % 100 != 0 || y % 400 == 0)
}

/// The number of days of month `m` in year `y`.
pub open spec fn days_in_month(y: int, m: int) -> int {
    if m == 2 {
        if is_leap_year(y) {
            29
        } else {
            28
        }
    } else if m == 4 || m == 6 || m == 9 || m == 11 {
        30
    } else {
        31
    }
}

/// Dates ordered by year, then month, then day.
pub open spec fn date_le(a: Date, b: Date) -> bool {
    a.year < b.year || (a.year == b.year && (a.month < b.month || (a.month == b.month && a.day
        <= b.day)))
}

/// The strict form of [`date_le`].
pub open spec fn date_lt(a: Date, b: Date) -> bool {
    date_le(a, b) && a != b
}

impl Date {
    /// Whether the fields form a real calendar date.
    pub open spec fn wf(self) -> bool {
        1 <= self.year <= 9999 && 1 <= self.month <= 12 && 1 <= self.day <= days_in_month(
            self.year as int,
            self.month as int,
        )
    }

    /// The date, where the fields form one.
    pub fn new(year: u32, month: u32, day: u32) -> (r: Option<Date>)
        ensures
            match r {
                Some(d) => d == (Date { year, month, day }) && d.wf(),
                None => !(Date { year, month, day }).wf(),
            },
    {
        let d = Date { year, month, day };
        if 1 <= year && year <= 9999 && 1 <= month && month <= 12 && 1 <= day && day
            <= days_in_month_exec(year, month) {
            Some(d)
        } else {
            None
        }
    }

    /// Whether this date is no later than `other`.
    pub fn le(self, other: Date) -> (r: bool)
        ensures
            r == date_le(self, other),
    {
        self.year < other.year || (self.year == other.year && (self.month < other.month || (
        self.month == other.month && self.day <= other.day)))
    }

    /// Whether this date is strictly earlier than `other`.
    pub fn lt(self, other: Date) -> (r: bool)
        ensures
            r == date_lt(self, other),
    {
        self.year < other.year || (self.year == other.year && (self.month < other.month || (
        self.month == other.month && self.day < other.day)))
    }
}

/// The order on dates is total: two dates always compare.
pub proof fn lemma_date_order_total(a: Date, b: Date)
    ensures
        date_le(a, b) || date_le(b, a),
        (date_le(a, b) && date_le(b, a)) ==> a == b,
        date_lt(a, b) <==> !date_le(b, a),
{
}

/// The order on dates is transitive.
pub proof fn lemma_date_order_trans(a: Date, b: Date, c: Date)
    requires
        date_le(a, b),
        date_le(b, c),
    ensures
        date_le(a, c),
{
}

/// The number of days of the month.
fn days_in_month_exec(y: u32, m: u32) -> (r: u32)
    ensures
        r == days_in_month(y as int, m as int),
{
    if m == 2 {
        if y % 4 == 0 && (y % 100 != 0 || y % 400 == 0) {
            29
        } else {
            28
        }
    } else if m == 4 || m == 6 || m == 9 || m == 11 {
        30
    } else {
        31
    }
}

/// What a date literal denotes: `None` unless it reads `YYYY-MM-DD` and the
/// fields form a real calendar date.
pub open spec fn parse_date_spec(s: Seq<char>) -> Option<Date> {
    if s.len() == 10 && all_digits(s.subrange(0, 4)) && s[4] == '-' && all_digits(
        s.subrange(5, 7),
    ) && s[7] == '-' && all_digits(s.subrange(8, 10)) {
        let d = Date {
            year: digits_val(s.subrange(0, 4)) as u32,
            month: digits_val(s.subrange(5, 7)) as u32,
            day: digits_val(s.subrange(8, 10)) as u32,
        };
        if d.wf() {
            Some(d)
        } else {
            None
        }
    } else {
        None
    }
}

/// A digit string denotes less than ten to its length.
pub proof fn lemma_digits_val_upper(s: Seq<char>)
    requires
        all_digits(s),
    ensures
        digits_val(s) < pow10(s.len()),
    decreases s.len(),
{
    if s.len() == 0 {
    } else {
        let p = s.drop_last();
        assert(all_digits(p)) by {
            assert(forall|i: int| 0 <= i < p.len() ==> p[i] == s[i]);
        }
        lemma_digits_val_upper(p);
        assert(pow10(s.len()) == 10 * pow10(p.len()));
    }
}

/// Read the digits of `s` between `from` and `to` as a number.
fn digits_u32(s: &str, from: usize, to: usize) -> (r: Option<u32>)
    requires
        from <= to <= s@.len(),
        to - from <= 8,
    ensures
        match r {
            Some(v) => all_digits(s@.subrange(from as int, to as int)) && v == digits_val(
                s@.subrange(from as int, to as int),
            ),
            None => !all_digits(s@.subrange(from as int, to as int)),
        },
{
    let ghost whole = s@.subrange(from as int, to as int);
    let mut i = from;
    let mut v: u32 = 0;
    proof {
        crate::arith::lemma_pow10_38();
        crate::arith::lemma_pow10_increases(8, 38);
        assert(pow10(8) == 100000000) by {
            reveal_with_fuel(pow10, 10);
        }
    }
    while i < to
        invariant
            from <= i <= to <= s@.len(),
            to - from <= 8,
            whole == s@.subrange(from as int, to as int),
            all_digits(s@.subrange(from as int, i as int)),
            v == digits_val(s@.subrange(from as int, i as int)),
            v < pow10((i - from) as nat),
            pow10(8) == 100000000,
        decreases to - i,
    {
        let c = s.get_char(i);
        let u = c as u32;
        if !(48 <= u && u <= 57) {
            proof {
                assert(whole[i - from as int] == s@[i as int]);
            }
            return None;
        }
        proof {
            let pold = s@.subrange(from as int, i as int);
            let pnew = s@.subrange(from as int, i + 1 as int);
            assert(pnew.drop_last() =~= pold);
            assert(pnew.last() == s@[i as int]);
            crate::arith::lemma_pow10_increases((i + 1 - from) as nat, 8);
        }
        v = v * 10 + (u - 48);
        i = i + 1;
    }
    proof {
        assert(s@.subrange(from as int, i as int) =~= whole);
    }
    Some(v)
}

/// Parse a date literal: exactly the strings that [`parse_date_spec`]
/// accepts yield a date.
pub fn parse_date(s: &str) -> (r: Option<Date>)
    ensures
        r == parse_date_spec(s@),
{
    if s.unicode_len() != 10 {
        return None;
    }
    if s.get_char(4) != '-' || s.get_char(7) != '-' {
        return None;
    }
    let year = match digits_u32(s, 0, 4) {
        Some(v) => v,
        None => {
            return None;
        },
    };
    let month = match digits_u32(s, 5, 7) {
        Some(v) => v,
        None => {
            return None;
        },
    };
    let day = match digits_u32(s, 8, 10) {
        Some(v) => v,
        None => {
            return None;
        },
    };
    proof {
        lemma_digits_val_nonneg(s@.subrange(0, 4));
        lemma_digits_val_nonneg(s@.subrange(5, 7));
        lemma_digits_val_nonneg(s@.subrange(8, 10));
        lemma_digits_val_upper(s@.subrange(0, 4));
        lemma_digits_val_upper(s@.subrange(5, 7));
        lemma_digits_val_upper(s@.subrange(8, 10));
        assert(pow10(4) == 10000 && pow10(2) == 100) by {
            reveal_with_fuel(pow10, 6);
        }
    }
    Date::new(year, month, day)
}

} // verus!
