//! Dates of the Stellaris calendar: twelve months of 30 days each.
use vstd::prelude::*;
use vstd::string::StringSliceAdditionalSpecFns;

use crate::eu4_date::DateError;
use crate::eu5_date::two_digits;
use crate::raw_parser::{QUOTE, unquote_str};
use crate::text_util::{
    decimal, decimal_string, parse_uint_max, spec_parse_uint_max, split3_dots, split3_dots_str, trim,
    trim_str,
};

verus! {

broadcast use vstd::string::group_string_axioms;

#[derive(Debug, PartialEq, Eq, Structural, PartialOrd, Ord, Clone, Copy, Hash)]
pub struct StellarisDate {
    pub year: u16,
    /// In range `1..=12`
    pub month: u8,
    /// In range `1..=30`
    ///
    /// Every month in stellaris is 30 days
    pub day: u8,
}

impl StellarisDate {
    /// A number that orders dates as years, then months, then days do.
    pub open spec fn ord(self) -> int {
        self.year * 65536 + self.month * 256 + self.day
    }

    /// `self` comes strictly before `other` (the order `<` gives).
    pub open spec fn spec_lt(self, other: StellarisDate) -> bool {
        self.ord() < other.ord()
    }

    /// `self < other`.
    pub fn is_before(&self, other: &StellarisDate) -> (res: bool)
        ensures
            res == self.spec_lt(*other),
    {
        if self.year != other.year {
            return self.year < other.year;
        }
        if self.month != other.month {
            return self.month < other.month;
        }
        self.day < other.day
    }

    /// A date, when the month is 1 to 12 and the day is 1 to 30.
    pub fn new(year: u16, month: u8, day: u8) -> (res: Option<StellarisDate>)
        ensures
            res == (if !(1 <= month <= 12) || !(1 <= day <= 30) {
                None
            } else {
                Some(StellarisDate { year, month, day })
            }),
    {
        if !(1 <= month && month <= 12) || !(1 <= day && day <= 30) {
            return None;
        }
        Some(StellarisDate { year, month, day })
    }

    /// Stepping to the next day overflows no field.
    pub open spec fn can_step(self) -> bool {
        self.day < 30 || (self.month == 12 && self.year < u16::MAX) || (self.month != 12
            && self.month < u8::MAX)
    }

    /// The next day: the next day of the month while the day is below 30, else the first of
    /// the next month (of the next year after month 12).
    pub open spec fn spec_tomorrow(self) -> StellarisDate {
        if self.day < 30 {
            StellarisDate { year: self.year, month: self.month, day: (self.day + 1) as u8 }
        } else if self.month == 12 {
            StellarisDate { year: (self.year + 1) as u16, month: 1, day: 1 }
        } else {
            StellarisDate { year: self.year, month: (self.month + 1) as u8, day: 1 }
        }
    }

    pub fn tomorrow(&self) -> (res: StellarisDate)
        requires
            self.can_step(),
        ensures
            res == self.spec_tomorrow(),
            self.spec_lt(res),
    {
        if self.day < 30 {
            StellarisDate { year: self.year, month: self.month, day: self.day + 1 }
        } else if self.month == 12 {
            StellarisDate { year: self.year + 1, month: 1, day: 1 }
        } else {
            StellarisDate { year: self.year, month: self.month + 1, day: 1 }
        }
    }

    /// Stepping to the previous day underflows no field.
    pub open spec fn can_step_back(self) -> bool {
        self.day > 1 || (self.month == 1 && self.year > 0) || (self.month != 1 && self.month > 0)
    }

    /// The previous day: the previous day of the month while the day is above 1, else the 30th
    /// of the previous month (of the previous year before month 1).
    pub open spec fn spec_yesterday(self) -> StellarisDate {
        if self.day > 1 {
            StellarisDate { year: self.year, month: self.month, day: (self.day - 1) as u8 }
        } else if self.month == 1 {
            StellarisDate { year: (self.year - 1) as u16, month: 12, day: 30 }
        } else {
            StellarisDate { year: self.year, month: (self.month - 1) as u8, day: 30 }
        }
    }

    pub fn yesterday(&self) -> (res: StellarisDate)
        requires
            self.can_step_back(),
        ensures
            res == self.spec_yesterday(),
            res.spec_lt(*self),
    {
        if self.day > 1 {
            StellarisDate { year: self.year, month: self.month, day: self.day - 1 }
        } else if self.month == 1 {
            StellarisDate { year: self.year - 1, month: 12, day: 30 }
        } else {
            StellarisDate { year: self.year, month: self.month - 1, day: 30 }
        }
    }

    /// The walk from `curr` towards `last` never steps past the largest year.
    pub open spec fn range_ok(curr: StellarisDate, last: StellarisDate) -> bool
        decreases last.ord() - curr.ord(),
    {
        if !curr.spec_lt(last) {
            true
        } else {
            curr.can_step() && (!curr.spec_tomorrow().spec_lt(last) || (curr.spec_lt(
                curr.spec_tomorrow(),
            ) && StellarisDate::range_ok(curr.spec_tomorrow(), last)))
        }
    }

    /// The dates from `curr`, stepping a day at a time while before `last`.
    pub open spec fn spec_range(curr: StellarisDate, last: StellarisDate) -> Seq<StellarisDate>
        decreases last.ord() - curr.ord(),
    {
        if !curr.spec_lt(last) {
            seq![curr]
        } else if !curr.spec_tomorrow().spec_lt(last) {
            seq![curr, curr.spec_tomorrow()]
        } else if curr.spec_lt(curr.spec_tomorrow()) {
            seq![curr] + StellarisDate::spec_range(curr.spec_tomorrow(), last)
        } else {
            seq![curr]
        }
    }

    /// Every date from `first` up to `last`: `first`, then each next day while the date is
    /// before `last` (just `first` when it is not before `last`).
    pub fn iter_range_inclusive(first: StellarisDate, last: StellarisDate) -> (res: Vec<
        StellarisDate,
    >)
        requires
            StellarisDate::range_ok(first, last),
        ensures
            res@ == StellarisDate::spec_range(first, last),
    {
        let mut out: Vec<StellarisDate> = Vec::new();
        let mut curr = first;
        loop
            invariant
                StellarisDate::range_ok(curr, last),
                out@ + StellarisDate::spec_range(curr, last) == StellarisDate::spec_range(
                    first,
                    last,
                ),
            decreases (if curr.spec_lt(last) {
                last.ord() - curr.ord() + 1
            } else {
                0
            }),
        {
            out.push(curr);
            if !curr.is_before(&last) {
                proof {
                    assert(out@ =~= out@.drop_last() + seq![curr]);
                }
                return out;
            }
            let next = curr.tomorrow();
            proof {
                let prev = out@.drop_last();
                if !next.spec_lt(last) {
                    assert(StellarisDate::spec_range(next, last) =~= seq![next]);
                    assert(prev + seq![curr, next] =~= out@ + StellarisDate::spec_range(
                        next,
                        last,
                    ));
                } else {
                    assert(prev + (seq![curr] + StellarisDate::spec_range(next, last)) =~= out@
                        + StellarisDate::spec_range(next, last));
                }
            }
            curr = next;
        }
    }

    /// The walk back from `curr` towards `first` never steps before the first year.
    pub open spec fn range_back_ok(curr: StellarisDate, first: StellarisDate) -> bool
        decreases curr.ord() - first.ord(),
    {
        if !first.spec_lt(curr) {
            true
        } else {
            curr.can_step_back() && (!first.spec_lt(curr.spec_yesterday()) || (
            curr.spec_yesterday().spec_lt(curr) && StellarisDate::range_back_ok(
                curr.spec_yesterday(),
                first,
            )))
        }
    }

    /// The dates from `curr`, stepping back a day at a time while after `first`.
    pub open spec fn spec_range_back(curr: StellarisDate, first: StellarisDate) -> Seq<
        StellarisDate,
    >
        decreases curr.ord() - first.ord(),
    {
        if !first.spec_lt(curr) {
            seq![curr]
        } else if !first.spec_lt(curr.spec_yesterday()) {
            seq![curr, curr.spec_yesterday()]
        } else if curr.spec_yesterday().spec_lt(curr) {
            seq![curr] + StellarisDate::spec_range_back(curr.spec_yesterday(), first)
        } else {
            seq![curr]
        }
    }

    /// Every date from `last` back to `first`, in reverse order: `last`, then each previous
    /// day while the date is after `first` (just `last` when it is not after `first`).
    pub fn iter_range_inclusive_reversed(first: StellarisDate, last: StellarisDate) -> (res: Vec<
        StellarisDate,
    >)
        requires
            StellarisDate::range_back_ok(last, first),
        ensures
            res@ == StellarisDate::spec_range_back(last, first),
    {
        let mut out: Vec<StellarisDate> = Vec::new();
        let mut curr = last;
        loop
            invariant
                StellarisDate::range_back_ok(curr, first),
                out@ + StellarisDate::spec_range_back(curr, first)
                    == StellarisDate::spec_range_back(last, first),
            decreases (if first.spec_lt(curr) {
                curr.ord() - first.ord() + 1
            } else {
                0
            }),
        {
            out.push(curr);
            if !first.is_before(&curr) {
                proof {
                    assert(out@ =~= out@.drop_last() + seq![curr]);
                }
                return out;
            }
            let prev_day = curr.yesterday();
            proof {
                let prev = out@.drop_last();
                if !first.spec_lt(prev_day) {
                    assert(StellarisDate::spec_range_back(prev_day, first) =~= seq![prev_day]);
                    assert(prev + seq![curr, prev_day] =~= out@ + StellarisDate::spec_range_back(
                        prev_day,
                        first,
                    ));
                } else {
                    assert(prev + (seq![curr] + StellarisDate::spec_range_back(prev_day, first))
                        =~= out@ + StellarisDate::spec_range_back(prev_day, first));
                }
            }
            curr = prev_day;
        }
    }

    /// The same date in year `year`.
    pub fn with_year(&self, year: u16) -> (res: StellarisDate)
        ensures
            res == (StellarisDate { year, month: self.month, day: self.day }),
    {
        StellarisDate { year, month: self.month, day: self.day }
    }

    /// Reading `"year.month.day"`: quotation marks required, surrounding whitespace ignored,
    /// month 1 to 12 and day 1 to 30.
    pub open spec fn spec_parse(b: Seq<u8>) -> Result<StellarisDate, DateError> {
        let t = trim(b);
        if !(t.len() >= 2 && t[0] == QUOTE() && t.last() == QUOTE()) {
            Err(DateError::Quotes)
        } else {
            match split3_dots(t.subrange(1, t.len() - 1)) {
                None => Err(DateError::Parts),
                Some((y, m, d)) => match spec_parse_uint_max(y, u16::MAX as nat) {
                    None => Err(DateError::Year),
                    Some(year) => match spec_parse_uint_max(m, u8::MAX as nat) {
                        None => Err(DateError::MonthNumber),
                        Some(month) => match spec_parse_uint_max(d, u8::MAX as nat) {
                            None => Err(DateError::DayNumber),
                            Some(day) => if !(1 <= month <= 12) {
                                Err(DateError::Month)
                            } else if !(1 <= day <= 30) {
                                Err(DateError::Day)
                            } else {
                                Ok(
                                    StellarisDate {
                                        year: year as u16,
                                        month: month as u8,
                                        day: day as u8,
                                    },
                                )
                            },
                        },
                    },
                },
            }
        }
    }

    /// Reads a date written `"year.month.day"`, as `str::parse` does.
    pub fn parse_text(text: &str) -> (res: Result<StellarisDate, DateError>)
        ensures
            res == StellarisDate::spec_parse(text.spec_bytes()),
    {
        let t = trim_str(text);
        let tb = t.as_bytes();
        let n = tb.len();
        if !(n >= 2 && tb[0] == 0x22 && tb[n - 1] == 0x22) {
            return Err(DateError::Quotes);
        }
        let inner = unquote_str(t);
        let (y, m, d) = match split3_dots_str(inner) {
            Some(parts) => parts,
            None => {
                return Err(DateError::Parts);
            },
        };
        let year = match parse_uint_max(y.as_bytes(), 65535) {
            Some(v) => v as u16,
            None => {
                return Err(DateError::Year);
            },
        };
        let month = match parse_uint_max(m.as_bytes(), 255) {
            Some(v) => v as u8,
            None => {
                return Err(DateError::MonthNumber);
            },
        };
        let day = match parse_uint_max(d.as_bytes(), 255) {
            Some(v) => v as u8,
            None => {
                return Err(DateError::DayNumber);
            },
        };
        if !(1 <= month && month <= 12) {
            return Err(DateError::Month);
        }
        if !(1 <= day && day <= 30) {
            return Err(DateError::Day);
        }
        Ok(StellarisDate { year, month, day })
    }
}

impl std::str::FromStr for StellarisDate {
    type Err = DateError;

    /// Reads a quoted date `"year.month.day"` (see [`StellarisDate::parse_text`]).
    fn from_str(text: &str) -> (res: Result<Self, Self::Err>)
        ensures
            res == StellarisDate::spec_parse(text.spec_bytes()),
    {
        StellarisDate::parse_text(text)
    }
}

fn two_digit_string(n: u8) -> (res: String)
    ensures
        res@ == two_digits(n as nat),
{
    proof {
        reveal_strlit("0");
    }
    if n < 10 {
        let mut z = String::from_str("0");
        let d = decimal_string(n as u64);
        z.append(d.as_str());
        z
    } else {
        decimal_string(n as u64)
    }
}

impl StellarisDate {
    /// The date as `year.month.day`, month and day with at least two digits.
    pub open spec fn spec_text(self) -> Seq<char> {
        decimal(self.year as nat) + "."@ + two_digits(self.month as nat) + "."@ + two_digits(
            self.day as nat,
        )
    }

    /// The date as `year.month.day`, month and day with at least two digits.
    pub fn to_text(&self) -> (res: String)
        ensures
            res@ == self.spec_text(),
    {
        let mut s = decimal_string(self.year as u64);
        s.append(".");
        let m = two_digit_string(self.month);
        s.append(m.as_str());
        s.append(".");
        let d = two_digit_string(self.day);
        s.append(d.as_str());
        s
    }
}

/// The day before the next day is the day itself, for every date of months 1 to 12 and days 1
/// to 30.
pub proof fn lemma_tomorrow_then_yesterday(d: StellarisDate)
    requires
        1 <= d.month <= 12,
        1 <= d.day <= 30,
        d.can_step(),
    ensures
        d.spec_tomorrow().can_step_back(),
        d.spec_tomorrow().spec_yesterday() == d,
{
}

/// The day after the previous day is the day itself, for every date of months 1 to 12 and days
/// 1 to 30.
pub proof fn lemma_yesterday_then_tomorrow(d: StellarisDate)
    requires
        1 <= d.month <= 12,
        1 <= d.day <= 30,
        d.can_step_back(),
    ensures
        d.spec_yesterday().can_step(),
        d.spec_yesterday().spec_tomorrow() == d,
{
}

} // verus!
