//! Dates of the EU4 calendar: twelve months of fixed length, no leap years.
use vstd::prelude::*;
use vstd::string::StringSliceAdditionalSpecFns;
use vstd::utf8::encode_utf8;

use crate::text_util::{
    decimal, decimal_string, lemma_decimal_bytes, lemma_encode_ascii, lemma_encode_concat,
    lemma_find_byte_at, lemma_find_byte_none, lemma_trim_digits, parse_uint_max, spec_parse_uint_max,
    split3_dots, split3_dots_str, trim, trim_str,
};

verus! {

broadcast use vstd::string::group_string_axioms;

#[derive(Debug, PartialEq, Eq, Structural, Clone, Copy, PartialOrd, Ord, Hash)]
pub enum Month {
    JAN,
    FEB,
    MAR,
    APR,
    MAY,
    JUN,
    JUL,
    AUG,
    SEP,
    OCT,
    NOV,
    DEC,
}

impl Month {
    /// The month's number, 1 for January to 12 for December.
    pub open spec fn spec_num(self) -> u8 {
        match self {
            Month::JAN => 1,
            Month::FEB => 2,
            Month::MAR => 3,
            Month::APR => 4,
            Month::MAY => 5,
            Month::JUN => 6,
            Month::JUL => 7,
            Month::AUG => 8,
            Month::SEP => 9,
            Month::OCT => 10,
            Month::NOV => 11,
            Month::DEC => 12,
        }
    }

    /// Number of days in the month (February always has 28).
    pub open spec fn spec_length(self) -> u8 {
        match self {
            Month::FEB => 28,
            Month::APR | Month::JUN | Month::SEP | Month::NOV => 30,
            _ => 31,
        }
    }

    /// The month with number `n`, 1 to 12.
    pub open spec fn spec_from_num(n: nat) -> Option<Month> {
        if n == 1 {
            Some(Month::JAN)
        } else if n == 2 {
            Some(Month::FEB)
        } else if n == 3 {
            Some(Month::MAR)
        } else if n == 4 {
            Some(Month::APR)
        } else if n == 5 {
            Some(Month::MAY)
        } else if n == 6 {
            Some(Month::JUN)
        } else if n == 7 {
            Some(Month::JUL)
        } else if n == 8 {
            Some(Month::AUG)
        } else if n == 9 {
            Some(Month::SEP)
        } else if n == 10 {
            Some(Month::OCT)
        } else if n == 11 {
            Some(Month::NOV)
        } else if n == 12 {
            Some(Month::DEC)
        } else {
            None
        }
    }

    pub fn length(&self) -> (res: u8)
        ensures
            res == self.spec_length(),
    {
        match self {
            Month::FEB => 28,
            Month::APR | Month::JUN | Month::SEP | Month::NOV => 30,
            _ => 31,
        }
    }

    pub fn month_num(&self) -> (res: u8)
        ensures
            res == self.spec_num(),
    {
        match self {
            Month::JAN => 1,
            Month::FEB => 2,
            Month::MAR => 3,
            Month::APR => 4,
            Month::MAY => 5,
            Month::JUN => 6,
            Month::JUL => 7,
            Month::AUG => 8,
            Month::SEP => 9,
            Month::OCT => 10,
            Month::NOV => 11,
            Month::DEC => 12,
        }
    }

    /// The month with number `n`, 1 to 12.
    pub fn from_u8(n: u8) -> (res: Option<Month>)
        ensures
            res == Month::spec_from_num(n as nat),
    {
        match n {
            1 => Some(Month::JAN),
            2 => Some(Month::FEB),
            3 => Some(Month::MAR),
            4 => Some(Month::APR),
            5 => Some(Month::MAY),
            6 => Some(Month::JUN),
            7 => Some(Month::JUL),
            8 => Some(Month::AUG),
            9 => Some(Month::SEP),
            10 => Some(Month::OCT),
            11 => Some(Month::NOV),
            12 => Some(Month::DEC),
            _ => None,
        }
    }

    /// The month's English name.
    pub open spec fn spec_name(self) -> Seq<char> {
        match self {
            Month::JAN => "January"@,
            Month::FEB => "February"@,
            Month::MAR => "March"@,
            Month::APR => "April"@,
            Month::MAY => "May"@,
            Month::JUN => "June"@,
            Month::JUL => "July"@,
            Month::AUG => "August"@,
            Month::SEP => "September"@,
            Month::OCT => "October"@,
            Month::NOV => "November"@,
            Month::DEC => "December"@,
        }
    }

    /// The month's English name.
    pub fn month_name(&self) -> (res: &'static str)
        ensures
            res@ == self.spec_name(),
    {
        match self {
            Month::JAN => "January",
            Month::FEB => "February",
            Month::MAR => "March",
            Month::APR => "April",
            Month::MAY => "May",
            Month::JUN => "June",
            Month::JUL => "July",
            Month::AUG => "August",
            Month::SEP => "September",
            Month::OCT => "October",
            Month::NOV => "November",
            Month::DEC => "December",
        }
    }

    /// The following month; December is followed by January.
    pub open spec fn spec_next(self) -> Month {
        match Month::spec_from_num(self.spec_num() as nat % 12 + 1) {
            Some(m) => m,
            None => Month::JAN,
        }
    }

    pub fn next(&self) -> (res: Month)
        ensures
            res == self.spec_next(),
            res.spec_num() == self.spec_num() % 12 + 1,
    {
        match self {
            Month::JAN => Month::FEB,
            Month::FEB => Month::MAR,
            Month::MAR => Month::APR,
            Month::APR => Month::MAY,
            Month::MAY => Month::JUN,
            Month::JUN => Month::JUL,
            Month::JUL => Month::AUG,
            Month::AUG => Month::SEP,
            Month::SEP => Month::OCT,
            Month::OCT => Month::NOV,
            Month::NOV => Month::DEC,
            Month::DEC => Month::JAN,
        }
    }
}

/// Number of a month, and back again.
pub proof fn lemma_month_num_roundtrip(m: Month)
    ensures
        Month::spec_from_num(m.spec_num() as nat) == Some(m),
        1 <= m.spec_num() <= 12,
{
}

#[derive(Debug, PartialEq, Eq, Structural, PartialOrd, Ord, Clone, Copy, Hash)]
pub struct EU4Date {
    pub year: u64,
    pub month: Month,
    pub day: u8,
}

/// Why a text is not a date.
#[derive(Debug, PartialEq, Eq, Clone, Copy)]
pub enum DateError {
    /// The text is not enclosed in quotation marks (where dates are saved in them).
    Quotes,
    /// The text does not have exactly three `.`-separated parts.
    Parts,
    /// The year does not read as a number of its type.
    Year,
    /// The month does not read as a number of its type.
    MonthNumber,
    /// The month number is not 1 to 12.
    Month,
    /// The day does not read as a number of its type.
    DayNumber,
    /// The day is not within its month.
    Day,
}

impl EU4Date {
    /// A number that orders dates as years, then months, then days do.
    pub open spec fn ord(self) -> int {
        self.year * 65536 + self.month.spec_num() * 256 + self.day
    }

    /// `self` comes strictly before `other` (the order `<` gives).
    pub open spec fn spec_lt(self, other: EU4Date) -> bool {
        self.ord() < other.ord()
    }

    /// `self < other`.
    pub fn is_before(&self, other: &EU4Date) -> (res: bool)
        ensures
            res == self.spec_lt(*other),
    {
        if self.year != other.year {
            return self.year < other.year;
        }
        let a = self.month.month_num();
        let b = other.month.month_num();
        if a != b {
            return a < b;
        }
        self.day < other.day
    }

    /// A date, when `day` is at least 1 and below the month's length. (The last day of each
    /// month is refused.)
    pub fn new(year: u64, month: Month, day: u8) -> (res: Option<EU4Date>)
        ensures
            res == (if day == 0 || day >= month.spec_length() {
                None
            } else {
                Some(EU4Date { year, month, day })
            }),
    {
        if day == 0 || day >= month.length() {
            return None;
        }
        Some(EU4Date { year, month, day })
    }

    /// Stepping to the next day overflows no field.
    pub open spec fn can_step(self) -> bool {
        !(self.day >= self.month.spec_length() && self.month == Month::DEC && self.year
            == u64::MAX)
    }

    /// The next day: the next day of the month while the day is below the month's length,
    /// else the first of the next month (of the next year after December).
    pub open spec fn spec_tomorrow(self) -> EU4Date {
        if self.day < self.month.spec_length() {
            EU4Date { year: self.year, month: self.month, day: (self.day + 1) as u8 }
        } else if self.month == Month::DEC {
            EU4Date { year: (self.year + 1) as u64, month: Month::JAN, day: 1 }
        } else {
            EU4Date { year: self.year, month: self.month.spec_next(), day: 1 }
        }
    }

    pub fn tomorrow(&self) -> (res: EU4Date)
        requires
            self.can_step(),
        ensures
            res == self.spec_tomorrow(),
            self.spec_lt(res),
    {
        if self.day < self.month.length() {
            EU4Date { year: self.year, month: self.month, day: self.day + 1 }
        } else if self.month == Month::DEC {
            EU4Date { year: self.year + 1, month: Month::JAN, day: 1 }
        } else {
            EU4Date { year: self.year, month: self.month.next(), day: 1 }
        }
    }

    /// Stepping to the previous day underflows no field.
    pub open spec fn can_step_back(self) -> bool {
        !(self.day <= 1 && self.month == Month::JAN && self.year == 0)
    }

    /// The previous day: the previous day of the month while the day is above 1, else the last
    /// day of the previous month (of the previous year before January).
    pub open spec fn spec_yesterday(self) -> EU4Date {
        if self.day > 1 {
            EU4Date { year: self.year, month: self.month, day: (self.day - 1) as u8 }
        } else if self.month == Month::JAN {
            EU4Date { year: (self.year - 1) as u64, month: Month::DEC, day: 31 }
        } else {
            let m = Month::spec_from_num((self.month.spec_num() - 1) as nat).unwrap();
            EU4Date { year: self.year, month: m, day: m.spec_length() }
        }
    }

    pub fn yesterday(&self) -> (res: EU4Date)
        requires
            self.can_step_back(),
        ensures
            res == self.spec_yesterday(),
            res.spec_lt(*self),
    {
        if self.day > 1 {
            return EU4Date { year: self.year, month: self.month, day: self.day - 1 };
        }
        if self.month == Month::JAN {
            return EU4Date { year: self.year - 1, month: Month::DEC, day: 31 };
        }
        let m = match self.month {
            Month::FEB => Month::JAN,
            Month::MAR => Month::FEB,
            Month::APR => Month::MAR,
            Month::MAY => Month::APR,
            Month::JUN => Month::MAY,
            Month::JUL => Month::JUN,
            Month::AUG => Month::JUL,
            Month::SEP => Month::AUG,
            Month::OCT => Month::SEP,
            Month::NOV => Month::OCT,
            _ => Month::NOV,
        };
        EU4Date { year: self.year, month: m, day: m.length() }
    }

    /// The same day of the year in year `year`.
    pub fn with_year(&self, year: u64) -> (res: EU4Date)
        ensures
            res == (EU4Date { year, month: self.month, day: self.day }),
    {
        EU4Date { year, month: self.month, day: self.day }
    }

    /// The walk from `curr` towards `last` never steps past the largest year.
    pub open spec fn range_ok(curr: EU4Date, last: EU4Date) -> bool
        decreases last.ord() - curr.ord(),
    {
        if !curr.spec_lt(last) {
            true
        } else {
            curr.can_step() && (!curr.spec_tomorrow().spec_lt(last) || (curr.spec_lt(
                curr.spec_tomorrow(),
            ) && EU4Date::range_ok(curr.spec_tomorrow(), last)))
        }
    }

    /// The dates from `curr`, stepping a day at a time while before `last`.
    pub open spec fn spec_range(curr: EU4Date, last: EU4Date) -> Seq<EU4Date>
        decreases last.ord() - curr.ord(),
    {
        if !curr.spec_lt(last) {
            seq![curr]
        } else if !curr.spec_tomorrow().spec_lt(last) {
            seq![curr, curr.spec_tomorrow()]
        } else if curr.spec_lt(curr.spec_tomorrow()) {
            seq![curr] + EU4Date::spec_range(curr.spec_tomorrow(), last)
        } else {
            seq![curr]
        }
    }

    /// Every date from `first` up to `last`: `first`, then each next day while the date is
    /// before `last` (just `first` when it is not before `last`).
    pub fn iter_range_inclusive(first: EU4Date, last: EU4Date) -> (res: Vec<EU4Date>)
        requires
            EU4Date::range_ok(first, last),
        ensures
            res@ == EU4Date::spec_range(first, last),
    {
        let mut out: Vec<EU4Date> = Vec::new();
        let mut curr = first;
        loop
            invariant
                EU4Date::range_ok(curr, last),
                out@ + EU4Date::spec_range(curr, last) == EU4Date::spec_range(first, last),
            decreases (if curr.spec_lt(last) {
                last.ord() - curr.ord() + 1
            } else {
                0
            }),
        {
            out.push(curr);
            if !curr.is_before(&last) {
                proof {
                    assert(out@ =~= out@.drop_last() + seq![curr]);
                }
                return out;
            }
            let next = curr.tomorrow();
            proof {
                let prev = out@.drop_last();
                if !next.spec_lt(last) {
                    assert(EU4Date::spec_range(next, last) =~= seq![next]);
                    assert(prev + seq![curr, next] =~= out@ + EU4Date::spec_range(next, last));
                } else {
                    assert(prev + (seq![curr] + EU4Date::spec_range(next, last)) =~= out@
                        + EU4Date::spec_range(next, last));
                }
            }
            curr = next;
        }
    }

    /// Reading `year.month.day` (surrounding whitespace ignored); the day must be within the
    /// month.
    pub open spec fn spec_parse(b: Seq<u8>) -> Result<EU4Date, DateError> {
        match split3_dots(trim(b)) {
            None => Err(DateError::Parts),
            Some((y, m, d)) => match spec_parse_uint_max(y, u64::MAX as nat) {
                None => Err(DateError::Year),
                Some(year) => match spec_parse_uint_max(m, u8::MAX as nat) {
                    None => Err(DateError::MonthNumber),
                    Some(mn) => match Month::spec_from_num(mn) {
                        None => Err(DateError::Month),
                        Some(month) => match spec_parse_uint_max(d, u8::MAX as nat) {
                            None => Err(DateError::DayNumber),
                            Some(day) => if day == 0 || day > month.spec_length() {
                                Err(DateError::Day)
                            } else {
                                Ok(EU4Date { year: year as u64, month, day: day as u8 })
                            },
                        },
                    },
                },
            },
        }
    }

    /// Reads a date written `year.month.day`, as `str::parse` does.
    pub fn parse_text(text: &str) -> (res: Result<EU4Date, DateError>)
        ensures
            res == EU4Date::spec_parse(text.spec_bytes()),
    {
        let t = trim_str(text);
        let (y, m, d) = match split3_dots_str(t) {
            Some(parts) => parts,
            None => {
                return Err(DateError::Parts);
            },
        };
        let year = match parse_uint_max(y.as_bytes(), u64::MAX) {
            Some(v) => v,
            None => {
                return Err(DateError::Year);
            },
        };
        let mn = match parse_uint_max(m.as_bytes(), 255) {
            Some(v) => v as u8,
            None => {
                return Err(DateError::MonthNumber);
            },
        };
        let month = match Month::from_u8(mn) {
            Some(month) => month,
            None => {
                return Err(DateError::Month);
            },
        };
        let day = match parse_uint_max(d.as_bytes(), 255) {
            Some(v) => v as u8,
            None => {
                return Err(DateError::DayNumber);
            },
        };
        if day == 0 || day > month.length() {
            return Err(DateError::Day);
        }
        Ok(EU4Date { year, month, day })
    }
}

impl std::str::FromStr for EU4Date {
    type Err = DateError;

    /// Reads a date `year.month.day` (see [`EU4Date::parse_text`]).
    fn from_str(text: &str) -> (res: Result<Self, Self::Err>)
        ensures
            res == EU4Date::spec_parse(text.spec_bytes()),
    {
        EU4Date::parse_text(text)
    }
}

impl Month {
    /// The month's number in decimal.
    pub fn to_text(&self) -> (res: String)
        ensures
            res@ == decimal(self.spec_num() as nat),
    {
        decimal_string(self.month_num() as u64)
    }
}

impl EU4Date {
    /// The date as `year.month.day`, each in decimal.
    pub open spec fn spec_text(self) -> Seq<char> {
        decimal(self.year as nat) + "."@ + decimal(self.month.spec_num() as nat) + "."@ + decimal(
            self.day as nat,
        )
    }

    /// The date as `year.month.day`, each in decimal.
    pub fn to_text(&self) -> (res: String)
        ensures
            res@ == self.spec_text(),
    {
        let mut s = decimal_string(self.year);
        s.append(".");
        let m = self.month.to_text();
        s.append(m.as_str());
        s.append(".");
        let d = decimal_string(self.day as u64);
        s.append(d.as_str());
        s
    }

    /// The date as `day Month year`, as written for people.
    pub fn to_long_text(&self) -> (res: String)
        ensures
            res@ == decimal(self.day as nat) + " "@ + self.month.spec_name() + " "@ + decimal(
                self.year as nat,
            ),
    {
        let mut s = decimal_string(self.day as u64);
        s.append(" ");
        s.append(self.month.month_name());
        s.append(" ");
        let y = decimal_string(self.year);
        s.append(y.as_str());
        s
    }
}

/// Reading a date written out as text gives the date back, for every date whose day is within
/// its month.
pub proof fn lemma_text_roundtrip(d: EU4Date)
    requires
        1 <= d.day <= d.month.spec_length(),
    ensures
        EU4Date::spec_parse(encode_utf8(d.spec_text())) == Ok::<EU4Date, DateError>(d),
{
    reveal_strlit(".");
    let num = d.month.spec_num();
    lemma_month_num_roundtrip(d.month);
    lemma_decimal_bytes(d.year as nat);
    lemma_decimal_bytes(num as nat);
    lemma_decimal_bytes(d.day as nat);
    let y = encode_utf8(decimal(d.year as nat));
    let m = encode_utf8(decimal(num as nat));
    let dd = encode_utf8(decimal(d.day as nat));
    assert("."@ =~= seq!['.']);
    assert(('.' as u32) == 0x2e);
    lemma_encode_ascii('.');
    let dot = seq![0x2eu8];
    lemma_encode_concat(decimal(d.year as nat), "."@);
    lemma_encode_concat(decimal(d.year as nat) + "."@, decimal(num as nat));
    lemma_encode_concat(decimal(d.year as nat) + "."@ + decimal(num as nat), "."@);
    lemma_encode_concat(decimal(d.year as nat) + "."@ + decimal(num as nat) + "."@, decimal(d.day as nat));
    let b = encode_utf8(d.spec_text());
    assert(b =~= y + dot + m + dot + dd);
    let i = y.len() as int;
    let j = i + 1 + m.len();
    assert(b[0] == y[0]);
    assert(b[b.len() - 1] == dd[dd.len() - 1]);
    lemma_trim_digits(b);
    assert(forall|k: int| 0 <= k < i ==> b[k] == y[k]);
    assert(forall|k: int| i + 1 <= k < j ==> b[k] == m[k - i - 1]);
    assert(forall|k: int| j + 1 <= k < b.len() ==> b[k] == dd[k - j - 1]);
    lemma_find_byte_at(b, 0x2e, 0, i);
    lemma_find_byte_at(b, 0x2e, i + 1, j);
    lemma_find_byte_none(b, 0x2e, j + 1);
    assert(b.subrange(0, i) =~= y);
    assert(b.subrange(i + 1, j) =~= m);
    assert(b.subrange(j + 1, b.len() as int) =~= dd);
    assert(split3_dots(trim(b)) == Some((y, m, dd)));
    assert(y[0] != 0x2b && m[0] != 0x2b && dd[0] != 0x2b);
}

/// The day before the next day is the day itself, for every date whose day is within its month.
pub proof fn lemma_tomorrow_then_yesterday(d: EU4Date)
    requires
        1 <= d.day <= d.month.spec_length(),
        d.can_step(),
    ensures
        d.spec_tomorrow().can_step_back(),
        d.spec_tomorrow().spec_yesterday() == d,
{
}

/// The day after the previous day is the day itself, for every date whose day is within its
/// month.
pub proof fn lemma_yesterday_then_tomorrow(d: EU4Date)
    requires
        1 <= d.day <= d.month.spec_length(),
        d.can_step_back(),
    ensures
        d.spec_yesterday().can_step(),
        d.spec_yesterday().spec_tomorrow() == d,
{
}

/// The day of `d` is within its month.
pub open spec fn valid_day(d: EU4Date) -> bool {
    1 <= d.day <= d.month.spec_length()
}

/// The dates from `curr` to `last` start at `curr` and increase strictly, and are all within
/// their months when `curr` is.
pub proof fn lemma_range_props(curr: EU4Date, last: EU4Date)
    requires
        EU4Date::range_ok(curr, last),
    ensures
        EU4Date::spec_range(curr, last).len() >= 1,
        EU4Date::spec_range(curr, last)[0] == curr,
        forall|i: int, j: int|
            0 <= i < j < EU4Date::spec_range(curr, last).len() ==> (#[trigger] EU4Date::spec_range(
                curr,
                last,
            )[i]).spec_lt(#[trigger] EU4Date::spec_range(curr, last)[j]),
        valid_day(curr) ==> forall|i: int|
            0 <= i < EU4Date::spec_range(curr, last).len() ==> valid_day(
                #[trigger] EU4Date::spec_range(curr, last)[i],
            ),
    decreases last.ord() - curr.ord(),
{
    let r = EU4Date::spec_range(curr, last);
    let next = curr.spec_tomorrow();
    if !curr.spec_lt(last) {
    } else if !next.spec_lt(last) {
        assert(r =~= seq![curr, next]);
    } else if curr.spec_lt(next) {
        lemma_range_props(next, last);
        let rest = EU4Date::spec_range(next, last);
        assert(r =~= seq![curr] + rest);
        assert forall|i: int, j: int| 0 <= i < j < r.len() implies (#[trigger] r[i]).spec_lt(
            #[trigger] r[j],
        ) by {
            if i == 0 {
                assert(r[j] == rest[j - 1]);
                if j - 1 > 0 {
                    assert(rest[0].spec_lt(rest[j - 1]));
                }
            } else {
                assert(r[i] == rest[i - 1] && r[j] == rest[j - 1]);
            }
        }
        if valid_day(curr) {
            assert forall|i: int| 0 <= i < r.len() implies valid_day(#[trigger] r[i]) by {
                if i > 0 {
                    assert(r[i] == rest[i - 1]);
                }
            }
        }
    }
}

/// No date within its month lies strictly between a date and the next day.
pub proof fn lemma_no_date_between(d: EU4Date, x: EU4Date)
    requires
        valid_day(d),
        valid_day(x),
        d.can_step(),
        d.spec_lt(x),
    ensures
        !x.spec_lt(d.spec_tomorrow()),
{
    lemma_month_num_roundtrip(d.month);
    lemma_month_num_roundtrip(x.month);
}

/// From a date within its month to a later or equal one, the walk never overflows, and the
/// range it gives ends exactly at `last`.
pub proof fn lemma_range_reaches_last(first: EU4Date, last: EU4Date)
    requires
        valid_day(first),
        valid_day(last),
        !last.spec_lt(first),
    ensures
        EU4Date::range_ok(first, last),
        EU4Date::spec_range(first, last).last() == last,
    decreases last.ord() - first.ord(),
{
    lemma_month_num_roundtrip(first.month);
    lemma_month_num_roundtrip(last.month);
    if !first.spec_lt(last) {
        assert(first.month.spec_num() == last.month.spec_num());
    } else {
        assert(first.can_step());
        lemma_no_date_between(first, last);
        let next = first.spec_tomorrow();
        lemma_month_num_roundtrip(next.month);
        assert(first.spec_lt(next));
        if next.spec_lt(last) {
            assert(valid_day(next));
            lemma_range_reaches_last(next, last);
            let rest = EU4Date::spec_range(next, last);
            assert(EU4Date::spec_range(first, last) =~= seq![first] + rest);
        } else {
            assert(next.month.spec_num() == last.month.spec_num());
        }
    }
}

/// Each date of a range but the last is followed by the next day.
pub proof fn lemma_range_step(curr: EU4Date, last: EU4Date, i: int)
    requires
        EU4Date::range_ok(curr, last),
        0 <= i < EU4Date::spec_range(curr, last).len() - 1,
    ensures
        EU4Date::spec_range(curr, last)[i].can_step(),
        EU4Date::spec_range(curr, last)[i + 1] == EU4Date::spec_range(curr, last)[i].spec_tomorrow(),
        EU4Date::spec_range(curr, last)[i].spec_lt(last),
    decreases last.ord() - curr.ord(),
{
    let r = EU4Date::spec_range(curr, last);
    let next = curr.spec_tomorrow();
    if !curr.spec_lt(last) {
    } else if !next.spec_lt(last) {
        assert(r =~= seq![curr, next]);
    } else if curr.spec_lt(next) {
        let rest = EU4Date::spec_range(next, last);
        assert(r =~= seq![curr] + rest);
        if i > 0 {
            lemma_range_step(next, last, i - 1);
            assert(r[i] == rest[i - 1] && r[i + 1] == rest[i]);
        } else {
            lemma_range_props(next, last);
            assert(r[1] == rest[0]);
        }
    }
}

/// Every date within its month from the first date of a range up to one of its dates is a
/// date of the range.
pub proof fn lemma_range_has_between(curr: EU4Date, last: EU4Date, x: EU4Date, k: int)
    requires
        EU4Date::range_ok(curr, last),
        valid_day(curr),
        valid_day(x),
        0 <= k < EU4Date::spec_range(curr, last).len(),
        !x.spec_lt(curr),
        !EU4Date::spec_range(curr, last)[k].spec_lt(x),
    ensures
        exists|j: int| 0 <= j <= k && EU4Date::spec_range(curr, last)[j] == x,
    decreases last.ord() - curr.ord(),
{
    let r = EU4Date::spec_range(curr, last);
    lemma_range_props(curr, last);
    if x == curr {
        assert(r[0] == x);
    } else {
        assert(curr.spec_lt(x)) by {
            lemma_month_num_roundtrip(curr.month);
            lemma_month_num_roundtrip(x.month);
            if curr.ord() == x.ord() {
                assert(curr == x);
            }
        }
        assert(k > 0) by {
            if k == 0 {
                assert(r[0] == curr);
            }
        }
        lemma_range_step(curr, last, 0);
        let next = curr.spec_tomorrow();
        lemma_no_date_between(curr, x);
        let rest = EU4Date::spec_range(next, last);
        assert(curr.spec_lt(last));
        if !next.spec_lt(last) {
            assert(r =~= seq![curr, next]);
            assert(k == 1);
            assert(r[1] == next);
            assert(x == next) by {
                lemma_month_num_roundtrip(next.month);
                lemma_month_num_roundtrip(x.month);
            }
        } else {
            assert(r =~= seq![curr] + rest);
            assert(r[k] == rest[k - 1]);
            assert(valid_day(next));
            lemma_range_has_between(next, last, x, k - 1);
            let j = choose|j: int| 0 <= j <= k - 1 && rest[j] == x;
            assert(r[j + 1] == x);
        }
    }
}

} // verus!
