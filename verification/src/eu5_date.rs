//! Dates of EU5 saves: a year, month, day and hour.
use vstd::prelude::*;
use vstd::string::{StringExecFns, StringSliceAdditionalSpecFns};
use vstd::utf8::*;

use crate::bin_deserialize::{BinDeserialize, BinDeserializer, BinError, as_i32, expect_fixed, le32};
use crate::text_deserialize::{
    TextDeserialize, TextDeserializer, TextError, TextErrorView, TextState, advance, front, lemma_look_keeps_stream,
    lemma_weight, text_with_context,
};
use crate::text_lexer::{TextToken, TokenView};
use crate::text_util::{
    decimal, decimal_string, find_byte, parse_uint_max, spec_parse_uint_max, split_at_byte,
};

pub use crate::eu4_date::Month;

verus! {

broadcast use vstd::string::group_string_axioms, vstd::utf8::encode_utf8_valid_utf8,
    vstd::utf8::encode_utf8_decode_utf8;

#[derive(Debug, PartialEq, Eq, Structural, PartialOrd, Ord, Clone, Copy)]
pub struct EU5Date {
    pub year: u16,
    pub month: Month,
    /// starts at 1, goes to [`Month::length`]
    pub day: u8,
    /// goes from 0 to 23
    pub hour: u8,
}

/// `n` written in decimal, with a `-` in front when it is negative.
pub open spec fn signed_decimal(n: int) -> Seq<char> {
    if n < 0 {
        seq!['-'] + decimal((-n) as nat)
    } else {
        decimal(n as nat)
    }
}

/// `n` written in decimal, with a `-` in front when it is negative.
pub fn signed_decimal_string(n: i64) -> (res: String)
    ensures
        res@ == signed_decimal(n as int),
{
    if n < 0 {
        let m: u64 = if n == i64::MIN {
            0x8000_0000_0000_0000u64
        } else {
            (-n) as u64
        };
        let mut s = String::from_str("-");
        proof {
            reveal_strlit("-");
        }
        let d = decimal_string(m);
        s.append(d.as_str());
        s
    } else {
        decimal_string(n as u64)
    }
}

/// The month and day (from 1) of the zero-based day `d` of a year of 365 days.
pub open spec fn spec_day_of_year(d: int) -> Option<(Month, u8)> {
    if d < 0 {
        None
    } else if d < 31 {
        Some((Month::JAN, (d + 1) as u8))
    } else if d < 59 {
        Some((Month::FEB, (d - 31 + 1) as u8))
    } else if d < 90 {
        Some((Month::MAR, (d - 59 + 1) as u8))
    } else if d < 120 {
        Some((Month::APR, (d - 90 + 1) as u8))
    } else if d < 151 {
        Some((Month::MAY, (d - 120 + 1) as u8))
    } else if d < 181 {
        Some((Month::JUN, (d - 151 + 1) as u8))
    } else if d < 212 {
        Some((Month::JUL, (d - 181 + 1) as u8))
    } else if d < 243 {
        Some((Month::AUG, (d - 212 + 1) as u8))
    } else if d < 273 {
        Some((Month::SEP, (d - 243 + 1) as u8))
    } else if d < 304 {
        Some((Month::OCT, (d - 273 + 1) as u8))
    } else if d < 334 {
        Some((Month::NOV, (d - 304 + 1) as u8))
    } else if d < 365 {
        Some((Month::DEC, (d - 334 + 1) as u8))
    } else {
        None
    }
}

/// The hour byte of a binary date number: its remainder by 24 (with the sign of the number, as
/// Rust's `%` gives it), cut to a byte.
pub open spec fn hour_byte(n: int) -> u8 {
    let r = if n >= 0 {
        n % 24
    } else {
        -((-n) % 24)
    };
    if r >= 0 {
        r as u8
    } else {
        (256 + r) as u8
    }
}

/// The message for an hour byte outside `8..=19`.
pub open spec fn bad_hour_message(hour: u8) -> Seq<char> {
    "Invalid EU5 date hour '"@ + decimal(hour as nat) + "' ("@ + signed_decimal((hour - 8) * 2) + ")"@
}

/// Reading a date from the number a binary save holds for it: hours counted in steps of two
/// from 8 (the remainder by 24), then the day of a 365-day year, then the year from 5000.
/// `Err` holds the error's text.
#[verifier::opaque]
pub open spec fn spec_eu5_from_num(n: int) -> Result<EU5Date, Seq<char>> {
    let hour = hour_byte(n);
    if hour < 8 || 19 < hour {
        Err(bad_hour_message(hour))
    } else {
        let m = n / 24;
        match spec_day_of_year(m % 365) {
            None => Err("Invalid day of year "@ + signed_decimal(m % 365)),
            Some((month, day)) => {
                let y = m / 365 - 5000;
                if 0 <= y <= u16::MAX {
                    Ok(EU5Date { year: y as u16, month, day, hour: ((hour - 8) * 2) as u8 })
                } else {
                    Err("Invalid EU5 date year (was out of range)"@)
                }
            },
        }
    }
}

impl EU5Date {
    /// The month and day (from 1) of the zero-based day of a year of 365 days.
    fn handle_day_of_year(day_of_year: i32) -> (res: Result<(Month, u8), BinError>)
        ensures
            match spec_day_of_year(day_of_year as int) {
                Some(md) => res matches Ok(r) && r == md,
                None => res matches Err(BinError::Custom(m)) && m@ == "Invalid day of year "@
                    + signed_decimal(day_of_year as int),
            },
    {
        let d = day_of_year;
        if d < 0 || d >= 365 {
            let mut s = String::from_str("Invalid day of year ");
            let n = signed_decimal_string(d as i64);
            s.append(n.as_str());
            return Err(BinError::Custom(s));
        }
        if d < 31 {
            Ok((Month::JAN, (d + 1) as u8))
        } else if d < 59 {
            Ok((Month::FEB, (d - 31 + 1) as u8))
        } else if d < 90 {
            Ok((Month::MAR, (d - 59 + 1) as u8))
        } else if d < 120 {
            Ok((Month::APR, (d - 90 + 1) as u8))
        } else if d < 151 {
            Ok((Month::MAY, (d - 120 + 1) as u8))
        } else if d < 181 {
            Ok((Month::JUN, (d - 151 + 1) as u8))
        } else if d < 212 {
            Ok((Month::JUL, (d - 181 + 1) as u8))
        } else if d < 243 {
            Ok((Month::AUG, (d - 212 + 1) as u8))
        } else if d < 273 {
            Ok((Month::SEP, (d - 243 + 1) as u8))
        } else if d < 304 {
            Ok((Month::OCT, (d - 273 + 1) as u8))
        } else if d < 334 {
            Ok((Month::NOV, (d - 304 + 1) as u8))
        } else {
            Ok((Month::DEC, (d - 334 + 1) as u8))
        }
    }

    /// Reads a date from the number a binary save holds for it.
    pub fn from_num(n: i32) -> (res: Result<EU5Date, BinError>)
        ensures
            match spec_eu5_from_num(n as int) {
                Ok(d) => res matches Ok(r) && r == d,
                Err(msg) => res matches Err(BinError::Custom(m)) && m@ == msg,
            },
    {
        proof {
            reveal(spec_eu5_from_num);
        }
        let r: i64 = if n >= 0 {
            (n as i64) % 24
        } else {
            -((-(n as i64)) % 24)
        };
        let hour: u8 = if r >= 0 {
            r as u8
        } else {
            (256 + r) as u8
        };
        if hour < 8 || 19 < hour {
            let mut s = String::from_str("Invalid EU5 date hour '");
            let h = decimal_string(hour as u64);
            s.append(h.as_str());
            s.append("' (");
            let rh = signed_decimal_string(((hour as i64) - 8) * 2);
            s.append(rh.as_str());
            s.append(")");
            return Err(BinError::Custom(s));
        }
        let hour = (hour - 8) * 2;
        let m = n / 24;
        let (month, day) = EU5Date::handle_day_of_year(m % 365)?;
        let y = m / 365 - 5000;
        if y < 0 || y > 65535 {
            return Err(BinError::Custom(String::from_str("Invalid EU5 date year (was out of range)")));
        }
        Ok(EU5Date { year: y as u16, month, day, hour })
    }
}

impl<'de> BinDeserialize<'de> for EU5Date {
    /// An `i32` token holding the date's number.
    open spec fn took(stream: BinDeserializer<'de>, rest: BinDeserializer<'de>, value: EU5Date) -> bool {
        expect_fixed(stream@, 0x000c, 4) is Ok && spec_eu5_from_num(as_i32(le32(stream@, 2)) as int)
            == Ok::<EU5Date, Seq<char>>(value) && rest@ == stream@.subrange(6, stream@.len() as int)
    }

    #[verifier::rlimit(40)]
    #[verifier::spinoff_prover]
    fn take(stream: BinDeserializer<'de>) -> (res: Result<(EU5Date, BinDeserializer<'de>), BinError>)
        ensures
            match expect_fixed(stream@, 0x000c, 4) {
                Err(e) => res matches Err(BinError::Custom(m)) && m@ == "While parsing an EU5 date"@
                    + ":\n"@ + e.spec_message(),
                Ok(_) => match spec_eu5_from_num(as_i32(le32(stream@, 2)) as int) {
                    Ok(d) => res is Ok,
                    Err(msg) => res matches Err(BinError::Custom(m)) && m@ == msg,
                },
            },
    {
        let (n, s) = match <i32 as BinDeserialize<'de>>::take(stream) {
            Ok(p) => p,
            Err(e) => {
                return Err(e.context("While parsing an EU5 date"));
            },
        };
        match EU5Date::from_num(n) {
            Ok(d) => Ok((d, s)),
            Err(e) => Err(e),
        }
    }
}

} // verus!

verus! {

/// What a text's bytes read as, as an unsigned number of at most `max`.
pub open spec fn number_or(b: Seq<u8>, max: nat) -> Option<nat> {
    spec_parse_uint_max(b, max)
}

/// Reading the day part of a text date for `month`.
pub open spec fn spec_parse_day(d: Seq<u8>, month: Month) -> Result<u8, TextErrorView> {
    match spec_parse_uint_max(d, 255) {
        None => Err(TextErrorView::Custom("Failed to parse an EU5 date day '"@ + decode_utf8(d) + "'"@)),
        Some(day) => if day == 0 || day > month.spec_length() {
            Err(
                TextErrorView::Custom(
                    "Invalid EU5 date day '"@ + decimal(day) + "' for month "@ + decimal(
                        month.spec_num() as nat,
                    ) + " with length "@ + decimal(month.spec_length() as nat),
                ),
            )
        } else {
            Ok(day as u8)
        },
    }
}

/// Reading the hour part of a text date (stored in steps of two from 8).
pub open spec fn spec_parse_hour(h: Seq<u8>) -> Result<u8, TextErrorView> {
    match spec_parse_uint_max(h, 255) {
        None => Err(TextErrorView::Custom("Failed to parse an EU5 date hour '"@ + decode_utf8(h) + "'"@)),
        Some(hour) => if hour < 8 || 19 < hour {
            Err(TextErrorView::Custom(bad_hour_message(hour as u8)))
        } else {
            Ok(((hour - 8) * 2) as u8)
        },
    }
}

/// Reading a text date `year.month.day` or `year.month.day.hour` (an hour of 0 when left out).
pub open spec fn spec_eu5_text(t: Seq<u8>) -> Result<EU5Date, TextErrorView> {
    match find_byte(t, 0x2e, 0) {
        None => Err(TextErrorView::EOF),
        Some(i) => {
            let y = t.subrange(0, i);
            let r1 = t.subrange(i + 1, t.len() as int);
            match spec_parse_uint_max(y, 65535) {
                None => Err(TextErrorView::Custom("Failed to parse an EU5 date year '"@ + decode_utf8(y) + "'"@)),
                Some(year) => match find_byte(r1, 0x2e, 0) {
                    None => Err(TextErrorView::EOF),
                    Some(j) => {
                        let mo = r1.subrange(0, j);
                        let r2 = r1.subrange(j + 1, r1.len() as int);
                        match spec_parse_uint_max(mo, 255) {
                            None => Err(
                                TextErrorView::Custom(
                                    "Failed to parse an EU5 date month '"@ + decode_utf8(mo) + "'"@,
                                ),
                            ),
                            Some(mn) => match Month::spec_from_num(mn) {
                                None => Err(TextErrorView::Custom("Invalid EU5 date month '"@ + decimal(mn) + "'"@)),
                                Some(month) => match find_byte(r2, 0x2e, 0) {
                                    None => match spec_parse_day(r2, month) {
                                        Err(e) => Err(e),
                                        Ok(day) => Ok(EU5Date { year: year as u16, month, day, hour: 0 }),
                                    },
                                    Some(k) => match spec_parse_day(r2.subrange(0, k), month) {
                                        Err(e) => Err(e),
                                        Ok(day) => match spec_parse_hour(r2.subrange(k + 1, r2.len() as int)) {
                                            Err(e) => Err(e),
                                            Ok(hour) => Ok(EU5Date { year: year as u16, month, day, hour }),
                                        },
                                    },
                                },
                            },
                        }
                    },
                }
            }
        },
    }
}

/// `prefix`, the text of `s`, and `'`.
fn quoted_message(prefix: &str, s: &str) -> (res: String)
    ensures
        res@ == prefix@ + s@ + "'"@,
{
    let mut m = String::from_str(prefix);
    m.append(s);
    m.append("'");
    m
}

impl EU5Date {
    fn parse_year(text: &str) -> (res: Result<u16, TextError>)
        ensures
            match spec_parse_uint_max(text.spec_bytes(), 65535) {
                Some(y) => res matches Ok(r) && r == y,
                None => res matches Err(e) && e@ == TextErrorView::Custom(
                    "Failed to parse an EU5 date year '"@ + decode_utf8(text.spec_bytes()) + "'"@,
                ),
            },
    {
        match parse_uint_max(text.as_bytes(), 65535) {
            Some(y) => Ok(y as u16),
            None => Err(TextError::Custom(quoted_message("Failed to parse an EU5 date year '", text))),
        }
    }

    fn parse_month(text: &str) -> (res: Result<Month, TextError>)
        ensures
            match spec_parse_uint_max(text.spec_bytes(), 255) {
                None => res matches Err(e) && e@ == TextErrorView::Custom(
                    "Failed to parse an EU5 date month '"@ + decode_utf8(text.spec_bytes()) + "'"@,
                ),
                Some(mn) => match Month::spec_from_num(mn) {
                    None => res matches Err(e) && e@ == TextErrorView::Custom(
                        "Invalid EU5 date month '"@ + decimal(mn) + "'"@,
                    ),
                    Some(m) => res matches Ok(r) && r == m,
                },
            },
    {
        let mn = match parse_uint_max(text.as_bytes(), 255) {
            Some(v) => v,
            None => {
                return Err(TextError::Custom(quoted_message("Failed to parse an EU5 date month '", text)));
            },
        };
        match Month::from_u8(mn as u8) {
            Some(m) => Ok(m),
            None => {
                let d = decimal_string(mn);
                Err(TextError::Custom(quoted_message("Invalid EU5 date month '", d.as_str())))
            },
        }
    }

    fn parse_day(text: &str, month: Month) -> (res: Result<u8, TextError>)
        ensures
            match spec_parse_day(text.spec_bytes(), month) {
                Ok(d) => res matches Ok(r) && r == d,
                Err(e) => res matches Err(e2) && e2@ == e,
            },
    {
        let day = match parse_uint_max(text.as_bytes(), 255) {
            Some(v) => v,
            None => {
                return Err(TextError::Custom(quoted_message("Failed to parse an EU5 date day '", text)));
            },
        };
        let len = month.length();
        if day == 0 || day > len as u64 {
            let mut m = String::from_str("Invalid EU5 date day '");
            let ds = decimal_string(day);
            m.append(ds.as_str());
            m.append("' for month ");
            let ms = decimal_string(month.month_num() as u64);
            m.append(ms.as_str());
            m.append(" with length ");
            let ls = decimal_string(len as u64);
            m.append(ls.as_str());
            return Err(TextError::Custom(m));
        }
        Ok(day as u8)
    }

    fn parse_hour(text: &str) -> (res: Result<u8, TextError>)
        ensures
            match spec_parse_hour(text.spec_bytes()) {
                Ok(h) => res matches Ok(r) && r == h,
                Err(e) => res matches Err(e2) && e2@ == e,
            },
    {
        let hour = match parse_uint_max(text.as_bytes(), 255) {
            Some(v) => v as u8,
            None => {
                return Err(TextError::Custom(quoted_message("Failed to parse an EU5 date hour '", text)));
            },
        };
        if hour < 8 || 19 < hour {
            let mut s = String::from_str("Invalid EU5 date hour '");
            let h = decimal_string(hour as u64);
            s.append(h.as_str());
            s.append("' (");
            let rh = signed_decimal_string(((hour as i64) - 8) * 2);
            s.append(rh.as_str());
            s.append(")");
            return Err(TextError::Custom(s));
        }
        Ok((hour - 8) * 2)
    }

    /// Reads a text date `year.month.day` or `year.month.day.hour`.
    pub fn parse_text(text: &str) -> (res: Result<EU5Date, TextError>)
        ensures
            match spec_eu5_text(text.spec_bytes()) {
                Ok(d) => res matches Ok(r) && r == d,
                Err(e) => res matches Err(e2) && e2@ == e,
            },
    {
        let (year, rest) = match split_at_byte(text, 0x2e) {
            Some(p) => p,
            None => {
                return Err(TextError::EOF);
            },
        };
        let year = EU5Date::parse_year(year)?;
        let (month, rest) = match split_at_byte(rest, 0x2e) {
            Some(p) => p,
            None => {
                return Err(TextError::EOF);
            },
        };
        let month = EU5Date::parse_month(month)?;
        match split_at_byte(rest, 0x2e) {
            None => {
                let day = EU5Date::parse_day(rest, month)?;
                Ok(EU5Date { year, month, day, hour: 0 })
            },
            Some((day, hour)) => {
                let day = EU5Date::parse_day(day, month)?;
                let hour = EU5Date::parse_hour(hour)?;
                Ok(EU5Date { year, month, day, hour })
            },
        }
    }
}

impl<'de> TextDeserialize<'de> for EU5Date {
    /// An unquoted string token that reads as a date.
    open spec fn took(stream: TextState, rest: TextState, value: EU5Date) -> bool {
        front(stream) matches Some(TokenView::StringUnquoted(t)) && spec_eu5_text(t) == Ok::<
            EU5Date,
            TextErrorView,
        >(value) && rest == advance(stream)
    }

    fn take_text(stream: TextDeserializer<'de>) -> (res: Result<(EU5Date, TextDeserializer<'de>), TextError>)
        ensures
            match front(stream@) {
                None => res matches Err(e) && e@ == TextErrorView::EOF,
                Some(TokenView::StringUnquoted(t)) => match spec_eu5_text(t) {
                    Ok(_) => res is Ok,
                    Err(e) => res matches Err(e2) && e2@ == e,
                },
                Some(_) => res matches Err(e) && e@ == text_with_context(
                    TextErrorView::UnexpectedToken,
                    "While parsing an EU5 date"@,
                ),
            },
    {
        proof {
            lemma_weight(stream@);
            lemma_look_keeps_stream(stream@);
        }
        let mut s = stream;
        let tok = match s.peek_token() {
            Some(t) => t,
            None => {
                return Err(TextError::EOF);
            },
        };
        let text = match tok {
            TextToken::StringUnquoted(t) => t,
            _ => {
                return Err(TextError::UnexpectedToken.context("While parsing an EU5 date"));
            },
        };
        let d = EU5Date::parse_text(text)?;
        s.eat_token();
        Ok((d, s))
    }
}

} // verus!

verus! {

/// An hour in decimal, with a leading zero when below 10 (so at least two digits).
pub open spec fn two_digits(n: nat) -> Seq<char> {
    if n < 10 {
        seq!['0'] + decimal(n)
    } else {
        decimal(n)
    }
}

impl EU5Date {
    /// The date as `year.month.day.hour`, each in decimal.
    pub open spec fn spec_text(self) -> Seq<char> {
        decimal(self.year as nat) + "."@ + decimal(self.month.spec_num() as nat) + "."@ + decimal(
            self.day as nat,
        ) + "."@ + decimal(self.hour as nat)
    }

    /// The date as `year.month.day.hour`, each in decimal.
    pub fn to_text(&self) -> (res: String)
        ensures
            res@ == self.spec_text(),
    {
        let mut s = decimal_string(self.year as u64);
        s.append(".");
        let m = decimal_string(self.month.month_num() as u64);
        s.append(m.as_str());
        s.append(".");
        let d = decimal_string(self.day as u64);
        s.append(d.as_str());
        s.append(".");
        let h = decimal_string(self.hour as u64);
        s.append(h.as_str());
        s
    }

    /// The date as `hh:00, day Month, year`, as written for people.
    pub fn to_long_text(&self) -> (res: String)
        ensures
            res@ == two_digits(self.hour as nat) + ":00, "@ + decimal(self.day as nat) + " "@
                + self.month.spec_name() + ", "@ + decimal(self.year as nat),
    {
        proof {
            reveal_strlit("0");
        }
        let mut s = if self.hour < 10 {
            let mut z = String::from_str("0");
            let h = decimal_string(self.hour as u64);
            z.append(h.as_str());
            z
        } else {
            decimal_string(self.hour as u64)
        };
        s.append(":00, ");
        let d = decimal_string(self.day as u64);
        s.append(d.as_str());
        s.append(" ");
        s.append(self.month.month_name());
        s.append(", ");
        let y = decimal_string(self.year as u64);
        s.append(y.as_str());
        s
    }
}

} // verus!
