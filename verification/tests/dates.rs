use cartographer::eu4_date::{DateError, EU4Date, Month};
use cartographer::eu5_date::EU5Date;
use cartographer::stellaris_date::StellarisDate;

fn eu4(year: u64, month: Month, day: u8) -> EU4Date {
    EU4Date { year, month, day }
}

#[test]
fn eu4_date_text_roundtrip() {
    let d = eu4(1444, Month::NOV, 11);
    assert_eq!(d.to_text(), "1444.11.11");
    assert_eq!(EU4Date::parse_text(&d.to_text()), Ok(d));
    let d = eu4(1, Month::FEB, 28);
    assert_eq!(d.to_text(), "1.2.28");
    assert_eq!(EU4Date::parse_text(&d.to_text()), Ok(d));
    let d = eu4(0, Month::DEC, 31);
    assert_eq!(EU4Date::parse_text(&d.to_text()), Ok(d));
}

#[test]
fn eu4_date_long_text() {
    assert_eq!(eu4(1444, Month::NOV, 11).to_long_text(), "11 November 1444");
    assert_eq!(Month::SEP.to_text(), "9");
}

#[test]
fn eu4_date_parse_errors() {
    assert_eq!(EU4Date::parse_text(" 1444.1.1\n"), Ok(eu4(1444, Month::JAN, 1)));
    assert_eq!(EU4Date::parse_text("1444.11"), Err(DateError::Parts));
    assert_eq!(EU4Date::parse_text("1444.11.11.1"), Err(DateError::Parts));
    assert_eq!(EU4Date::parse_text("x.1.1"), Err(DateError::Year));
    assert_eq!(EU4Date::parse_text("1444.x.1"), Err(DateError::MonthNumber));
    assert_eq!(EU4Date::parse_text("1444.13.1"), Err(DateError::Month));
    assert_eq!(EU4Date::parse_text("1444.1.x"), Err(DateError::DayNumber));
    assert_eq!(EU4Date::parse_text("1444.2.29"), Err(DateError::Day));
    assert_eq!(EU4Date::parse_text("1444.1.0"), Err(DateError::Day));
}

#[test]
fn eu4_date_steps() {
    assert_eq!(eu4(1444, Month::DEC, 31).tomorrow(), eu4(1445, Month::JAN, 1));
    assert_eq!(eu4(1445, Month::JAN, 1).yesterday(), eu4(1444, Month::DEC, 31));
    assert_eq!(eu4(1444, Month::MAR, 1).yesterday(), eu4(1444, Month::FEB, 28));
    assert_eq!(eu4(1444, Month::FEB, 28).tomorrow(), eu4(1444, Month::MAR, 1));
    let d = eu4(1600, Month::JUN, 30);
    assert_eq!(d.tomorrow().yesterday(), d);
    assert_eq!(d.yesterday().tomorrow(), d);
    assert_eq!(d.with_year(1700), eu4(1700, Month::JUN, 30));
    assert!(eu4(1444, Month::NOV, 11).is_before(&eu4(1444, Month::NOV, 12)));
    assert!(!eu4(1445, Month::JAN, 1).is_before(&eu4(1444, Month::DEC, 31)));
}

#[test]
fn eu4_date_new_refuses_last_day_of_month() {
    assert_eq!(EU4Date::new(1444, Month::JAN, 31), None);
    assert_eq!(EU4Date::new(1444, Month::JAN, 30), Some(eu4(1444, Month::JAN, 30)));
    assert_eq!(EU4Date::new(1444, Month::JAN, 0), None);
}

#[test]
fn eu4_date_range() {
    let r = EU4Date::iter_range_inclusive(eu4(1444, Month::DEC, 30), eu4(1445, Month::JAN, 2));
    assert_eq!(
        r,
        vec![
            eu4(1444, Month::DEC, 30),
            eu4(1444, Month::DEC, 31),
            eu4(1445, Month::JAN, 1),
            eu4(1445, Month::JAN, 2),
        ]
    );
    let single = EU4Date::iter_range_inclusive(eu4(1445, Month::JAN, 2), eu4(1444, Month::JAN, 2));
    assert_eq!(single, vec![eu4(1445, Month::JAN, 2)]);
}

#[test]
fn month_numbers_and_names() {
    assert_eq!(Month::from_u8(11), Some(Month::NOV));
    assert_eq!(Month::from_u8(13), None);
    assert_eq!(Month::DEC.next(), Month::JAN);
    assert_eq!(Month::FEB.length(), 28);
    assert_eq!(Month::NOV.month_name(), "November");
    assert_eq!(Month::NOV.month_num(), 11);
}

#[test]
fn stellaris_date_text_and_steps() {
    let d = StellarisDate { year: 2200, month: 1, day: 5 };
    assert_eq!(d.to_text(), "2200.01.05");
    assert_eq!(StellarisDate::parse_text("\"2200.01.05\""), Ok(d));
    assert_eq!(StellarisDate::parse_text("2200.01.05"), Err(DateError::Quotes));
    let end = StellarisDate { year: 2200, month: 12, day: 30 };
    assert_eq!(end.tomorrow(), StellarisDate { year: 2201, month: 1, day: 1 });
    assert_eq!(end.tomorrow().yesterday(), end);
    assert_eq!(StellarisDate { year: 2230, month: 11, day: 20 }.to_text(), "2230.11.20");
}

#[test]
fn eu5_date_text() {
    let d = EU5Date { year: 1337, month: Month::APR, day: 1, hour: 0 };
    assert_eq!(d.to_text(), "1337.4.1.0");
    assert_eq!(d.to_long_text(), "00:00, 1 April, 1337");
    assert_eq!(EU5Date::parse_text("1337.4.1").ok(), Some(d));
    assert_eq!(EU5Date::parse_text("1337.4.1.13").ok(), Some(EU5Date { hour: 10, ..d }));
    assert!(EU5Date::parse_text("1337.4.1.20").is_err());
    assert!(EU5Date::parse_text("1337.13.1").is_err());
}

#[test]
fn stellaris_date_new_takes_every_day_of_thirty() {
    assert_eq!(StellarisDate::new(2200, 1, 25), Some(StellarisDate { year: 2200, month: 1, day: 25 }));
    assert_eq!(StellarisDate::new(2200, 12, 30), Some(StellarisDate { year: 2200, month: 12, day: 30 }));
    assert_eq!(StellarisDate::new(2200, 1, 31), None);
    assert_eq!(StellarisDate::new(2200, 13, 1), None);
    assert_eq!(StellarisDate::new(2200, 1, 0), None);
}

#[test]
fn stellaris_date_ranges_both_ways() {
    let d = |m: u8, day: u8| StellarisDate { year: 2200, month: m, day };
    assert_eq!(StellarisDate::iter_range_inclusive_reversed(d(1, 2), d(1, 3)), vec![d(1, 3), d(1, 2)]);
    assert_eq!(StellarisDate::iter_range_inclusive_reversed(d(1, 29), d(2, 1)), vec![d(2, 1), d(1, 30), d(1, 29)]);
    assert_eq!(StellarisDate::iter_range_inclusive_reversed(d(1, 2), d(1, 2)), vec![d(1, 2)]);
    assert_eq!(StellarisDate::iter_range_inclusive(d(1, 29), d(2, 1)), vec![d(1, 29), d(1, 30), d(2, 1)]);
}

#[test]
fn eu5_date_long_text_of_any_hour() {
    let late = EU5Date { year: 1337, month: Month::APR, day: 1, hour: 150 };
    assert_eq!(late.to_long_text(), "150:00, 1 April, 1337");
}
