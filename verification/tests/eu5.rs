use cartographer::bin_deserialize::{BinDeserialize, BinDeserializer};
use cartographer::eu4_date::Month;
use cartographer::eu5::{CountryBasisType, CountryType, LocationRank, WarParticipantSide};
use cartographer::eu5_date::EU5Date;
use cartographer::strings_resolver::StringsResolver;
use cartographer::text_deserialize::{TextDeserialize, TextDeserializer};

/// The number a binary save holds for a date: the hour byte, the day of a 365-day year and the
/// year from 5000.
fn date_number(year: i32, day_of_year: i32, hour_byte: i32) -> i32 {
    ((year + 5000) * 365 + day_of_year) * 24 + hour_byte
}

fn string_token(text: &str) -> Vec<u8> {
    let mut b = vec![0x17, 0x00, text.len() as u8, 0x00];
    b.extend_from_slice(text.as_bytes());
    b
}

#[test]
fn eu5_date_from_binary_number() {
    // Day 90 of the year is 1 April; hour byte 8 is hour 0, and each byte after it two hours.
    assert_eq!(
        EU5Date::from_num(date_number(1337, 90, 8)).ok(),
        Some(EU5Date { year: 1337, month: Month::APR, day: 1, hour: 0 })
    );
    assert_eq!(
        EU5Date::from_num(date_number(1400, 364, 19)).ok(),
        Some(EU5Date { year: 1400, month: Month::DEC, day: 31, hour: 22 })
    );
    assert_eq!(
        EU5Date::from_num(date_number(1337, 0, 7)).err().map(|e| e.message()),
        Some("Invalid EU5 date hour '7' (-2)".to_string())
    );
    assert_eq!(
        EU5Date::from_num(date_number(-1, 0, 8)).err().map(|e| e.message()),
        Some("Invalid EU5 date year (was out of range)".to_string())
    );
}

#[test]
fn eu5_date_read_from_streams() {
    let strings = StringsResolver::default();
    let n = date_number(1444, 0, 9);
    let mut bytes = vec![0x0c, 0x00];
    bytes.extend_from_slice(&n.to_le_bytes());
    let (d, _) = EU5Date::take(BinDeserializer::from_bytes(&bytes, &strings)).unwrap();
    assert_eq!(d, EU5Date { year: 1444, month: Month::JAN, day: 1, hour: 2 });

    let (d, _) = EU5Date::take_text(TextDeserializer::from_str("1444.2.28.8 rest")).unwrap();
    assert_eq!(d, EU5Date { year: 1444, month: Month::FEB, day: 28, hour: 0 });
    assert!(EU5Date::take_text(TextDeserializer::from_str("\"1444.2.28\"")).is_err());
}

#[test]
fn eu5_enums_read_by_name() {
    let strings = StringsResolver::default();
    let read = |text: &str| {
        let b = string_token(text);
        CountryBasisType::take(BinDeserializer::from_bytes(&b, &strings)).map(|(v, _)| v).map_err(|e| e.message())
    };
    assert_eq!(read("army"), Ok(CountryBasisType::Army));
    assert_eq!(read("pop"), Ok(CountryBasisType::Pop));
    assert_eq!(
        read("Army"),
        Err("Invalid enum value \"Army\" for CountryBasisType".to_string())
    );
    assert_eq!(
        CountryBasisType::take(BinDeserializer::from_bytes(&[0x01, 0x00], &strings)).err().map(|e| e.message()),
        Some(
            "While parsing string value for enum CountryBasisType:\nUnexpected token 0x0001 (=) recieved"
                .to_string()
        )
    );

    let b = string_token("pirates");
    assert_eq!(
        CountryType::take(BinDeserializer::from_bytes(&b, &strings)).unwrap().0,
        CountryType::Pirates
    );
    let b = string_token("colonial");
    assert_eq!(
        CountryType::take(BinDeserializer::from_bytes(&b, &strings)).unwrap().0,
        CountryType::Unknown("colonial".to_string())
    );
    let b = string_token("rural_settlement");
    assert_eq!(
        LocationRank::take(BinDeserializer::from_bytes(&b, &strings)).unwrap().0,
        LocationRank::RuralSettlement
    );
    let b = string_token("defender");
    assert_eq!(
        WarParticipantSide::take(BinDeserializer::from_bytes(&b, &strings)).unwrap().0,
        WarParticipantSide::Defender
    );
}
