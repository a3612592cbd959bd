//! Parts of EU5 saves: countries, locations, diplomacy, wars and metadata.
//!
//! Most fields of these structures are keyed in the binary format by tokens whose numbers come
//! from the game's token table; the enums below, which are read from their names, come with
//! their readers.
use vstd::prelude::*;
use vstd::string::{StringExecFns, StringSliceAdditionalSpecFns};
use vstd::utf8::*;

use crate::bin_deserialize::{BinDeserialize, BinDeserializer, BinError, spec_take_str};
use crate::common_deserialize::SkipValue;
use crate::eu5_date::EU5Date;
use crate::text_util::str_eq;

verus! {

broadcast use vstd::string::group_string_axioms, vstd::utf8::encode_utf8_valid_utf8,
    vstd::utf8::encode_utf8_decode_utf8;

/// The error for a name that is no value of enum `enum_name`.
pub open spec fn invalid_enum_message(text: Seq<u8>, enum_name: Seq<char>) -> Seq<char> {
    "Invalid enum value \""@ + decode_utf8(text) + "\" for "@ + enum_name
}

/// Reads the string that names an enum value; `enum_name` is the enum's, for errors.
fn take_enum_name<'de>(stream: BinDeserializer<'de>, enum_name: &str) -> (res: Result<
    (&'de str, BinDeserializer<'de>),
    BinError,
>)
    ensures
        match spec_take_str(stream@) {
            Err(e) => res matches Err(BinError::Custom(m)) && m@ == "While parsing string value for enum "@
                + enum_name@ + ":\n"@ + e.spec_message(),
            Ok((text, n)) => res matches Ok((t, rest)) && t.spec_bytes() == text && <&'de str as BinDeserialize<'de>>::took(
                stream,
                rest,
                t,
            ) && rest.same_source(&stream),
        },
{
    match <&'de str as BinDeserialize<'de>>::take(stream) {
        Ok(p) => Ok(p),
        Err(e) => {
            let mut ctx = String::from_str("While parsing string value for enum ");
            ctx.append(enum_name);
            Err(e.context(ctx.as_str()))
        },
    }
}

/// The error for a name that is no value of enum `enum_name`.
fn invalid_enum(text: &str, enum_name: &str) -> (res: BinError)
    ensures
        res matches BinError::Custom(m) && m@ == invalid_enum_message(text.spec_bytes(), enum_name@),
{
    let mut m = String::from_str("Invalid enum value \"");
    m.append(text);
    m.append("\" for ");
    m.append(enum_name);
    BinError::Custom(m)
}

#[derive(Debug, Clone, Copy, PartialEq, Eq, Structural)]
pub enum CountryBasisType {
    Location,
    Building,
    Army,
    Navy,
    Pop,
}

/// The country basis a name stands for.
pub open spec fn basis_named(t: Seq<char>) -> Option<CountryBasisType> {
    if t == "location"@ {
        Some(CountryBasisType::Location)
    } else if t == "building"@ {
        Some(CountryBasisType::Building)
    } else if t == "army"@ {
        Some(CountryBasisType::Army)
    } else if t == "navy"@ {
        Some(CountryBasisType::Navy)
    } else if t == "pop"@ {
        Some(CountryBasisType::Pop)
    } else {
        None
    }
}

impl<'de> BinDeserialize<'de> for CountryBasisType {
    /// A string naming the value in snake case.
    open spec fn took(stream: BinDeserializer<'de>, rest: BinDeserializer<'de>, value: CountryBasisType) -> bool {
        spec_take_str(stream@) matches Ok((text, n)) && basis_named(decode_utf8(text)) == Some(value)
            && rest@ == stream@.subrange(n, stream@.len() as int)
    }

    fn take(stream: BinDeserializer<'de>) -> (res: Result<(CountryBasisType, BinDeserializer<'de>), BinError>)
        ensures
            match spec_take_str(stream@) {
                Err(e) => res matches Err(BinError::Custom(m)) && m@
                    == "While parsing string value for enum "@ + "CountryBasisType"@ + ":\n"@
                    + e.spec_message(),
                Ok((text, n)) => match basis_named(decode_utf8(text)) {
                    Some(_) => res is Ok,
                    None => res matches Err(BinError::Custom(m)) && m@ == invalid_enum_message(
                        text,
                        "CountryBasisType"@,
                    ),
                },
            },
    {
        let (text, rest) = take_enum_name(stream, "CountryBasisType")?;
        if str_eq(text, "location") {
            Ok((CountryBasisType::Location, rest))
        } else if str_eq(text, "building") {
            Ok((CountryBasisType::Building, rest))
        } else if str_eq(text, "army") {
            Ok((CountryBasisType::Army, rest))
        } else if str_eq(text, "navy") {
            Ok((CountryBasisType::Navy, rest))
        } else if str_eq(text, "pop") {
            Ok((CountryBasisType::Pop, rest))
        } else {
            Err(invalid_enum(text, "CountryBasisType"))
        }
    }
}

#[derive(Debug, Clone, PartialEq, Eq)]
pub enum CountryType {
    Pirates,
    Mercenaries,
    Real,
    Unknown(String),
}

impl<'de> BinDeserialize<'de> for CountryType {
    /// A string: `pirates`, `mercenaries`, `real`, or any other name.
    open spec fn took(stream: BinDeserializer<'de>, rest: BinDeserializer<'de>, value: CountryType) -> bool {
        spec_take_str(stream@) matches Ok((text, n)) && rest@ == stream@.subrange(n, stream@.len() as int)
            && if decode_utf8(text) == "pirates"@ {
            value == CountryType::Pirates
        } else if decode_utf8(text) == "mercenaries"@ {
            value == CountryType::Mercenaries
        } else if decode_utf8(text) == "real"@ {
            value == CountryType::Real
        } else {
            value matches CountryType::Unknown(s) && encode_utf8(s@) == text
        }
    }

    fn take(stream: BinDeserializer<'de>) -> (res: Result<(CountryType, BinDeserializer<'de>), BinError>)
        ensures
            match spec_take_str(stream@) {
                Err(e) => res matches Err(e2) && e2 == e,
                Ok(_) => res is Ok,
            },
    {
        let (text, rest) = <&'de str as BinDeserialize<'de>>::take(stream)?;
        let out = if str_eq(text, "pirates") {
            CountryType::Pirates
        } else if str_eq(text, "mercenaries") {
            CountryType::Mercenaries
        } else if str_eq(text, "real") {
            CountryType::Real
        } else {
            CountryType::Unknown(text.to_string())
        };
        Ok((out, rest))
    }
}

#[derive(Debug, Clone, Copy, PartialEq, Eq, Structural)]
pub enum LocationRank {
    RuralSettlement,
    Town,
    City,
}

/// The location rank a name stands for.
pub open spec fn rank_named(t: Seq<char>) -> Option<LocationRank> {
    if t == "rural_settlement"@ {
        Some(LocationRank::RuralSettlement)
    } else if t == "town"@ {
        Some(LocationRank::Town)
    } else if t == "city"@ {
        Some(LocationRank::City)
    } else {
        None
    }
}

impl<'de> BinDeserialize<'de> for LocationRank {
    /// A string naming the value in snake case.
    open spec fn took(stream: BinDeserializer<'de>, rest: BinDeserializer<'de>, value: LocationRank) -> bool {
        spec_take_str(stream@) matches Ok((text, n)) && rank_named(decode_utf8(text)) == Some(value)
            && rest@ == stream@.subrange(n, stream@.len() as int)
    }

    fn take(stream: BinDeserializer<'de>) -> (res: Result<(LocationRank, BinDeserializer<'de>), BinError>)
        ensures
            match spec_take_str(stream@) {
                Err(e) => res matches Err(BinError::Custom(m)) && m@
                    == "While parsing string value for enum "@ + "LocationRank"@ + ":\n"@
                    + e.spec_message(),
                Ok((text, n)) => match rank_named(decode_utf8(text)) {
                    Some(_) => res is Ok,
                    None => res matches Err(BinError::Custom(m)) && m@ == invalid_enum_message(
                        text,
                        "LocationRank"@,
                    ),
                },
            },
    {
        let (text, rest) = take_enum_name(stream, "LocationRank")?;
        if str_eq(text, "rural_settlement") {
            Ok((LocationRank::RuralSettlement, rest))
        } else if str_eq(text, "town") {
            Ok((LocationRank::Town, rest))
        } else if str_eq(text, "city") {
            Ok((LocationRank::City, rest))
        } else {
            Err(invalid_enum(text, "LocationRank"))
        }
    }
}

#[derive(Debug, Clone, Copy, PartialEq, Eq, Structural)]
pub enum WarParticipantSide {
    Attacker,
    Defender,
}

/// The side a name stands for.
pub open spec fn side_named(t: Seq<char>) -> Option<WarParticipantSide> {
    if t == "attacker"@ {
        Some(WarParticipantSide::Attacker)
    } else if t == "defender"@ {
        Some(WarParticipantSide::Defender)
    } else {
        None
    }
}

impl<'de> BinDeserialize<'de> for WarParticipantSide {
    /// A string naming the value in snake case.
    open spec fn took(stream: BinDeserializer<'de>, rest: BinDeserializer<'de>, value: WarParticipantSide) -> bool {
        spec_take_str(stream@) matches Ok((text, n)) && side_named(decode_utf8(text)) == Some(value)
            && rest@ == stream@.subrange(n, stream@.len() as int)
    }

    fn take(stream: BinDeserializer<'de>) -> (res: Result<(WarParticipantSide, BinDeserializer<'de>), BinError>)
        ensures
            match spec_take_str(stream@) {
                Err(e) => res matches Err(BinError::Custom(m)) && m@
                    == "While parsing string value for enum "@ + "WarParticipantSide"@ + ":\n"@
                    + e.spec_message(),
                Ok((text, n)) => match side_named(decode_utf8(text)) {
                    Some(_) => res is Ok,
                    None => res matches Err(BinError::Custom(m)) && m@ == invalid_enum_message(
                        text,
                        "WarParticipantSide"@,
                    ),
                },
            },
    {
        let (text, rest) = take_enum_name(stream, "WarParticipantSide")?;
        if str_eq(text, "attacker") {
            Ok((WarParticipantSide::Attacker, rest))
        } else if str_eq(text, "defender") {
            Ok((WarParticipantSide::Defender, rest))
        } else {
            Err(invalid_enum(text, "WarParticipantSide"))
        }
    }
}

/// The relation of one country to another.
#[derive(Debug)]
pub struct CountryRelation {}

/// A subject and its overlord.
#[derive(Debug)]
pub struct Dependency {
    /// Overlord
    pub first: u32,
    /// Subject
    pub second: u32,
    pub subject_type: String,
}

/// A player who played in the save, and the country they played.
pub struct PreviousPlayedItem {
    /// Country ID
    pub idtype: u32,
    /// Player name
    pub name: String,
}

pub struct RawCompatibility {
    pub version: i32,
    /// Locations, indexed by their id in the save file
    pub locations: Vec<String>,
}

pub struct RawMeta {
    pub date: EU5Date,
    pub playthrough_id: String,
    pub version: String,
    pub compatibility: RawCompatibility,
}

/// How a country came into a war.
#[derive(Debug)]
pub struct WarParticipantRequest {
    /// Who called them into the war, or `None` if they were the attacker/defender
    pub called_ally: Option<u32>,
    pub side: WarParticipantSide,
}

/// A participant's losses, per kind of loss ("Battle", "Attrition", "Capture").
#[derive(Debug)]
pub struct WarParticipantJoinedLosses {
    pub members: Vec<Vec<(String, i32)>>,
}

#[derive(Debug)]
pub struct WarParticipantRefused {
    pub reason: SkipValue,
    pub date: EU5Date,
}

#[derive(Debug)]
pub struct WarParticipantLeft {
    pub reason: SkipValue,
    pub date: EU5Date,
}

} // verus!
