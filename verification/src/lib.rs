//! Reading Paradox save and game files (EU4, EU5, Stellaris): their text and binary formats,
//! dates, countries, wars and province histories, and the map colors drawn from them day by
//! day; with the reservations of countries for multiplayer games.
use vstd::prelude::*;

pub mod assets;
pub mod bad_parser;
pub mod bin_deserialize;
pub mod bin_lexer;
pub mod color_map;
pub mod common;
pub mod common_deserialize;
pub mod country_history;
pub mod date_groups;
pub mod eu4_date;
pub mod eu4_map;
pub mod eu4_raw_parser;
pub mod eu4_save;
pub mod eu5;
pub mod eu5_date;
pub mod err_context;
pub mod float_text;
pub mod frame_search;
pub mod helpers;
pub mod map_history;
pub mod map_parsers;
pub mod modern_header;
pub mod raw_parser;
pub mod reservations;
pub mod save_parser;
pub mod serialized_map;
pub mod stellaris_date;
pub mod stellaris_save_parser;
pub mod strings_resolver;
pub mod text_deserialize;
pub mod text_lexer;
pub mod text_util;
pub mod web_map_history;
pub mod web_map_parsers;

verus! {
} // verus!
