//! Parts of Stellaris saves.
use vstd::prelude::*;
use vstd::string::StringSliceAdditionalSpecFns;
use vstd::utf8::*;

use crate::raw_parser::{RawPDXObject, RawPDXScalar, RawPDXValue, Want, kvs_of, unquote, values_of};
use crate::text_util::{parse_uint_max, spec_parse_uint_max};

verus! {

broadcast use vstd::string::group_string_axioms;

#[derive(Debug, Clone, Copy, PartialEq, Eq, Structural)]
pub enum Mod {
    Vanilla,
}

#[derive(Debug, Clone, Copy, PartialEq, Eq, Structural)]
pub enum WarResult {
    WhitePeace,
    AttackerVictory,
    DefenderVictory,
}

#[derive(Debug, Clone)]
pub struct Planet {
    pub planet_class: String,
    /// Determines where in the system it appears
    pub orbit: u32,
    pub planet_size: u32,
    /// Even if the system is 'owned', this may not be set.
    pub owner: Option<u32>,
    /// Even if the system is 'owned', this may not be set.
    pub controller: Option<u32>,
    pub num_sapient_pops: u32,
}

/// Why a planet could not be read.
#[derive(Debug, Clone, Copy, PartialEq, Eq, Structural)]
pub enum PlanetError {
    /// A needed key has no scalar value.
    Missing,
    /// A needed value is not a number that fits in a `u32`.
    NotANumber,
}

/// The first scalar value for `key`, read as a `u32`: `Err(Missing)` when there is none,
/// `Err(NotANumber)` when it is not such a number.
pub open spec fn spec_first_u32<'a>(obj: RawPDXObject<'a>, key: Seq<u8>) -> Result<u32, PlanetError> {
    match obj.spec_first(key, Want::Scalar) {
        Some(RawPDXValue::Scalar(s)) => match spec_parse_uint_max(s@, u32::MAX as nat) {
            Some(v) => Ok(v as u32),
            None => Err(PlanetError::NotANumber),
        },
        _ => Err(PlanetError::Missing),
    }
}

/// The first scalar value for `key`, read as a `u32`, if it is one.
fn first_u32(obj: &RawPDXObject, key: &str) -> (res: Result<u32, PlanetError>)
    ensures
        res == spec_first_u32(*obj, key.spec_bytes()),
{
    match obj.get_first_scalar(key) {
        Some(s) => match parse_uint_max(s.0.as_bytes(), u32::MAX as u64) {
            Some(v) => Ok(v as u32),
            None => Err(PlanetError::NotANumber),
        },
        None => Err(PlanetError::Missing),
    }
}

/// An optional value as a result: `Ok` holds it.
pub open spec fn ok_or_none(r: Result<u32, PlanetError>) -> Option<u32> {
    match r {
        Ok(v) => Some(v),
        Err(_) => None,
    }
}

/// Whether a planet object reads, or the first reason it does not: its class (a scalar), then
/// its orbit, size and number of sapient pops (numbers).
pub open spec fn planet_read<'a>(obj: RawPDXObject<'a>) -> Result<(), PlanetError> {
    match obj.spec_first("planet_class".spec_bytes(), Want::Scalar) {
        Some(RawPDXValue::Scalar(_)) => match (
            spec_first_u32(obj, "orbit".spec_bytes()),
            spec_first_u32(obj, "planet_size".spec_bytes()),
            spec_first_u32(obj, "num_sapient_pops".spec_bytes()),
        ) {
            (Err(e), _, _) => Err(e),
            (Ok(_), Err(e), _) => Err(e),
            (Ok(_), Ok(_), Err(e)) => Err(e),
            (Ok(_), Ok(_), Ok(_)) => Ok(()),
        },
        _ => Err(PlanetError::Missing),
    }
}

/// `p` is what the planet object `obj` holds: its class without quotes, its orbit, size and
/// number of sapient pops, and its owner and controller when they are numbers.
pub open spec fn reads_planet<'a>(p: Planet, obj: RawPDXObject<'a>) -> bool {
    &&& obj.spec_first("planet_class".spec_bytes(), Want::Scalar) matches Some(
        RawPDXValue::Scalar(c),
    ) && encode_utf8(p.planet_class@) == unquote(c@)
    &&& spec_first_u32(obj, "orbit".spec_bytes()) == Ok::<u32, PlanetError>(p.orbit)
    &&& spec_first_u32(obj, "planet_size".spec_bytes()) == Ok::<u32, PlanetError>(p.planet_size)
    &&& spec_first_u32(obj, "num_sapient_pops".spec_bytes()) == Ok::<u32, PlanetError>(
        p.num_sapient_pops,
    )
    &&& p.owner == ok_or_none(spec_first_u32(obj, "owner".spec_bytes()))
    &&& p.controller == ok_or_none(spec_first_u32(obj, "controller".spec_bytes()))
}

impl Planet {
    /// Reads a planet: its class (a scalar, without quotes), orbit, size and number of sapient
    /// pops are needed; its owner and controller are read when they are numbers.
    pub fn try_from_obj(obj: &RawPDXObject) -> (res: Result<Planet, PlanetError>)
        ensures
            match planet_read(*obj) {
                Err(e) => res == Err::<Planet, PlanetError>(e),
                Ok(_) => res matches Ok(p) && reads_planet(p, *obj),
            },
    {
        let planet_class = match obj.get_first_scalar("planet_class") {
            Some(s) => s.as_string(),
            None => {
                return Err(PlanetError::Missing);
            },
        };
        let orbit = first_u32(obj, "orbit")?;
        let planet_size = first_u32(obj, "planet_size")?;
        let owner = match first_u32(obj, "owner") {
            Ok(v) => Some(v),
            Err(_) => None,
        };
        let controller = match first_u32(obj, "controller") {
            Ok(v) => Some(v),
            Err(_) => None,
        };
        let num_sapient_pops = first_u32(obj, "num_sapient_pops")?;
        Ok(Planet { planet_class, orbit, planet_size, owner, controller, num_sapient_pops })
    }
}

/// Why an entry of an object whose keys count up from 0 is out of place.
#[derive(Debug, Clone, Copy, PartialEq, Eq, Structural)]
pub enum IndexError {
    /// Its key is no number that fits in a `u32`.
    NotANumber,
    /// Its key is not its place among the entries.
    OutOfOrder,
}

/// The key of the entry at place `i`, read as a `u32`, when it is `i`.
pub open spec fn spec_entry_index(key: Seq<u8>, i: int) -> Result<u32, IndexError> {
    match spec_parse_uint_max(key, u32::MAX as nat) {
        None => Err(IndexError::NotANumber),
        Some(k) => if k == i {
            Ok(k as u32)
        } else {
            Err(IndexError::OutOfOrder)
        },
    }
}

/// Reads the key of the entry at place `i` of an object whose keys count up from 0.
pub fn entry_index(key: &RawPDXScalar, i: usize) -> (res: Result<u32, IndexError>)
    ensures
        res == spec_entry_index(key@, i as int),
{
    match parse_uint_max(key.0.as_bytes(), u32::MAX as u64) {
        None => Err(IndexError::NotANumber),
        Some(k) => if k == i as u64 {
            Ok(k as u32)
        } else {
            Err(IndexError::OutOfOrder)
        },
    }
}

/// Why the `planet` object of a save cannot be read.
#[derive(Debug, Clone, Copy, PartialEq, Eq, Structural)]
pub enum PlanetsError {
    /// An entry's key is not its place.
    Index(IndexError),
    /// An entry's value is no object.
    NotAnObject,
    /// An entry is no planet.
    Planet(PlanetError),
}

/// Whether the entry at place `i` of a `planet` object reads, or why not.
pub open spec fn planet_entry<'a>(kv: (RawPDXScalar<'a>, RawPDXValue<'a>), i: int) -> Result<(), PlanetsError> {
    match spec_entry_index(kv.0@, i) {
        Err(e) => Err(PlanetsError::Index(e)),
        Ok(_) => match kv.1 {
            RawPDXValue::Object(o) => match planet_read(o) {
                Err(e) => Err(PlanetsError::Planet(e)),
                Ok(_) => Ok(()),
            },
            _ => Err(PlanetsError::NotAnObject),
        },
    }
}

/// The first reason among the first `n` entries of a `planet` object why it cannot be read.
pub open spec fn planets_error<'a>(kvs: Seq<(RawPDXScalar<'a>, RawPDXValue<'a>)>, n: int) -> Option<PlanetsError>
    decreases n,
{
    if n <= 0 {
        None
    } else {
        match planets_error(kvs, n - 1) {
            Some(e) => Some(e),
            None => match planet_entry(kvs[n - 1], n - 1) {
                Err(e) => Some(e),
                Ok(_) => None,
            },
        }
    }
}

/// Reads the planets of a save from its `planet` object, whose keys count up from 0; it fails
/// on the first entry that is out of place or no planet.
pub fn read_planets(obj: &RawPDXObject) -> (res: Result<Vec<Planet>, PlanetsError>)
    ensures
        match planets_error(kvs_of(obj.0@), kvs_of(obj.0@).len() as int) {
            Some(e) => res == Err::<Vec<Planet>, PlanetsError>(e),
            None => res matches Ok(v) && v@.len() == kvs_of(obj.0@).len() && forall|i: int|
                0 <= i < v@.len() ==> ((#[trigger] kvs_of(obj.0@)[i]).1 matches RawPDXValue::Object(o)
                    && reads_planet(v@[i], o)),
        },
{
    let kvs = obj.iter_all_KVs();
    let ghost all = kvs_of(obj.0@);
    let mut out: Vec<Planet> = Vec::new();
    let mut i: usize = 0;
    while i < kvs.len()
        invariant
            0 <= i <= kvs@.len(),
            kvs@.len() == all.len(),
            all == kvs_of(obj.0@),
            forall|j: int| 0 <= j < kvs@.len() ==> *kvs@[j].0 == all[j].0 && *kvs@[j].1 == all[j].1,
            planets_error(all, i as int) is None,
            out@.len() == i,
            forall|j: int|
                0 <= j < i ==> ((#[trigger] all[j]).1 matches RawPDXValue::Object(o) && reads_planet(
                    out@[j],
                    o,
                )),
        decreases kvs@.len() - i,
    {
        let (k, v) = kvs[i];
        match entry_index(k, i) {
            Err(e) => {
                proof {
                    lemma_planets_error_stays(all, i as int + 1, all.len() as int);
                }
                return Err(PlanetsError::Index(e));
            },
            Ok(_) => {},
        }
        let o = match v.as_object() {
            Some(o) => o,
            None => {
                proof {
                    lemma_planets_error_stays(all, i as int + 1, all.len() as int);
                }
                return Err(PlanetsError::NotAnObject);
            },
        };
        match Planet::try_from_obj(o) {
            Ok(p) => {
                out.push(p);
            },
            Err(e) => {
                proof {
                    lemma_planets_error_stays(all, i as int + 1, all.len() as int);
                }
                return Err(PlanetsError::Planet(e));
            },
        }
        i = i + 1;
    }
    Ok(out)
}

/// Once an error is found among the first entries, it stays the first one.
proof fn lemma_planets_error_stays<'a>(kvs: Seq<(RawPDXScalar<'a>, RawPDXValue<'a>)>, n: int, m: int)
    requires
        n <= m,
    ensures
        planets_error(kvs, n) is Some ==> planets_error(kvs, m) == planets_error(kvs, n),
    decreases m - n,
{
    if n < m {
        lemma_planets_error_stays(kvs, n, m - 1);
    }
}

/// Why the `player` object of a save cannot be read.
#[derive(Debug, Clone, Copy, PartialEq, Eq, Structural)]
pub enum PlayerError {
    /// One of its values is no object.
    NotAnObject,
    /// A player has no scalar `name`.
    NoName,
    /// A player has no scalar `country`.
    NoCountry,
    /// A player's `country` is no number that fits in a `u32`.
    BadCountry,
}

/// A player object's country number and name (without quotes), or why it cannot be read.
pub open spec fn player_entry<'a>(o: RawPDXObject<'a>) -> Result<(u32, Seq<u8>), PlayerError> {
    match o.spec_first("name".spec_bytes(), Want::Scalar) {
        Some(RawPDXValue::Scalar(n)) => match o.spec_first("country".spec_bytes(), Want::Scalar) {
            Some(RawPDXValue::Scalar(c)) => match spec_parse_uint_max(c@, u32::MAX as nat) {
                Some(k) => Ok((k as u32, unquote(n@))),
                None => Err(PlayerError::BadCountry),
            },
            _ => Err(PlayerError::NoCountry),
        },
        _ => Err(PlayerError::NoName),
    }
}

/// The first reason among the first `n` players why they cannot be read.
pub open spec fn players_error<'a>(vals: Seq<RawPDXValue<'a>>, n: int) -> Option<PlayerError>
    decreases n,
{
    if n <= 0 {
        None
    } else {
        match players_error(vals, n - 1) {
            Some(e) => Some(e),
            None => match vals[n - 1] {
                RawPDXValue::Object(o) => match player_entry(o) {
                    Err(e) => Some(e),
                    Ok(_) => None,
                },
                _ => None,
            },
        }
    }
}

proof fn lemma_players_error_stays<'a>(vals: Seq<RawPDXValue<'a>>, n: int, m: int)
    requires
        n <= m,
    ensures
        players_error(vals, n) is Some ==> players_error(vals, m) == players_error(vals, n),
    decreases m - n,
{
    if n < m {
        lemma_players_error_stays(vals, n, m - 1);
    }
}

/// Reads the players of a save from its `player` object, as `(country number, name)` in order:
/// every value must be an object, and then each must have a name and a country number.
pub fn read_players(obj: &RawPDXObject) -> (res: Result<Vec<(u32, String)>, PlayerError>)
    ensures
        !(forall|i: int| 0 <= i < values_of(obj.0@).len() ==> (#[trigger] values_of(obj.0@)[i]) is Object)
            ==> res == Err::<Vec<(u32, String)>, PlayerError>(PlayerError::NotAnObject),
        (forall|i: int| 0 <= i < values_of(obj.0@).len() ==> (#[trigger] values_of(obj.0@)[i]) is Object)
            ==> match players_error(values_of(obj.0@), values_of(obj.0@).len() as int) {
            Some(e) => res == Err::<Vec<(u32, String)>, PlayerError>(e),
            None => res matches Ok(v) && v@.len() == values_of(obj.0@).len() && forall|i: int|
                0 <= i < v@.len() ==> ((#[trigger] values_of(obj.0@)[i]) matches RawPDXValue::Object(o)
                    && player_entry(o) == Ok::<(u32, Seq<u8>), PlayerError>(
                    (v@[i].0, encode_utf8(v@[i].1@)),
                )),
        },
{
    let vals = obj.iter_values();
    let ghost all = values_of(obj.0@);
    let mut i: usize = 0;
    while i < vals.len()
        invariant
            0 <= i <= vals@.len(),
            vals@.len() == all.len(),
            forall|j: int| 0 <= j < vals@.len() ==> *vals@[j] == all[j],
            all == values_of(obj.0@),
            forall|j: int| 0 <= j < i ==> (#[trigger] all[j]) is Object,
        decreases vals@.len() - i,
    {
        if vals[i].as_object().is_none() {
            proof {
                assert(!(all[i as int] is Object));
            }
            return Err(PlayerError::NotAnObject);
        }
        i = i + 1;
    }
    let mut out: Vec<(u32, String)> = Vec::new();
    let mut i: usize = 0;
    while i < vals.len()
        invariant
            0 <= i <= vals@.len(),
            vals@.len() == all.len(),
            all == values_of(obj.0@),
            forall|j: int| 0 <= j < vals@.len() ==> *vals@[j] == all[j],
            forall|j: int| 0 <= j < all.len() ==> (#[trigger] all[j]) is Object,
            players_error(all, i as int) is None,
            out@.len() == i,
            forall|j: int|
                0 <= j < i ==> ((#[trigger] all[j]) matches RawPDXValue::Object(o) && player_entry(o)
                    == Ok::<(u32, Seq<u8>), PlayerError>((out@[j].0, encode_utf8(out@[j].1@)))),
        decreases vals@.len() - i,
    {
        let o = match vals[i].as_object() {
            Some(o) => o,
            None => {
                return Err(PlayerError::NotAnObject);
            },
        };
        let name = match o.get_first_scalar("name") {
            Some(n) => n.as_string(),
            None => {
                proof {
                    lemma_players_error_stays(all, i as int + 1, all.len() as int);
                }
                return Err(PlayerError::NoName);
            },
        };
        let country = match o.get_first_scalar("country") {
            Some(c) => match parse_uint_max(c.0.as_bytes(), u32::MAX as u64) {
                Some(k) => k as u32,
                None => {
                    proof {
                        lemma_players_error_stays(all, i as int + 1, all.len() as int);
                    }
                    return Err(PlayerError::BadCountry);
                },
            },
            None => {
                proof {
                    lemma_players_error_stays(all, i as int + 1, all.len() as int);
                }
                return Err(PlayerError::NoCountry);
            },
        };
        out.push((country, name));
        i = i + 1;
    }
    Ok(out)
}

/// The first owner (or, when `owner` is false, the first controller) among the planets `ps`
/// that `planets` has; numbers that `planets` does not reach are passed over.
pub open spec fn first_found(ps: Seq<u32>, planets: Seq<Planet>, owner: bool) -> Option<u32>
    decreases ps.len(),
{
    if ps.len() == 0 {
        None
    } else {
        let here = if (ps[0] as int) < planets.len() {
            if owner {
                planets[ps[0] as int].owner
            } else {
                planets[ps[0] as int].controller
            }
        } else {
            None
        };
        match here {
            Some(o) => Some(o),
            None => first_found(ps.drop_first(), planets, owner),
        }
    }
}

/// Who a star system is drawn as belonging to. With colonies, the first colony decides: its
/// planet's owner, else its controller (nobody when `planets` does not have it). Without, the
/// first owner among the system's planets, else the first controller.
pub open spec fn spec_system_owner(colonies: Seq<u32>, system_planets: Seq<u32>, planets: Seq<Planet>) -> Option<u32> {
    if colonies.len() > 0 {
        if (colonies[0] as int) < planets.len() {
            match planets[colonies[0] as int].owner {
                Some(o) => Some(o),
                None => planets[colonies[0] as int].controller,
            }
        } else {
            None
        }
    } else {
        match first_found(system_planets, planets, true) {
            Some(o) => Some(o),
            None => first_found(system_planets, planets, false),
        }
    }
}

/// The first owner (or controller) among the planets `ps`.
fn find_first(ps: &Vec<u32>, planets: &Vec<Planet>, owner: bool) -> (res: Option<u32>)
    ensures
        res == first_found(ps@, planets@, owner),
{
    let mut i: usize = 0;
    proof {
        assert(ps@.skip(0) =~= ps@);
    }
    while i < ps.len()
        invariant
            0 <= i <= ps@.len(),
            first_found(ps@, planets@, owner) == first_found(ps@.skip(i as int), planets@, owner),
        decreases ps@.len() - i,
    {
        proof {
            assert(ps@.skip(i as int).drop_first() =~= ps@.skip(i + 1));
            assert(ps@.skip(i as int)[0] == ps@[i as int]);
        }
        let p = ps[i] as usize;
        if p < planets.len() {
            let here = if owner {
                planets[p].owner
            } else {
                planets[p].controller
            };
            if let Some(o) = here {
                return Some(o);
            }
        }
        i = i + 1;
    }
    None
}

/// Who a star system is drawn as belonging to, from its colonies, its planets and all planets
/// of the save (indexed by number).
pub fn system_owner(colonies: &Vec<u32>, system_planets: &Vec<u32>, planets: &Vec<Planet>) -> (res: Option<u32>)
    ensures
        res == spec_system_owner(colonies@, system_planets@, planets@),
{
    if colonies.len() > 0 {
        let c = colonies[0] as usize;
        if c < planets.len() {
            match planets[c].owner {
                Some(o) => Some(o),
                None => planets[c].controller,
            }
        } else {
            None
        }
    } else {
        match find_first(system_planets, planets, true) {
            Some(o) => Some(o),
            None => find_first(system_planets, planets, false),
        }
    }
}

} // verus!
