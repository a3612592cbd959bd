//! Countries and whole saves of EU4. The numbers that the game writes with decimals are kept as the
//! texts of their scalars: the library reads every other part of a country exactly.
use vstd::prelude::*;
use vstd::string::StringSliceAdditionalSpecFns;
use vstd::utf8::*;

use crate::country_history::countries_of;
use crate::eu4_date::{DateError, EU4Date};
use crate::float_text::{float_text, is_float_text};
use crate::eu4_raw_parser::{RawEU4Object, RawEU4Scalar, RawEU4Value, kvs_of, values_of};
use crate::map_history::provinces_of;
use crate::raw_parser::{Want, unquote};
use crate::save_parser::{
    ColorError, Mod, War, color_bytes, eu4_obj_as_color, history_of, reads_war, utf8s, war_history,
    war_is_readable, war_readable,
};
use crate::text_util::{spec_parse_i64, str_eq};

verus! {

broadcast use vstd::string::group_string_axioms, vstd::utf8::encode_utf8_decode_utf8;

/// Why a country could not be read.
#[derive(Debug, Clone, Copy, PartialEq, Eq, Structural)]
pub enum NationError {
    /// The country has no `colors` object.
    NoColors,
    /// Its colors have no `map_color` object.
    NoMapColor,
    /// Its map color is no color.
    MapColor(ColorError),
    /// Its colors have no `country_color` object.
    NoCountryColor,
    /// Its country color is no color.
    CountryColor(ColorError),
    /// Its first `treasury` is no scalar that reads as a decimal number.
    NoTreasury,
    /// Its first `prestige` is no scalar that reads as a decimal number.
    NoPrestige,
    /// Its first `stability` is no scalar that reads as a decimal number.
    NoStability,
    /// Its first `score_place` is no integer.
    NoScorePlace,
    /// Its first `capital` is no integer.
    NoCapital,
}

impl NationError {
    pub fn message(&self) -> (res: &'static str)
        ensures
            res@ == match self {
                NationError::NoColors => "Found no colors for a country"@,
                NationError::NoMapColor => "no 'map_color' obj"@,
                NationError::NoCountryColor => "no 'country_color' obj"@,
                NationError::MapColor(_) => "Invalid map color"@,
                NationError::CountryColor(_) => "Invalid country color"@,
                NationError::NoTreasury => "no float 'treasury'"@,
                NationError::NoPrestige => "no float 'prestige"@,
                NationError::NoStability => "no float 'stability'"@,
                NationError::NoScorePlace => "No int 'score_place'"@,
                NationError::NoCapital => "No int 'capital'"@,
            },
    {
        match self {
            NationError::NoColors => "Found no colors for a country",
            NationError::NoMapColor => "no 'map_color' obj",
            NationError::NoCountryColor => "no 'country_color' obj",
            NationError::MapColor(_) => "Invalid map color",
            NationError::CountryColor(_) => "Invalid country color",
            NationError::NoTreasury => "no float 'treasury'",
            NationError::NoPrestige => "no float 'prestige",
            NationError::NoStability => "no float 'stability'",
            NationError::NoScorePlace => "No int 'score_place'",
            NationError::NoCapital => "No int 'capital'",
        }
    }
}

/// A country of an EU4 save. The texts of scalars keep their quotes.
pub struct NationRecord {
    pub tag: String,
    /// The tags the country had before, in order.
    pub other_tags: Vec<String>,
    /// The text of the first `raw_development`, if it is a scalar.
    pub raw_development: Option<String>,
    /// The text of the first `prestige`, a decimal number.
    pub prestige: String,
    /// The text of the first `stability`, a decimal number.
    pub stability: String,
    /// The text of the first `treasury`, a decimal number.
    pub treasury: String,
    /// For each loan, the text of its first `amount`, if it is a scalar.
    pub loan_amounts: Vec<Option<String>>,
    /// The text of the ledger's last month income, if it has one.
    pub last_month_income: Option<String>,
    /// The text of the ledger's last month expense, if it has one.
    pub last_month_expense: Option<String>,
    /// For each regiment of each army, the text of its first `strength`, if it is a scalar.
    pub regiment_strengths: Vec<Option<String>>,
    /// The number of ships of all navies.
    pub navy: usize,
    /// The first `score_place`.
    pub score_place: i64,
    /// The first `capital`.
    pub capital: i64,
    /// The first `overlord`, without quotes, if it is a scalar.
    pub overlord: Option<String>,
    /// The scalar values of the first `allies` object, without quotes.
    pub allies: Vec<String>,
    /// The scalar values of the first `subjects` object, without quotes.
    pub subjects: Vec<String>,
    pub map_color: [u8; 3],
    pub nation_color: [u8; 3],
}

/// A text's UTF-8 bytes, if there is one.
pub open spec fn opt_utf8(o: Option<String>) -> Option<Seq<u8>> {
    match o {
        Some(s) => Some(encode_utf8(s@)),
        None => None,
    }
}

/// The UTF-8 bytes of each text that is there.
pub open spec fn opt_utf8s(v: Seq<Option<String>>) -> Seq<Option<Seq<u8>>> {
    v.map_values(|o: Option<String>| opt_utf8(o))
}

/// The text of the first value for `key`, if that value is a scalar.
pub open spec fn first_scalar_text<'a>(obj: RawEU4Object<'a>, key: Seq<u8>) -> Option<Seq<u8>> {
    match obj.spec_first(key, Want::Any) {
        Some(RawEU4Value::Scalar(s)) => Some(s@),
        _ => None,
    }
}

/// The first value for `key` read as an `i64`, if it is a scalar.
pub open spec fn first_int<'a>(obj: RawEU4Object<'a>, key: Seq<u8>) -> Option<i64> {
    match obj.spec_first(key, Want::Any) {
        Some(RawEU4Value::Scalar(s)) => spec_parse_i64(s@),
        _ => None,
    }
}

/// The text of the first scalar `key` of the first `ledger` object.
pub open spec fn ledger_text<'a>(obj: RawEU4Object<'a>, key: Seq<u8>) -> Option<Seq<u8>> {
    match obj.spec_first("ledger".spec_bytes(), Want::Object) {
        Some(RawEU4Value::Object(l)) => match l.spec_first(key, Want::Scalar) {
            Some(RawEU4Value::Scalar(s)) => Some(s@),
            _ => None,
        },
        _ => None,
    }
}

/// The texts, without quotes, of the scalar values of the entries with key `key`, in order.
pub open spec fn scalars_for<'a>(kvs: Seq<(RawEU4Scalar<'a>, RawEU4Value<'a>)>, key: Seq<u8>) -> Seq<Seq<u8>>
    decreases kvs.len(),
{
    if kvs.len() == 0 {
        seq![]
    } else {
        let p = scalars_for(kvs.drop_last(), key);
        match kvs.last().1 {
            RawEU4Value::Scalar(s) => if kvs.last().0@ == key {
                p.push(unquote(s@))
            } else {
                p
            },
            RawEU4Value::Object(_) => p,
        }
    }
}

/// For each object entry with key `key`, the text of its first `field`, if that is a scalar.
pub open spec fn field_texts<'a>(kvs: Seq<(RawEU4Scalar<'a>, RawEU4Value<'a>)>, key: Seq<u8>, field: Seq<u8>) -> Seq<
    Option<Seq<u8>>,
>
    decreases kvs.len(),
{
    if kvs.len() == 0 {
        seq![]
    } else {
        let p = field_texts(kvs.drop_last(), key, field);
        match kvs.last().1 {
            RawEU4Value::Object(o) => if kvs.last().0@ == key {
                p.push(first_scalar_text(o, field))
            } else {
                p
            },
            RawEU4Value::Scalar(_) => p,
        }
    }
}

/// For each regiment of each `army` object, in order, the text of its first `strength`.
pub open spec fn regiment_strengths<'a>(kvs: Seq<(RawEU4Scalar<'a>, RawEU4Value<'a>)>) -> Seq<Option<Seq<u8>>>
    decreases kvs.len(),
{
    if kvs.len() == 0 {
        seq![]
    } else {
        let p = regiment_strengths(kvs.drop_last());
        match kvs.last().1 {
            RawEU4Value::Object(a) => if kvs.last().0@ == "army".spec_bytes() {
                p + field_texts(kvs_of(a.0@), "regiment".spec_bytes(), "strength".spec_bytes())
            } else {
                p
            },
            RawEU4Value::Scalar(_) => p,
        }
    }
}

/// The number of entries with key `key`, whatever their values.
pub open spec fn key_count<'a>(kvs: Seq<(RawEU4Scalar<'a>, RawEU4Value<'a>)>, key: Seq<u8>) -> nat
    decreases kvs.len(),
{
    if kvs.len() == 0 {
        0
    } else {
        key_count(kvs.drop_last(), key) + if kvs.last().0@ == key {
            1nat
        } else {
            0nat
        }
    }
}

/// The number of ships of all `navy` objects.
pub open spec fn ship_count<'a>(kvs: Seq<(RawEU4Scalar<'a>, RawEU4Value<'a>)>) -> nat
    decreases kvs.len(),
{
    if kvs.len() == 0 {
        0
    } else {
        ship_count(kvs.drop_last()) + match kvs.last().1 {
            RawEU4Value::Object(n) => if kvs.last().0@ == "navy".spec_bytes() {
                key_count(kvs_of(n.0@), "ship".spec_bytes())
            } else {
                0nat
            },
            RawEU4Value::Scalar(_) => 0nat,
        }
    }
}

/// The texts, without quotes, of the scalar values of the first object for `key`; none if there
/// is no such object.
pub open spec fn listed_names<'a>(obj: RawEU4Object<'a>, key: Seq<u8>) -> Seq<Seq<u8>> {
    match obj.spec_first(key, Want::Object) {
        Some(RawEU4Value::Object(o)) => scalar_values(values_of(o.0@)),
        _ => seq![],
    }
}

/// The texts, without quotes, of the scalars among `vals`, in order.
pub open spec fn scalar_values<'a>(vals: Seq<RawEU4Value<'a>>) -> Seq<Seq<u8>>
    decreases vals.len(),
{
    if vals.len() == 0 {
        seq![]
    } else {
        let p = scalar_values(vals.drop_last());
        match vals.last() {
            RawEU4Value::Scalar(s) => p.push(unquote(s@)),
            RawEU4Value::Object(_) => p,
        }
    }
}

/// An object read as a color: three numbers from 0 to 255.
pub open spec fn obj_color<'a>(o: RawEU4Object<'a>) -> Result<Seq<u8>, ColorError> {
    match color_bytes(values_of(o.0@)) {
        Err(e) => Err(e),
        Ok(bs) => if bs.len() == 3 {
            Ok(bs)
        } else {
            Err(ColorError::WrongLength)
        },
    }
}

/// A country's map color and country color, or why they cannot be read.
pub open spec fn nation_colors<'a>(obj: RawEU4Object<'a>) -> Result<(Seq<u8>, Seq<u8>), NationError> {
    match obj.spec_first("colors".spec_bytes(), Want::Object) {
        Some(RawEU4Value::Object(c)) => match c.spec_first("map_color".spec_bytes(), Want::Object) {
            Some(RawEU4Value::Object(m)) => match obj_color(m) {
                Err(e) => Err(NationError::MapColor(e)),
                Ok(mc) => match c.spec_first("country_color".spec_bytes(), Want::Object) {
                    Some(RawEU4Value::Object(n)) => match obj_color(n) {
                        Err(e) => Err(NationError::CountryColor(e)),
                        Ok(nc) => Ok((mc, nc)),
                    },
                    _ => Err(NationError::NoCountryColor),
                },
            },
            _ => Err(NationError::NoMapColor),
        },
        _ => Err(NationError::NoColors),
    }
}

/// The text of the first `key` of `obj`, when it is a scalar that reads as a decimal number.
pub open spec fn first_float_text<'a>(obj: RawEU4Object<'a>, key: Seq<u8>) -> Option<Seq<u8>> {
    match first_scalar_text(obj, key) {
        Some(t) => if float_text(t) {
            Some(t)
        } else {
            None
        },
        None => None,
    }
}

/// A country's map color and country color when it can be read, or the first reason it
/// cannot: its colors, then a `treasury`, `prestige` and `stability` that read as decimal
/// numbers, then an integer `score_place` and `capital`.
pub open spec fn nation_check<'a>(obj: RawEU4Object<'a>) -> Result<(Seq<u8>, Seq<u8>), NationError> {
    match nation_colors(obj) {
        Err(e) => Err(e),
        Ok(c) => if first_float_text(obj, "treasury".spec_bytes()) is None {
            Err(NationError::NoTreasury)
        } else if first_float_text(obj, "prestige".spec_bytes()) is None {
            Err(NationError::NoPrestige)
        } else if first_float_text(obj, "stability".spec_bytes()) is None {
            Err(NationError::NoStability)
        } else if first_int(obj, "score_place".spec_bytes()) is None {
            Err(NationError::NoScorePlace)
        } else if first_int(obj, "capital".spec_bytes()) is None {
            Err(NationError::NoCapital)
        } else {
            Ok(c)
        },
    }
}

/// The text of the first `key`, when it is a scalar that reads as a decimal number.
fn first_float(obj: &RawEU4Object, key: &str) -> (res: Option<String>)
    ensures
        opt_utf8(res) == first_float_text(*obj, key.spec_bytes()),
{
    match first_text(obj, key) {
        Some(t) => {
            if is_float_text(t.as_str()) {
                Some(t)
            } else {
                None
            }
        },
        None => None,
    }
}

/// A scalar's text, quotes included.
fn raw_text(s: &RawEU4Scalar) -> (res: String)
    ensures
        encode_utf8(res@) == s@,
{
    s.0.to_string()
}

/// The text of the first value for `key`, if that value is a scalar.
fn first_text(obj: &RawEU4Object, key: &str) -> (res: Option<String>)
    ensures
        opt_utf8(res) == first_scalar_text(*obj, key.spec_bytes()),
{
    match obj.get_first(key) {
        Some(RawEU4Value::Scalar(s)) => Some(raw_text(s)),
        _ => None,
    }
}

/// The text of the first scalar `key` of the first `ledger` object.
fn ledger_entry(obj: &RawEU4Object, key: &str) -> (res: Option<String>)
    ensures
        opt_utf8(res) == ledger_text(*obj, key.spec_bytes()),
{
    match obj.get_first_obj("ledger") {
        Some(l) => match l.get_first_scalar(key) {
            Some(s) => Some(raw_text(s)),
            None => None,
        },
        None => None,
    }
}

/// The texts, without quotes, of the scalar values of the entries with key `key`.
fn scalars_of_key(obj: &RawEU4Object, key: &str) -> (res: Vec<String>)
    ensures
        utf8s(res@) == scalars_for(kvs_of(obj.0@), key.spec_bytes()),
{
    let kvs = obj.iter_all_KVs();
    let ghost all = kvs_of(obj.0@);
    let mut out: Vec<String> = Vec::new();
    let mut i: usize = 0;
    proof {
        assert(all.take(0) =~= seq![]);
        assert(utf8s(out@) =~= seq![]);
    }
    while i < kvs.len()
        invariant
            0 <= i <= kvs@.len(),
            kvs@.len() == all.len(),
            all == kvs_of(obj.0@),
            forall|j: int|
                0 <= j < kvs@.len() ==> *kvs@[j].0 == all[j].0 && *kvs@[j].1 == all[j].1,
            utf8s(out@) == scalars_for(all.take(i as int), key.spec_bytes()),
        decreases kvs@.len() - i,
    {
        let (k, v) = kvs[i];
        proof {
            assert(all.take(i + 1).drop_last() =~= all.take(i as int));
        }
        if let RawEU4Value::Scalar(s) = v {
            if str_eq(k.0, key) {
                let ghost before = out@;
                out.push(s.as_string());
                proof {
                    assert(utf8s(out@) =~= utf8s(before).push(unquote(s@)));
                }
            }
        }
        i = i + 1;
    }
    proof {
        assert(all.take(i as int) =~= all);
    }
    out
}

/// For each object entry with key `key`, the text of its first `field`, if that is a scalar.
fn field_texts_of(obj: &RawEU4Object, key: &str, field: &str) -> (res: Vec<Option<String>>)
    ensures
        opt_utf8s(res@) == field_texts(kvs_of(obj.0@), key.spec_bytes(), field.spec_bytes()),
{
    let kvs = obj.iter_all_KVs();
    let ghost all = kvs_of(obj.0@);
    let mut out: Vec<Option<String>> = Vec::new();
    let mut i: usize = 0;
    proof {
        assert(all.take(0) =~= seq![]);
        assert(opt_utf8s(out@) =~= seq![]);
    }
    while i < kvs.len()
        invariant
            0 <= i <= kvs@.len(),
            kvs@.len() == all.len(),
            all == kvs_of(obj.0@),
            forall|j: int|
                0 <= j < kvs@.len() ==> *kvs@[j].0 == all[j].0 && *kvs@[j].1 == all[j].1,
            opt_utf8s(out@) == field_texts(all.take(i as int), key.spec_bytes(), field.spec_bytes()),
        decreases kvs@.len() - i,
    {
        let (k, v) = kvs[i];
        proof {
            assert(all.take(i + 1).drop_last() =~= all.take(i as int));
        }
        if let RawEU4Value::Object(o) = v {
            if str_eq(k.0, key) {
                let ghost before = out@;
                let t = first_text(o, field);
                out.push(t);
                proof {
                    assert(opt_utf8s(out@) =~= opt_utf8s(before).push(first_scalar_text(*o, field.spec_bytes())));
                }
            }
        }
        i = i + 1;
    }
    proof {
        assert(all.take(i as int) =~= all);
    }
    out
}

/// The strengths of the regiments of all `army` objects.
fn regiment_strengths_of(obj: &RawEU4Object) -> (res: Vec<Option<String>>)
    ensures
        opt_utf8s(res@) == regiment_strengths(kvs_of(obj.0@)),
{
    let kvs = obj.iter_all_KVs();
    let ghost all = kvs_of(obj.0@);
    let mut out: Vec<Option<String>> = Vec::new();
    let mut i: usize = 0;
    proof {
        assert(all.take(0) =~= seq![]);
        assert(opt_utf8s(out@) =~= seq![]);
    }
    while i < kvs.len()
        invariant
            0 <= i <= kvs@.len(),
            kvs@.len() == all.len(),
            all == kvs_of(obj.0@),
            forall|j: int|
                0 <= j < kvs@.len() ==> *kvs@[j].0 == all[j].0 && *kvs@[j].1 == all[j].1,
            opt_utf8s(out@) == regiment_strengths(all.take(i as int)),
        decreases kvs@.len() - i,
    {
        let (k, v) = kvs[i];
        proof {
            assert(all.take(i + 1).drop_last() =~= all.take(i as int));
        }
        if let RawEU4Value::Object(a) = v {
            if str_eq(k.0, "army") {
                let ghost before = out@;
                let mut more = field_texts_of(a, "regiment", "strength");
                let ghost added = more@;
                out.append(&mut more);
                proof {
                    assert(out@ =~= before + added);
                    assert(opt_utf8s(out@) =~= opt_utf8s(before) + opt_utf8s(added));
                }
            }
        }
        i = i + 1;
    }
    proof {
        assert(all.take(i as int) =~= all);
    }
    out
}

proof fn lemma_key_count_len<'a>(kvs: Seq<(RawEU4Scalar<'a>, RawEU4Value<'a>)>, key: Seq<u8>)
    ensures
        key_count(kvs, key) <= kvs.len(),
    decreases kvs.len(),
{
    if kvs.len() > 0 {
        lemma_key_count_len(kvs.drop_last(), key);
    }
}

/// The number of entries with key `key`.
fn count_key(obj: &RawEU4Object, key: &str) -> (res: usize)
    ensures
        res == key_count(kvs_of(obj.0@), key.spec_bytes()),
{
    let kvs = obj.iter_all_KVs();
    let ghost all = kvs_of(obj.0@);
    let mut n: usize = 0;
    let mut i: usize = 0;
    proof {
        assert(all.take(0) =~= seq![]);
    }
    while i < kvs.len()
        invariant
            0 <= i <= kvs@.len(),
            kvs@.len() == all.len(),
            all == kvs_of(obj.0@),
            forall|j: int| 0 <= j < kvs@.len() ==> *kvs@[j].0 == all[j].0,
            n == key_count(all.take(i as int), key.spec_bytes()),
        decreases kvs@.len() - i,
    {
        let (k, _) = kvs[i];
        proof {
            assert(all.take(i + 1).drop_last() =~= all.take(i as int));
            lemma_key_count_len(all.take(i as int), key.spec_bytes());
        }
        if str_eq(k.0, key) {
            n = n + 1;
        }
        i = i + 1;
    }
    proof {
        assert(all.take(i as int) =~= all);
    }
    n
}

/// A prefix has no more ships than the whole.
proof fn lemma_ship_count_prefix<'a>(kvs: Seq<(RawEU4Scalar<'a>, RawEU4Value<'a>)>, i: int)
    requires
        0 <= i <= kvs.len(),
    ensures
        ship_count(kvs.take(i)) <= ship_count(kvs),
    decreases kvs.len() - i,
{
    if i < kvs.len() {
        assert(kvs.take(i + 1).drop_last() =~= kvs.take(i));
        lemma_ship_count_prefix(kvs, i + 1);
    } else {
        assert(kvs.take(i) =~= kvs);
    }
}

/// The number of ships of all `navy` objects.
fn ships_of(obj: &RawEU4Object) -> (res: usize)
    requires
        ship_count(kvs_of(obj.0@)) <= usize::MAX,
    ensures
        res == ship_count(kvs_of(obj.0@)),
{
    let kvs = obj.iter_all_KVs();
    let ghost all = kvs_of(obj.0@);
    let mut n: usize = 0;
    let mut i: usize = 0;
    proof {
        assert(all.take(0) =~= seq![]);
    }
    while i < kvs.len()
        invariant
            0 <= i <= kvs@.len(),
            kvs@.len() == all.len(),
            all == kvs_of(obj.0@),
            ship_count(all) <= usize::MAX,
            forall|j: int|
                0 <= j < kvs@.len() ==> *kvs@[j].0 == all[j].0 && *kvs@[j].1 == all[j].1,
            n == ship_count(all.take(i as int)),
        decreases kvs@.len() - i,
    {
        let (k, v) = kvs[i];
        proof {
            assert(all.take(i + 1).drop_last() =~= all.take(i as int));
            lemma_ship_count_prefix(all, i + 1);
        }
        if let RawEU4Value::Object(nv) = v {
            if str_eq(k.0, "navy") {
                let c = count_key(nv, "ship");
                n = n + c;
            }
        }
        i = i + 1;
    }
    proof {
        assert(all.take(i as int) =~= all);
    }
    n
}

/// The texts, without quotes, of the scalar values of the first object for `key`.
fn names_listed(obj: &RawEU4Object, key: &str) -> (res: Vec<String>)
    ensures
        utf8s(res@) == listed_names(*obj, key.spec_bytes()),
{
    let mut out: Vec<String> = Vec::new();
    let o = match obj.get_first_obj(key) {
        Some(o) => o,
        None => {
            proof {
                assert(utf8s(out@) =~= seq![]);
            }
            return out;
        },
    };
    let vals = o.iter_values();
    let ghost all = values_of(o.0@);
    let mut i: usize = 0;
    proof {
        assert(all.take(0) =~= seq![]);
        assert(utf8s(out@) =~= seq![]);
    }
    while i < vals.len()
        invariant
            0 <= i <= vals@.len(),
            vals@.len() == all.len(),
            all == values_of(o.0@),
            forall|j: int| 0 <= j < vals@.len() ==> *vals@[j] == all[j],
            utf8s(out@) == scalar_values(all.take(i as int)),
        decreases vals@.len() - i,
    {
        proof {
            assert(all.take(i + 1).drop_last() =~= all.take(i as int));
        }
        if let RawEU4Value::Scalar(s) = vals[i] {
            let ghost before = out@;
            out.push(s.as_string());
            proof {
                assert(utf8s(out@) =~= utf8s(before).push(unquote(s@)));
            }
        }
        i = i + 1;
    }
    proof {
        assert(all.take(i as int) =~= all);
    }
    out
}

/// The first `overlord`, without quotes, if it is a scalar.
pub open spec fn overlord_of<'a>(obj: RawEU4Object<'a>) -> Option<Seq<u8>> {
    match obj.spec_first("overlord".spec_bytes(), Want::Any) {
        Some(RawEU4Value::Scalar(s)) => Some(unquote(s@)),
        _ => None,
    }
}

/// `r` is what a country object `obj` with tag `tag` and colors `mc` and `nc` holds.
#[verifier::opaque]
pub open spec fn reads_nation<'a>(r: NationRecord, tag: Seq<char>, obj: RawEU4Object<'a>, mc: Seq<u8>, nc: Seq<u8>) -> bool {
    let kvs = kvs_of(obj.0@);
    &&& r.tag@ == tag
    &&& utf8s(r.other_tags@) == scalars_for(kvs, "previous_country_tags".spec_bytes())
    &&& opt_utf8(r.raw_development) == first_scalar_text(obj, "raw_development".spec_bytes())
    &&& Some(encode_utf8(r.prestige@)) == first_float_text(obj, "prestige".spec_bytes())
    &&& Some(encode_utf8(r.stability@)) == first_float_text(obj, "stability".spec_bytes())
    &&& Some(encode_utf8(r.treasury@)) == first_float_text(obj, "treasury".spec_bytes())
    &&& opt_utf8s(r.loan_amounts@) == field_texts(kvs, "loan".spec_bytes(), "amount".spec_bytes())
    &&& opt_utf8(r.last_month_income) == ledger_text(obj, "lastmonthincome".spec_bytes())
    &&& opt_utf8(r.last_month_expense) == ledger_text(obj, "lastmonthexpense".spec_bytes())
    &&& opt_utf8s(r.regiment_strengths@) == regiment_strengths(kvs)
    &&& r.navy == ship_count(kvs)
    &&& Some(r.score_place) == first_int(obj, "score_place".spec_bytes())
    &&& Some(r.capital) == first_int(obj, "capital".spec_bytes())
    &&& opt_utf8(r.overlord) == overlord_of(obj)
    &&& utf8s(r.allies@) == listed_names(obj, "allies".spec_bytes())
    &&& utf8s(r.subjects@) == listed_names(obj, "subjects".spec_bytes())
    &&& r.map_color@ == mc
    &&& r.nation_color@ == nc
}

impl NationRecord {
    /// Reads the country with tag `tag` from its object in a save. Its colors are needed (a
    /// `colors` object with `map_color` and `country_color` objects of three numbers), then a
    /// `treasury`, `prestige` and `stability` that read as decimal numbers, and an integer
    /// `score_place` and `capital`; every other part is read when it is there.
    pub fn from_parsed_obj(tag: String, obj: &RawEU4Object) -> (res: Result<NationRecord, NationError>)
        requires
            ship_count(kvs_of(obj.0@)) <= usize::MAX,
        ensures
            match nation_check(*obj) {
                Err(e) => res == Err::<NationRecord, NationError>(e),
                Ok((mc, nc)) => res matches Ok(r) && reads_nation(r, tag@, *obj, mc, nc),
            },
    {
        let colors = match obj.get_first_obj("colors") {
            Some(c) => c,
            None => {
                return Err(NationError::NoColors);
            },
        };
        let map_obj = match colors.get_first_obj("map_color") {
            Some(m) => m,
            None => {
                return Err(NationError::NoMapColor);
            },
        };
        let map_color = match eu4_obj_as_color(map_obj) {
            Ok(c) => c,
            Err(e) => {
                return Err(NationError::MapColor(e));
            },
        };
        let country_obj = match colors.get_first_obj("country_color") {
            Some(n) => n,
            None => {
                return Err(NationError::NoCountryColor);
            },
        };
        let nation_color = match eu4_obj_as_color(country_obj) {
            Ok(c) => c,
            Err(e) => {
                return Err(NationError::CountryColor(e));
            },
        };
        let treasury = match first_float(obj, "treasury") {
            Some(t) => t,
            None => {
                return Err(NationError::NoTreasury);
            },
        };
        let prestige = match first_float(obj, "prestige") {
            Some(t) => t,
            None => {
                return Err(NationError::NoPrestige);
            },
        };
        let stability = match first_float(obj, "stability") {
            Some(t) => t,
            None => {
                return Err(NationError::NoStability);
            },
        };
        let score_place = match obj.get_first_as_int("score_place") {
            Some(n) => n,
            None => {
                return Err(NationError::NoScorePlace);
            },
        };
        let capital = match obj.get_first_as_int("capital") {
            Some(n) => n,
            None => {
                return Err(NationError::NoCapital);
            },
        };
        proof {
            reveal(reads_nation);
        }
        Ok(
            NationRecord {
                tag,
                other_tags: scalars_of_key(obj, "previous_country_tags"),
                raw_development: first_text(obj, "raw_development"),
                prestige,
                stability,
                treasury,
                loan_amounts: field_texts_of(obj, "loan", "amount"),
                last_month_income: ledger_entry(obj, "lastmonthincome"),
                last_month_expense: ledger_entry(obj, "lastmonthexpense"),
                regiment_strengths: regiment_strengths_of(obj),
                navy: ships_of(obj),
                score_place,
                capital,
                overlord: obj.get_first_as_string("overlord"),
                allies: names_listed(obj, "allies"),
                subjects: names_listed(obj, "subjects"),
                map_color,
                nation_color,
            },
        )
    }
}

/// The object entries of `kvs`, with their keys.
pub open spec fn country_entries<'a>(kvs: Seq<(RawEU4Scalar<'a>, RawEU4Value<'a>)>) -> Seq<
    (RawEU4Scalar<'a>, RawEU4Object<'a>),
>
    decreases kvs.len(),
{
    if kvs.len() == 0 {
        seq![]
    } else {
        let p = country_entries(kvs.drop_last());
        match kvs.last().1 {
            RawEU4Value::Object(o) => p.push((kvs.last().0, o)),
            RawEU4Value::Scalar(_) => p,
        }
    }
}

/// A country object that [`NationRecord::from_parsed_obj`] reads.
pub open spec fn nation_readable<'a>(o: RawEU4Object<'a>) -> bool {
    nation_check(o) is Ok && ship_count(kvs_of(o.0@)) <= usize::MAX
}

/// Every object entry of `kvs` is a country that reads.
pub open spec fn countries_readable<'a>(kvs: Seq<(RawEU4Scalar<'a>, RawEU4Value<'a>)>) -> bool {
    forall|i: int|
        0 <= i < kvs.len() ==> match #[trigger] kvs[i].1 {
            RawEU4Value::Object(o) => nation_readable(o),
            RawEU4Value::Scalar(_) => true,
        }
}

/// No province object has the key `-9223372036854775808`, whose magnitude is no `i64`.
pub open spec fn owner_keys_ok<'a>(kvs: Seq<(RawEU4Scalar<'a>, RawEU4Value<'a>)>) -> bool {
    forall|i: int|
        0 <= i < kvs.len() && #[trigger] kvs[i].1 is Object ==> spec_parse_i64(kvs[i].0@) != Some(
            i64::MIN,
        )
}

/// `v` holds, for each country entry of `es` in order, its tag as written and what it holds.
pub open spec fn nations_match<'a>(v: Seq<(String, NationRecord)>, es: Seq<(RawEU4Scalar<'a>, RawEU4Object<'a>)>) -> bool {
    &&& v.len() == es.len()
    &&& forall|i: int|
        0 <= i < v.len() ==> encode_utf8((#[trigger] v[i]).0@) == es[i].0@ && match nation_check(es[i].1) {
            Ok((mc, nc)) => reads_nation(v[i].1, v[i].0@, es[i].1, mc, nc),
            Err(_) => false,
        }
}

/// The text of a scalar value, without quotes.
pub open spec fn scalar_text<'a>(v: RawEU4Value<'a>) -> Seq<u8> {
    match v {
        RawEU4Value::Scalar(s) => unquote(s@),
        RawEU4Value::Object(_) => seq![],
    }
}

/// All of `vals` are scalars.
pub open spec fn all_scalars<'a>(vals: Seq<RawEU4Value<'a>>) -> bool {
    forall|i: int| 0 <= i < vals.len() ==> #[trigger] vals[i] is Scalar
}

/// The players of a save: its values taken two by two, a player and then the tag played, as
/// `(tag, player)`; a last value without a partner is passed over.
pub open spec fn player_pairs<'a>(vals: Seq<RawEU4Value<'a>>) -> Seq<(Seq<u8>, Seq<u8>)> {
    Seq::new(vals.len() / 2, |k: int| (scalar_text(vals[2 * k + 1]), scalar_text(vals[2 * k])))
}

/// Pairs of texts by their UTF-8 bytes.
pub open spec fn pairs_view(v: Seq<(String, String)>) -> Seq<(Seq<u8>, Seq<u8>)> {
    v.map_values(|p: (String, String)| (encode_utf8(p.0@), encode_utf8(p.1@)))
}

/// The magnitude of `n`.
pub open spec fn magnitude(n: i64) -> int {
    if n < 0 {
        -n
    } else {
        n as int
    }
}

/// The owner of each province object whose key is a number and that has a scalar `owner`: the
/// magnitude of the number and the owner's tag without quotes, in order.
pub open spec fn province_owners<'a>(kvs: Seq<(RawEU4Scalar<'a>, RawEU4Value<'a>)>) -> Seq<(u64, Seq<u8>)>
    decreases kvs.len(),
{
    if kvs.len() == 0 {
        seq![]
    } else {
        let p = province_owners(kvs.drop_last());
        match (spec_parse_i64(kvs.last().0@), kvs.last().1) {
            (Some(n), RawEU4Value::Object(o)) => match o.spec_first("owner".spec_bytes(), Want::Scalar) {
                Some(RawEU4Value::Scalar(s)) => p.push((magnitude(n) as u64, unquote(s@))),
                _ => p,
            },
            _ => p,
        }
    }
}

/// Pairs of a number and a text, the text by its UTF-8 bytes.
pub open spec fn owners_view(v: Seq<(u64, String)>) -> Seq<(u64, Seq<u8>)> {
    v.map_values(|p: (u64, String)| (p.0, encode_utf8(p.1@)))
}

/// The first object value for `key`.
pub open spec fn first_object<'a>(obj: RawEU4Object<'a>, key: Seq<u8>) -> Option<RawEU4Object<'a>> {
    match obj.spec_first(key, Want::Object) {
        Some(RawEU4Value::Object(o)) => Some(o),
        _ => None,
    }
}

/// The first scalar value for `key`.
pub open spec fn first_scalar<'a>(obj: RawEU4Object<'a>, key: Seq<u8>) -> Option<RawEU4Scalar<'a>> {
    match obj.spec_first(key, Want::Scalar) {
        Some(RawEU4Value::Scalar(s)) => Some(s),
        _ => None,
    }
}

/// The text, without quotes, of the first scalar `key` of the first object `outer`.
pub open spec fn nested_text<'a>(obj: RawEU4Object<'a>, outer: Seq<u8>, key: Seq<u8>) -> Option<Seq<u8>> {
    match first_object(obj, outer) {
        Some(o) => match first_scalar(o, key) {
            Some(s) => Some(unquote(s@)),
            None => None,
        },
        None => None,
    }
}

/// A war that some country joined.
pub open spec fn joined<'a>(o: RawEU4Object<'a>) -> bool {
    match history_of(o) {
        Some(h) => war_history(kvs_of(h.0@)).earliest is Some,
        None => false,
    }
}

/// The key of a war: `active_war` or `previous_war`.
pub open spec fn is_war_key(k: Seq<u8>) -> bool {
    k == "active_war".spec_bytes() || k == "previous_war".spec_bytes()
}

/// A war object that reads without an error.
pub open spec fn war_ok<'a>(o: RawEU4Object<'a>) -> bool {
    &&& war_readable(o)
    &&& history_of(o) is Some
    &&& joined(o) ==> first_scalar(o, "name".spec_bytes()) is Some
}

/// Every war object of `kvs` reads without an error.
pub open spec fn wars_ok<'a>(kvs: Seq<(RawEU4Scalar<'a>, RawEU4Value<'a>)>) -> bool {
    forall|i: int|
        0 <= i < kvs.len() ==> match #[trigger] kvs[i].1 {
            RawEU4Value::Object(o) => is_war_key(kvs[i].0@) ==> war_ok(o),
            RawEU4Value::Scalar(_) => true,
        }
}

/// The war objects of `kvs` that some country joined, in order.
pub open spec fn joined_wars<'a>(kvs: Seq<(RawEU4Scalar<'a>, RawEU4Value<'a>)>) -> Seq<RawEU4Object<'a>>
    decreases kvs.len(),
{
    if kvs.len() == 0 {
        seq![]
    } else {
        let p = joined_wars(kvs.drop_last());
        match kvs.last().1 {
            RawEU4Value::Object(o) => if is_war_key(kvs.last().0@) && joined(o) {
                p.push(o)
            } else {
                p
            },
            RawEU4Value::Scalar(_) => p,
        }
    }
}

/// `ws` are the wars read from the objects `os`, one for one.
pub open spec fn wars_match<'a>(ws: Seq<War>, os: Seq<RawEU4Object<'a>>) -> bool {
    &&& ws.len() == os.len()
    &&& forall|i: int| 0 <= i < ws.len() ==> reads_war(Ok(Some(#[trigger] ws[i])), os[i])
}

proof fn lemma_nations_push<'a>(
    v: Seq<(String, NationRecord)>,
    es: Seq<(RawEU4Scalar<'a>, RawEU4Object<'a>)>,
    n: (String, NationRecord),
    k: RawEU4Scalar<'a>,
    o: RawEU4Object<'a>,
)
    requires
        nations_match(v, es),
        encode_utf8(n.0@) == k@,
        match nation_check(o) {
            Ok((mc, nc)) => reads_nation(n.1, n.0@, o, mc, nc),
            Err(_) => false,
        },
    ensures
        nations_match(v.push(n), es.push((k, o))),
{
    let v2 = v.push(n);
    let es2 = es.push((k, o));
    assert forall|j: int| 0 <= j < v2.len() implies encode_utf8((#[trigger] v2[j]).0@) == es2[j].0@
        && match nation_check(es2[j].1) {
        Ok((mc, nc)) => reads_nation(v2[j].1, v2[j].0@, es2[j].1, mc, nc),
        Err(_) => false,
    } by {
        if j < v.len() {
            assert(v2[j] == v[j]);
            assert(es2[j] == es[j]);
        }
    }
}

/// Each country of a `countries` object, with its tag as written.
#[verifier::spinoff_prover]
fn read_countries(countries: &RawEU4Object) -> (res: Vec<(String, NationRecord)>)
    requires
        countries_readable(kvs_of(countries.0@)),
    ensures
        nations_match(res@, country_entries(kvs_of(countries.0@))),
{
    let kvs = countries.iter_all_KVs();
    let ghost all = kvs_of(countries.0@);
    let mut out: Vec<(String, NationRecord)> = Vec::new();
    let mut i: usize = 0;
    proof {
        assert(all.take(0) =~= seq![]);
    }
    while i < kvs.len()
        invariant
            0 <= i <= kvs@.len(),
            kvs@.len() == all.len(),
            all == kvs_of(countries.0@),
            countries_readable(all),
            forall|j: int|
                0 <= j < kvs@.len() ==> *kvs@[j].0 == all[j].0 && *kvs@[j].1 == all[j].1,
            nations_match(out@, country_entries(all.take(i as int))),
        decreases kvs@.len() - i,
    {
        let (k, v) = kvs[i];
        proof {
            assert(all.take(i + 1).drop_last() =~= all.take(i as int));
        }
        if let RawEU4Value::Object(o) = v {
            proof {
                assert(nation_readable(*o)) by {
                    assert(all[i as int].1 == RawEU4Value::Object(*o));
                }
            }
            let ghost before = out@;
            let tag = raw_text(k);
            let t = raw_text(k);
            proof {
                assert(t@ == decode_utf8(encode_utf8(t@)));
                assert(tag@ == decode_utf8(encode_utf8(tag@)));
            }
            let r = NationRecord::from_parsed_obj(t, o);
            match r {
                Ok(n) => {
                    out.push((tag, n));
                },
                Err(_) => {},
            }
            proof {
                assert(country_entries(all.take(i + 1)) == country_entries(all.take(i as int)).push((*k, *o)));
                if r is Ok {
                    assert(out@.last().0@ == decode_utf8(encode_utf8(out@.last().0@)));
                    lemma_nations_push(before, country_entries(all.take(i as int)), out@.last(), *k, *o);
                    assert(out@ == before.push(out@.last()));
                }
            }
        }
        i = i + 1;
    }
    proof {
        assert(all.take(i as int) =~= all);
    }
    out
}

/// The players of a `players_countries` object, as `(tag, player)`.
fn read_players(players: &RawEU4Object) -> (res: Vec<(String, String)>)
    requires
        all_scalars(values_of(players.0@)),
    ensures
        pairs_view(res@) == player_pairs(values_of(players.0@)),
{
    let vals = players.iter_values();
    let ghost all = values_of(players.0@);
    let mut out: Vec<(String, String)> = Vec::new();
    let mut i: usize = 0;
    while vals.len() - i >= 2
        invariant
            0 <= i <= vals@.len(),
            vals@.len() == all.len(),
            all == values_of(players.0@),
            forall|j: int| 0 <= j < vals@.len() ==> *vals@[j] == all[j],
            i == 2 * out@.len(),
            forall|k: int| 0 <= k < out@.len() ==> #[trigger] pairs_view(out@)[k] == player_pairs(all)[k],
        decreases vals@.len() - i,
    {
        let player = match vals[i] {
            RawEU4Value::Scalar(s) => s.as_string(),
            RawEU4Value::Object(_) => String::new(),
        };
        let tag = match vals[i + 1] {
            RawEU4Value::Scalar(s) => s.as_string(),
            RawEU4Value::Object(_) => String::new(),
        };
        let ghost before = out@;
        out.push((tag, player));
        proof {
            let k = before.len() as int;
            assert(2 * k + 1 == i + 1);
            assert(pairs_view(out@)[k] == player_pairs(all)[k]);
            assert forall|m: int| 0 <= m < out@.len() implies #[trigger] pairs_view(out@)[m] == player_pairs(all)[m] by {
                if m < k {
                    assert(pairs_view(out@)[m] == pairs_view(before)[m]);
                }
            }
        }
        i = i + 2;
    }
    proof {
        assert(pairs_view(out@) =~= player_pairs(all));
    }
    out
}

/// The magnitude of a number that is not `i64::MIN`.
fn magnitude_of(n: i64) -> (res: u64)
    requires
        n != i64::MIN,
    ensures
        res == magnitude(n),
{
    if n < 0 {
        (-n) as u64
    } else {
        n as u64
    }
}

/// The owner of each province of a `provinces` object that has one.
fn read_province_owners(provinces: &RawEU4Object) -> (res: Vec<(u64, String)>)
    requires
        owner_keys_ok(kvs_of(provinces.0@)),
    ensures
        owners_view(res@) == province_owners(kvs_of(provinces.0@)),
{
    let kvs = provinces.iter_all_KVs();
    let ghost all = kvs_of(provinces.0@);
    let mut out: Vec<(u64, String)> = Vec::new();
    let mut i: usize = 0;
    proof {
        assert(all.take(0) =~= seq![]);
        assert(owners_view(out@) =~= seq![]);
    }
    while i < kvs.len()
        invariant
            0 <= i <= kvs@.len(),
            kvs@.len() == all.len(),
            all == kvs_of(provinces.0@),
            owner_keys_ok(all),
            forall|j: int|
                0 <= j < kvs@.len() ==> *kvs@[j].0 == all[j].0 && *kvs@[j].1 == all[j].1,
            owners_view(out@) == province_owners(all.take(i as int)),
        decreases kvs@.len() - i,
    {
        let (k, v) = kvs[i];
        proof {
            assert(all.take(i + 1).drop_last() =~= all.take(i as int));
        }
        if let RawEU4Value::Object(o) = v {
            if let Some(n) = k.as_int() {
                if let Some(s) = o.get_first_scalar("owner") {
                    proof {
                        assert(all[i as int].1 is Object);
                    }
                    let ghost before = out@;
                    out.push((magnitude_of(n), s.as_string()));
                    proof {
                        assert(owners_view(out@) =~= owners_view(before).push((magnitude(n) as u64, unquote(s@))));
                    }
                }
            }
        }
        i = i + 1;
    }
    proof {
        assert(all.take(i as int) =~= all);
    }
    out
}

/// The texts, without quotes, of the scalar values of an object.
fn scalar_names(o: &RawEU4Object) -> (res: Vec<String>)
    ensures
        utf8s(res@) == scalar_values(values_of(o.0@)),
{
    let vals = o.iter_values();
    let ghost all = values_of(o.0@);
    let mut out: Vec<String> = Vec::new();
    let mut i: usize = 0;
    proof {
        assert(all.take(0) =~= seq![]);
        assert(utf8s(out@) =~= seq![]);
    }
    while i < vals.len()
        invariant
            0 <= i <= vals@.len(),
            vals@.len() == all.len(),
            all == values_of(o.0@),
            forall|j: int| 0 <= j < vals@.len() ==> *vals@[j] == all[j],
            utf8s(out@) == scalar_values(all.take(i as int)),
        decreases vals@.len() - i,
    {
        proof {
            assert(all.take(i + 1).drop_last() =~= all.take(i as int));
        }
        if let RawEU4Value::Scalar(s) = vals[i] {
            let ghost before = out@;
            out.push(s.as_string());
            proof {
                assert(utf8s(out@) =~= utf8s(before).push(unquote(s@)));
            }
        }
        i = i + 1;
    }
    proof {
        assert(all.take(i as int) =~= all);
    }
    out
}

/// Every war of a save that some country joined.
fn read_wars(save: &RawEU4Object) -> (res: Vec<War>)
    requires
        wars_ok(kvs_of(save.0@)),
    ensures
        wars_match(res@, joined_wars(kvs_of(save.0@))),
{
    let kvs = save.iter_all_KVs();
    let ghost all = kvs_of(save.0@);
    let mut out: Vec<War> = Vec::new();
    let mut i: usize = 0;
    proof {
        assert(all.take(0) =~= seq![]);
    }
    while i < kvs.len()
        invariant
            0 <= i <= kvs@.len(),
            kvs@.len() == all.len(),
            all == kvs_of(save.0@),
            wars_ok(all),
            forall|j: int|
                0 <= j < kvs@.len() ==> *kvs@[j].0 == all[j].0 && *kvs@[j].1 == all[j].1,
            wars_match(out@, joined_wars(all.take(i as int))),
        decreases kvs@.len() - i,
    {
        let (k, v) = kvs[i];
        proof {
            assert(all.take(i + 1).drop_last() =~= all.take(i as int));
        }
        if let RawEU4Value::Object(o) = v {
            if str_eq(k.0, "active_war") || str_eq(k.0, "previous_war") {
                proof {
                    assert(all[i as int].1 == RawEU4Value::Object(*o));
                    assert(war_ok(*o));
                }
                let ghost before = out@;
                match War::from_parsed_obj(o) {
                    Ok(Some(w)) => {
                        out.push(w);
                        proof {
                            assert forall|j: int| 0 <= j < out@.len() implies reads_war(
                                Ok(Some(#[trigger] out@[j])),
                                joined_wars(all.take(i + 1))[j],
                            ) by {
                                if j < before.len() {
                                    assert(out@[j] == before[j]);
                                }
                            }
                        }
                    },
                    _ => {},
                }
            }
        }
        i = i + 1;
    }
    proof {
        assert(all.take(i as int) =~= all);
    }
    out
}

/// An EU4 save: its countries (see [`NationRecord`]), players, provinces' owners, enabled DLC,
/// date, wars and a few more facts. Each table lists its entries in the save's order.
pub struct SaveGameRecord {
    /// Each country with its tag as the save writes it.
    pub all_nations: Vec<(String, NationRecord)>,
    /// `(tag, player)` for each player.
    pub player_tags: Vec<(String, String)>,
    /// `(province, owner's tag)` for each province with an owner.
    pub provinces: Vec<(u64, String)>,
    pub dlc: Vec<String>,
    pub great_powers: Vec<String>,
    pub date: EU4Date,
    pub multiplayer: bool,
    pub age: Option<String>,
    pub hre: Option<String>,
    pub china: Option<String>,
    pub crusade: Option<String>,
    /// Every war of the save that some country joined.
    pub player_wars: Vec<War>,
    pub game_mod: Mod,
}

/// What must hold of a save once its players, provinces and DLC are found: a date, whether it
/// is multiplayer (`yes` or `no`), and wars that read.
pub open spec fn save_tail_ok<'a>(raw: RawEU4Object<'a>) -> bool {
    &&& first_scalar(raw, "date".spec_bytes()) matches Some(d) && EU4Date::spec_parse(d@) is Ok
    &&& first_scalar(raw, "multi_player".spec_bytes()) matches Some(m) && (m.0@ == "yes"@
        || m.0@ == "no"@)
    &&& wars_ok(kvs_of(raw.0@))
}

/// A save that [`SaveGameRecord::new_parser`] reads: countries that read, players that are all
/// scalars, province numbers whose magnitudes are `i64`s, and then what [`save_tail_ok`] asks.
pub open spec fn save_readable<'a>(raw: RawEU4Object<'a>) -> bool {
    &&& countries_of(raw) matches Some(c) && countries_readable(kvs_of(c.0@))
    &&& first_object(raw, "players_countries".spec_bytes()) matches Some(p) ==> {
        &&& all_scalars(values_of(p.0@))
        &&& provinces_of(raw) matches Some(pr) ==> {
            &&& owner_keys_ok(kvs_of(pr.0@))
            &&& first_object(raw, "dlc_enabled".spec_bytes()) is Some ==> save_tail_ok(raw)
        }
    }
}

/// `r` is what the save `raw` holds, with players `p`, provinces `pr` and DLC `d`.
pub open spec fn reads_save<'a>(
    r: SaveGameRecord,
    raw: RawEU4Object<'a>,
    p: RawEU4Object<'a>,
    pr: RawEU4Object<'a>,
    d: RawEU4Object<'a>,
) -> bool {
    &&& countries_of(raw) matches Some(c) && nations_match(r.all_nations@, country_entries(kvs_of(c.0@)))
    &&& pairs_view(r.player_tags@) == player_pairs(values_of(p.0@))
    &&& owners_view(r.provinces@) == province_owners(kvs_of(pr.0@))
    &&& utf8s(r.dlc@) == scalar_values(values_of(d.0@))
    &&& r.great_powers@.len() == 0
    &&& first_scalar(raw, "date".spec_bytes()) matches Some(ds) && EU4Date::spec_parse(ds@) == Ok::<
        EU4Date,
        DateError,
    >(r.date)
    &&& first_scalar(raw, "multi_player".spec_bytes()) matches Some(m) && r.multiplayer == (m.0@
        == "yes"@)
    &&& opt_utf8(r.age) == match first_scalar(raw, "current_age".spec_bytes()) {
        Some(a) => Some(unquote(a@)),
        None => None,
    }
    &&& opt_utf8(r.hre) == nested_text(raw, "empire".spec_bytes(), "emperor".spec_bytes())
    &&& opt_utf8(r.china) == nested_text(raw, "celestial_empire".spec_bytes(), "emperor".spec_bytes())
    &&& r.crusade is None
    &&& wars_match(r.player_wars@, joined_wars(kvs_of(raw.0@)))
    &&& r.game_mod == Mod::Vanilla
}

/// The text, without quotes, of the first scalar `key` of the first object `outer`.
fn nested_scalar(obj: &RawEU4Object, outer: &str, key: &str) -> (res: Option<String>)
    ensures
        opt_utf8(res) == nested_text(*obj, outer.spec_bytes(), key.spec_bytes()),
{
    match obj.get_first_obj(outer) {
        Some(o) => match o.get_first_scalar(key) {
            Some(s) => Some(s.as_string()),
            None => None,
        },
        None => None,
    }
}

/// Whether the ships of all `navy` objects of a country number at most `usize::MAX`.
fn ships_fit(obj: &RawEU4Object) -> (res: bool)
    ensures
        res == (ship_count(kvs_of(obj.0@)) <= usize::MAX),
{
    let kvs = obj.iter_all_KVs();
    let ghost all = kvs_of(obj.0@);
    let mut n: usize = 0;
    let mut i: usize = 0;
    proof {
        assert(all.take(0) =~= seq![]);
    }
    while i < kvs.len()
        invariant
            0 <= i <= kvs@.len(),
            kvs@.len() == all.len(),
            all == kvs_of(obj.0@),
            forall|j: int|
                0 <= j < kvs@.len() ==> *kvs@[j].0 == all[j].0 && *kvs@[j].1 == all[j].1,
            n == ship_count(all.take(i as int)),
        decreases kvs@.len() - i,
    {
        let (k, v) = kvs[i];
        proof {
            assert(all.take(i + 1).drop_last() =~= all.take(i as int));
        }
        if let RawEU4Value::Object(nv) = v {
            if str_eq(k.0, "navy") {
                let c = count_key(nv, "ship");
                match n.checked_add(c) {
                    Some(m) => {
                        n = m;
                    },
                    None => {
                        proof {
                            lemma_ship_count_prefix(all, i + 1);
                        }
                        return false;
                    },
                }
            }
        }
        i = i + 1;
    }
    proof {
        assert(all.take(i as int) =~= all);
    }
    true
}

/// Whether a country object is one that [`NationRecord::from_parsed_obj`] reads.
fn nation_is_readable(obj: &RawEU4Object) -> (res: bool)
    ensures
        res == nation_readable(*obj),
{
    if !ships_fit(obj) {
        return false;
    }
    NationRecord::from_parsed_obj(String::new(), obj).is_ok()
}

/// Whether a war object reads without an error.
fn war_is_ok(obj: &RawEU4Object) -> (res: bool)
    ensures
        res == war_ok(*obj),
{
    if !war_is_readable(obj) {
        return false;
    }
    War::from_parsed_obj(obj).is_ok()
}

/// Whether a save is one that [`SaveGameRecord::new_parser`] reads: its countries read; and,
/// when it has players, they are all scalars, and when it also has provinces, no province key
/// is `i64::MIN`, and when it also has a DLC list, it has a date, a `yes` or `no`
/// multiplayer flag, and wars that read.
pub fn save_is_readable(raw: &RawEU4Object) -> (res: bool)
    ensures
        res == save_readable(*raw),
{
    let countries = match raw.get_first_obj("countries") {
        Some(c) => c,
        None => {
            return false;
        },
    };
    let kvs = countries.iter_all_KVs();
    let ghost call = kvs_of(countries.0@);
    let mut i: usize = 0;
    while i < kvs.len()
        invariant
            0 <= i <= kvs@.len(),
            kvs@.len() == call.len(),
            call == kvs_of(countries.0@),
            countries_of(*raw) == Some(*countries),
            forall|j: int|
                0 <= j < kvs@.len() ==> *kvs@[j].0 == call[j].0 && *kvs@[j].1 == call[j].1,
            forall|j: int|
                0 <= j < i ==> match #[trigger] call[j].1 {
                    RawEU4Value::Object(o) => nation_readable(o),
                    RawEU4Value::Scalar(_) => true,
                },
        decreases kvs@.len() - i,
    {
        if let RawEU4Value::Object(o) = kvs[i].1 {
            if !nation_is_readable(o) {
                proof {
                    assert(call[i as int].1 == RawEU4Value::Object(*o));
                }
                return false;
            }
        }
        i = i + 1;
    }
    let players = match raw.get_first_obj("players_countries") {
        Some(p) => p,
        None => {
            return true;
        },
    };
    let vals = players.iter_values();
    let ghost pall = values_of(players.0@);
    let mut i: usize = 0;
    while i < vals.len()
        invariant
            0 <= i <= vals@.len(),
            vals@.len() == pall.len(),
            pall == values_of(players.0@),
            first_object(*raw, "players_countries".spec_bytes()) == Some(*players),
            forall|j: int| 0 <= j < vals@.len() ==> *vals@[j] == pall[j],
            forall|j: int| 0 <= j < i ==> #[trigger] pall[j] is Scalar,
        decreases vals@.len() - i,
    {
        if vals[i].as_scalar().is_none() {
            proof {
                assert(!(pall[i as int] is Scalar));
            }
            return false;
        }
        i = i + 1;
    }
    let provinces = match raw.get_first_obj("provinces") {
        Some(p) => p,
        None => {
            return true;
        },
    };
    let pkvs = provinces.iter_all_KVs();
    let ghost prall = kvs_of(provinces.0@);
    let mut i: usize = 0;
    while i < pkvs.len()
        invariant
            0 <= i <= pkvs@.len(),
            pkvs@.len() == prall.len(),
            prall == kvs_of(provinces.0@),
            first_object(*raw, "players_countries".spec_bytes()) == Some(*players),
            all_scalars(values_of(players.0@)),
            provinces_of(*raw) == Some(*provinces),
            forall|j: int|
                0 <= j < pkvs@.len() ==> *pkvs@[j].0 == prall[j].0 && *pkvs@[j].1 == prall[j].1,
            forall|j: int|
                0 <= j < i && #[trigger] prall[j].1 is Object ==> spec_parse_i64(prall[j].0@)
                    != Some(i64::MIN),
        decreases pkvs@.len() - i,
    {
        let (k, v) = pkvs[i];
        if v.as_object().is_some() && k.as_int() == Some(i64::MIN) {
            proof {
                assert(prall[i as int].1 is Object);
            }
            return false;
        }
        i = i + 1;
    }
    if raw.get_first_obj("dlc_enabled").is_none() {
        return true;
    }
    match raw.get_first_scalar("date") {
        Some(d) => {
            if d.as_date().is_none() {
                return false;
            }
        },
        None => {
            return false;
        },
    }
    match raw.get_first_scalar("multi_player") {
        Some(m) => {
            if !(str_eq(m.0, "yes") || str_eq(m.0, "no")) {
                return false;
            }
        },
        None => {
            return false;
        },
    }
    let skvs = raw.iter_all_KVs();
    let ghost sall = kvs_of(raw.0@);
    let mut i: usize = 0;
    while i < skvs.len()
        invariant
            0 <= i <= skvs@.len(),
            skvs@.len() == sall.len(),
            sall == kvs_of(raw.0@),
            first_object(*raw, "players_countries".spec_bytes()) == Some(*players),
            provinces_of(*raw) == Some(*provinces),
            first_object(*raw, "dlc_enabled".spec_bytes()) is Some,
            forall|j: int|
                0 <= j < skvs@.len() ==> *skvs@[j].0 == sall[j].0 && *skvs@[j].1 == sall[j].1,
            forall|j: int|
                0 <= j < i ==> match #[trigger] sall[j].1 {
                    RawEU4Value::Object(o) => is_war_key(sall[j].0@) ==> war_ok(o),
                    RawEU4Value::Scalar(_) => true,
                },
        decreases skvs@.len() - i,
    {
        let (k, v) = skvs[i];
        if let RawEU4Value::Object(o) = v {
            if str_eq(k.0, "active_war") || str_eq(k.0, "previous_war") {
                if !war_is_ok(o) {
                    proof {
                        reveal_strlit("active_war");
                        reveal_strlit("previous_war");
                        assert(sall[i as int].1 == RawEU4Value::Object(*o));
                        assert(is_war_key(sall[i as int].0@));
                    }
                    return false;
                }
            }
        }
        i = i + 1;
    }
    true
}

impl SaveGameRecord {
    /// Reads a save; `None` when it has no players, provinces or DLC list.
    pub fn new_parser(raw_save: &RawEU4Object) -> (res: Option<SaveGameRecord>)
        requires
            save_readable(*raw_save),
        ensures
            match (
                first_object(*raw_save, "players_countries".spec_bytes()),
                provinces_of(*raw_save),
                first_object(*raw_save, "dlc_enabled".spec_bytes()),
            ) {
                (Some(p), Some(pr), Some(d)) => res matches Some(r) && reads_save(r, *raw_save, p, pr, d),
                _ => res is None,
            },
    {
        let countries = match raw_save.get_first_obj("countries") {
            Some(c) => c,
            None => {
                return None;
            },
        };
        let all_nations = read_countries(countries);
        let players = raw_save.get_first_obj("players_countries")?;
        let player_tags = read_players(players);
        let provinces_obj = raw_save.get_first_obj("provinces")?;
        let provinces = read_province_owners(provinces_obj);
        let dlc_obj = raw_save.get_first_obj("dlc_enabled")?;
        let dlc = scalar_names(dlc_obj);
        let date = match raw_save.get_first_scalar("date") {
            Some(d) => match d.as_date() {
                Some(x) => x,
                None => {
                    return None;
                },
            },
            None => {
                return None;
            },
        };
        let multiplayer = match raw_save.get_first_scalar("multi_player") {
            Some(m) => match m.as_bool() {
                Some(b) => b,
                None => {
                    return None;
                },
            },
            None => {
                return None;
            },
        };
        let age = match raw_save.get_first_scalar("current_age") {
            Some(a) => Some(a.as_string()),
            None => None,
        };
        let hre = nested_scalar(raw_save, "empire", "emperor");
        let china = nested_scalar(raw_save, "celestial_empire", "emperor");
        let player_wars = read_wars(raw_save);
        Some(
            SaveGameRecord {
                all_nations,
                player_tags,
                provinces,
                dlc,
                great_powers: Vec::new(),
                date,
                multiplayer,
                age,
                hre,
                china,
                crusade: None,
                player_wars,
                game_mod: Mod::Vanilla,
            },
        )
    }
}

/// A player: the tag played, the player's name, and the tags the played country had before
/// (when the save has that country).
pub type PlayerEntry = (String, String, Option<Vec<String>>);

/// The player of the first entry of `players` that plays `tag`.
pub open spec fn direct_player(players: Seq<PlayerEntry>, tag: Seq<char>) -> Option<Seq<char>>
    decreases players.len(),
{
    if players.len() == 0 {
        None
    } else if players[0].0@ == tag {
        Some(players[0].1@)
    } else {
        direct_player(players.drop_first(), tag)
    }
}

/// The player of the first entry of `players` whose country once had the tag `tag`.
pub open spec fn former_player(players: Seq<PlayerEntry>, tag: Seq<char>) -> Option<Seq<char>>
    decreases players.len(),
{
    if players.len() == 0 {
        None
    } else if players[0].2 matches Some(others) && crate::save_parser::strs(others@).contains(tag) {
        Some(players[0].1@)
    } else {
        former_player(players.drop_first(), tag)
    }
}

/// Whether one of `tags` is `tag`.
fn has_tag(tags: &Vec<String>, tag: &str) -> (res: bool)
    ensures
        res == crate::save_parser::strs(tags@).contains(tag@),
{
    let mut i: usize = 0;
    while i < tags.len()
        invariant
            0 <= i <= tags@.len(),
            forall|j: int| 0 <= j < i ==> crate::save_parser::strs(tags@)[j] != tag@,
        decreases tags@.len() - i,
    {
        if str_eq(tags[i].as_str(), tag) {
            proof {
                assert(crate::save_parser::strs(tags@)[i as int] == tag@);
            }
            return true;
        }
        i = i + 1;
    }
    false
}

/// Who plays the country `tag`: the player of `tag` itself, else the first player, in the
/// order of `players`, whose country once had the tag `tag`.
pub fn tag_player(players: &Vec<PlayerEntry>, tag: &str) -> (res: Option<String>)
    ensures
        match direct_player(players@, tag@) {
            Some(p) => res matches Some(r) && r@ == p,
            None => match former_player(players@, tag@) {
                Some(p) => res matches Some(r) && r@ == p,
                None => res is None,
            },
        },
{
    let mut i: usize = 0;
    proof {
        assert(players@.skip(0) =~= players@);
    }
    while i < players.len()
        invariant
            0 <= i <= players@.len(),
            direct_player(players@, tag@) == direct_player(players@.skip(i as int), tag@),
        decreases players@.len() - i,
    {
        proof {
            assert(players@.skip(i as int).drop_first() =~= players@.skip(i + 1));
            assert(players@.skip(i as int)[0] == players@[i as int]);
        }
        if str_eq(players[i].0.as_str(), tag) {
            return Some(players[i].1.clone());
        }
        i = i + 1;
    }
    let mut k: usize = 0;
    proof {
        assert(players@.skip(0) =~= players@);
    }
    while k < players.len()
        invariant
            0 <= k <= players@.len(),
            direct_player(players@, tag@) is None,
            former_player(players@, tag@) == former_player(players@.skip(k as int), tag@),
        decreases players@.len() - k,
    {
        proof {
            assert(players@.skip(k as int).drop_first() =~= players@.skip(k + 1));
            assert(players@.skip(k as int)[0] == players@[k as int]);
        }
        if let Some(others) = &players[k].2 {
            if has_tag(others, tag) {
                return Some(players[k].1.clone());
            }
        }
        k = k + 1;
    }
    None
}

} // verus!
