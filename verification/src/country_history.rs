//! The history of countries in an EU4 save: tag changes, and the end of occupations when a
//! war ends.
use vstd::prelude::*;
use vstd::string::StringSliceAdditionalSpecFns;
use vstd::utf8::*;

use crate::date_groups::{
    add_to, combine_named, extend, group_view, grouped, keys_distinct, lemma_extend_push, push_grouped,
    tag_events, touch_group,
};
use crate::eu4_date::EU4Date;
use crate::eu4_raw_parser::{RawEU4Object, RawEU4Scalar, RawEU4Value, kvs_of};
use crate::raw_parser::{Want, unquote};
use crate::save_parser::{
    War, WarError, WarSides, history_date, history_of, utf8s, war_history, war_readable,
};
use crate::text_util::str_eq;

verus! {

broadcast use vstd::string::group_string_axioms, vstd::utf8::encode_utf8_valid_utf8,
    vstd::utf8::encode_utf8_decode_utf8;

#[derive(Debug, PartialEq, Eq, Clone, Hash)]
pub enum CountryHistoryEvent {
    ChangedTagFrom(String),
}

/// A dated event by the bytes of its text.
pub open spec fn country_event_view(e: (EU4Date, CountryHistoryEvent)) -> (EU4Date, Seq<u8>) {
    match e.1 {
        CountryHistoryEvent::ChangedTagFrom(s) => (e.0, encode_utf8(s@)),
    }
}

/// The tag changes of one history entry dated `date`, in order.
pub open spec fn tag_changes_in<'a>(date: EU4Date, events: Seq<(RawEU4Scalar<'a>, RawEU4Value<'a>)>) -> Seq<
    (EU4Date, Seq<u8>),
>
    decreases events.len(),
{
    if events.len() == 0 {
        seq![]
    } else {
        let prev = tag_changes_in(date, events.drop_last());
        match events.last().1 {
            RawEU4Value::Scalar(t) => if events.last().0.0@ == "changed_tag_from"@ {
                prev.push((date, unquote(t@)))
            } else {
                prev
            },
            RawEU4Value::Object(_) => prev,
        }
    }
}

/// The tag changes of a country's history, in order; entries whose key is no date, or whose
/// value is no object, are passed over.
pub open spec fn tag_changes<'a>(entries: Seq<(RawEU4Scalar<'a>, RawEU4Value<'a>)>) -> Seq<(EU4Date, Seq<u8>)>
    decreases entries.len(),
{
    if entries.len() == 0 {
        seq![]
    } else {
        let prev = tag_changes(entries.drop_last());
        match (history_date(entries.last().0), entries.last().1) {
            (Some(d), RawEU4Value::Object(o)) => prev + tag_changes_in(d, kvs_of(o.0@)),
            _ => prev,
        }
    }
}

/// The views of a list of dated events.
pub open spec fn country_events_view(v: Seq<(EU4Date, CountryHistoryEvent)>) -> Seq<(EU4Date, Seq<u8>)> {
    v.map_values(|e: (EU4Date, CountryHistoryEvent)| country_event_view(e))
}

fn tag_changes_of(date: EU4Date, obj: &RawEU4Object, out: &mut Vec<(EU4Date, CountryHistoryEvent)>)
    ensures
        country_events_view(final(out)@) == country_events_view(old(out)@) + tag_changes_in(
            date,
            kvs_of(obj.0@),
        ),
{
    let kvs = obj.iter_all_KVs();
    let ghost all = kvs_of(obj.0@);
    let ghost start = country_events_view(out@);
    let mut i: usize = 0;
    proof {
        assert(all.take(0) =~= seq![]);
        assert(start + seq![] =~= start);
    }
    while i < kvs.len()
        invariant
            0 <= i <= kvs@.len(),
            kvs@.len() == all.len(),
            all == kvs_of(obj.0@),
            forall|j: int|
                0 <= j < kvs@.len() ==> *kvs@[j].0 == all[j].0 && *kvs@[j].1 == all[j].1,
            country_events_view(out@) == start + tag_changes_in(date, all.take(i as int)),
        decreases kvs@.len() - i,
    {
        let (ev, val) = kvs[i];
        proof {
            let t = all.take(i + 1);
            assert(t.drop_last() =~= all.take(i as int));
            assert(t.last() == all[i as int]);
        }
        if let RawEU4Value::Scalar(tag) = val {
            if str_eq(ev.0, "changed_tag_from") {
                let ghost before = out@;
                out.push((date, CountryHistoryEvent::ChangedTagFrom(tag.as_string())));
                proof {
                    assert(country_events_view(out@) =~= country_events_view(before).push(
                        (date, unquote(tag@)),
                    ));
                    assert(start + tag_changes_in(date, all.take(i + 1)) =~= (start
                        + tag_changes_in(date, all.take(i as int))).push((date, unquote(tag@))));
                }
            } else {
                proof {
                    assert(tag_changes_in(date, all.take(i + 1)) == tag_changes_in(date, all.take(i as int)));
                }
            }
        }
        i = i + 1;
    }
    proof {
        assert(all.take(i as int) =~= all);
    }
}

impl CountryHistoryEvent {
    /// Should be passed the `history` object for a country.
    pub fn extract_events<'a>(object: &RawEU4Object<'a>) -> (res: Vec<(EU4Date, CountryHistoryEvent)>)
        ensures
            country_events_view(res@) == tag_changes(kvs_of(object.0@)),
    {
        let mut out: Vec<(EU4Date, CountryHistoryEvent)> = Vec::new();
        let kvs = object.iter_all_KVs();
        let ghost all = kvs_of(object.0@);
        let mut i: usize = 0;
        proof {
            assert(all.take(0) =~= seq![]);
            assert(country_events_view(out@) =~= seq![]);
        }
        while i < kvs.len()
            invariant
                0 <= i <= kvs@.len(),
                kvs@.len() == all.len(),
                all == kvs_of(object.0@),
                forall|j: int|
                    0 <= j < kvs@.len() ==> *kvs@[j].0 == all[j].0 && *kvs@[j].1 == all[j].1,
                country_events_view(out@) == tag_changes(all.take(i as int)),
            decreases kvs@.len() - i,
        {
            let (k, v) = kvs[i];
            proof {
                let t = all.take(i + 1);
                assert(t.drop_last() =~= all.take(i as int));
                assert(t.last() == all[i as int]);
            }
            if let Some(date) = k.as_date() {
                if let RawEU4Value::Object(o) = v {
                    tag_changes_of(date, o, &mut out);
                }
            }
            i = i + 1;
        }
        proof {
            assert(all.take(i as int) =~= all);
        }
        out
    }

    /// Groups the events of countries by date; each date's events keep the order of the
    /// countries and of each country's events.
    pub fn combine_events(countries: Vec<(String, Vec<(EU4Date, CountryHistoryEvent)>)>) -> (res: Vec<
        (EU4Date, Vec<(String, CountryHistoryEvent)>),
    >)
        ensures
            keys_distinct(res@),
            group_view(res@) == grouped(tag_events(countries@)),
    {
        combine_named(countries)
    }
}

/// The countries of a save that have a history: each country's key (without quotes) and the
/// entries of its history.
pub open spec fn country_histories<'a>(countries: Seq<(RawEU4Scalar<'a>, RawEU4Value<'a>)>) -> Seq<
    (Seq<u8>, Seq<(RawEU4Scalar<'a>, RawEU4Value<'a>)>),
>
    decreases countries.len(),
{
    if countries.len() == 0 {
        seq![]
    } else {
        let prev = country_histories(countries.drop_last());
        match countries.last().1 {
            RawEU4Value::Object(o) => match o.spec_first("history".spec_bytes(), Want::Object) {
                Some(RawEU4Value::Object(h)) => prev.push((unquote(countries.last().0@), kvs_of(h.0@))),
                _ => prev,
            },
            RawEU4Value::Scalar(_) => prev,
        }
    }
}

/// `cs` holds, for each country of `hs` in order, its name and its tag changes.
pub open spec fn histories_match<'a>(
    cs: Seq<(String, Vec<(EU4Date, CountryHistoryEvent)>)>,
    hs: Seq<(Seq<u8>, Seq<(RawEU4Scalar<'a>, RawEU4Value<'a>)>)>,
) -> bool {
    &&& cs.len() == hs.len()
    &&& forall|i: int|
        0 <= i < cs.len() ==> encode_utf8(#[trigger] cs[i].0@) == hs[i].0 && country_events_view(
            cs[i].1@,
        ) == tag_changes(hs[i].1)
}

/// The `countries` object of a save, if it has one.
pub open spec fn countries_of<'a>(save: RawEU4Object<'a>) -> Option<RawEU4Object<'a>> {
    match save.spec_first("countries".spec_bytes(), Want::Object) {
        Some(RawEU4Value::Object(c)) => Some(c),
        _ => None,
    }
}

/// The tag changes of all countries of a save, grouped by date.
pub fn make_combined_events(save: &RawEU4Object) -> (res: Vec<(EU4Date, Vec<(String, CountryHistoryEvent)>)>)
    requires
        countries_of(*save) is Some,
    ensures
        keys_distinct(res@),
        exists|cs: Seq<(String, Vec<(EU4Date, CountryHistoryEvent)>)>|
            histories_match(cs, country_histories(kvs_of(countries_of(*save).unwrap().0@)))
                && group_view(res@) == grouped(tag_events(cs)),
{
    let countries = match save.get_first_obj("countries") {
        Some(c) => c,
        None => {
            return Vec::new();
        },
    };
    let kvs = countries.iter_all_KVs();
    let ghost all = kvs_of(countries.0@);
    let mut histories: Vec<(String, Vec<(EU4Date, CountryHistoryEvent)>)> = Vec::new();
    let mut i: usize = 0;
    proof {
        assert(all.take(0) =~= seq![]);
    }
    while i < kvs.len()
        invariant
            0 <= i <= kvs@.len(),
            kvs@.len() == all.len(),
            all == kvs_of(countries.0@),
            forall|j: int|
                0 <= j < kvs@.len() ==> *kvs@[j].0 == all[j].0 && *kvs@[j].1 == all[j].1,
            histories_match(histories@, country_histories(all.take(i as int))),
        decreases kvs@.len() - i,
    {
        let (k, v) = kvs[i];
        proof {
            let t = all.take(i + 1);
            assert(t.drop_last() =~= all.take(i as int));
            assert(t.last() == all[i as int]);
        }
        if let RawEU4Value::Object(o) = v {
            if let Some(h) = o.get_first_obj("history") {
                let ghost before = histories@;
                let events = CountryHistoryEvent::extract_events(h);
                histories.push((k.as_string(), events));
                proof {
                    let hs = country_histories(all.take(i + 1));
                    assert(hs == country_histories(all.take(i as int)).push((unquote(k@), kvs_of(h.0@))));
                    assert forall|j: int| 0 <= j < histories@.len() implies encode_utf8(
                        #[trigger] histories@[j].0@,
                    ) == hs[j].0 && country_events_view(histories@[j].1@) == tag_changes(
                        hs[j].1,
                    ) by {
                        if j < before.len() {
                            assert(histories@[j] == before[j]);
                        }
                    }
                }
            }
        }
        i = i + 1;
    }
    proof {
        assert(all.take(i as int) =~= all);
    }
    let ghost hs = histories@;
    let res = CountryHistoryEvent::combine_events(histories);
    proof {
        assert(histories_match(hs, country_histories(kvs_of(countries_of(*save).unwrap().0@)))
            && group_view(res@) == grouped(tag_events(hs)));
    }
    res
}

} // verus!

verus! {

#[derive(Debug, PartialEq, Eq, Clone, Hash)]
pub enum WarHistoryEvent {
    /// A custom event representing the removal of occupations at the end of a war.
    ///
    /// Changes the control of all provinces with `(owner, controller)` to be unoccupied.
    ///
    /// Since you can only be at war with somebody in one war at a time, the end of a war always
    /// means that occupations between the two will end.
    RemoveOccupations(String, String),
}

/// An event by the bytes of its two tags.
pub open spec fn war_event_view(e: WarHistoryEvent) -> (Seq<u8>, Seq<u8>) {
    match e {
        WarHistoryEvent::RemoveOccupations(a, b) => (encode_utf8(a@), encode_utf8(b@)),
    }
}

/// A sequence of war events by their views.
pub open spec fn war_seq_view(s: Seq<WarHistoryEvent>) -> Seq<(Seq<u8>, Seq<u8>)> {
    s.map_values(|e: WarHistoryEvent| war_event_view(e))
}

/// A map of groups of war events, each event by its view.
pub open spec fn war_groups_view_of(g: Map<EU4Date, Seq<WarHistoryEvent>>) -> Map<EU4Date, Seq<(Seq<u8>, Seq<u8>)>> {
    g.map_values(|s: Seq<WarHistoryEvent>| war_seq_view(s))
}

/// The groups of war events by date, each event by its view.
pub open spec fn war_groups_view(out: Seq<(EU4Date, Vec<WarHistoryEvent>)>) -> Map<EU4Date, Seq<(Seq<u8>, Seq<u8>)>> {
    war_groups_view_of(group_view(out))
}

proof fn lemma_war_view_add(g: Map<EU4Date, Seq<WarHistoryEvent>>, d: EU4Date, e: WarHistoryEvent)
    ensures
        war_groups_view_of(add_to(g, d, e)) == add_to(war_groups_view_of(g), d, war_event_view(e)),
{
    if g.contains_key(d) {
        assert(war_seq_view(g[d].push(e)) =~= war_seq_view(g[d]).push(war_event_view(e)));
    } else {
        assert(war_seq_view(seq![e]) =~= seq![war_event_view(e)]);
    }
    assert(war_groups_view_of(add_to(g, d, e)) =~= add_to(war_groups_view_of(g), d, war_event_view(e)));
}

proof fn lemma_war_view_touch(g: Map<EU4Date, Seq<WarHistoryEvent>>, d: EU4Date)
    ensures
        war_groups_view_of(extend(g, d, seq![])) == extend(war_groups_view_of(g), d, seq![]),
{
    if g.contains_key(d) {
        assert(g[d] + seq![] =~= g[d]);
        assert(war_seq_view(g[d]) + seq![] =~= war_seq_view(g[d]));
    } else {
        assert(war_seq_view(seq![]) =~= seq![]);
    }
    assert(war_groups_view_of(extend(g, d, seq![])) =~= extend(war_groups_view_of(g), d, seq![]));
}

/// For `defender` and each attacker of `attackers` in turn: the pair both ways round.
pub open spec fn pairs_with<T>(attacker: T, defenders: Seq<T>) -> Seq<(T, T)>
    decreases defenders.len(),
{
    if defenders.len() == 0 {
        seq![]
    } else {
        pairs_with(attacker, defenders.drop_last()).push((attacker, defenders.last())).push(
            (defenders.last(), attacker),
        )
    }
}

/// For each attacker in turn and each defender in turn, the pair both ways round.
pub open spec fn occupation_pairs<T>(attackers: Seq<T>, defenders: Seq<T>) -> Seq<(T, T)>
    decreases attackers.len(),
{
    if attackers.len() == 0 {
        seq![]
    } else {
        occupation_pairs(attackers.drop_last(), defenders) + pairs_with(attackers.last(), defenders)
    }
}

/// What reading a war object gives, in outline: an error, no war, or its sides and dates.
pub open spec fn war_outline<'a>(obj: RawEU4Object<'a>) -> Result<Option<WarSides>, WarError> {
    match history_of(obj) {
        None => Err(WarError::NoHistory),
        Some(h) => {
            let sides = war_history(kvs_of(h.0@));
            if sides.earliest is None {
                Ok(None)
            } else {
                match obj.spec_first("name".spec_bytes(), Want::Scalar) {
                    Some(RawEU4Value::Scalar(_)) => Ok(Some(sides)),
                    _ => Err(WarError::NoName),
                }
            }
        },
    }
}

/// The occupation events of the `previous_war` entries of a save, grouped by the date each war
/// ended, or the first error reading a war gives.
pub open spec fn war_events<'a>(kvs: Seq<(RawEU4Scalar<'a>, RawEU4Value<'a>)>) -> Result<
    Map<EU4Date, Seq<(Seq<u8>, Seq<u8>)>>,
    WarError,
>
    decreases kvs.len(),
{
    if kvs.len() == 0 {
        Ok(Map::empty())
    } else {
        match war_events(kvs.drop_last()) {
            Err(e) => Err(e),
            Ok(m) => match kvs.last().1 {
                RawEU4Value::Object(o) => if kvs.last().0.0@ == "previous_war"@ {
                    match war_outline(o) {
                        Err(e) => Err(e),
                        Ok(None) => Ok(m),
                        Ok(Some(sides)) => match sides.latest {
                            None => Ok(m),
                            Some(d) => Ok(extend(m, d, occupation_pairs(sides.attackers, sides.defenders))),
                        },
                    }
                } else {
                    Ok(m)
                },
                RawEU4Value::Scalar(_) => Ok(m),
            },
        }
    }
}

/// Every `previous_war` object of a save can be read.
pub open spec fn wars_readable<'a>(kvs: Seq<(RawEU4Scalar<'a>, RawEU4Value<'a>)>) -> bool {
    forall|i: int|
        0 <= i < kvs.len() && kvs[i].0.0@ == "previous_war"@ ==> match #[trigger] kvs[i].1 {
            RawEU4Value::Object(o) => war_readable(o),
            RawEU4Value::Scalar(_) => true,
        }
}

proof fn lemma_pairs_with_len<T>(a: T, ds: Seq<T>)
    ensures
        pairs_with(a, ds).len() == 2 * ds.len(),
    decreases ds.len(),
{
    if ds.len() > 0 {
        lemma_pairs_with_len(a, ds.drop_last());
    }
}

/// Adds the occupation events of one war's sides to the group of `date`.
fn add_war_events(out: &mut Vec<(EU4Date, Vec<WarHistoryEvent>)>, date: EU4Date, war: &War)
    requires
        keys_distinct(old(out)@),
    ensures
        keys_distinct(final(out)@),
        war_groups_view(final(out)@) == extend(
            war_groups_view(old(out)@),
            date,
            occupation_pairs(utf8s(war.attackers@), utf8s(war.defenders@)),
        ),
{
    let ghost m0 = war_groups_view(out@);
    let ghost att = utf8s(war.attackers@);
    let ghost def = utf8s(war.defenders@);
    let ghost g00 = group_view(out@);
    touch_group(out, date);
    proof {
        lemma_war_view_touch(g00, date);
        assert(att.take(0) =~= seq![]);
    }
    let mut i: usize = 0;
    while i < war.attackers.len()
        invariant
            0 <= i <= war.attackers@.len(),
            att == utf8s(war.attackers@),
            def == utf8s(war.defenders@),
            keys_distinct(out@),
            war_groups_view(out@) == extend(m0, date, occupation_pairs(att.take(i as int), def)),
        decreases war.attackers@.len() - i,
    {
        let ghost base = occupation_pairs(att.take(i as int), def);
        let mut j: usize = 0;
        proof {
            assert(def.take(0) =~= seq![]);
            assert(base + seq![] =~= base);
        }
        while j < war.defenders.len()
            invariant
                0 <= i < war.attackers@.len(),
                0 <= j <= war.defenders@.len(),
                att == utf8s(war.attackers@),
                def == utf8s(war.defenders@),
                base == occupation_pairs(att.take(i as int), def),
                keys_distinct(out@),
                war_groups_view(out@) == extend(m0, date, base + pairs_with(att[i as int], def.take(j as int))),
            decreases war.defenders@.len() - j,
        {
            let ghost cur = base + pairs_with(att[i as int], def.take(j as int));
            let ghost g0 = group_view(out@);
            let e1 = WarHistoryEvent::RemoveOccupations(war.attackers[i].clone(), war.defenders[j].clone());
            push_grouped(out, date, e1);
            proof {
                lemma_war_view_add(g0, date, e1);
                lemma_extend_push(m0, date, cur, (att[i as int], def[j as int]));
            }
            let ghost g1 = group_view(out@);
            let e2 = WarHistoryEvent::RemoveOccupations(war.defenders[j].clone(), war.attackers[i].clone());
            push_grouped(out, date, e2);
            proof {
                lemma_war_view_add(g1, date, e2);
                lemma_extend_push(m0, date, cur.push((att[i as int], def[j as int])), (def[j as int], att[i as int]));
                let t = def.take(j + 1);
                assert(t.drop_last() =~= def.take(j as int));
                assert(cur.push((att[i as int], def[j as int])).push((def[j as int], att[i as int])) =~= base
                    + pairs_with(att[i as int], def.take(j + 1)));
            }
            j = j + 1;
        }
        proof {
            assert(def.take(j as int) =~= def);
            let t = att.take(i + 1);
            assert(t.drop_last() =~= att.take(i as int));
            assert(t.last() == att[i as int]);
        }
        i = i + 1;
    }
    proof {
        assert(att.take(i as int) =~= att);
    }
}

impl WarHistoryEvent {
    /// The end of each finished war of a save, as the end of the occupations between each
    /// attacker and each defender, grouped by the date the war ended.
    pub fn make_war_events(save: &RawEU4Object) -> (res: Result<Vec<(EU4Date, Vec<WarHistoryEvent>)>, WarError>)
        requires
            wars_readable(kvs_of(save.0@)),
        ensures
            match war_events(kvs_of(save.0@)) {
                Ok(m) => res matches Ok(out) && keys_distinct(out@) && war_groups_view(out@) == m,
                Err(e) => res matches Err(e2) && e2 == e,
            },
    {
        let kvs = save.iter_all_KVs();
        let ghost all = kvs_of(save.0@);
        let mut out: Vec<(EU4Date, Vec<WarHistoryEvent>)> = Vec::new();
        let mut i: usize = 0;
        proof {
            assert(all.take(0) =~= seq![]);
            assert(war_groups_view(out@) =~= Map::empty());
        }
        while i < kvs.len()
            invariant
                0 <= i <= kvs@.len(),
                kvs@.len() == all.len(),
                all == kvs_of(save.0@),
                wars_readable(all),
                forall|j: int|
                    0 <= j < kvs@.len() ==> *kvs@[j].0 == all[j].0 && *kvs@[j].1 == all[j].1,
                keys_distinct(out@),
                war_events(all.take(i as int)) == Ok::<Map<EU4Date, Seq<(Seq<u8>, Seq<u8>)>>, WarError>(
                    war_groups_view(out@),
                ),
            decreases kvs@.len() - i,
        {
            let (k, v) = kvs[i];
            proof {
                let t = all.take(i + 1);
                assert(t.drop_last() =~= all.take(i as int));
                assert(t.last() == all[i as int]);
            }
            if let RawEU4Value::Object(obj) = v {
                if str_eq(k.0, "previous_war") {
                    proof {
                        assert(war_readable(*obj));
                    }
                    match War::from_parsed_obj(obj) {
                        Err(e) => {
                            proof {
                                lemma_war_events_err(all, i + 1);
                            }
                            return Err(e);
                        },
                        Ok(None) => {},
                        Ok(Some(war)) => {
                            if let Some(end_date) = war.end_date {
                                add_war_events(&mut out, end_date, &war);
                            }
                        },
                    }
                }
            }
            i = i + 1;
        }
        proof {
            assert(all.take(i as int) =~= all);
        }
        Ok(out)
    }
}

/// A failure on a prefix is the failure on the whole.
proof fn lemma_war_events_err<'a>(kvs: Seq<(RawEU4Scalar<'a>, RawEU4Value<'a>)>, k: int)
    requires
        0 <= k <= kvs.len(),
        war_events(kvs.take(k)) is Err,
    ensures
        war_events(kvs) == war_events(kvs.take(k)),
    decreases kvs.len() - k,
{
    if k < kvs.len() {
        assert(kvs.take(k + 1).drop_last() =~= kvs.take(k));
        lemma_war_events_err(kvs, k + 1);
    } else {
        assert(kvs.take(k) =~= kvs);
    }
}

} // verus!
