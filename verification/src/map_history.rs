//! The history of provinces in an EU4 save: owners, controllers, religions, cores and claims.
use vstd::prelude::*;
use vstd::string::StringSliceAdditionalSpecFns;
use vstd::utf8::*;

use crate::color_map::{find_tag_color, recolor, recolor_prefix, tag_color, MapColor};
use crate::country_history::CountryHistoryEvent;
use crate::date_groups::{
    combine_copy, find_group, group_total, group_view, grouped, lemma_group_total, keys_distinct, on_date, tag_events,
};
use crate::eu4_date::EU4Date;
use crate::eu4_raw_parser::{RawEU4Object, RawEU4Scalar, RawEU4Value, kvs_of};
use crate::raw_parser::{Want, unquote};
use crate::save_parser::history_date;
use crate::text_util::{spec_parse_i64, str_eq};

verus! {

broadcast use vstd::string::group_string_axioms, vstd::utf8::encode_utf8_valid_utf8,
    vstd::utf8::encode_utf8_decode_utf8;

#[derive(Debug, PartialEq, Eq)]
pub enum ProvinceHistoryEvent {
    Owner(String),
    FakeOwner(String),
    Controller(String),
    Religion(String),
    AddCore(String),
    RemoveCore(String),
    AddClaim(String),
    RemoveClaim(String),
}

/// The kinds of province events.
pub enum ProvinceEventKind {
    Owner,
    FakeOwner,
    Controller,
    Religion,
    AddCore,
    RemoveCore,
    AddClaim,
    RemoveClaim,
}

/// A province event by its kind and the bytes of its text.
pub open spec fn event_view(e: ProvinceHistoryEvent) -> (ProvinceEventKind, Seq<u8>) {
    match e {
        ProvinceHistoryEvent::Owner(s) => (ProvinceEventKind::Owner, encode_utf8(s@)),
        ProvinceHistoryEvent::FakeOwner(s) => (ProvinceEventKind::FakeOwner, encode_utf8(s@)),
        ProvinceHistoryEvent::Controller(s) => (ProvinceEventKind::Controller, encode_utf8(s@)),
        ProvinceHistoryEvent::Religion(s) => (ProvinceEventKind::Religion, encode_utf8(s@)),
        ProvinceHistoryEvent::AddCore(s) => (ProvinceEventKind::AddCore, encode_utf8(s@)),
        ProvinceHistoryEvent::RemoveCore(s) => (ProvinceEventKind::RemoveCore, encode_utf8(s@)),
        ProvinceHistoryEvent::AddClaim(s) => (ProvinceEventKind::AddClaim, encode_utf8(s@)),
        ProvinceHistoryEvent::RemoveClaim(s) => (ProvinceEventKind::RemoveClaim, encode_utf8(s@)),
    }
}

/// A dated province event by its date, kind and the bytes of its text.
pub open spec fn province_event_view(e: (EU4Date, ProvinceHistoryEvent)) -> (EU4Date, ProvinceEventKind, Seq<u8>) {
    (e.0, event_view(e.1).0, event_view(e.1).1)
}

/// The views of a list of dated province events.
pub open spec fn province_events_view(v: Seq<(EU4Date, ProvinceHistoryEvent)>) -> Seq<(EU4Date, ProvinceEventKind, Seq<u8>)> {
    v.map_values(|e: (EU4Date, ProvinceHistoryEvent)| province_event_view(e))
}

/// The kind of event a scalar entry with key `k` records, if any.
pub open spec fn scalar_event_kind(k: Seq<char>) -> Option<ProvinceEventKind> {
    if k == "owner"@ {
        Some(ProvinceEventKind::Owner)
    } else if k == "fake_owner"@ {
        Some(ProvinceEventKind::FakeOwner)
    } else if k == "religion"@ {
        Some(ProvinceEventKind::Religion)
    } else if k == "add_core"@ {
        Some(ProvinceEventKind::AddCore)
    } else if k == "remove_core"@ {
        Some(ProvinceEventKind::RemoveCore)
    } else if k == "add_claim"@ {
        Some(ProvinceEventKind::AddClaim)
    } else if k == "remove_claim"@ {
        Some(ProvinceEventKind::RemoveClaim)
    } else {
        None
    }
}

/// The event one entry of a dated history object records, if any: a scalar under one of the
/// event keys, or a `controller` object whose first `tag` is a scalar.
pub open spec fn province_event<'a>(key: RawEU4Scalar<'a>, val: RawEU4Value<'a>) -> Option<(ProvinceEventKind, Seq<u8>)> {
    match val {
        RawEU4Value::Scalar(t) => match scalar_event_kind(key.0@) {
            Some(kind) => Some((kind, unquote(t@))),
            None => None,
        },
        RawEU4Value::Object(c) => if key.0@ == "controller"@ {
            match c.spec_first("tag".spec_bytes(), Want::Any) {
                Some(RawEU4Value::Scalar(s)) => Some((ProvinceEventKind::Controller, unquote(s@))),
                _ => None,
            }
        } else {
            None
        },
    }
}

/// The events of one history entry dated `date`, in order.
pub open spec fn province_changes_in<'a>(date: EU4Date, events: Seq<(RawEU4Scalar<'a>, RawEU4Value<'a>)>) -> Seq<
    (EU4Date, ProvinceEventKind, Seq<u8>),
>
    decreases events.len(),
{
    if events.len() == 0 {
        seq![]
    } else {
        let prev = province_changes_in(date, events.drop_last());
        match province_event(events.last().0, events.last().1) {
            Some((kind, text)) => prev.push((date, kind, text)),
            None => prev,
        }
    }
}

/// The events of a province's history, in order; entries whose key is no date, or whose value
/// is no object, are passed over.
pub open spec fn province_changes<'a>(entries: Seq<(RawEU4Scalar<'a>, RawEU4Value<'a>)>) -> Seq<
    (EU4Date, ProvinceEventKind, Seq<u8>),
>
    decreases entries.len(),
{
    if entries.len() == 0 {
        seq![]
    } else {
        let prev = province_changes(entries.drop_last());
        match (history_date(entries.last().0), entries.last().1) {
            (Some(d), RawEU4Value::Object(o)) => prev + province_changes_in(d, kvs_of(o.0@)),
            _ => prev,
        }
    }
}

fn scalar_event(key: &str, text: String) -> (res: Option<ProvinceHistoryEvent>)
    ensures
        match scalar_event_kind(key@) {
            None => res is None,
            Some(kind) => res matches Some(e) && event_view(e) == (kind, encode_utf8(text@)),
        },
{
    if str_eq(key, "owner") {
        Some(ProvinceHistoryEvent::Owner(text))
    } else if str_eq(key, "fake_owner") {
        Some(ProvinceHistoryEvent::FakeOwner(text))
    } else if str_eq(key, "religion") {
        Some(ProvinceHistoryEvent::Religion(text))
    } else if str_eq(key, "add_core") {
        Some(ProvinceHistoryEvent::AddCore(text))
    } else if str_eq(key, "remove_core") {
        Some(ProvinceHistoryEvent::RemoveCore(text))
    } else if str_eq(key, "add_claim") {
        Some(ProvinceHistoryEvent::AddClaim(text))
    } else if str_eq(key, "remove_claim") {
        Some(ProvinceHistoryEvent::RemoveClaim(text))
    } else {
        None
    }
}

fn province_changes_of(date: EU4Date, obj: &RawEU4Object, out: &mut Vec<(EU4Date, ProvinceHistoryEvent)>)
    ensures
        province_events_view(final(out)@) == province_events_view(old(out)@) + province_changes_in(
            date,
            kvs_of(obj.0@),
        ),
{
    let kvs = obj.iter_all_KVs();
    let ghost all = kvs_of(obj.0@);
    let ghost start = province_events_view(out@);
    let mut i: usize = 0;
    proof {
        assert(all.take(0) =~= seq![]);
        assert(start + seq![] =~= start);
    }
    while i < kvs.len()
        invariant
            0 <= i <= kvs@.len(),
            kvs@.len() == all.len(),
            all == kvs_of(obj.0@),
            forall|j: int|
                0 <= j < kvs@.len() ==> *kvs@[j].0 == all[j].0 && *kvs@[j].1 == all[j].1,
            province_events_view(out@) == start + province_changes_in(date, all.take(i as int)),
        decreases kvs@.len() - i,
    {
        let (ev, val) = kvs[i];
        let ghost before = out@;
        proof {
            let t = all.take(i + 1);
            assert(t.drop_last() =~= all.take(i as int));
            assert(t.last() == all[i as int]);
        }
        let event = match val {
            RawEU4Value::Scalar(t) => scalar_event(ev.0, t.as_string()),
            RawEU4Value::Object(c) => if str_eq(ev.0, "controller") {
                match c.get_first_as_string("tag") {
                    Some(tag) => Some(ProvinceHistoryEvent::Controller(tag)),
                    None => None,
                }
            } else {
                None
            },
        };
        match event {
            Some(e) => {
                out.push((date, e));
                proof {
                    assert(province_events_view(out@) =~= province_events_view(before).push(
                        province_event_view((date, e)),
                    ));
                    let (kind, text) = province_event(all[i as int].0, all[i as int].1).unwrap();
                    assert(province_event_view((date, e)) == (date, kind, text));
                    assert(start + province_changes_in(date, all.take(i + 1)) =~= (start
                        + province_changes_in(date, all.take(i as int))).push((date, kind, text)));
                }
            },
            None => {},
        }
        i = i + 1;
    }
    proof {
        assert(all.take(i as int) =~= all);
    }
}

impl ProvinceHistoryEvent {
    /// Should be passed the `history` object for a province.
    pub fn extract_events<'a>(object: &RawEU4Object<'a>) -> (res: Vec<(EU4Date, ProvinceHistoryEvent)>)
        ensures
            province_events_view(res@) == province_changes(kvs_of(object.0@)),
    {
        let mut out: Vec<(EU4Date, ProvinceHistoryEvent)> = Vec::new();
        let kvs = object.iter_all_KVs();
        let ghost all = kvs_of(object.0@);
        let mut i: usize = 0;
        proof {
            assert(all.take(0) =~= seq![]);
            assert(province_events_view(out@) =~= seq![]);
        }
        while i < kvs.len()
            invariant
                0 <= i <= kvs@.len(),
                kvs@.len() == all.len(),
                all == kvs_of(object.0@),
                forall|j: int|
                    0 <= j < kvs@.len() ==> *kvs@[j].0 == all[j].0 && *kvs@[j].1 == all[j].1,
                province_events_view(out@) == province_changes(all.take(i as int)),
            decreases kvs@.len() - i,
        {
            let (k, v) = kvs[i];
            proof {
                let t = all.take(i + 1);
                assert(t.drop_last() =~= all.take(i as int));
                assert(t.last() == all[i as int]);
            }
            if let Some(date) = k.as_date() {
                if let RawEU4Value::Object(o) = v {
                    province_changes_of(date, o, &mut out);
                }
            }
            i = i + 1;
        }
        proof {
            assert(all.take(i as int) =~= all);
        }
        out
    }

    /// Groups the events of provinces by date; each date's events keep the order of the
    /// provinces and of each province's events.
    pub fn combine_events<I: Copy>(provinces: Vec<(I, Vec<(EU4Date, ProvinceHistoryEvent)>)>) -> (res: Vec<
        (EU4Date, Vec<(I, ProvinceHistoryEvent)>),
    >)
        ensures
            keys_distinct(res@),
            group_view(res@) == grouped(tag_events(provinces@)),
            group_total(res@) == tag_events(provinces@).len(),
            forall|i: int| 0 <= i < res@.len() ==> (#[trigger] res@[i]).1@.len() > 0,
    {
        let res = combine_copy(provinces);
        proof {
            lemma_group_total(res@, tag_events(provinces@));
        }
        res
    }
}

/// The provinces of a save that have a history: each province's number (its key read as an
/// integer, without its sign) and the entries of its history.
pub open spec fn province_histories<'a>(provinces: Seq<(RawEU4Scalar<'a>, RawEU4Value<'a>)>) -> Seq<
    (int, Seq<(RawEU4Scalar<'a>, RawEU4Value<'a>)>),
>
    decreases provinces.len(),
{
    if provinces.len() == 0 {
        seq![]
    } else {
        let prev = province_histories(provinces.drop_last());
        match (spec_parse_i64(provinces.last().0@), provinces.last().1) {
            (Some(n), RawEU4Value::Object(o)) => match o.spec_first("history".spec_bytes(), Want::Object) {
                Some(RawEU4Value::Object(h)) => prev.push(
                    (
                        if n < 0 {
                            -n
                        } else {
                            n as int
                        },
                        kvs_of(h.0@),
                    ),
                ),
                _ => prev,
            },
            _ => prev,
        }
    }
}

/// No province key reads as the smallest `i64`, whose magnitude no `i64` holds.
pub open spec fn province_keys_ok<'a>(provinces: Seq<(RawEU4Scalar<'a>, RawEU4Value<'a>)>) -> bool {
    forall|i: int| 0 <= i < provinces.len() ==> spec_parse_i64(#[trigger] provinces[i].0@) != Some(i64::MIN)
}

/// `cs` holds, for each province of `hs` in order, its number (as `id` makes it) and its events.
pub open spec fn province_histories_match<'a, I>(
    cs: Seq<(I, Vec<(EU4Date, ProvinceHistoryEvent)>)>,
    hs: Seq<(int, Seq<(RawEU4Scalar<'a>, RawEU4Value<'a>)>)>,
    id: spec_fn(int) -> I,
) -> bool {
    &&& cs.len() == hs.len()
    &&& forall|i: int|
        0 <= i < cs.len() ==> (#[trigger] cs[i]).0 == id(hs[i].0) && province_events_view(cs[i].1@)
            == province_changes(hs[i].1)
}

/// The `provinces` object of a save, if it has one.
pub open spec fn provinces_of<'a>(save: RawEU4Object<'a>) -> Option<RawEU4Object<'a>> {
    match save.spec_first("provinces".spec_bytes(), Want::Object) {
        Some(RawEU4Value::Object(c)) => Some(c),
        _ => None,
    }
}

/// The magnitude of a province key's number.
fn province_number(n: i64) -> (res: u64)
    requires
        n != i64::MIN,
    ensures
        res == (if n < 0 {
            -n
        } else {
            n as int
        }),
{
    if n < 0 {
        (-n) as u64
    } else {
        n as u64
    }
}

/// The provinces of a save that have a history, with their numbers and events, in order.
pub fn province_events(provinces: &RawEU4Object) -> (res: Vec<(u64, Vec<(EU4Date, ProvinceHistoryEvent)>)>)
    requires
        province_keys_ok(kvs_of(provinces.0@)),
    ensures
        province_histories_match(res@, province_histories(kvs_of(provinces.0@)), |n: int| n as u64),
{
    let kvs = provinces.iter_all_KVs();
    let ghost all = kvs_of(provinces.0@);
    let mut out: Vec<(u64, Vec<(EU4Date, ProvinceHistoryEvent)>)> = Vec::new();
    let mut i: usize = 0;
    proof {
        assert(all.take(0) =~= seq![]);
    }
    while i < kvs.len()
        invariant
            0 <= i <= kvs@.len(),
            kvs@.len() == all.len(),
            all == kvs_of(provinces.0@),
            province_keys_ok(all),
            forall|j: int|
                0 <= j < kvs@.len() ==> *kvs@[j].0 == all[j].0 && *kvs@[j].1 == all[j].1,
            province_histories_match(out@, province_histories(all.take(i as int)), |n: int| n as u64),
        decreases kvs@.len() - i,
    {
        let (k, v) = kvs[i];
        proof {
            let t = all.take(i + 1);
            assert(t.drop_last() =~= all.take(i as int));
            assert(t.last() == all[i as int]);
            assert(spec_parse_i64(all[i as int].0@) != Some(i64::MIN));
        }
        if let Some(n) = k.as_int() {
            if let RawEU4Value::Object(o) = v {
                if let Some(h) = o.get_first_obj("history") {
                    let ghost before = out@;
                    let id = province_number(n);
                    let events = ProvinceHistoryEvent::extract_events(h);
                    out.push((id, events));
                    proof {
                        let hs = province_histories(all.take(i + 1));
                        assert forall|j: int| 0 <= j < out@.len() implies (#[trigger] out@[j]).0 == (|n: int| n as u64)(
                            hs[j].0,
                        ) && province_events_view(out@[j].1@) == province_changes(hs[j].1) by {
                            if j < before.len() {
                                assert(out@[j] == before[j]);
                            }
                        }
                    }
                }
            }
        }
        i = i + 1;
    }
    proof {
        assert(all.take(i as int) =~= all);
    }
    out
}

/// The events of all provinces of a save, grouped by date.
pub fn make_combined_events(save: &RawEU4Object) -> (res: Vec<(EU4Date, Vec<(u64, ProvinceHistoryEvent)>)>)
    requires
        provinces_of(*save) matches Some(p) && province_keys_ok(kvs_of(p.0@)),
    ensures
        keys_distinct(res@),
        exists|cs: Seq<(u64, Vec<(EU4Date, ProvinceHistoryEvent)>)>|
            province_histories_match(
                cs,
                province_histories(kvs_of(provinces_of(*save).unwrap().0@)),
                |n: int| n as u64,
            ) && group_view(res@) == grouped(tag_events(cs)),
{
    let provinces = match save.get_first_obj("provinces") {
        Some(p) => p,
        None => {
            return Vec::new();
        },
    };
    let histories = province_events(provinces);
    let ghost hs = histories@;
    let res = ProvinceHistoryEvent::combine_events(histories);
    proof {
        assert(province_histories_match(
            hs,
            province_histories(kvs_of(provinces_of(*save).unwrap().0@)),
            |n: int| n as u64,
        ) && group_view(res@) == grouped(tag_events(hs)));
    }
    res
}

/// The province events of a date applied to the maps `m`, with the fake owners (province and
/// tag) and the provinces whose controller was set so far.
pub open spec fn province_frame(
    tags: Seq<(String, MapColor)>,
    m: (Seq<MapColor>, Seq<MapColor>),
    evs: Seq<(u64, ProvinceHistoryEvent)>,
) -> ((Seq<MapColor>, Seq<MapColor>), Seq<(u64, Seq<char>)>, Seq<u64>)
    decreases evs.len(),
{
    if evs.len() == 0 {
        (m, seq![], seq![])
    } else {
        let prev = province_frame(tags, m, evs.drop_last());
        let (pm, fakes, set) = prev;
        let id = evs.last().0;
        match evs.last().1 {
            ProvinceHistoryEvent::Owner(t) => {
                let c = match tag_color(tags, t@) {
                    Some(c) => c,
                    None => MapColor::spec_unclaimed(),
                };
                ((pm.0.update(id as int, c), pm.1), fakes, set)
            },
            ProvinceHistoryEvent::FakeOwner(t) => (pm, fakes.push((id, t@)), set),
            ProvinceHistoryEvent::Controller(t) => {
                if fakes.contains((id, t@)) || set.contains(id) {
                    prev
                } else {
                    let c = match tag_color(tags, t@) {
                        Some(c) => c,
                        None => MapColor::spec_black(),
                    };
                    ((pm.0, pm.1.update(id as int, c)), fakes, set.push(id))
                }
            },
            _ => prev,
        }
    }
}

/// The country events of a date applied to the maps `m`: a tag change turns every province of
/// the old tag's color to the new tag's color.
pub open spec fn country_frame(
    tags: Seq<(String, MapColor)>,
    m: (Seq<MapColor>, Seq<MapColor>),
    evs: Seq<(String, CountryHistoryEvent)>,
) -> (Seq<MapColor>, Seq<MapColor>)
    decreases evs.len(),
{
    if evs.len() == 0 {
        m
    } else {
        let prev = country_frame(tags, m, evs.drop_last());
        match evs.last().1 {
            CountryHistoryEvent::ChangedTagFrom(p) => match (
                tag_color(tags, p@),
                tag_color(tags, evs.last().0@),
            ) {
                (Some(pc), Some(nc)) => (
                    recolor_prefix(prev.0, pc, nc, prev.0.len(), true).0,
                    recolor_prefix(prev.1, pc, nc, prev.1.len(), false).0,
                ),
                _ => prev,
            },
        }
    }
}

/// The owner and controller events of province events fit maps of these lengths.
pub open spec fn frame_events_fit(olen: nat, clen: nat, evs: Seq<(u64, ProvinceHistoryEvent)>) -> bool {
    forall|i: int|
        0 <= i < evs.len() ==> match (#[trigger] evs[i]).1 {
            ProvinceHistoryEvent::Owner(_) => evs[i].0 < olen,
            ProvinceHistoryEvent::Controller(_) => evs[i].0 < clen,
            _ => true,
        }
}

/// The full maps of every date from `curr` on (a day at a time, while not after `end`): `curr`
/// with `m`, then each next date with the maps after its province and country events.
pub open spec fn frames_from(
    prov: Seq<(EU4Date, Vec<(u64, ProvinceHistoryEvent)>)>,
    country: Seq<(EU4Date, Vec<(String, CountryHistoryEvent)>)>,
    tags: Seq<(String, MapColor)>,
    m: (Seq<MapColor>, Seq<MapColor>),
    curr: EU4Date,
    end: EU4Date,
) -> Seq<(EU4Date, (Seq<MapColor>, Seq<MapColor>))>
    decreases (if end.spec_lt(curr) {
        0
    } else {
        end.ord() - curr.ord() + 1
    }),
{
    let next = curr.spec_tomorrow();
    if curr.can_step() && curr.spec_lt(next) && !end.spec_lt(next) {
        let after = country_frame(tags, province_frame(tags, m, on_date(prov, next)).0, on_date(country, next));
        seq![(curr, m)] + frames_from(prov, country, tags, after, next, end)
    } else {
        seq![(curr, m)]
    }
}

/// Stepping from `curr` day by day while not after `end` never overflows, and the province
/// events of each date stepped to fit maps of these lengths.
pub open spec fn frames_ok(
    prov: Seq<(EU4Date, Vec<(u64, ProvinceHistoryEvent)>)>,
    olen: nat,
    clen: nat,
    curr: EU4Date,
    end: EU4Date,
) -> bool
    decreases (if end.spec_lt(curr) {
        0
    } else {
        end.ord() - curr.ord() + 1
    }),
{
    curr.can_step() && (curr.spec_lt(curr.spec_tomorrow()) && !end.spec_lt(curr.spec_tomorrow())
        ==> (frame_events_fit(olen, clen, on_date(prov, curr.spec_tomorrow())) && frames_ok(
        prov,
        olen,
        clen,
        curr.spec_tomorrow(),
        end,
    )))
}

/// The fake owners met so far, each by its province and the characters of its tag.
pub open spec fn fakes64_view(v: Seq<(u64, &str)>) -> Seq<(u64, Seq<char>)> {
    v.map_values(|p: (u64, &str)| (p.0, p.1@))
}

fn has_fake64(fakes: &Vec<(u64, &str)>, id: u64, tag: &str) -> (res: bool)
    ensures
        res == fakes64_view(fakes@).contains((id, tag@)),
{
    let mut j: usize = 0;
    while j < fakes.len()
        invariant
            0 <= j <= fakes@.len(),
            forall|k: int| 0 <= k < j ==> fakes64_view(fakes@)[k] != (id, tag@),
        decreases fakes@.len() - j,
    {
        if fakes[j].0 == id && str_eq(fakes[j].1, tag) {
            assert(fakes64_view(fakes@)[j as int] == (id, tag@));
            return true;
        }
        j = j + 1;
    }
    false
}

fn has_id64(v: &Vec<u64>, id: u64) -> (res: bool)
    ensures
        res == v@.contains(id),
{
    let mut j: usize = 0;
    while j < v.len()
        invariant
            0 <= j <= v@.len(),
            forall|k: int| 0 <= k < j ==> v@[k] != id,
        decreases v@.len() - j,
    {
        if v[j] == id {
            assert(v@[j as int] == id);
            return true;
        }
        j = j + 1;
    }
    false
}

fn province_frame_of_day(
    tags: &Vec<(String, MapColor)>,
    owners: &mut Vec<MapColor>,
    controllers: &mut Vec<MapColor>,
    events: &Vec<(u64, ProvinceHistoryEvent)>,
)
    requires
        frame_events_fit(old(owners)@.len(), old(controllers)@.len(), events@),
    ensures
        final(owners)@.len() == old(owners)@.len(),
        final(controllers)@.len() == old(controllers)@.len(),
        (final(owners)@, final(controllers)@) == province_frame(tags@, (old(owners)@, old(controllers)@), events@).0,
{
    let ghost m0 = (owners@, controllers@);
    let mut fakes: Vec<(u64, &str)> = Vec::new();
    let mut set: Vec<u64> = Vec::new();
    let mut i: usize = 0;
    assert(events@.take(0) =~= Seq::<(u64, ProvinceHistoryEvent)>::empty());
    assert(fakes64_view(fakes@) =~= Seq::<(u64, Seq<char>)>::empty());
    while i < events.len()
        invariant
            0 <= i <= events@.len(),
            frame_events_fit(m0.0.len(), m0.1.len(), events@),
            owners@.len() == m0.0.len(),
            controllers@.len() == m0.1.len(),
            (owners@, controllers@) == province_frame(tags@, m0, events@.take(i as int)).0,
            fakes64_view(fakes@) == province_frame(tags@, m0, events@.take(i as int)).1,
            set@ == province_frame(tags@, m0, events@.take(i as int)).2,
        decreases events@.len() - i,
    {
        assert(events@.take(i + 1).drop_last() =~= events@.take(i as int));
        assert(events@.take(i + 1).last() == events@[i as int]);
        let id = events[i].0;
        match &events[i].1 {
            ProvinceHistoryEvent::Owner(t) => {
                let c = match find_tag_color(tags, t.as_str()) {
                    Some(c) => c,
                    None => MapColor::unclaimed(),
                };
                assert(events@[i as int].0 < m0.0.len());
                let n = owners.len();
                assert((id as int) < n as int);
                let idx = id as usize;
                owners.set(idx, c);
            },
            ProvinceHistoryEvent::FakeOwner(t) => {
                fakes.push((id, t.as_str()));
                assert(fakes64_view(fakes@) =~= province_frame(tags@, m0, events@.take(i + 1)).1);
            },
            ProvinceHistoryEvent::Controller(t) => {
                if !has_fake64(&fakes, id, t.as_str()) && !has_id64(&set, id) {
                    let c = match find_tag_color(tags, t.as_str()) {
                        Some(c) => c,
                        None => MapColor::black(),
                    };
                    assert(events@[i as int].0 < m0.1.len());
                    let n = controllers.len();
                    assert((id as int) < n as int);
                    let idx = id as usize;
                    controllers.set(idx, c);
                    set.push(id);
                }
            },
            _ => {},
        }
        i = i + 1;
    }
    assert(events@.take(events@.len() as int) =~= events@);
}

fn country_frame_of_day(
    tags: &Vec<(String, MapColor)>,
    owners: &mut Vec<MapColor>,
    controllers: &mut Vec<MapColor>,
    events: &Vec<(String, CountryHistoryEvent)>,
)
    ensures
        final(owners)@.len() == old(owners)@.len(),
        final(controllers)@.len() == old(controllers)@.len(),
        (final(owners)@, final(controllers)@) == country_frame(tags@, (old(owners)@, old(controllers)@), events@),
{
    let ghost m0 = (owners@, controllers@);
    let mut scratch: Vec<(u16, crate::color_map::ColorMapEvent)> = Vec::new();
    let mut i: usize = 0;
    assert(events@.take(0) =~= Seq::<(String, CountryHistoryEvent)>::empty());
    while i < events.len()
        invariant
            0 <= i <= events@.len(),
            owners@.len() == m0.0.len(),
            controllers@.len() == m0.1.len(),
            (owners@, controllers@) == country_frame(tags@, m0, events@.take(i as int)),
        decreases events@.len() - i,
    {
        assert(events@.take(i + 1).drop_last() =~= events@.take(i as int));
        assert(events@.take(i + 1).last() == events@[i as int]);
        match &events[i].1 {
            CountryHistoryEvent::ChangedTagFrom(p) => {
                let pc = find_tag_color(tags, p.as_str());
                let nc = find_tag_color(tags, events[i].0.as_str());
                match (pc, nc) {
                    (Some(pc), Some(nc)) => {
                        recolor(owners, pc, nc, true, &mut scratch);
                        recolor(controllers, pc, nc, false, &mut scratch);
                    },
                    _ => {},
                }
            },
        }
        i = i + 1;
    }
    assert(events@.take(events@.len() as int) =~= events@);
}

/// Dated color maps by their views.
pub open spec fn frames_out_view(s: Seq<(EU4Date, Vec<MapColor>, Vec<MapColor>)>) -> Seq<(EU4Date, (Seq<MapColor>, Seq<MapColor>))> {
    s.map_values(|f: (EU4Date, Vec<MapColor>, Vec<MapColor>)| (f.0, (f.1@, f.2@)))
}

/// The full color maps of every date from `start_date` to `end_date`, a day at a time: the
/// first date with the maps `initial_owners` and `initial_controllers`, and each next date with
/// the maps after its province events (owners and controllers) and country events (tag
/// changes); `nations` gives the map color of each tag. A controller color of black means that
/// the owner controls the province.
pub fn all_i_frame_color_maps(
    initial_owners: Vec<MapColor>,
    initial_controllers: Vec<MapColor>,
    province_history: &Vec<(EU4Date, Vec<(u64, ProvinceHistoryEvent)>)>,
    country_history: &Vec<(EU4Date, Vec<(String, CountryHistoryEvent)>)>,
    nations: &Vec<(String, MapColor)>,
    start_date: EU4Date,
    end_date: EU4Date,
) -> (res: Vec<(EU4Date, Vec<MapColor>, Vec<MapColor>)>)
    requires
        keys_distinct(province_history@),
        keys_distinct(country_history@),
        frames_ok(province_history@, initial_owners@.len(), initial_controllers@.len(), start_date, end_date),
    ensures
        frames_out_view(res@) == frames_from(
            province_history@,
            country_history@,
            nations@,
            (initial_owners@, initial_controllers@),
            start_date,
            end_date,
        ),
{
    let ghost prov = province_history@;
    let ghost country = country_history@;
    let ghost tags = nations@;
    let ghost olen = initial_owners@.len();
    let ghost clen = initial_controllers@.len();
    let ghost all = frames_from(prov, country, tags, (initial_owners@, initial_controllers@), start_date, end_date);
    let mut out: Vec<(EU4Date, Vec<MapColor>, Vec<MapColor>)> = Vec::new();
    let mut owners = initial_owners;
    let mut controllers = initial_controllers;
    let mut curr = start_date;
    loop
        invariant
            prov == province_history@,
            country == country_history@,
            tags == nations@,
            all == frames_from(prov, country, tags, (initial_owners@, initial_controllers@), start_date, end_date),
            keys_distinct(prov),
            keys_distinct(country),
            owners@.len() == olen,
            controllers@.len() == clen,
            frames_ok(prov, olen, clen, curr, end_date),
            frames_out_view(out@) + frames_from(
                prov,
                country,
                tags,
                (owners@, controllers@),
                curr,
                end_date,
            ) == all,
        decreases (if end_date.spec_lt(curr) {
            0
        } else {
            end_date.ord() - curr.ord() + 1
        }),
    {
        let ghost before = out@;
        let ghost m = (owners@, controllers@);
        let frame = (curr, owners.clone(), controllers.clone());
        assert(frame.1@ =~= owners@ && frame.2@ =~= controllers@);
        out.push(frame);
        assert(frames_out_view(out@) =~= frames_out_view(before).push((curr, m)));
        let next = curr.tomorrow();
        if end_date.is_before(&next) {
            assert(frames_from(prov, country, tags, m, curr, end_date) == seq![(curr, m)]);
            assert(frames_out_view(before) + seq![(curr, m)] =~= frames_out_view(out@));
            return out;
        }
        match find_group(province_history, &next) {
            Some(j) => {
                province_frame_of_day(nations, &mut owners, &mut controllers, &province_history[j].1);
            },
            None => {},
        }
        match find_group(country_history, &next) {
            Some(j) => {
                country_frame_of_day(nations, &mut owners, &mut controllers, &country_history[j].1);
            },
            None => {},
        }
        proof {
            let after = country_frame(tags, province_frame(tags, m, on_date(prov, next)).0, on_date(country, next));
            assert((owners@, controllers@) == after);
            assert(frames_from(prov, country, tags, m, curr, end_date) == seq![(curr, m)] + frames_from(
                prov,
                country,
                tags,
                after,
                next,
                end_date,
            ));
            assert(frames_out_view(before) + (seq![(curr, m)] + frames_from(prov, country, tags, after, next, end_date))
                =~= frames_out_view(out@) + frames_from(prov, country, tags, after, next, end_date));
        }
        curr = next;
    }
}

} // verus!
