//! The owner and controller colors of every province over time: full color maps on a few dates
//! (the first date and every 1 January) and, for every date on which anything changed, the
//! changes of that date.
use vstd::prelude::*;

use crate::country_history::{CountryHistoryEvent, WarHistoryEvent};
use crate::date_groups::{find_group, keys_distinct, on_date};
use crate::eu4_date::{EU4Date, Month};
use crate::map_history::ProvinceHistoryEvent;
use crate::text_util::str_eq;

verus! {

broadcast use vstd::string::group_string_axioms;

/// A color of the map, by its red, green and blue parts.
#[derive(Debug, PartialEq, Eq, Structural, Clone, Copy, Hash)]
pub struct MapColor {
    pub r: u8,
    pub g: u8,
    pub b: u8,
}

impl MapColor {
    pub open spec fn spec_black() -> MapColor {
        MapColor { r: 0, g: 0, b: 0 }
    }

    pub open spec fn spec_unclaimed() -> MapColor {
        MapColor { r: 150, g: 150, b: 150 }
    }

    /// Black: the controller color of a province that nobody occupies.
    pub fn black() -> (c: MapColor)
        ensures
            c == MapColor::spec_black(),
    {
        MapColor { r: 0, g: 0, b: 0 }
    }

    /// The gray of provinces that nobody owns.
    pub fn unclaimed() -> (c: MapColor)
        ensures
            c == MapColor::spec_unclaimed(),
    {
        MapColor { r: 150, g: 150, b: 150 }
    }
}

/// A change of a province's owner color or controller color.
#[derive(Debug, PartialEq, Eq, Structural, Clone, Copy, Hash)]
pub enum ColorMapEvent {
    Owner(MapColor),
    Controller(MapColor),
}

/// The owner colors and controller colors of the provinces, by province number.
pub open spec fn maps_view(m: (Vec<MapColor>, Vec<MapColor>)) -> (Seq<MapColor>, Seq<MapColor>) {
    (m.0@, m.1@)
}

/// The province of `e` has a color in the map that `e` changes.
pub open spec fn event_fits(m: (Seq<MapColor>, Seq<MapColor>), e: (u16, ColorMapEvent)) -> bool {
    match e.1 {
        ColorMapEvent::Owner(_) => e.0 < m.0.len(),
        ColorMapEvent::Controller(_) => e.0 < m.1.len(),
    }
}

/// Every event of `evs` fits `m`.
pub open spec fn events_fit(m: (Seq<MapColor>, Seq<MapColor>), evs: Seq<(u16, ColorMapEvent)>) -> bool {
    forall|i: int| 0 <= i < evs.len() ==> event_fits(m, #[trigger] evs[i])
}

/// `m` after the event `e` for province `e.0`.
pub open spec fn apply_event(m: (Seq<MapColor>, Seq<MapColor>), e: (u16, ColorMapEvent)) -> (
    Seq<MapColor>,
    Seq<MapColor>,
) {
    match e.1 {
        ColorMapEvent::Owner(c) => (m.0.update(e.0 as int, c), m.1),
        ColorMapEvent::Controller(c) => (m.0, m.1.update(e.0 as int, c)),
    }
}

/// `m` after the events `evs`, in order.
pub open spec fn apply_events(m: (Seq<MapColor>, Seq<MapColor>), evs: Seq<(u16, ColorMapEvent)>) -> (
    Seq<MapColor>,
    Seq<MapColor>,
)
    decreases evs.len(),
{
    if evs.len() == 0 {
        m
    } else {
        apply_event(apply_events(m, evs.drop_last()), evs.last())
    }
}

/// Events that fit keep the lengths of the maps.
pub proof fn lemma_apply_events_len(m: (Seq<MapColor>, Seq<MapColor>), evs: Seq<(u16, ColorMapEvent)>)
    requires
        events_fit(m, evs),
    ensures
        apply_events(m, evs).0.len() == m.0.len(),
        apply_events(m, evs).1.len() == m.1.len(),
    decreases evs.len(),
{
    if evs.len() > 0 {
        assert(events_fit(m, evs.drop_last()));
        lemma_apply_events_len(m, evs.drop_last());
        assert(event_fits(m, evs[evs.len() - 1]));
    }
}

/// Applying two lists of events one after the other is applying them joined.
pub proof fn lemma_apply_events_concat(
    m: (Seq<MapColor>, Seq<MapColor>),
    a: Seq<(u16, ColorMapEvent)>,
    b: Seq<(u16, ColorMapEvent)>,
)
    ensures
        apply_events(m, a + b) == apply_events(apply_events(m, a), b),
    decreases b.len(),
{
    if b.len() == 0 {
        assert(a + b =~= a);
    } else {
        assert((a + b).drop_last() =~= a + b.drop_last());
        lemma_apply_events_concat(m, a, b.drop_last());
    }
}

impl ColorMapEvent {
    /// Applies the event `event.1` to province `event.0` of `target`.
    pub fn apply(target: &mut (Vec<MapColor>, Vec<MapColor>), event: &(u16, ColorMapEvent))
        requires
            event_fits(maps_view(*old(target)), *event),
        ensures
            maps_view(*final(target)) == apply_event(maps_view(*old(target)), *event),
    {
        match event.1 {
            ColorMapEvent::Owner(color) => {
                target.0.set(event.0 as usize, color);
            },
            ColorMapEvent::Controller(color) => {
                target.1.set(event.0 as usize, color);
            },
        }
    }

    /// Applies the events in order.
    pub fn apply_many(target: &mut (Vec<MapColor>, Vec<MapColor>), events: &Vec<(u16, ColorMapEvent)>)
        requires
            events_fit(maps_view(*old(target)), events@),
        ensures
            maps_view(*final(target)) == apply_events(maps_view(*old(target)), events@),
    {
        let ghost m0 = maps_view(*target);
        let mut i: usize = 0;
        while i < events.len()
            invariant
                0 <= i <= events@.len(),
                events_fit(m0, events@),
                maps_view(*target) == apply_events(m0, events@.take(i as int)),
                target.0@.len() == m0.0.len(),
                target.1@.len() == m0.1.len(),
            decreases events@.len() - i,
        {
            assert(events@.take(i + 1).drop_last() =~= events@.take(i as int));
            assert(event_fits(m0, events@[i as int]));
            ColorMapEvent::apply(target, &events[i]);
            i = i + 1;
        }
        assert(events@.take(events@.len() as int) =~= events@);
    }
}

/// The color of the last nation of `tags` with tag `t`, if any.
pub open spec fn last_color(tags: Seq<(String, MapColor)>, t: Seq<char>) -> Option<MapColor>
    decreases tags.len(),
{
    if tags.len() == 0 {
        None
    } else if tags.last().0@ == t {
        Some(tags.last().1)
    } else {
        last_color(tags.drop_last(), t)
    }
}

/// The map color of tag `t`: none for the placeholder tags `---` and `REB`.
pub open spec fn tag_color(tags: Seq<(String, MapColor)>, t: Seq<char>) -> Option<MapColor> {
    if t == "---"@ || t == "REB"@ {
        None
    } else {
        last_color(tags, t)
    }
}

/// The map color of `tag` among the nations `tags` (tag and map color of each).
pub fn find_tag_color(tags: &Vec<(String, MapColor)>, tag: &str) -> (res: Option<MapColor>)
    ensures
        res == tag_color(tags@, tag@),
{
    if str_eq(tag, "---") || str_eq(tag, "REB") {
        return None;
    }
    let mut i: usize = tags.len();
    assert(tags@.take(i as int) =~= tags@);
    while i > 0
        invariant
            0 <= i <= tags@.len(),
            !(tag@ == "---"@ || tag@ == "REB"@),
            tag_color(tags@, tag@) == last_color(tags@.take(i as int), tag@),
        decreases i,
    {
        assert(tags@.take(i as int).drop_last() =~= tags@.take(i - 1));
        if str_eq(tags[i - 1].0.as_str(), tag) {
            return Some(tags[i - 1].1);
        }
        i = i - 1;
    }
    None
}

/// Occupations of provinces of the owner color `co` by the controller color `cc` ended, among
/// the first `k` provinces: the controller colors after, and the changes.
pub open spec fn clear_prefix(o: Seq<MapColor>, c: Seq<MapColor>, co: MapColor, cc: MapColor, k: nat) -> (
    Seq<MapColor>,
    Seq<(u16, ColorMapEvent)>,
)
    decreases k,
{
    if k == 0 {
        (c, seq![])
    } else {
        let prev = clear_prefix(o, c, co, cc, (k - 1) as nat);
        let i = k - 1;
        if o[i] == co && c[i] == cc {
            (
                prev.0.update(i, MapColor::spec_black()),
                prev.1.push((i as u16, ColorMapEvent::Controller(MapColor::spec_black()))),
            )
        } else {
            prev
        }
    }
}

proof fn lemma_clear_prefix(o: Seq<MapColor>, c: Seq<MapColor>, co: MapColor, cc: MapColor, k: nat)
    requires
        k <= o.len() <= c.len(),
    ensures
        clear_prefix(o, c, co, cc, k).0.len() == c.len(),
        forall|j: int| k <= j < c.len() ==> clear_prefix(o, c, co, cc, k).0[j] == c[j],
    decreases k,
{
    if k > 0 {
        lemma_clear_prefix(o, c, co, cc, (k - 1) as nat);
    }
}

/// The colors of `s` equal to `from` turned to `to`, among the first `k`: the colors after, and
/// the changes, to owner colors when `owner`, else to controller colors.
pub open spec fn recolor_prefix(s: Seq<MapColor>, from: MapColor, to: MapColor, k: nat, owner: bool) -> (
    Seq<MapColor>,
    Seq<(u16, ColorMapEvent)>,
)
    decreases k,
{
    if k == 0 {
        (s, seq![])
    } else {
        let prev = recolor_prefix(s, from, to, (k - 1) as nat, owner);
        let i = k - 1;
        if s[i] == from {
            (
                prev.0.update(i, to),
                prev.1.push(
                    (
                        i as u16,
                        if owner {
                            ColorMapEvent::Owner(to)
                        } else {
                            ColorMapEvent::Controller(to)
                        },
                    ),
                ),
            )
        } else {
            prev
        }
    }
}

proof fn lemma_recolor_prefix(s: Seq<MapColor>, from: MapColor, to: MapColor, k: nat, owner: bool)
    requires
        k <= s.len(),
    ensures
        recolor_prefix(s, from, to, k, owner).0.len() == s.len(),
        forall|j: int| k <= j < s.len() ==> recolor_prefix(s, from, to, k, owner).0[j] == s[j],
    decreases k,
{
    if k > 0 {
        lemma_recolor_prefix(s, from, to, (k - 1) as nat, owner);
    }
}

/// The war events of a date, applied in order to the maps `m` with the changes so far `d`.
pub open spec fn war_day(
    tags: Seq<(String, MapColor)>,
    m: (Seq<MapColor>, Seq<MapColor>),
    d: Seq<(u16, ColorMapEvent)>,
    evs: Seq<WarHistoryEvent>,
) -> ((Seq<MapColor>, Seq<MapColor>), Seq<(u16, ColorMapEvent)>)
    decreases evs.len(),
{
    if evs.len() == 0 {
        (m, d)
    } else {
        let prev = war_day(tags, m, d, evs.drop_last());
        match evs.last() {
            WarHistoryEvent::RemoveOccupations(wo, wc) => match (
                tag_color(tags, wo@),
                tag_color(tags, wc@),
            ) {
                (Some(co), Some(cc)) => {
                    let cleared = clear_prefix(prev.0.0, prev.0.1, co, cc, prev.0.0.len());
                    ((prev.0.0, cleared.0), prev.1 + cleared.1)
                },
                _ => prev,
            },
        }
    }
}

/// The state of a date's province events so far: the maps, the changes, the fake owners met
/// (province and tag) and the provinces whose controller is set.
pub open spec fn province_day(
    tags: Seq<(String, MapColor)>,
    m: (Seq<MapColor>, Seq<MapColor>),
    d: Seq<(u16, ColorMapEvent)>,
    evs: Seq<(u16, ProvinceHistoryEvent)>,
) -> ((Seq<MapColor>, Seq<MapColor>), Seq<(u16, ColorMapEvent)>, Seq<(u16, Seq<char>)>, Seq<u16>)
    decreases evs.len(),
{
    if evs.len() == 0 {
        (m, d, seq![], seq![])
    } else {
        let prev = province_day(tags, m, d, evs.drop_last());
        let (pm, pd, fakes, set) = prev;
        let id = evs.last().0;
        match evs.last().1 {
            ProvinceHistoryEvent::Owner(t) => {
                let c = match tag_color(tags, t@) {
                    Some(c) => c,
                    None => MapColor::spec_unclaimed(),
                };
                if pm.0[id as int] == c {
                    prev
                } else {
                    ((pm.0.update(id as int, c), pm.1), pd.push((id, ColorMapEvent::Owner(c))), fakes, set)
                }
            },
            ProvinceHistoryEvent::FakeOwner(t) => (pm, pd, fakes.push((id, t@)), set),
            ProvinceHistoryEvent::Controller(t) => {
                if fakes.contains((id, t@)) || set.contains(id) {
                    prev
                } else {
                    let c = match tag_color(tags, t@) {
                        Some(c) => c,
                        None => MapColor::spec_black(),
                    };
                    if pm.1[id as int] == c {
                        (pm, pd, fakes, set.push(id))
                    } else {
                        (
                            (pm.0, pm.1.update(id as int, c)),
                            pd.push((id, ColorMapEvent::Controller(c))),
                            fakes,
                            set.push(id),
                        )
                    }
                }
            },
            _ => prev,
        }
    }
}

/// The country events of a date (tag changes recolor every province of the old tag's color).
pub open spec fn country_day(
    tags: Seq<(String, MapColor)>,
    m: (Seq<MapColor>, Seq<MapColor>),
    d: Seq<(u16, ColorMapEvent)>,
    evs: Seq<(String, CountryHistoryEvent)>,
) -> ((Seq<MapColor>, Seq<MapColor>), Seq<(u16, ColorMapEvent)>)
    decreases evs.len(),
{
    if evs.len() == 0 {
        (m, d)
    } else {
        let prev = country_day(tags, m, d, evs.drop_last());
        match evs.last().1 {
            CountryHistoryEvent::ChangedTagFrom(p) => match (
                tag_color(tags, p@),
                tag_color(tags, evs.last().0@),
            ) {
                (Some(pc), Some(nc)) => {
                    let o = recolor_prefix(prev.0.0, pc, nc, prev.0.0.len(), true);
                    let c = recolor_prefix(prev.0.1, pc, nc, prev.0.1.len(), false);
                    ((o.0, c.0), prev.1 + o.1 + c.1)
                },
                _ => prev,
            },
        }
    }
}

/// The owner and controller events of a list of province events fit maps of these lengths.
pub open spec fn province_events_fit(olen: nat, clen: nat, evs: Seq<(u16, ProvinceHistoryEvent)>) -> bool {
    forall|i: int|
        0 <= i < evs.len() ==> match (#[trigger] evs[i]).1 {
            ProvinceHistoryEvent::Owner(_) => evs[i].0 < olen,
            ProvinceHistoryEvent::Controller(_) => evs[i].0 < clen,
            _ => true,
        }
}

/// One date: its war events, then its province events, then its country events; the maps after
/// and the changes.
pub open spec fn day_step(
    prov: Seq<(EU4Date, Vec<(u16, ProvinceHistoryEvent)>)>,
    country: Seq<(EU4Date, Vec<(String, CountryHistoryEvent)>)>,
    war: Seq<(EU4Date, Vec<WarHistoryEvent>)>,
    tags: Seq<(String, MapColor)>,
    m: (Seq<MapColor>, Seq<MapColor>),
    date: EU4Date,
) -> ((Seq<MapColor>, Seq<MapColor>), Seq<(u16, ColorMapEvent)>) {
    let w = war_day(tags, m, seq![], on_date(war, date));
    let p = province_day(tags, w.0, w.1, on_date(prov, date));
    country_day(tags, p.0, p.1, on_date(country, date))
}

/// The maps after the dates `dates`, from `m0`.
pub open spec fn after_days(
    prov: Seq<(EU4Date, Vec<(u16, ProvinceHistoryEvent)>)>,
    country: Seq<(EU4Date, Vec<(String, CountryHistoryEvent)>)>,
    war: Seq<(EU4Date, Vec<WarHistoryEvent>)>,
    tags: Seq<(String, MapColor)>,
    m0: (Seq<MapColor>, Seq<MapColor>),
    dates: Seq<EU4Date>,
) -> (Seq<MapColor>, Seq<MapColor>)
    decreases dates.len(),
{
    if dates.len() == 0 {
        m0
    } else {
        day_step(
            prov,
            country,
            war,
            tags,
            after_days(prov, country, war, tags, m0, dates.drop_last()),
            dates.last(),
        ).0
    }
}

/// The changes of the dates `dates`, from `m0`: each date with changes, with its changes.
pub open spec fn diff_log(
    prov: Seq<(EU4Date, Vec<(u16, ProvinceHistoryEvent)>)>,
    country: Seq<(EU4Date, Vec<(String, CountryHistoryEvent)>)>,
    war: Seq<(EU4Date, Vec<WarHistoryEvent>)>,
    tags: Seq<(String, MapColor)>,
    m0: (Seq<MapColor>, Seq<MapColor>),
    dates: Seq<EU4Date>,
) -> Seq<(EU4Date, Seq<(u16, ColorMapEvent)>)>
    decreases dates.len(),
{
    if dates.len() == 0 {
        seq![]
    } else {
        let prev = diff_log(prov, country, war, tags, m0, dates.drop_last());
        let ds = day_step(
            prov,
            country,
            war,
            tags,
            after_days(prov, country, war, tags, m0, dates.drop_last()),
            dates.last(),
        ).1;
        if ds.len() > 0 {
            prev.push((dates.last(), ds))
        } else {
            prev
        }
    }
}

/// The first of January.
pub open spec fn is_new_year(d: EU4Date) -> bool {
    d.month == Month::JAN && d.day == 1
}

/// The full maps kept over the dates `dates` that start at `start`: `start` with `m0`, and each
/// 1 January with its maps after that date (a 1 January `start` keeps only the latter).
pub open spec fn frame_log(
    prov: Seq<(EU4Date, Vec<(u16, ProvinceHistoryEvent)>)>,
    country: Seq<(EU4Date, Vec<(String, CountryHistoryEvent)>)>,
    war: Seq<(EU4Date, Vec<WarHistoryEvent>)>,
    tags: Seq<(String, MapColor)>,
    m0: (Seq<MapColor>, Seq<MapColor>),
    start: EU4Date,
    dates: Seq<EU4Date>,
) -> Seq<(EU4Date, (Seq<MapColor>, Seq<MapColor>))>
    decreases dates.len(),
{
    if dates.len() == 0 {
        seq![(start, m0)]
    } else {
        let prev = frame_log(prov, country, war, tags, m0, start, dates.drop_last());
        let d = dates.last();
        if is_new_year(d) {
            let frame = (d, after_days(prov, country, war, tags, m0, dates));
            if dates.len() == 1 {
                seq![frame]
            } else {
                prev.push(frame)
            }
        } else {
            prev
        }
    }
}

/// The changes by date, each list by its view.
pub open spec fn diffs_view(s: Seq<(EU4Date, Vec<(u16, ColorMapEvent)>)>) -> Seq<(EU4Date, Seq<(u16, ColorMapEvent)>)> {
    s.map_values(|e: (EU4Date, Vec<(u16, ColorMapEvent)>)| (e.0, e.1@))
}

/// The full maps by date, each by its view.
pub open spec fn frames_view(s: Seq<(EU4Date, (Vec<MapColor>, Vec<MapColor>))>) -> Seq<(EU4Date, (Seq<MapColor>, Seq<MapColor>))> {
    s.map_values(|e: (EU4Date, (Vec<MapColor>, Vec<MapColor>))| (e.0, maps_view(e.1)))
}

/// A copy of a list of colors.
fn copy_colors(v: &Vec<MapColor>) -> (res: Vec<MapColor>)
    ensures
        res@ == v@,
{
    let res = v.clone();
    assert(res@ =~= v@);
    res
}

/// Ends the occupations of provinces of owner color `co` by controller color `cc`.
fn clear_occupations(
    owners: &Vec<MapColor>,
    controllers: &mut Vec<MapColor>,
    co: MapColor,
    cc: MapColor,
    diffs: &mut Vec<(u16, ColorMapEvent)>,
)
    requires
        owners@.len() <= old(controllers)@.len(),
    ensures
        final(controllers)@.len() == old(controllers)@.len(),
        final(controllers)@ == clear_prefix(owners@, old(controllers)@, co, cc, owners@.len()).0,
        final(diffs)@ == old(diffs)@ + clear_prefix(owners@, old(controllers)@, co, cc, owners@.len()).1,
{
    let ghost c0 = controllers@;
    let ghost d0 = diffs@;
    let mut id: usize = 0;
    assert(d0 + seq![] =~= d0);
    while id < owners.len()
        invariant
            0 <= id <= owners@.len() <= c0.len(),
            controllers@ == clear_prefix(owners@, c0, co, cc, id as nat).0,
            diffs@ == d0 + clear_prefix(owners@, c0, co, cc, id as nat).1,
        decreases owners@.len() - id,
    {
        proof {
            lemma_clear_prefix(owners@, c0, co, cc, id as nat);
        }
        let ghost prev = clear_prefix(owners@, c0, co, cc, id as nat);
        if owners[id] == co && controllers[id] == cc {
            controllers.set(id, MapColor::black());
            diffs.push((id as u16, ColorMapEvent::Controller(MapColor::black())));
            assert(diffs@ =~= d0 + prev.1.push((id as u16, ColorMapEvent::Controller(MapColor::spec_black()))));
        }
        id = id + 1;
    }
    proof {
        lemma_clear_prefix(owners@, c0, co, cc, owners@.len());
    }
}

/// Turns the colors `from` of `colors` to `to`, noting each change.
pub(crate) fn recolor(
    colors: &mut Vec<MapColor>,
    from: MapColor,
    to: MapColor,
    owner: bool,
    diffs: &mut Vec<(u16, ColorMapEvent)>,
)
    ensures
        final(colors)@.len() == old(colors)@.len(),
        final(colors)@ == recolor_prefix(old(colors)@, from, to, old(colors)@.len(), owner).0,
        final(diffs)@ == old(diffs)@ + recolor_prefix(old(colors)@, from, to, old(colors)@.len(), owner).1,
{
    let ghost s0 = colors@;
    let ghost d0 = diffs@;
    let mut id: usize = 0;
    assert(d0 + seq![] =~= d0);
    proof {
        lemma_recolor_prefix(s0, from, to, 0, owner);
    }
    while id < colors.len()
        invariant
            0 <= id <= colors@.len() == s0.len(),
            colors@ == recolor_prefix(s0, from, to, id as nat, owner).0,
            diffs@ == d0 + recolor_prefix(s0, from, to, id as nat, owner).1,
        decreases colors@.len() - id,
    {
        proof {
            lemma_recolor_prefix(s0, from, to, id as nat, owner);
        }
        let ghost prev = recolor_prefix(s0, from, to, id as nat, owner);
        if colors[id] == from {
            colors.set(id, to);
            let ev = if owner {
                ColorMapEvent::Owner(to)
            } else {
                ColorMapEvent::Controller(to)
            };
            diffs.push((id as u16, ev));
            assert(diffs@ =~= d0 + prev.1.push((id as u16, ev)));
        }
        id = id + 1;
        proof {
            lemma_recolor_prefix(s0, from, to, id as nat, owner);
        }
    }
}

/// The war events of a date.
fn war_events_of_day(
    tags: &Vec<(String, MapColor)>,
    owners: &Vec<MapColor>,
    controllers: &mut Vec<MapColor>,
    diffs: &mut Vec<(u16, ColorMapEvent)>,
    events: &Vec<WarHistoryEvent>,
)
    requires
        owners@.len() <= old(controllers)@.len(),
    ensures
        final(controllers)@.len() == old(controllers)@.len(),
        (owners@, final(controllers)@) == war_day(tags@, (owners@, old(controllers)@), old(diffs)@, events@).0,
        final(diffs)@ == war_day(tags@, (owners@, old(controllers)@), old(diffs)@, events@).1,
{
    let ghost m0 = (owners@, controllers@);
    let ghost d0 = diffs@;
    let mut i: usize = 0;
    assert(events@.take(0) =~= Seq::<WarHistoryEvent>::empty());
    while i < events.len()
        invariant
            0 <= i <= events@.len(),
            m0.0 == owners@,
            owners@.len() <= controllers@.len(),
            controllers@.len() == m0.1.len(),
            (owners@, controllers@) == war_day(tags@, m0, d0, events@.take(i as int)).0,
            diffs@ == war_day(tags@, m0, d0, events@.take(i as int)).1,
        decreases events@.len() - i,
    {
        assert(events@.take(i + 1).drop_last() =~= events@.take(i as int));
        match &events[i] {
            WarHistoryEvent::RemoveOccupations(wo, wc) => {
                let co = find_tag_color(tags, wo.as_str());
                let cc = find_tag_color(tags, wc.as_str());
                match (co, cc) {
                    (Some(co), Some(cc)) => {
                        proof {
                            lemma_clear_prefix(owners@, controllers@, co, cc, owners@.len());
                        }
                        clear_occupations(owners, controllers, co, cc, diffs);
                    },
                    _ => {},
                }
            },
        }
        i = i + 1;
    }
    assert(events@.take(events@.len() as int) =~= events@);
}

/// The fake owners met so far, each by its province and the characters of its tag.
pub open spec fn fakes_view(v: Seq<(u16, &str)>) -> Seq<(u16, Seq<char>)> {
    v.map_values(|p: (u16, &str)| (p.0, p.1@))
}

fn has_fake(fakes: &Vec<(u16, &str)>, id: u16, tag: &str) -> (res: bool)
    ensures
        res == fakes_view(fakes@).contains((id, tag@)),
{
    let mut j: usize = 0;
    while j < fakes.len()
        invariant
            0 <= j <= fakes@.len(),
            forall|k: int| 0 <= k < j ==> fakes_view(fakes@)[k] != (id, tag@),
        decreases fakes@.len() - j,
    {
        if fakes[j].0 == id && str_eq(fakes[j].1, tag) {
            assert(fakes_view(fakes@)[j as int] == (id, tag@));
            return true;
        }
        j = j + 1;
    }
    false
}

fn has_id(v: &Vec<u16>, id: u16) -> (res: bool)
    ensures
        res == v@.contains(id),
{
    let mut j: usize = 0;
    while j < v.len()
        invariant
            0 <= j <= v@.len(),
            forall|k: int| 0 <= k < j ==> v@[k] != id,
        decreases v@.len() - j,
    {
        if v[j] == id {
            assert(v@[j as int] == id);
            return true;
        }
        j = j + 1;
    }
    false
}

/// The province events of a date.
fn province_events_of_day(
    tags: &Vec<(String, MapColor)>,
    owners: &mut Vec<MapColor>,
    controllers: &mut Vec<MapColor>,
    diffs: &mut Vec<(u16, ColorMapEvent)>,
    events: &Vec<(u16, ProvinceHistoryEvent)>,
)
    requires
        province_events_fit(old(owners)@.len(), old(controllers)@.len(), events@),
    ensures
        final(owners)@.len() == old(owners)@.len(),
        final(controllers)@.len() == old(controllers)@.len(),
        (final(owners)@, final(controllers)@) == province_day(
            tags@,
            (old(owners)@, old(controllers)@),
            old(diffs)@,
            events@,
        ).0,
        final(diffs)@ == province_day(tags@, (old(owners)@, old(controllers)@), old(diffs)@, events@).1,
{
    let ghost m0 = (owners@, controllers@);
    let ghost d0 = diffs@;
    let mut fakes: Vec<(u16, &str)> = Vec::new();
    let mut set: Vec<u16> = Vec::new();
    let mut i: usize = 0;
    assert(events@.take(0) =~= Seq::<(u16, ProvinceHistoryEvent)>::empty());
    assert(fakes_view(fakes@) =~= Seq::<(u16, Seq<char>)>::empty());
    while i < events.len()
        invariant
            0 <= i <= events@.len(),
            province_events_fit(m0.0.len(), m0.1.len(), events@),
            owners@.len() == m0.0.len(),
            controllers@.len() == m0.1.len(),
            (owners@, controllers@) == province_day(tags@, m0, d0, events@.take(i as int)).0,
            diffs@ == province_day(tags@, m0, d0, events@.take(i as int)).1,
            fakes_view(fakes@) == province_day(tags@, m0, d0, events@.take(i as int)).2,
            set@ == province_day(tags@, m0, d0, events@.take(i as int)).3,
        decreases events@.len() - i,
    {
        assert(events@.take(i + 1).drop_last() =~= events@.take(i as int));
        assert(events@.take(i + 1).last() == events@[i as int]);
        let id = events[i].0;
        match &events[i].1 {
            ProvinceHistoryEvent::Owner(t) => {
                let c = match find_tag_color(tags, t.as_str()) {
                    Some(c) => c,
                    None => MapColor::unclaimed(),
                };
                if owners[id as usize] != c {
                    owners.set(id as usize, c);
                    diffs.push((id, ColorMapEvent::Owner(c)));
                }
            },
            ProvinceHistoryEvent::FakeOwner(t) => {
                fakes.push((id, t.as_str()));
                assert(fakes_view(fakes@) =~= province_day(tags@, m0, d0, events@.take(i + 1)).2);
            },
            ProvinceHistoryEvent::Controller(t) => {
                if !has_fake(&fakes, id, t.as_str()) && !has_id(&set, id) {
                    let c = match find_tag_color(tags, t.as_str()) {
                        Some(c) => c,
                        None => MapColor::black(),
                    };
                    if controllers[id as usize] != c {
                        controllers.set(id as usize, c);
                        diffs.push((id, ColorMapEvent::Controller(c)));
                    }
                    set.push(id);
                }
            },
            _ => {},
        }
        i = i + 1;
    }
    assert(events@.take(events@.len() as int) =~= events@);
}

/// The country events of a date.
fn country_events_of_day(
    tags: &Vec<(String, MapColor)>,
    owners: &mut Vec<MapColor>,
    controllers: &mut Vec<MapColor>,
    diffs: &mut Vec<(u16, ColorMapEvent)>,
    events: &Vec<(String, CountryHistoryEvent)>,
)
    ensures
        final(owners)@.len() == old(owners)@.len(),
        final(controllers)@.len() == old(controllers)@.len(),
        (final(owners)@, final(controllers)@) == country_day(
            tags@,
            (old(owners)@, old(controllers)@),
            old(diffs)@,
            events@,
        ).0,
        final(diffs)@ == country_day(tags@, (old(owners)@, old(controllers)@), old(diffs)@, events@).1,
{
    let ghost m0 = (owners@, controllers@);
    let ghost d0 = diffs@;
    let mut i: usize = 0;
    assert(events@.take(0) =~= Seq::<(String, CountryHistoryEvent)>::empty());
    while i < events.len()
        invariant
            0 <= i <= events@.len(),
            owners@.len() == m0.0.len(),
            controllers@.len() == m0.1.len(),
            (owners@, controllers@) == country_day(tags@, m0, d0, events@.take(i as int)).0,
            diffs@ == country_day(tags@, m0, d0, events@.take(i as int)).1,
        decreases events@.len() - i,
    {
        assert(events@.take(i + 1).drop_last() =~= events@.take(i as int));
        assert(events@.take(i + 1).last() == events@[i as int]);
        match &events[i].1 {
            CountryHistoryEvent::ChangedTagFrom(p) => {
                let pc = find_tag_color(tags, p.as_str());
                let nc = find_tag_color(tags, events[i].0.as_str());
                match (pc, nc) {
                    (Some(pc), Some(nc)) => {
                        let ghost d1 = diffs@;
                        recolor(owners, pc, nc, true, diffs);
                        recolor(controllers, pc, nc, false, diffs);
                        assert(diffs@ =~= country_day(tags@, m0, d0, events@.take(i + 1)).1);
                    },
                    _ => {},
                }
            },
        }
        i = i + 1;
    }
    assert(events@.take(events@.len() as int) =~= events@);
}

/// The color maps of a span of dates: the full maps on its first date and on every 1 January,
/// and the changes of every date on which anything changed. A controller color of black means
/// that the owner controls the province.
#[derive(Debug, PartialEq, Eq, Clone)]
pub struct ColorMapManager {
    pub start_date: EU4Date,
    pub end_date: EU4Date,
    pub diffs: Vec<(EU4Date, Vec<(u16, ColorMapEvent)>)>,
    pub i_frames: Vec<(EU4Date, (Vec<MapColor>, Vec<MapColor>))>,
}

/// The province events of every date of `dates` fit maps of these lengths.
pub open spec fn history_fits(
    prov: Seq<(EU4Date, Vec<(u16, ProvinceHistoryEvent)>)>,
    olen: nat,
    clen: nat,
    dates: Seq<EU4Date>,
) -> bool {
    forall|d: EU4Date| dates.contains(d) ==> province_events_fit(olen, clen, #[trigger] on_date(prov, d))
}

impl ColorMapManager {
    /// Runs the histories over every date from `start_date` to `end_date`, from the maps
    /// `initial_owners` and `initial_controllers`; `nations` gives the map color of each tag.
    pub fn new(
        initial_owners: Vec<MapColor>,
        initial_controllers: Vec<MapColor>,
        province_history: &Vec<(EU4Date, Vec<(u16, ProvinceHistoryEvent)>)>,
        country_history: &Vec<(EU4Date, Vec<(String, CountryHistoryEvent)>)>,
        war_history: &Vec<(EU4Date, Vec<WarHistoryEvent>)>,
        nations: &Vec<(String, MapColor)>,
        start_date: EU4Date,
        end_date: EU4Date,
    ) -> (res: ColorMapManager)
        requires
            EU4Date::range_ok(start_date, end_date),
            keys_distinct(province_history@),
            keys_distinct(country_history@),
            keys_distinct(war_history@),
            initial_owners@.len() <= initial_controllers@.len(),
            history_fits(
                province_history@,
                initial_owners@.len(),
                initial_controllers@.len(),
                EU4Date::spec_range(start_date, end_date),
            ),
        ensures
            res.start_date == start_date,
            res.end_date == end_date,
            diffs_view(res.diffs@) == diff_log(
                province_history@,
                country_history@,
                war_history@,
                nations@,
                (initial_owners@, initial_controllers@),
                EU4Date::spec_range(start_date, end_date),
            ),
            frames_view(res.i_frames@) == frame_log(
                province_history@,
                country_history@,
                war_history@,
                nations@,
                (initial_owners@, initial_controllers@),
                start_date,
                EU4Date::spec_range(start_date, end_date),
            ),
    {
        let ghost prov = province_history@;
        let ghost country = country_history@;
        let ghost war = war_history@;
        let ghost tags = nations@;
        let ghost m0 = (initial_owners@, initial_controllers@);
        let dates = EU4Date::iter_range_inclusive(start_date, end_date);
        let mut owners = initial_owners;
        let mut controllers = initial_controllers;
        let mut diffs: Vec<(EU4Date, Vec<(u16, ColorMapEvent)>)> = Vec::new();
        let mut frames: Vec<(EU4Date, (Vec<MapColor>, Vec<MapColor>))> = Vec::new();
        frames.push((start_date, (copy_colors(&owners), copy_colors(&controllers))));
        let mut i: usize = 0;
        assert(dates@.take(0) =~= Seq::<EU4Date>::empty());
        assert(diffs_view(diffs@) =~= Seq::<(EU4Date, Seq<(u16, ColorMapEvent)>)>::empty());
        assert(frames_view(frames@) =~= seq![(start_date, m0)]);
        while i < dates.len()
            invariant
                0 <= i <= dates@.len(),
                dates@ == EU4Date::spec_range(start_date, end_date),
                keys_distinct(prov),
                keys_distinct(country),
                keys_distinct(war),
                prov == province_history@,
                country == country_history@,
                war == war_history@,
                tags == nations@,
                history_fits(prov, m0.0.len(), m0.1.len(), dates@),
                m0.0.len() <= m0.1.len(),
                owners@.len() == m0.0.len(),
                controllers@.len() == m0.1.len(),
                (owners@, controllers@) == after_days(prov, country, war, tags, m0, dates@.take(i as int)),
                diffs_view(diffs@) == diff_log(prov, country, war, tags, m0, dates@.take(i as int)),
                frames_view(frames@) == frame_log(prov, country, war, tags, m0, start_date, dates@.take(i as int)),
                frames@.len() >= 1,
            decreases dates@.len() - i,
        {
            let date = dates[i];
            let ghost before = dates@.take(i as int);
            let ghost m = (owners@, controllers@);
            assert(dates@.take(i + 1).drop_last() =~= before);
            assert(dates@.take(i + 1).last() == date);
            let mut day: Vec<(u16, ColorMapEvent)> = Vec::new();
            match find_group(war_history, &date) {
                Some(j) => {
                    war_events_of_day(nations, &owners, &mut controllers, &mut day, &war_history[j].1);
                },
                None => {},
            }
            let ghost w = war_day(tags, m, seq![], on_date(war, date));
            assert((owners@, controllers@) == w.0 && day@ == w.1);
            proof {
                assert(dates@.contains(date));
                assert(province_events_fit(m0.0.len(), m0.1.len(), on_date(prov, date)));
            }
            match find_group(province_history, &date) {
                Some(j) => {
                    province_events_of_day(
                        nations,
                        &mut owners,
                        &mut controllers,
                        &mut day,
                        &province_history[j].1,
                    );
                },
                None => {},
            }
            match find_group(country_history, &date) {
                Some(j) => {
                    country_events_of_day(
                        nations,
                        &mut owners,
                        &mut controllers,
                        &mut day,
                        &country_history[j].1,
                    );
                },
                None => {},
            }
            assert((owners@, controllers@) == day_step(prov, country, war, tags, m, date).0);
            assert(day@ == day_step(prov, country, war, tags, m, date).1);
            if date.month == Month::JAN && date.day == 1 {
                let frame = (copy_colors(&owners), copy_colors(&controllers));
                if i == 0 {
                    assert(frame_log(prov, country, war, tags, m0, start_date, before) == seq![(start_date, m0)]);
                    assert(frames_view(frames@).len() == frames@.len());
                    assert(frames@.len() == 1);
                    frames.set(0, (date, frame));
                    assert(dates@.take(i + 1).len() == 1);
                    assert(after_days(prov, country, war, tags, m0, dates@.take(i + 1)) == (owners@, controllers@));
                    assert(frames_view(frames@) =~= seq![(date, (owners@, controllers@))]);
                    assert(frames_view(frames@) =~= frame_log(prov, country, war, tags, m0, start_date, dates@.take(i + 1)));
                } else {
                    frames.push((date, frame));
                    assert(frames_view(frames@) =~= frame_log(prov, country, war, tags, m0, start_date, dates@.take(i + 1)));
                }
            }
            if day.len() > 0 {
                diffs.push((date, day));
                assert(diffs_view(diffs@) =~= diff_log(prov, country, war, tags, m0, dates@.take(i + 1)));
            }
            i = i + 1;
        }
        assert(dates@.take(dates@.len() as int) =~= dates@);
        ColorMapManager { start_date, end_date, diffs, i_frames: frames }
    }
}

/// All the changes of a log, date after date.
pub open spec fn flatten(log: Seq<(EU4Date, Seq<(u16, ColorMapEvent)>)>) -> Seq<(u16, ColorMapEvent)>
    decreases log.len(),
{
    if log.len() == 0 {
        seq![]
    } else {
        flatten(log.drop_last()) + log.last().1
    }
}

proof fn lemma_clear_replay(o: Seq<MapColor>, c: Seq<MapColor>, co: MapColor, cc: MapColor, k: nat)
    requires
        k <= o.len() <= c.len() <= 65536,
    ensures
        apply_events((o, c), clear_prefix(o, c, co, cc, k).1) == (o, clear_prefix(o, c, co, cc, k).0),
    decreases k,
{
    if k > 0 {
        lemma_clear_replay(o, c, co, cc, (k - 1) as nat);
        let i = k - 1;
        assert(((i as u16) as int) == i);
        let prev = clear_prefix(o, c, co, cc, (k - 1) as nat);
        if o[i] == co && c[i] == cc {
            let e = (i as u16, ColorMapEvent::Controller(MapColor::spec_black()));
            assert(prev.1.push(e).drop_last() =~= prev.1);
        }
    }
}

proof fn lemma_recolor_replay(
    s: Seq<MapColor>,
    other: Seq<MapColor>,
    from: MapColor,
    to: MapColor,
    k: nat,
    owner: bool,
)
    requires
        k <= s.len() <= 65536,
    ensures
        owner ==> apply_events((s, other), recolor_prefix(s, from, to, k, owner).1) == (
            recolor_prefix(s, from, to, k, owner).0,
            other,
        ),
        !owner ==> apply_events((other, s), recolor_prefix(s, from, to, k, owner).1) == (
            other,
            recolor_prefix(s, from, to, k, owner).0,
        ),
    decreases k,
{
    if k > 0 {
        lemma_recolor_replay(s, other, from, to, (k - 1) as nat, owner);
        let i = k - 1;
        assert(((i as u16) as int) == i);
        let prev = recolor_prefix(s, from, to, (k - 1) as nat, owner);
        if s[i] == from {
            let e = (
                i as u16,
                if owner {
                    ColorMapEvent::Owner(to)
                } else {
                    ColorMapEvent::Controller(to)
                },
            );
            assert(prev.1.push(e).drop_last() =~= prev.1);
        }
    }
}

proof fn lemma_fit_concat(
    m: (Seq<MapColor>, Seq<MapColor>),
    a: Seq<(u16, ColorMapEvent)>,
    b: Seq<(u16, ColorMapEvent)>,
)
    requires
        events_fit(m, a),
        events_fit(m, b),
    ensures
        events_fit(m, a + b),
{
    assert forall|i: int| 0 <= i < (a + b).len() implies event_fits(m, #[trigger] (a + b)[i]) by {
        if i < a.len() {
            assert((a + b)[i] == a[i]);
        } else {
            assert((a + b)[i] == b[i - a.len()]);
        }
    }
}

proof fn lemma_clear_fits(
    base: (Seq<MapColor>, Seq<MapColor>),
    o: Seq<MapColor>,
    c: Seq<MapColor>,
    co: MapColor,
    cc: MapColor,
    k: nat,
)
    requires
        k <= o.len() <= c.len() <= 65536,
        base.1.len() == c.len(),
    ensures
        events_fit(base, clear_prefix(o, c, co, cc, k).1),
    decreases k,
{
    if k > 0 {
        lemma_clear_fits(base, o, c, co, cc, (k - 1) as nat);
        let i = k - 1;
        assert(((i as u16) as int) == i);
        let prev = clear_prefix(o, c, co, cc, (k - 1) as nat);
        if o[i] == co && c[i] == cc {
            let e = (i as u16, ColorMapEvent::Controller(MapColor::spec_black()));
            lemma_fit_concat(base, prev.1, seq![e]);
            assert(prev.1 + seq![e] =~= prev.1.push(e));
        }
    }
}

proof fn lemma_recolor_fits(
    base: (Seq<MapColor>, Seq<MapColor>),
    s: Seq<MapColor>,
    from: MapColor,
    to: MapColor,
    k: nat,
    owner: bool,
)
    requires
        k <= s.len() <= 65536,
        owner ==> base.0.len() == s.len(),
        !owner ==> base.1.len() == s.len(),
    ensures
        events_fit(base, recolor_prefix(s, from, to, k, owner).1),
    decreases k,
{
    if k > 0 {
        lemma_recolor_fits(base, s, from, to, (k - 1) as nat, owner);
        let i = k - 1;
        assert(((i as u16) as int) == i);
        let prev = recolor_prefix(s, from, to, (k - 1) as nat, owner);
        if s[i] == from {
            let e = (
                i as u16,
                if owner {
                    ColorMapEvent::Owner(to)
                } else {
                    ColorMapEvent::Controller(to)
                },
            );
            lemma_fit_concat(base, prev.1, seq![e]);
            assert(prev.1 + seq![e] =~= prev.1.push(e));
        }
    }
}

proof fn lemma_war_day_replay(
    tags: Seq<(String, MapColor)>,
    base: (Seq<MapColor>, Seq<MapColor>),
    m: (Seq<MapColor>, Seq<MapColor>),
    d: Seq<(u16, ColorMapEvent)>,
    evs: Seq<WarHistoryEvent>,
)
    requires
        apply_events(base, d) == m,
        m.0.len() <= m.1.len() <= 65536,
        events_fit(base, d),
        base.0.len() == m.0.len(),
        base.1.len() == m.1.len(),
    ensures
        apply_events(base, war_day(tags, m, d, evs).1) == war_day(tags, m, d, evs).0,
        events_fit(base, war_day(tags, m, d, evs).1),
        war_day(tags, m, d, evs).0.0 == m.0,
        war_day(tags, m, d, evs).0.1.len() == m.1.len(),
    decreases evs.len(),
{
    if evs.len() > 0 {
        lemma_war_day_replay(tags, base, m, d, evs.drop_last());
        let prev = war_day(tags, m, d, evs.drop_last());
        match evs.last() {
            WarHistoryEvent::RemoveOccupations(wo, wc) => match (
                tag_color(tags, wo@),
                tag_color(tags, wc@),
            ) {
                (Some(co), Some(cc)) => {
                    lemma_clear_prefix(prev.0.0, prev.0.1, co, cc, prev.0.0.len());
                    lemma_clear_replay(prev.0.0, prev.0.1, co, cc, prev.0.0.len());
                    lemma_clear_fits(base, prev.0.0, prev.0.1, co, cc, prev.0.0.len());
                    lemma_fit_concat(base, prev.1, clear_prefix(prev.0.0, prev.0.1, co, cc, prev.0.0.len()).1);
                    lemma_apply_events_concat(
                        base,
                        prev.1,
                        clear_prefix(prev.0.0, prev.0.1, co, cc, prev.0.0.len()).1,
                    );
                },
                _ => {},
            },
        }
    }
}

proof fn lemma_province_day_replay(
    tags: Seq<(String, MapColor)>,
    base: (Seq<MapColor>, Seq<MapColor>),
    m: (Seq<MapColor>, Seq<MapColor>),
    d: Seq<(u16, ColorMapEvent)>,
    evs: Seq<(u16, ProvinceHistoryEvent)>,
)
    requires
        apply_events(base, d) == m,
        province_events_fit(m.0.len(), m.1.len(), evs),
        events_fit(base, d),
        base.0.len() == m.0.len(),
        base.1.len() == m.1.len(),
    ensures
        apply_events(base, province_day(tags, m, d, evs).1) == province_day(tags, m, d, evs).0,
        events_fit(base, province_day(tags, m, d, evs).1),
        province_day(tags, m, d, evs).0.0.len() == m.0.len(),
        province_day(tags, m, d, evs).0.1.len() == m.1.len(),
    decreases evs.len(),
{
    if evs.len() > 0 {
        assert(province_events_fit(m.0.len(), m.1.len(), evs.drop_last())) by {
            assert forall|i: int| 0 <= i < evs.drop_last().len() implies match (
                #[trigger] evs.drop_last()[i]).1 {
                ProvinceHistoryEvent::Owner(_) => evs.drop_last()[i].0 < m.0.len(),
                ProvinceHistoryEvent::Controller(_) => evs.drop_last()[i].0 < m.1.len(),
                _ => true,
            } by {
                assert(evs.drop_last()[i] == evs[i]);
            }
        }
        lemma_province_day_replay(tags, base, m, d, evs.drop_last());
        let prev = province_day(tags, m, d, evs.drop_last());
        let last = evs[evs.len() - 1];
        assert(evs.last() == last);
        match last.1 {
            ProvinceHistoryEvent::Owner(t) => {
                let c = match tag_color(tags, t@) {
                    Some(c) => c,
                    None => MapColor::spec_unclaimed(),
                };
                assert(prev.1.push((last.0, ColorMapEvent::Owner(c))).drop_last() =~= prev.1);
                lemma_fit_concat(base, prev.1, seq![(last.0, ColorMapEvent::Owner(c))]);
                assert(prev.1 + seq![(last.0, ColorMapEvent::Owner(c))] =~= prev.1.push((last.0, ColorMapEvent::Owner(c))));
            },
            ProvinceHistoryEvent::Controller(t) => {
                let c = match tag_color(tags, t@) {
                    Some(c) => c,
                    None => MapColor::spec_black(),
                };
                assert(prev.1.push((last.0, ColorMapEvent::Controller(c))).drop_last() =~= prev.1);
                lemma_fit_concat(base, prev.1, seq![(last.0, ColorMapEvent::Controller(c))]);
                assert(prev.1 + seq![(last.0, ColorMapEvent::Controller(c))] =~= prev.1.push((last.0, ColorMapEvent::Controller(c))));
            },
            _ => {},
        }
    }
}

proof fn lemma_country_day_replay(
    tags: Seq<(String, MapColor)>,
    base: (Seq<MapColor>, Seq<MapColor>),
    m: (Seq<MapColor>, Seq<MapColor>),
    d: Seq<(u16, ColorMapEvent)>,
    evs: Seq<(String, CountryHistoryEvent)>,
)
    requires
        apply_events(base, d) == m,
        m.0.len() <= 65536,
        m.1.len() <= 65536,
        events_fit(base, d),
        base.0.len() == m.0.len(),
        base.1.len() == m.1.len(),
    ensures
        apply_events(base, country_day(tags, m, d, evs).1) == country_day(tags, m, d, evs).0,
        events_fit(base, country_day(tags, m, d, evs).1),
        country_day(tags, m, d, evs).0.0.len() == m.0.len(),
        country_day(tags, m, d, evs).0.1.len() == m.1.len(),
    decreases evs.len(),
{
    if evs.len() > 0 {
        lemma_country_day_replay(tags, base, m, d, evs.drop_last());
        let prev = country_day(tags, m, d, evs.drop_last());
        match evs.last().1 {
            CountryHistoryEvent::ChangedTagFrom(p) => match (
                tag_color(tags, p@),
                tag_color(tags, evs.last().0@),
            ) {
                (Some(pc), Some(nc)) => {
                    let o = recolor_prefix(prev.0.0, pc, nc, prev.0.0.len(), true);
                    lemma_recolor_prefix(prev.0.0, pc, nc, prev.0.0.len(), true);
                    lemma_recolor_replay(prev.0.0, prev.0.1, pc, nc, prev.0.0.len(), true);
                    let c = recolor_prefix(prev.0.1, pc, nc, prev.0.1.len(), false);
                    lemma_recolor_prefix(prev.0.1, pc, nc, prev.0.1.len(), false);
                    lemma_recolor_replay(prev.0.1, o.0, pc, nc, prev.0.1.len(), false);
                    lemma_apply_events_concat(base, prev.1, o.1);
                    lemma_apply_events_concat(base, prev.1 + o.1, c.1);
                    lemma_recolor_fits(base, prev.0.0, pc, nc, prev.0.0.len(), true);
                    lemma_recolor_fits(base, prev.0.1, pc, nc, prev.0.1.len(), false);
                    lemma_fit_concat(base, prev.1, o.1);
                    lemma_fit_concat(base, prev.1 + o.1, c.1);
                },
                _ => {},
            },
        }
    }
}

pub(crate) proof fn lemma_day_replay(
    prov: Seq<(EU4Date, Vec<(u16, ProvinceHistoryEvent)>)>,
    country: Seq<(EU4Date, Vec<(String, CountryHistoryEvent)>)>,
    war: Seq<(EU4Date, Vec<WarHistoryEvent>)>,
    tags: Seq<(String, MapColor)>,
    m: (Seq<MapColor>, Seq<MapColor>),
    date: EU4Date,
)
    requires
        m.0.len() <= m.1.len() <= 65536,
        province_events_fit(m.0.len(), m.1.len(), on_date(prov, date)),
    ensures
        apply_events(m, day_step(prov, country, war, tags, m, date).1) == day_step(
            prov,
            country,
            war,
            tags,
            m,
            date,
        ).0,
        day_step(prov, country, war, tags, m, date).0.0.len() == m.0.len(),
        day_step(prov, country, war, tags, m, date).0.1.len() == m.1.len(),
        events_fit(m, day_step(prov, country, war, tags, m, date).1),
{
    assert(events_fit(m, Seq::<(u16, ColorMapEvent)>::empty()));
    let w = war_day(tags, m, seq![], on_date(war, date));
    lemma_war_day_replay(tags, m, m, seq![], on_date(war, date));
    let p = province_day(tags, w.0, w.1, on_date(prov, date));
    lemma_province_day_replay(tags, m, w.0, w.1, on_date(prov, date));
    lemma_country_day_replay(tags, m, p.0, p.1, on_date(country, date));
}

/// Replaying the changes that the run over `dates` records, date after date, from the first
/// maps gives the maps after every date (for maps of at most 65536 provinces, which the changes
/// can number).
pub proof fn lemma_replay_diffs(
    prov: Seq<(EU4Date, Vec<(u16, ProvinceHistoryEvent)>)>,
    country: Seq<(EU4Date, Vec<(String, CountryHistoryEvent)>)>,
    war: Seq<(EU4Date, Vec<WarHistoryEvent>)>,
    tags: Seq<(String, MapColor)>,
    m0: (Seq<MapColor>, Seq<MapColor>),
    dates: Seq<EU4Date>,
)
    requires
        m0.0.len() <= m0.1.len() <= 65536,
        history_fits(prov, m0.0.len(), m0.1.len(), dates),
    ensures
        apply_events(m0, flatten(diff_log(prov, country, war, tags, m0, dates))) == after_days(
            prov,
            country,
            war,
            tags,
            m0,
            dates,
        ),
        after_days(prov, country, war, tags, m0, dates).0.len() == m0.0.len(),
        after_days(prov, country, war, tags, m0, dates).1.len() == m0.1.len(),
    decreases dates.len(),
{
    if dates.len() > 0 {
        let prev = dates.drop_last();
        assert(history_fits(prov, m0.0.len(), m0.1.len(), prev)) by {
            assert forall|d: EU4Date| prev.contains(d) implies province_events_fit(
                m0.0.len(),
                m0.1.len(),
                #[trigger] on_date(prov, d),
            ) by {
                let k = choose|k: int| 0 <= k < prev.len() && prev[k] == d;
                assert(dates[k] == d);
            }
        }
        lemma_replay_diffs(prov, country, war, tags, m0, prev);
        let m = after_days(prov, country, war, tags, m0, prev);
        assert(dates[dates.len() - 1] == dates.last());
        assert(dates.contains(dates.last()));
        lemma_day_replay(prov, country, war, tags, m, dates.last());
        let log = diff_log(prov, country, war, tags, m0, prev);
        let ds = day_step(prov, country, war, tags, m, dates.last()).1;
        if ds.len() > 0 {
            assert(log.push((dates.last(), ds)).drop_last() =~= log);
            lemma_apply_events_concat(m0, flatten(log), ds);
        } else {
            assert(ds =~= Seq::<(u16, ColorMapEvent)>::empty());
        }
    }
}

/// The value of the last entry of `s` dated `d`, if any.
pub open spec fn last_at<T>(s: Seq<(EU4Date, T)>, d: EU4Date) -> Option<T>
    decreases s.len(),
{
    if s.len() == 0 {
        None
    } else if s.last().0 == d {
        Some(s.last().1)
    } else {
        last_at(s.drop_last(), d)
    }
}

/// The changes recorded for date `d` (none when it has no entry).
pub open spec fn events_at(diffs: Seq<(EU4Date, Vec<(u16, ColorMapEvent)>)>, d: EU4Date) -> Seq<(u16, ColorMapEvent)> {
    match last_at(diffs_view(diffs), d) {
        Some(e) => e,
        None => seq![],
    }
}

/// The search, from `curr` back a day at a time, for the latest date with full maps; it gives
/// up after the first date before `first`.
pub open spec fn search_frame(
    frames: Seq<(EU4Date, (Seq<MapColor>, Seq<MapColor>))>,
    curr: EU4Date,
    first: EU4Date,
) -> Option<(EU4Date, (Seq<MapColor>, Seq<MapColor>))>
    decreases (if curr.spec_lt(first) {
        0
    } else {
        curr.ord() - first.ord() + 1
    }),
{
    match last_at(frames, curr) {
        Some(f) => Some((curr, f)),
        None => if !curr.spec_lt(first) && curr.can_step_back() && curr.spec_yesterday().spec_lt(
            curr,
        ) {
            search_frame(frames, curr.spec_yesterday(), first)
        } else {
            None
        },
    }
}

/// The search of `search_frame` never steps back from the first day of the year 0.
pub open spec fn search_safe(
    frames: Seq<(EU4Date, (Seq<MapColor>, Seq<MapColor>))>,
    curr: EU4Date,
    first: EU4Date,
) -> bool
    decreases (if curr.spec_lt(first) {
        0
    } else {
        curr.ord() - first.ord() + 1
    }),
{
    match last_at(frames, curr) {
        Some(_) => true,
        None => curr.spec_lt(first) || (curr.can_step_back() && (curr.spec_yesterday().spec_lt(curr)
            ==> search_safe(frames, curr.spec_yesterday(), first))),
    }
}

/// `m` with the changes of every date from `from` up to the day before `to` applied.
pub open spec fn replay_until(
    diffs: Seq<(EU4Date, Vec<(u16, ColorMapEvent)>)>,
    m: (Seq<MapColor>, Seq<MapColor>),
    from: EU4Date,
    to: EU4Date,
) -> (Seq<MapColor>, Seq<MapColor>)
    decreases (if from.spec_lt(to) {
        to.ord() - from.ord()
    } else {
        0
    }),
{
    if from.spec_lt(to) && from.can_step() && from.spec_lt(from.spec_tomorrow()) {
        replay_until(diffs, apply_events(m, events_at(diffs, from)), from.spec_tomorrow(), to)
    } else {
        m
    }
}

/// The replay of `replay_until` never steps past the largest year and its changes fit.
pub open spec fn replay_safe(
    diffs: Seq<(EU4Date, Vec<(u16, ColorMapEvent)>)>,
    m: (Seq<MapColor>, Seq<MapColor>),
    from: EU4Date,
    to: EU4Date,
) -> bool
    decreases (if from.spec_lt(to) {
        to.ord() - from.ord()
    } else {
        0
    }),
{
    from.spec_lt(to) ==> (from.can_step() && events_fit(m, events_at(diffs, from)) && (from.spec_lt(
        from.spec_tomorrow(),
    ) ==> replay_safe(
        diffs,
        apply_events(m, events_at(diffs, from)),
        from.spec_tomorrow(),
        to,
    )))
}

fn frame_index(frames: &Vec<(EU4Date, (Vec<MapColor>, Vec<MapColor>))>, date: &EU4Date) -> (res: Option<usize>)
    ensures
        match res {
            Some(i) => i < frames@.len() && last_at(frames_view(frames@), *date) == Some(
                maps_view(frames@[i as int].1),
            ),
            None => last_at(frames_view(frames@), *date) is None,
        },
{
    let mut i: usize = frames.len();
    assert(frames_view(frames@).take(i as int) =~= frames_view(frames@));
    while i > 0
        invariant
            0 <= i <= frames@.len(),
            last_at(frames_view(frames@), *date) == last_at(frames_view(frames@).take(i as int), *date),
        decreases i,
    {
        assert(frames_view(frames@).take(i as int).drop_last() =~= frames_view(frames@).take(i - 1));
        if frames[i - 1].0 == *date {
            return Some(i - 1);
        }
        i = i - 1;
    }
    None
}

fn diff_index(diffs: &Vec<(EU4Date, Vec<(u16, ColorMapEvent)>)>, date: &EU4Date) -> (res: Option<usize>)
    ensures
        match res {
            Some(i) => i < diffs@.len() && events_at(diffs@, *date) == diffs@[i as int].1@,
            None => events_at(diffs@, *date) == Seq::<(u16, ColorMapEvent)>::empty(),
        },
{
    let mut i: usize = diffs.len();
    assert(diffs_view(diffs@).take(i as int) =~= diffs_view(diffs@));
    while i > 0
        invariant
            0 <= i <= diffs@.len(),
            last_at(diffs_view(diffs@), *date) == last_at(diffs_view(diffs@).take(i as int), *date),
        decreases i,
    {
        assert(diffs_view(diffs@).take(i as int).drop_last() =~= diffs_view(diffs@).take(i - 1));
        if diffs[i - 1].0 == *date {
            return Some(i - 1);
        }
        i = i - 1;
    }
    None
}

/// The changes recorded for `date` (none when it has no entry).
pub fn events_of_date(diffs: &Vec<(EU4Date, Vec<(u16, ColorMapEvent)>)>, date: &EU4Date) -> (res: Vec<(u16, ColorMapEvent)>)
    ensures
        res@ == events_at(diffs@, *date),
{
    match diff_index(diffs, date) {
        Some(i) => {
            let src = &diffs[i].1;
            let mut out: Vec<(u16, ColorMapEvent)> = Vec::new();
            let mut j: usize = 0;
            while j < src.len()
                invariant
                    0 <= j <= src@.len(),
                    out@ == src@.take(j as int),
                decreases src@.len() - j,
            {
                out.push(src[j]);
                assert(out@ =~= src@.take(j + 1));
                j = j + 1;
            }
            assert(src@.take(src@.len() as int) =~= src@);
            out
        },
        None => Vec::new(),
    }
}

impl ColorMapManager {
    /// The full maps of `date`: those kept for it, else those of the latest date with kept maps
    /// found going back from `date` to a year and a day before it, with the changes of each date
    /// from that date up to the day before `date` applied again. `None` when the search finds
    /// nothing.
    pub open spec fn spec_get_date(self, date: EU4Date) -> Option<(Seq<MapColor>, Seq<MapColor>)> {
        match last_at(frames_view(self.i_frames@), date) {
            Some(f) => Some(f),
            None => match search_frame(
                frames_view(self.i_frames@),
                date,
                EU4Date { year: (date.year - 1) as u64, month: date.month, day: date.day },
            ) {
                Some((d0, f)) => Some(replay_until(self.diffs@, f, d0, date)),
                None => None,
            },
        }
    }

    /// `get_date` neither steps outside the calendar nor applies a change to a province the
    /// maps lack.
    pub open spec fn get_date_ok(self, date: EU4Date) -> bool {
        let first = EU4Date { year: (date.year - 1) as u64, month: date.month, day: date.day };
        last_at(frames_view(self.i_frames@), date) is None ==> (date.year >= 1 && search_safe(
            frames_view(self.i_frames@),
            date,
            first,
        ) && match search_frame(frames_view(self.i_frames@), date, first) {
            Some((d0, f)) => replay_safe(self.diffs@, f, d0, date),
            None => true,
        })
    }

    /// The color maps of `date`, built from the kept maps and the changes (see `spec_get_date`).
    pub fn get_date(&self, date: &EU4Date) -> (res: Option<(Vec<MapColor>, Vec<MapColor>)>)
        requires
            self.get_date_ok(*date),
        ensures
            match self.spec_get_date(*date) {
                Some(m) => res matches Some(r) && maps_view(r) == m,
                None => res is None,
            },
    {
        if let Some(i) = frame_index(&self.i_frames, date) {
            let f = &self.i_frames[i].1;
            return Some((copy_colors(&f.0), copy_colors(&f.1)));
        }
        let first = date.with_year(date.year - 1);
        let ghost frames = frames_view(self.i_frames@);
        let mut curr = *date;
        let found: usize;
        loop
            invariant
                frames == frames_view(self.i_frames@),
                first == (EU4Date { year: (date.year - 1) as u64, month: date.month, day: date.day }),
                last_at(frames, *date) is None,
                search_safe(frames, curr, first),
                search_frame(frames, curr, first) == search_frame(frames, *date, first),
            ensures
                found < self.i_frames@.len(),
                search_frame(frames, *date, first) == Some((curr, maps_view(self.i_frames@[found as int].1))),
            decreases (if curr.spec_lt(first) {
                0
            } else {
                curr.ord() - first.ord() + 1
            }),
        {
            if let Some(i) = frame_index(&self.i_frames, &curr) {
                found = i;
                break;
            }
            if curr.is_before(&first) {
                return None;
            }
            curr = curr.yesterday();
        }
        let f = &self.i_frames[found].1;
        let mut maps = (copy_colors(&f.0), copy_colors(&f.1));
        let mut iter_date = curr;
        while iter_date.is_before(date)
            invariant
                replay_safe(self.diffs@, maps_view(maps), iter_date, *date),
                replay_until(self.diffs@, maps_view(maps), iter_date, *date) == replay_until(
                    self.diffs@,
                    maps_view(self.i_frames@[found as int].1),
                    curr,
                    *date,
                ),
            decreases (if iter_date.spec_lt(*date) {
                date.ord() - iter_date.ord()
            } else {
                0
            }),
        {
            self.apply_diffs(&iter_date, &mut maps);
            iter_date = iter_date.tomorrow();
        }
        Some(maps)
    }

    /// Applies the changes of `date`, if it has any, to `color_maps`.
    pub fn apply_diffs(&self, date: &EU4Date, color_maps: &mut (Vec<MapColor>, Vec<MapColor>))
        requires
            events_fit(maps_view(*old(color_maps)), events_at(self.diffs@, *date)),
        ensures
            maps_view(*final(color_maps)) == apply_events(
                maps_view(*old(color_maps)),
                events_at(self.diffs@, *date),
            ),
    {
        match diff_index(&self.diffs, date) {
            Some(i) => {
                ColorMapEvent::apply_many(color_maps, &self.diffs[i].1);
            },
            None => {},
        }
    }
}

/// The owner color that the last owner change of province `i` in `evs` sets, if any.
pub open spec fn last_owner_set(evs: Seq<(u16, ColorMapEvent)>, i: int) -> Option<MapColor>
    decreases evs.len(),
{
    if evs.len() == 0 {
        None
    } else {
        match evs.last() {
            (id, ColorMapEvent::Owner(c)) => if id as int == i {
                Some(c)
            } else {
                last_owner_set(evs.drop_last(), i)
            },
            _ => last_owner_set(evs.drop_last(), i),
        }
    }
}

/// The controller color that the last controller change of province `i` in `evs` sets, if any.
pub open spec fn last_controller_set(evs: Seq<(u16, ColorMapEvent)>, i: int) -> Option<MapColor>
    decreases evs.len(),
{
    if evs.len() == 0 {
        None
    } else {
        match evs.last() {
            (id, ColorMapEvent::Controller(c)) => if id as int == i {
                Some(c)
            } else {
                last_controller_set(evs.drop_last(), i)
            },
            _ => last_controller_set(evs.drop_last(), i),
        }
    }
}

/// Each color after the changes is the one the last change of it sets, else the color before.
pub proof fn lemma_apply_events_pointwise(m: (Seq<MapColor>, Seq<MapColor>), evs: Seq<(u16, ColorMapEvent)>)
    requires
        events_fit(m, evs),
    ensures
        apply_events(m, evs).0.len() == m.0.len(),
        apply_events(m, evs).1.len() == m.1.len(),
        forall|i: int|
            0 <= i < m.0.len() ==> #[trigger] apply_events(m, evs).0[i] == match last_owner_set(evs, i) {
                Some(c) => c,
                None => m.0[i],
            },
        forall|i: int|
            0 <= i < m.1.len() ==> #[trigger] apply_events(m, evs).1[i] == match last_controller_set(
                evs,
                i,
            ) {
                Some(c) => c,
                None => m.1[i],
            },
    decreases evs.len(),
{
    lemma_apply_events_len(m, evs);
    if evs.len() > 0 {
        assert(events_fit(m, evs.drop_last()));
        lemma_apply_events_pointwise(m, evs.drop_last());
        assert(event_fits(m, evs[evs.len() - 1]));
        lemma_apply_events_len(m, evs.drop_last());
    }
}

/// Applying the same changes twice is applying them once.
pub proof fn lemma_apply_events_twice(m: (Seq<MapColor>, Seq<MapColor>), evs: Seq<(u16, ColorMapEvent)>)
    requires
        events_fit(m, evs),
    ensures
        apply_events(apply_events(m, evs), evs) == apply_events(m, evs),
{
    let once = apply_events(m, evs);
    lemma_apply_events_pointwise(m, evs);
    assert forall|i: int| 0 <= i < evs.len() implies event_fits(once, #[trigger] evs[i]) by {
        assert(event_fits(m, evs[i]));
    }
    lemma_apply_events_pointwise(once, evs);
    let twice = apply_events(once, evs);
    assert(twice.0 =~= once.0);
    assert(twice.1 =~= once.1);
}

} // verus!
