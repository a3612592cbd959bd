//! What `ColorMapManager::get_date` gives for the managers that `ColorMapManager::new` builds.
use vstd::prelude::*;

use crate::color_map::{
    after_days, apply_events, day_step, diff_log, diffs_view, events_at, events_fit, frame_log,
    frames_view, history_fits, is_new_year, last_at, lemma_apply_events_twice, lemma_day_replay,
    lemma_replay_diffs, replay_safe, replay_until, search_frame, search_safe, ColorMapEvent,
    ColorMapManager, MapColor,
};
use crate::country_history::{CountryHistoryEvent, WarHistoryEvent};
use crate::eu4_date::{
    lemma_range_has_between, lemma_range_props, lemma_range_step, lemma_tomorrow_then_yesterday,
    valid_day, EU4Date, Month,
};
use crate::map_history::ProvinceHistoryEvent;
use crate::serialized_map::{
    increasing, lemma_events_at_on, lemma_fit_lengths, lemma_last_at_none, lemma_log_events_on,
};

verus! {

/// The dates of the entries of `frame_log` over dates that start at `start` are among them.
proof fn lemma_frame_keys(
    prov: Seq<(EU4Date, Vec<(u16, ProvinceHistoryEvent)>)>,
    country: Seq<(EU4Date, Vec<(String, CountryHistoryEvent)>)>,
    war: Seq<(EU4Date, Vec<WarHistoryEvent>)>,
    tags: Seq<(String, MapColor)>,
    m0: (Seq<MapColor>, Seq<MapColor>),
    dates: Seq<EU4Date>,
)
    requires
        dates.len() >= 1,
    ensures
        forall|i: int|
            0 <= i < frame_log(prov, country, war, tags, m0, dates[0], dates).len() ==> dates.contains(
                (#[trigger] frame_log(prov, country, war, tags, m0, dates[0], dates)[i]).0,
            ),
    decreases dates.len(),
{
    let f = frame_log(prov, country, war, tags, m0, dates[0], dates);
    let p = dates.drop_last();
    assert(dates[0] == dates[0]);
    if dates.len() == 1 {
        assert(p =~= Seq::<EU4Date>::empty());
        assert(frame_log(prov, country, war, tags, m0, dates[0], p) == seq![(dates[0], m0)]);
        assert(dates.last() == dates[0]);
        assert(f.len() == 1 && f[0].0 == dates[0]);
        assert forall|i: int| 0 <= i < f.len() implies dates.contains((#[trigger] f[i]).0) by {
            assert(f[i].0 == dates[0]);
        }
    } else {
        assert(p[0] == dates[0]);
        lemma_frame_keys(prov, country, war, tags, m0, p);
        let fp = frame_log(prov, country, war, tags, m0, dates[0], p);
        assert forall|i: int| 0 <= i < f.len() implies dates.contains((#[trigger] f[i]).0) by {
            if i < fp.len() {
                assert(f[i] == fp[i]);
                let j = choose|j: int| 0 <= j < p.len() && p[j] == fp[i].0;
                assert(dates[j] == p[j]);
            } else {
                assert(f[i].0 == dates.last());
                assert(dates[dates.len() - 1] == dates.last());
            }
        }
    }
}

/// Whether the run keeps full maps for its `k`-th date: the first date and every 1 January.
pub open spec fn kept(dates: Seq<EU4Date>, k: int) -> bool {
    k == 0 || is_new_year(dates[k])
}

/// The maps kept for the `k`-th date: those after the date on a 1 January, else (the first
/// date) those before it.
pub open spec fn kept_maps(
    prov: Seq<(EU4Date, Vec<(u16, ProvinceHistoryEvent)>)>,
    country: Seq<(EU4Date, Vec<(String, CountryHistoryEvent)>)>,
    war: Seq<(EU4Date, Vec<WarHistoryEvent>)>,
    tags: Seq<(String, MapColor)>,
    m0: (Seq<MapColor>, Seq<MapColor>),
    dates: Seq<EU4Date>,
    k: int,
) -> (Seq<MapColor>, Seq<MapColor>) {
    if is_new_year(dates[k]) {
        after_days(prov, country, war, tags, m0, dates.take(k + 1))
    } else {
        after_days(prov, country, war, tags, m0, dates.take(k))
    }
}

/// The kept maps of the `k`-th date of a run over increasing dates, if it has any.
proof fn lemma_frame_lookup(
    prov: Seq<(EU4Date, Vec<(u16, ProvinceHistoryEvent)>)>,
    country: Seq<(EU4Date, Vec<(String, CountryHistoryEvent)>)>,
    war: Seq<(EU4Date, Vec<WarHistoryEvent>)>,
    tags: Seq<(String, MapColor)>,
    m0: (Seq<MapColor>, Seq<MapColor>),
    dates: Seq<EU4Date>,
    k: int,
)
    requires
        increasing(dates),
        0 <= k < dates.len(),
    ensures
        last_at(frame_log(prov, country, war, tags, m0, dates[0], dates), dates[k]) == if kept(dates, k) {
            Some(kept_maps(prov, country, war, tags, m0, dates, k))
        } else {
            None::<(Seq<MapColor>, Seq<MapColor>)>
        },
    decreases dates.len(),
{
    let n = dates.len() - 1;
    let p = dates.drop_last();
    let f = frame_log(prov, country, war, tags, m0, dates[0], dates);
    assert(dates.last() == dates[n]);
    assert(dates.take(n + 1) =~= dates);
    if n == 0 {
        assert(p =~= Seq::<EU4Date>::empty());
        assert(dates.take(0) =~= Seq::<EU4Date>::empty());
        assert(frame_log(prov, country, war, tags, m0, dates[0], p) == seq![(dates[0], m0)]);
        assert(after_days(prov, country, war, tags, m0, dates.take(0)) == m0);
        if is_new_year(dates[0]) {
            assert(f == seq![(dates[0], after_days(prov, country, war, tags, m0, dates))]);
        } else {
            assert(f == seq![(dates[0], m0)]);
        }
    } else {
        assert(p[0] == dates[0]);
        assert(increasing(p));
        let fp = frame_log(prov, country, war, tags, m0, dates[0], p);
        if k < n {
            lemma_frame_lookup(prov, country, war, tags, m0, p, k);
            assert(p[k] == dates[k]);
            assert(p.take(k) =~= dates.take(k));
            assert(p.take(k + 1) =~= dates.take(k + 1));
            assert(dates[k].spec_lt(dates[n]));
            if is_new_year(dates[n]) {
                let frame = (dates[n], after_days(prov, country, war, tags, m0, dates));
                assert(fp.push(frame).drop_last() =~= fp);
            }
        } else {
            assert(p =~= dates.take(n));
            if !is_new_year(dates[n]) {
                lemma_frame_keys(prov, country, war, tags, m0, p);
                assert forall|i: int| 0 <= i < fp.len() implies (#[trigger] fp[i]).0 != dates[k] by {
                    let j = choose|j: int| 0 <= j < p.len() && p[j] == fp[i].0;
                    assert(dates[j] == p[j]);
                    assert(dates[j].spec_lt(dates[k]));
                }
                lemma_last_at_none(fp, dates[k]);
            }
        }
    }
}

/// The last date up to the `k`-th whose maps are kept.
pub open spec fn last_kept(dates: Seq<EU4Date>, k: int) -> int
    decreases k,
{
    if k <= 0 || is_new_year(dates[k]) {
        k
    } else {
        last_kept(dates, k - 1)
    }
}

proof fn lemma_last_kept(dates: Seq<EU4Date>, k: int)
    requires
        0 <= k,
    ensures
        0 <= last_kept(dates, k) <= k,
        kept(dates, last_kept(dates, k)),
        forall|i: int| last_kept(dates, k) < i <= k ==> !kept(dates, i),
    decreases k,
{
    if k > 0 && !is_new_year(dates[k]) {
        lemma_last_kept(dates, k - 1);
    }
}

/// The maps after the first `i` dates of a run.
pub open spec fn after_first(
    prov: Seq<(EU4Date, Vec<(u16, ProvinceHistoryEvent)>)>,
    country: Seq<(EU4Date, Vec<(String, CountryHistoryEvent)>)>,
    war: Seq<(EU4Date, Vec<WarHistoryEvent>)>,
    tags: Seq<(String, MapColor)>,
    m0: (Seq<MapColor>, Seq<MapColor>),
    dates: Seq<EU4Date>,
    i: int,
) -> (Seq<MapColor>, Seq<MapColor>) {
    after_days(prov, country, war, tags, m0, dates.take(i))
}

/// A date of the run with its changes: applying them to the maps after the dates before it
/// gives the maps after it, and they fit.
proof fn lemma_day_of_run(
    prov: Seq<(EU4Date, Vec<(u16, ProvinceHistoryEvent)>)>,
    country: Seq<(EU4Date, Vec<(String, CountryHistoryEvent)>)>,
    war: Seq<(EU4Date, Vec<WarHistoryEvent>)>,
    tags: Seq<(String, MapColor)>,
    m0: (Seq<MapColor>, Seq<MapColor>),
    dates: Seq<EU4Date>,
    diffs: Seq<(EU4Date, Vec<(u16, ColorMapEvent)>)>,
    i: int,
)
    requires
        increasing(dates),
        0 <= i < dates.len(),
        m0.0.len() <= m0.1.len() <= 65536,
        history_fits(prov, m0.0.len(), m0.1.len(), dates),
        diffs_view(diffs) == diff_log(prov, country, war, tags, m0, dates),
    ensures
        events_at(diffs, dates[i]) == day_step(
            prov,
            country,
            war,
            tags,
            after_first(prov, country, war, tags, m0, dates, i),
            dates[i],
        ).1,
        apply_events(after_first(prov, country, war, tags, m0, dates, i), events_at(diffs, dates[i]))
            == after_first(prov, country, war, tags, m0, dates, i + 1),
        events_fit(after_first(prov, country, war, tags, m0, dates, i), events_at(diffs, dates[i])),
        after_first(prov, country, war, tags, m0, dates, i).0.len() == m0.0.len(),
        after_first(prov, country, war, tags, m0, dates, i).1.len() == m0.1.len(),
{
    let pre = dates.take(i);
    assert(history_fits(prov, m0.0.len(), m0.1.len(), pre)) by {
        assert forall|d: EU4Date| pre.contains(d) implies crate::color_map::province_events_fit(
            m0.0.len(),
            m0.1.len(),
            #[trigger] crate::date_groups::on_date(prov, d),
        ) by {
            let j = choose|j: int| 0 <= j < pre.len() && pre[j] == d;
            assert(dates[j] == d);
        }
    }
    lemma_replay_diffs(prov, country, war, tags, m0, pre);
    let m = after_days(prov, country, war, tags, m0, pre);
    assert(dates.contains(dates[i]));
    lemma_day_replay(prov, country, war, tags, m, dates[i]);
    lemma_events_at_on(diffs, dates[i]);
    lemma_log_events_on(prov, country, war, tags, m0, dates, i);
    assert(dates.take(i + 1).drop_last() =~= pre);
    assert(dates.take(i + 1).last() == dates[i]);
}

/// Replaying the recorded changes from the maps after the first `i` dates, date by date up to
/// the day before the `k`-th, gives the maps after the first `k` dates.
proof fn lemma_replay_run(
    prov: Seq<(EU4Date, Vec<(u16, ProvinceHistoryEvent)>)>,
    country: Seq<(EU4Date, Vec<(String, CountryHistoryEvent)>)>,
    war: Seq<(EU4Date, Vec<WarHistoryEvent>)>,
    tags: Seq<(String, MapColor)>,
    m0: (Seq<MapColor>, Seq<MapColor>),
    start: EU4Date,
    end: EU4Date,
    diffs: Seq<(EU4Date, Vec<(u16, ColorMapEvent)>)>,
    i: int,
    k: int,
)
    requires
        EU4Date::range_ok(start, end),
        0 <= i <= k < EU4Date::spec_range(start, end).len(),
        m0.0.len() <= m0.1.len() <= 65536,
        history_fits(prov, m0.0.len(), m0.1.len(), EU4Date::spec_range(start, end)),
        diffs_view(diffs) == diff_log(prov, country, war, tags, m0, EU4Date::spec_range(start, end)),
    ensures
        ({
            let dates = EU4Date::spec_range(start, end);
            let m = after_first(prov, country, war, tags, m0, dates, i);
            &&& replay_until(diffs, m, dates[i], dates[k]) == after_first(prov, country, war, tags, m0, dates, k)
            &&& replay_safe(diffs, m, dates[i], dates[k])
        }),
    decreases k - i,
{
    let dates = EU4Date::spec_range(start, end);
    lemma_range_props(start, end);
    if i < k {
        lemma_range_step(start, end, i);
        lemma_day_of_run(prov, country, war, tags, m0, dates, diffs, i);
        assert(dates[i].spec_lt(dates[k]));
        if i + 1 < k {
            assert(dates[i + 1].spec_lt(dates[k]));
        }
        lemma_replay_run(prov, country, war, tags, m0, start, end, diffs, i + 1, k);
    }
}

/// The search back from the `i`-th date finds the `j`-th date and its kept maps.
proof fn lemma_search_run(
    frames: Seq<(EU4Date, (Seq<MapColor>, Seq<MapColor>))>,
    start: EU4Date,
    end: EU4Date,
    first: EU4Date,
    f: (Seq<MapColor>, Seq<MapColor>),
    j: int,
    i: int,
)
    requires
        EU4Date::range_ok(start, end),
        valid_day(start),
        0 <= j <= i < EU4Date::spec_range(start, end).len(),
        last_at(frames, EU4Date::spec_range(start, end)[j]) == Some(f),
        forall|l: int| j < l <= i ==> last_at(frames, #[trigger] EU4Date::spec_range(start, end)[l]) is None,
        !EU4Date::spec_range(start, end)[j].spec_lt(first),
    ensures
        search_frame(frames, EU4Date::spec_range(start, end)[i], first) == Some(
            (EU4Date::spec_range(start, end)[j], f),
        ),
        search_safe(frames, EU4Date::spec_range(start, end)[i], first),
    decreases i - j,
{
    let dates = EU4Date::spec_range(start, end);
    lemma_range_props(start, end);
    if i > j {
        lemma_range_step(start, end, i - 1);
        assert(valid_day(dates[i - 1]));
        lemma_tomorrow_then_yesterday(dates[i - 1]);
        assert(dates[i].spec_yesterday() == dates[i - 1]);
        assert(dates[j].spec_lt(dates[i]) || j == i);
        assert(!dates[i].spec_lt(first));
        assert(last_at(frames, dates[i]) is None);
        lemma_search_run(frames, start, end, first, f, j, i - 1);
    }
}

/// For the color maps that `ColorMapManager::new` builds over the dates from `start` to `end`
/// (from the maps `m0`), `get_date` of each of these dates is callable and gives the maps at
/// the start of that day, except on 1 January, where it gives the maps at the end of that day
/// (for a first date in year 1 or later, within its month, and maps of at most 65536
/// provinces).
pub proof fn lemma_get_date_of_run(
    prov: Seq<(EU4Date, Vec<(u16, ProvinceHistoryEvent)>)>,
    country: Seq<(EU4Date, Vec<(String, CountryHistoryEvent)>)>,
    war: Seq<(EU4Date, Vec<WarHistoryEvent>)>,
    tags: Seq<(String, MapColor)>,
    m0: (Seq<MapColor>, Seq<MapColor>),
    start: EU4Date,
    end: EU4Date,
    mgr: ColorMapManager,
    k: int,
)
    requires
        EU4Date::range_ok(start, end),
        valid_day(start),
        start.year >= 1,
        m0.0.len() <= m0.1.len() <= 65536,
        history_fits(prov, m0.0.len(), m0.1.len(), EU4Date::spec_range(start, end)),
        diffs_view(mgr.diffs@) == diff_log(prov, country, war, tags, m0, EU4Date::spec_range(start, end)),
        frames_view(mgr.i_frames@) == frame_log(
            prov,
            country,
            war,
            tags,
            m0,
            start,
            EU4Date::spec_range(start, end),
        ),
        0 <= k < EU4Date::spec_range(start, end).len(),
    ensures
        mgr.get_date_ok(EU4Date::spec_range(start, end)[k]),
        mgr.spec_get_date(EU4Date::spec_range(start, end)[k]) == Some(
            kept_maps(prov, country, war, tags, m0, EU4Date::spec_range(start, end), k),
        ),
{
    let dates = EU4Date::spec_range(start, end);
    let frames = frames_view(mgr.i_frames@);
    lemma_range_props(start, end);
    assert(increasing(dates));
    lemma_frame_lookup(prov, country, war, tags, m0, dates, k);
    let d = dates[k];
    if !kept(dates, k) {
        lemma_last_kept(dates, k);
        let j = last_kept(dates, k);
        let first = EU4Date { year: (d.year - 1) as u64, month: d.month, day: d.day };
        assert(d.year >= 1) by {
            assert(start.spec_lt(d));
        }
        lemma_frame_lookup(prov, country, war, tags, m0, dates, j);
        assert forall|l: int| j < l <= k implies last_at(frames, #[trigger] dates[l]) is None by {
            lemma_frame_lookup(prov, country, war, tags, m0, dates, l);
        }
        assert(!dates[j].spec_lt(first)) by {
            if dates[j].spec_lt(first) {
                let jan = EU4Date { year: d.year, month: Month::JAN, day: 1 };
                assert(valid_day(d));
                assert(first.spec_lt(jan));
                assert(!d.spec_lt(jan));
                assert(!jan.spec_lt(start));
                lemma_range_has_between(start, end, jan, k);
                let jj = choose|jj: int| 0 <= jj <= k && dates[jj] == jan;
                assert(is_new_year(dates[jj]));
                if jj <= j {
                    if jj < j {
                        assert(dates[jj].spec_lt(dates[j]));
                    }
                }
                assert(kept(dates, jj));
            }
        }
        let f = kept_maps(prov, country, war, tags, m0, dates, j);
        lemma_search_run(frames, start, end, first, f, j, k);
        assert(first == EU4Date { year: (d.year - 1) as u64, month: d.month, day: d.day });
        lemma_replay_run(prov, country, war, tags, m0, start, end, mgr.diffs@, j, k);
        if is_new_year(dates[j]) {
            lemma_range_step(start, end, j);
            lemma_day_of_run(prov, country, war, tags, m0, dates, mgr.diffs@, j);
            let before = after_first(prov, country, war, tags, m0, dates, j);
            lemma_apply_events_twice(before, events_at(mgr.diffs@, dates[j]));
            assert(dates[j].spec_lt(dates[k]));
            if j + 1 < k {
                assert(dates[j + 1].spec_lt(dates[k]));
            }
            lemma_replay_run(prov, country, war, tags, m0, start, end, mgr.diffs@, j + 1, k);
            lemma_day_of_run(prov, country, war, tags, m0, dates, mgr.diffs@, j + 1);
            assert(f == after_first(prov, country, war, tags, m0, dates, j + 1));
            lemma_fit_lengths(before, f, events_at(mgr.diffs@, dates[j]));
        }
    }
}

} // verus!
