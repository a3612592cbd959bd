//! A color map manager written out as text, to be sent and read back: its first and last dates
//! and, for each date with changes, the changes packed into bytes and written in base64.
use vstd::prelude::*;
use vstd::string::StringSliceAdditionalSpecFns;
use vstd::utf8::encode_utf8;

use crate::color_map::{
    after_days, apply_events, day_step, diff_log, diffs_view, events_at, events_fit, frame_log,
    frames_view, history_fits, is_new_year, last_at, lemma_day_replay, lemma_replay_diffs, maps_view,
    ColorMapEvent, ColorMapManager, MapColor,
};
use crate::country_history::{CountryHistoryEvent, WarHistoryEvent};
use crate::eu4_date::{
    lemma_range_props, lemma_text_roundtrip, valid_day, DateError, EU4Date, Month,
};
use crate::map_history::ProvinceHistoryEvent;

verus! {

/// `base64::DecodeError`: why a text is not base64.
#[verifier::external_type_specification]
#[verifier::external_body]
pub struct ExBase64DecodeError(base64::DecodeError);

/// The base64 text (standard alphabet, with padding) of `bytes`.
pub uninterp spec fn base64_text(bytes: Seq<u8>) -> Seq<char>;

/// The bytes that the base64 text `text` (standard alphabet) stands for, if it is base64.
pub uninterp spec fn base64_bytes(text: Seq<char>) -> Option<Seq<u8>>;

/// The length of the base64 text of `n` bytes fits in a `usize`.
pub open spec fn base64_len_ok(n: int) -> bool {
    if n % 3 > 0 {
        n / 3 * 4 + 4 <= usize::MAX
    } else {
        n / 3 * 4 <= usize::MAX
    }
}

/// `base64::Engine::encode` with the standard engine: the base64 text of `bytes`, which reads
/// back as `bytes`.
#[verifier::external_body]
fn base64_encode(bytes: &[u8]) -> (res: String)
    requires
        base64_len_ok(bytes@.len() as int),
    ensures
        res@ == base64_text(bytes@),
        base64_bytes(res@) == Some(bytes@),
{
    base64::Engine::encode(&base64::engine::general_purpose::STANDARD, bytes)
}

/// `base64::Engine::decode` with the standard engine: the bytes that `text` stands for, or the
/// reason it is not base64.
#[verifier::external_body]
fn base64_decode(text: &str) -> (res: Result<Vec<u8>, base64::DecodeError>)
    ensures
        match base64_bytes(text@) {
            Some(b) => res matches Ok(v) && v@ == b,
            None => res is Err,
        },
{
    base64::Engine::decode(&base64::engine::general_purpose::STANDARD, text)
}

/// The six bytes of a change: the province (big-endian), 0 for an owner or 1 for a controller
/// change, then the color.
pub open spec fn event_bytes(e: (u16, ColorMapEvent)) -> Seq<u8> {
    let (kind, c) = match e.1 {
        ColorMapEvent::Owner(c) => (0u8, c),
        ColorMapEvent::Controller(c) => (1u8, c),
    };
    seq![(e.0 / 256) as u8, (e.0 % 256) as u8, kind, c.r, c.g, c.b]
}

/// The bytes of the changes, one after the other.
pub open spec fn events_bytes(evs: Seq<(u16, ColorMapEvent)>) -> Seq<u8>
    decreases evs.len(),
{
    if evs.len() == 0 {
        seq![]
    } else {
        events_bytes(evs.drop_last()) + event_bytes(evs.last())
    }
}

/// The changes read from `b`: six bytes at a time, up to the first piece that is too short or
/// whose kind is neither 0 nor 1.
pub open spec fn read_events(b: Seq<u8>) -> Seq<(u16, ColorMapEvent)>
    decreases b.len(),
{
    if b.len() < 6 || b[2] > 1 {
        seq![]
    } else {
        let id = (b[0] as int * 256 + b[1] as int) as u16;
        let c = MapColor { r: b[3], g: b[4], b: b[5] };
        let e = if b[2] == 0 {
            ColorMapEvent::Owner(c)
        } else {
            ColorMapEvent::Controller(c)
        };
        seq![(id, e)] + read_events(b.subrange(6, b.len() as int))
    }
}

proof fn lemma_events_bytes_len(evs: Seq<(u16, ColorMapEvent)>)
    ensures
        events_bytes(evs).len() == 6 * evs.len(),
    decreases evs.len(),
{
    if evs.len() > 0 {
        lemma_events_bytes_len(evs.drop_last());
    }
}

/// `events_bytes` built from the front.
proof fn lemma_events_bytes_front(evs: Seq<(u16, ColorMapEvent)>)
    requires
        evs.len() > 0,
    ensures
        events_bytes(evs) == event_bytes(evs[0]) + events_bytes(evs.drop_first()),
    decreases evs.len(),
{
    if evs.len() == 1 {
        assert(evs.drop_first() =~= Seq::<(u16, ColorMapEvent)>::empty());
        assert(evs.drop_last() =~= Seq::<(u16, ColorMapEvent)>::empty());
        assert(events_bytes(evs.drop_last()) == Seq::<u8>::empty());
        assert(evs.last() == evs[0]);
        assert(events_bytes(evs.drop_first()) == Seq::<u8>::empty());
        assert(events_bytes(evs) =~= event_bytes(evs[0]));
    } else {
        lemma_events_bytes_front(evs.drop_last());
        assert(evs.drop_last().drop_first() =~= evs.drop_first().drop_last());
        assert(evs.drop_first().last() == evs.last());
        assert(events_bytes(evs) =~= event_bytes(evs[0]) + events_bytes(evs.drop_first()));
    }
}

/// Reading the bytes of changes gives the changes back.
pub proof fn lemma_read_events_bytes(evs: Seq<(u16, ColorMapEvent)>)
    ensures
        read_events(events_bytes(evs)) == evs,
    decreases evs.len(),
{
    if evs.len() == 0 {
        assert(read_events(Seq::<u8>::empty()) =~= Seq::<(u16, ColorMapEvent)>::empty());
    } else {
        lemma_events_bytes_front(evs);
        lemma_read_events_bytes(evs.drop_first());
        let b = events_bytes(evs);
        let e = evs[0];
        assert(b.subrange(0, 6) =~= event_bytes(e));
        assert(b.subrange(6, b.len() as int) =~= events_bytes(evs.drop_first()));
        assert(((e.0 / 256) as u8) as int * 256 + ((e.0 % 256) as u8) as int == e.0);
        assert(seq![e] + evs.drop_first() =~= evs);
    }
}

fn event_bytes_of(events: &Vec<(u16, ColorMapEvent)>) -> (res: Vec<u8>)
    requires
        6 * events@.len() <= usize::MAX,
    ensures
        res@ == events_bytes(events@),
{
    let mut out: Vec<u8> = Vec::new();
    let mut i: usize = 0;
    assert(events@.take(0) =~= Seq::<(u16, ColorMapEvent)>::empty());
    while i < events.len()
        invariant
            0 <= i <= events@.len(),
            out@ == events_bytes(events@.take(i as int)),
        decreases events@.len() - i,
    {
        assert(events@.take(i + 1).drop_last() =~= events@.take(i as int));
        let (id, ev) = events[i];
        let (kind, c) = match ev {
            ColorMapEvent::Owner(c) => (0u8, c),
            ColorMapEvent::Controller(c) => (1u8, c),
        };
        out.push((id / 256) as u8);
        out.push((id % 256) as u8);
        out.push(kind);
        out.push(c.r);
        out.push(c.g);
        out.push(c.b);
        assert(out@ =~= events_bytes(events@.take(i + 1)));
        i = i + 1;
    }
    assert(events@.take(events@.len() as int) =~= events@);
    out
}

/// Reads changes from bytes (see `read_events`).
pub fn decode_events(b: &[u8]) -> (res: Vec<(u16, ColorMapEvent)>)
    ensures
        res@ == read_events(b@),
{
    let mut out: Vec<(u16, ColorMapEvent)> = Vec::new();
    let mut i: usize = 0;
    assert(b@.subrange(0, b@.len() as int) =~= b@);
    assert(out@ + read_events(b@.subrange(0, b@.len() as int)) =~= read_events(b@));
    loop
        invariant
            i <= b@.len(),
            out@ + read_events(b@.subrange(i as int, b@.len() as int)) == read_events(b@),
        decreases b@.len() - i,
    {
        let ghost rest = b@.subrange(i as int, b@.len() as int);
        if b.len() - i < 6 || b[i + 2] > 1 {
            assert(read_events(rest) =~= Seq::<(u16, ColorMapEvent)>::empty());
            assert(out@ + read_events(rest) =~= out@);
            return out;
        }
        let id = (b[i] as u16) * 256 + (b[i + 1] as u16);
        let c = MapColor { r: b[i + 3], g: b[i + 4], b: b[i + 5] };
        let e = if b[i + 2] == 0 {
            ColorMapEvent::Owner(c)
        } else {
            ColorMapEvent::Controller(c)
        };
        let ghost before = out@;
        out.push((id, e));
        assert(rest.subrange(6, rest.len() as int) =~= b@.subrange(i + 6, b@.len() as int));
        assert(out@ + read_events(b@.subrange(i + 6, b@.len() as int)) =~= before + read_events(rest));
        i = i + 6;
    }
}

/// A color map manager written out as text: its first and last dates, and for each date with
/// changes the date and the base64 text of the bytes of its changes.
#[derive(Debug, PartialEq, Eq, Clone)]
pub struct SerializedColorMapManager {
    pub start_date: String,
    pub end_date: String,
    pub diffs: Vec<(String, String)>,
}

/// The base64 texts of the changes of every entry fit in a `usize`.
pub open spec fn diffs_encodable(diffs: Seq<(EU4Date, Vec<(u16, ColorMapEvent)>)>) -> bool {
    forall|i: int| 0 <= i < diffs.len() ==> base64_len_ok(6 * (#[trigger] diffs[i]).1@.len() as int)
}

/// Why a written-out color map manager cannot be read back.
#[derive(Debug, PartialEq, Eq, Clone, Copy)]
pub enum SerializedMapError {
    /// The first date is not a date.
    StartDate(DateError),
    /// The last date is not a date.
    EndDate(DateError),
    /// The date of a group of changes is not a date.
    Date(DateError),
    /// The changes of a date are not base64.
    Events,
    /// A change applied on the way is for a province the maps lack.
    Province,
}

impl SerializedColorMapManager {
    /// Writes `manager` out: its dates as text and the changes of each date as base64.
    pub fn encode(manager: &ColorMapManager) -> (res: Self)
        requires
            diffs_encodable(manager.diffs@),
        ensures
            res.start_date@ == manager.start_date.spec_text(),
            res.end_date@ == manager.end_date.spec_text(),
            res.diffs@.len() == manager.diffs@.len(),
            forall|i: int|
                0 <= i < res.diffs@.len() ==> (#[trigger] res.diffs@[i]).0@ == manager.diffs@[i].0.spec_text()
                    && res.diffs@[i].1@ == base64_text(events_bytes(manager.diffs@[i].1@))
                    && base64_bytes(res.diffs@[i].1@) == Some(events_bytes(manager.diffs@[i].1@)),
    {
        let mut diffs: Vec<(String, String)> = Vec::new();
        let mut i: usize = 0;
        while i < manager.diffs.len()
            invariant
                0 <= i <= manager.diffs@.len(),
                diffs_encodable(manager.diffs@),
                diffs@.len() == i,
                forall|k: int|
                    0 <= k < i ==> (#[trigger] diffs@[k]).0@ == manager.diffs@[k].0.spec_text()
                        && diffs@[k].1@ == base64_text(events_bytes(manager.diffs@[k].1@))
                        && base64_bytes(diffs@[k].1@) == Some(events_bytes(manager.diffs@[k].1@)),
            decreases manager.diffs@.len() - i,
        {
            let entry = &manager.diffs[i];
            assert(base64_len_ok(6 * manager.diffs@[i as int].1@.len() as int));
            proof {
                lemma_events_bytes_len(entry.1@);
            }
            let bytes = event_bytes_of(&entry.1);
            let text = base64_encode(bytes.as_slice());
            diffs.push((entry.0.to_text(), text));
            i = i + 1;
        }
        SerializedColorMapManager {
            start_date: manager.start_date.to_text(),
            end_date: manager.end_date.to_text(),
            diffs,
        }
    }
}

/// The changes of date `d` in changes by date (the last entry of `d`; none without one).
pub open spec fn events_on(ds: Seq<(EU4Date, Seq<(u16, ColorMapEvent)>)>, d: EU4Date) -> Seq<(u16, ColorMapEvent)> {
    match last_at(ds, d) {
        Some(e) => e,
        None => seq![],
    }
}

/// `m0` with the changes of every date of `dates` applied in turn.
pub open spec fn replay_days(
    ds: Seq<(EU4Date, Seq<(u16, ColorMapEvent)>)>,
    m0: (Seq<MapColor>, Seq<MapColor>),
    dates: Seq<EU4Date>,
) -> (Seq<MapColor>, Seq<MapColor>)
    decreases dates.len(),
{
    if dates.len() == 0 {
        m0
    } else {
        apply_events(replay_days(ds, m0, dates.drop_last()), events_on(ds, dates.last()))
    }
}

/// The changes of every date of `dates` fit maps of the lengths of `m0`.
pub open spec fn replay_fits(
    ds: Seq<(EU4Date, Seq<(u16, ColorMapEvent)>)>,
    m0: (Seq<MapColor>, Seq<MapColor>),
    dates: Seq<EU4Date>,
) -> bool {
    forall|d: EU4Date| dates.contains(d) ==> events_fit(m0, #[trigger] events_on(ds, d))
}

/// The full maps rebuilt over the dates `dates` that start at `start`: `start` with `m0`, and
/// each 1 January with its maps after that date (a 1 January `start` keeps only the latter).
pub open spec fn rebuilt_frames(
    ds: Seq<(EU4Date, Seq<(u16, ColorMapEvent)>)>,
    m0: (Seq<MapColor>, Seq<MapColor>),
    start: EU4Date,
    dates: Seq<EU4Date>,
) -> Seq<(EU4Date, (Seq<MapColor>, Seq<MapColor>))>
    decreases dates.len(),
{
    if dates.len() == 0 {
        seq![(start, m0)]
    } else {
        let prev = rebuilt_frames(ds, m0, start, dates.drop_last());
        let d = dates.last();
        if is_new_year(d) {
            let frame = (d, replay_days(ds, m0, dates));
            if dates.len() == 1 {
                seq![frame]
            } else {
                prev.push(frame)
            }
        } else {
            prev
        }
    }
}

pub(crate) proof fn lemma_events_at_on(diffs: Seq<(EU4Date, Vec<(u16, ColorMapEvent)>)>, d: EU4Date)
    ensures
        events_at(diffs, d) == events_on(diffs_view(diffs), d),
{
}

/// Events that fit maps fit every map of the same lengths.
pub(crate) proof fn lemma_fit_lengths(
    m: (Seq<MapColor>, Seq<MapColor>),
    n: (Seq<MapColor>, Seq<MapColor>),
    evs: Seq<(u16, ColorMapEvent)>,
)
    requires
        events_fit(m, evs),
        m.0.len() == n.0.len(),
        m.1.len() == n.1.len(),
    ensures
        events_fit(n, evs),
{
    assert forall|i: int| 0 <= i < evs.len() implies crate::color_map::event_fits(n, #[trigger] evs[i]) by {
        assert(crate::color_map::event_fits(m, evs[i]));
    }
}

/// Rebuilds a color map manager from its changes: the maps start as `initial_owners` and
/// `initial_controllers` and take the changes of every date from `start_date` to `end_date`.
pub fn from_diffs(
    start_date: EU4Date,
    end_date: EU4Date,
    diffs: Vec<(EU4Date, Vec<(u16, ColorMapEvent)>)>,
    initial_owners: Vec<MapColor>,
    initial_controllers: Vec<MapColor>,
) -> (res: ColorMapManager)
    requires
        EU4Date::range_ok(start_date, end_date),
        replay_fits(
            diffs_view(diffs@),
            (initial_owners@, initial_controllers@),
            EU4Date::spec_range(start_date, end_date),
        ),
    ensures
        res.start_date == start_date,
        res.end_date == end_date,
        res.diffs@ == diffs@,
        frames_view(res.i_frames@) == rebuilt_frames(
            diffs_view(diffs@),
            (initial_owners@, initial_controllers@),
            start_date,
            EU4Date::spec_range(start_date, end_date),
        ),
{
    let ghost m0 = (initial_owners@, initial_controllers@);
    let ghost ds = diffs_view(diffs@);
    let dates = EU4Date::iter_range_inclusive(start_date, end_date);
    let mut maps = (initial_owners, initial_controllers);
    let mut frames: Vec<(EU4Date, (Vec<MapColor>, Vec<MapColor>))> = Vec::new();
    frames.push((start_date, (maps.0.clone(), maps.1.clone())));
    assert(frames@[0].1.0@ =~= m0.0 && frames@[0].1.1@ =~= m0.1);
    let manager = ColorMapManager { start_date, end_date, diffs, i_frames: Vec::new() };
    let mut i: usize = 0;
    assert(dates@.take(0) =~= Seq::<EU4Date>::empty());
    assert(frames_view(frames@) =~= seq![(start_date, m0)]);
    while i < dates.len()
        invariant
            0 <= i <= dates@.len(),
            dates@ == EU4Date::spec_range(start_date, end_date),
            ds == diffs_view(manager.diffs@),
            replay_fits(ds, m0, dates@),
            maps.0@.len() == m0.0.len(),
            maps.1@.len() == m0.1.len(),
            maps_view(maps) == replay_days(ds, m0, dates@.take(i as int)),
            frames_view(frames@) == rebuilt_frames(ds, m0, start_date, dates@.take(i as int)),
            frames@.len() >= 1,
        decreases dates@.len() - i,
    {
        let date = dates[i];
        let ghost before = dates@.take(i as int);
        assert(dates@.take(i + 1).drop_last() =~= before);
        assert(dates@.take(i + 1).last() == date);
        proof {
            assert(dates@.contains(date));
            assert(events_fit(m0, events_on(ds, date)));
            lemma_fit_lengths(m0, maps_view(maps), events_on(ds, date));
            lemma_events_at_on(manager.diffs@, date);
        }
        manager.apply_diffs(&date, &mut maps);
        proof {
            crate::color_map::lemma_apply_events_len(
                replay_days(ds, m0, before),
                events_on(ds, date),
            );
        }
        if date.month == Month::JAN && date.day == 1 {
            let frame = (maps.0.clone(), maps.1.clone());
            assert(frame.0@ =~= maps.0@ && frame.1@ =~= maps.1@);
            if i == 0 {
                assert(frames_view(frames@).len() == frames@.len());
                frames.set(0, (date, frame));
                assert(frames_view(frames@) =~= rebuilt_frames(ds, m0, start_date, dates@.take(i + 1)));
            } else {
                frames.push((date, frame));
                assert(frames_view(frames@) =~= rebuilt_frames(ds, m0, start_date, dates@.take(i + 1)));
            }
        }
        i = i + 1;
    }
    assert(dates@.take(dates@.len() as int) =~= dates@);
    ColorMapManager { start_date, end_date, diffs: manager.diffs, i_frames: frames }
}

/// The changes by date that written-out entries read back as: each date's text read as a date
/// and its base64 text read as changes; the first entry that fails gives the error.
pub open spec fn decoded_diffs(entries: Seq<(String, String)>) -> Result<
    Seq<(EU4Date, Seq<(u16, ColorMapEvent)>)>,
    SerializedMapError,
>
    decreases entries.len(),
{
    if entries.len() == 0 {
        Ok(seq![])
    } else {
        match decoded_diffs(entries.drop_last()) {
            Err(e) => Err(e),
            Ok(prev) => match base64_bytes(entries.last().1@) {
                None => Err(SerializedMapError::Events),
                Some(b) => match EU4Date::spec_parse(encode_utf8(entries.last().0@)) {
                    Err(e) => Err(SerializedMapError::Date(e)),
                    Ok(d) => Ok(prev.push((d, read_events(b)))),
                },
            },
        }
    }
}

/// What reading back a written-out manager gives: its first and last dates, its changes by
/// date, and the full maps rebuilt from `m0`; or why it cannot be read.
pub open spec fn spec_decode(
    start_text: Seq<char>,
    end_text: Seq<char>,
    entries: Seq<(String, String)>,
    m0: (Seq<MapColor>, Seq<MapColor>),
) -> Result<
    (
        EU4Date,
        EU4Date,
        Seq<(EU4Date, Seq<(u16, ColorMapEvent)>)>,
        Seq<(EU4Date, (Seq<MapColor>, Seq<MapColor>))>,
    ),
    SerializedMapError,
> {
    match EU4Date::spec_parse(encode_utf8(start_text)) {
        Err(e) => Err(SerializedMapError::StartDate(e)),
        Ok(start) => match EU4Date::spec_parse(encode_utf8(end_text)) {
            Err(e) => Err(SerializedMapError::EndDate(e)),
            Ok(end) => match decoded_diffs(entries) {
                Err(e) => Err(e),
                Ok(ds) => if replay_fits(ds, m0, EU4Date::spec_range(start, end)) {
                    Ok((start, end, ds, rebuilt_frames(ds, m0, start, EU4Date::spec_range(start, end))))
                } else {
                    Err(SerializedMapError::Province)
                },
            },
        },
    }
}

fn decode_entries(entries: &Vec<(String, String)>) -> (res: Result<
    Vec<(EU4Date, Vec<(u16, ColorMapEvent)>)>,
    SerializedMapError,
>)
    ensures
        match decoded_diffs(entries@) {
            Ok(ds) => res matches Ok(v) && diffs_view(v@) == ds,
            Err(e) => res == Err::<Vec<(EU4Date, Vec<(u16, ColorMapEvent)>)>, SerializedMapError>(e),
        },
{
    let mut out: Vec<(EU4Date, Vec<(u16, ColorMapEvent)>)> = Vec::new();
    let mut i: usize = 0;
    assert(entries@.take(0) =~= Seq::<(String, String)>::empty());
    assert(diffs_view(out@) =~= Seq::<(EU4Date, Seq<(u16, ColorMapEvent)>)>::empty());
    while i < entries.len()
        invariant
            0 <= i <= entries@.len(),
            decoded_diffs(entries@.take(i as int)) matches Ok(ds) && diffs_view(out@) == ds,
        decreases entries@.len() - i,
    {
        assert(entries@.take(i + 1).drop_last() =~= entries@.take(i as int));
        assert(entries@.take(i + 1).last() == entries@[i as int]);
        let bytes = match base64_decode(entries[i].1.as_str()) {
            Ok(b) => b,
            Err(_) => {
                proof {
                    lemma_decoded_diffs_prefix_err(entries@, i as int + 1);
                }
                return Err(SerializedMapError::Events);
            },
        };
        let events = decode_events(bytes.as_slice());
        let date = match EU4Date::parse_text(entries[i].0.as_str()) {
            Ok(d) => d,
            Err(e) => {
                proof {
                    lemma_decoded_diffs_prefix_err(entries@, i as int + 1);
                }
                return Err(SerializedMapError::Date(e));
            },
        };
        let ghost before = out@;
        out.push((date, events));
        assert(diffs_view(out@) =~= diffs_view(before).push((date, events@)));
        i = i + 1;
    }
    assert(entries@.take(entries@.len() as int) =~= entries@);
    Ok(out)
}

/// An error in the first `k` entries is the error of all of them.
proof fn lemma_decoded_diffs_prefix_err(entries: Seq<(String, String)>, k: int)
    requires
        0 <= k <= entries.len(),
        decoded_diffs(entries.take(k)) is Err,
    ensures
        decoded_diffs(entries) == decoded_diffs(entries.take(k)),
    decreases entries.len() - k,
{
    if k < entries.len() {
        assert(entries.take(k + 1).drop_last() =~= entries.take(k));
        lemma_decoded_diffs_prefix_err(entries, k + 1);
    } else {
        assert(entries.take(k) =~= entries);
    }
}

/// Whether the changes of every date from `start` to `end` fit maps of these lengths.
fn check_fits(
    diffs: &Vec<(EU4Date, Vec<(u16, ColorMapEvent)>)>,
    olen: usize,
    clen: usize,
    start: EU4Date,
    end: EU4Date,
    Ghost(m0): Ghost<(Seq<MapColor>, Seq<MapColor>)>,
) -> (res: bool)
    requires
        EU4Date::range_ok(start, end),
        m0.0.len() == olen,
        m0.1.len() == clen,
    ensures
        res == replay_fits(diffs_view(diffs@), m0, EU4Date::spec_range(start, end)),
{
    let dates = EU4Date::iter_range_inclusive(start, end);
    let ghost ds = diffs_view(diffs@);
    let ghost f = |d: EU4Date| events_fit(m0, events_on(ds, d));
    let mut i: usize = 0;
    while i < dates.len()
        invariant
            0 <= i <= dates@.len(),
            dates@ == EU4Date::spec_range(start, end),
            ds == diffs_view(diffs@),
            m0.0.len() == olen,
            m0.1.len() == clen,
            forall|k: int| 0 <= k < i ==> events_fit(m0, #[trigger] events_on(ds, dates@[k])),
        decreases dates@.len() - i,
    {
        let date = dates[i];
        let evs = crate::color_map::events_of_date(diffs, &date);
        proof {
            lemma_events_at_on(diffs@, date);
        }
        let mut j: usize = 0;
        while j < evs.len()
            invariant
                0 <= j <= evs@.len(),
                i < dates@.len(),
                dates@ == EU4Date::spec_range(start, end),
                ds == diffs_view(diffs@),
                date == dates@[i as int],
                evs@ == events_on(ds, date),
                m0.0.len() == olen,
                m0.1.len() == clen,
                forall|k: int| 0 <= k < j ==> crate::color_map::event_fits(m0, #[trigger] evs@[k]),
            decreases evs@.len() - j,
        {
            let (id, ev) = evs[j];
            let ok = match ev {
                ColorMapEvent::Owner(_) => (id as usize) < olen,
                ColorMapEvent::Controller(_) => (id as usize) < clen,
            };
            if !ok {
                proof {
                    assert(!crate::color_map::event_fits(m0, evs@[j as int]));
                    assert(!events_fit(m0, events_on(ds, date)));
                    assert(dates@[i as int] == date);
                    assert(dates@.contains(date));
                }
                return false;
            }
            j = j + 1;
        }
        i = i + 1;
    }
    proof {
        assert forall|d: EU4Date| dates@.contains(d) implies events_fit(m0, #[trigger] events_on(ds, d)) by {
            let k = choose|k: int| 0 <= k < dates@.len() && dates@[k] == d;
            assert(events_fit(m0, events_on(ds, dates@[k])));
        }
    }
    true
}

impl SerializedColorMapManager {
    /// Reads a written-out manager back, rebuilding its full maps from `initial_owners` and
    /// `initial_controllers` (see `spec_decode`).
    pub fn decode(&self, initial_owners: Vec<MapColor>, initial_controllers: Vec<MapColor>) -> (res: Result<
        ColorMapManager,
        SerializedMapError,
    >)
        requires
            match (
                EU4Date::spec_parse(encode_utf8(self.start_date@)),
                EU4Date::spec_parse(encode_utf8(self.end_date@)),
            ) {
                (Ok(s), Ok(e)) => EU4Date::range_ok(s, e),
                _ => true,
            },
        ensures
            match spec_decode(
                self.start_date@,
                self.end_date@,
                self.diffs@,
                (initial_owners@, initial_controllers@),
            ) {
                Ok((s, e, ds, frames)) => res matches Ok(m) && m.start_date == s && m.end_date == e
                    && diffs_view(m.diffs@) == ds && frames_view(m.i_frames@) == frames,
                Err(err) => res == Err::<ColorMapManager, SerializedMapError>(err),
            },
    {
        let start = match EU4Date::parse_text(self.start_date.as_str()) {
            Ok(d) => d,
            Err(e) => {
                return Err(SerializedMapError::StartDate(e));
            },
        };
        let end = match EU4Date::parse_text(self.end_date.as_str()) {
            Ok(d) => d,
            Err(e) => {
                return Err(SerializedMapError::EndDate(e));
            },
        };
        let diffs = match decode_entries(&self.diffs) {
            Ok(d) => d,
            Err(e) => {
                return Err(e);
            },
        };
        if !check_fits(
            &diffs,
            initial_owners.len(),
            initial_controllers.len(),
            start,
            end,
            Ghost((initial_owners@, initial_controllers@)),
        ) {
            return Err(SerializedMapError::Province);
        }
        Ok(from_diffs(start, end, diffs, initial_owners, initial_controllers))
    }
}

/// Dates that increase strictly.
pub open spec fn increasing(ds: Seq<EU4Date>) -> bool {
    forall|i: int, j: int| 0 <= i < j < ds.len() ==> (#[trigger] ds[i]).spec_lt(#[trigger] ds[j])
}

pub(crate) proof fn lemma_last_at_none<T>(s: Seq<(EU4Date, T)>, d: EU4Date)
    requires
        forall|i: int| 0 <= i < s.len() ==> (#[trigger] s[i]).0 != d,
    ensures
        last_at(s, d) is None,
    decreases s.len(),
{
    if s.len() > 0 {
        assert(s[s.len() - 1].0 != d);
        lemma_last_at_none(s.drop_last(), d);
    }
}

/// The dates of the changes that a run logs are among the dates of the run.
pub(crate) proof fn lemma_log_dates(
    prov: Seq<(EU4Date, Vec<(u16, ProvinceHistoryEvent)>)>,
    country: Seq<(EU4Date, Vec<(String, CountryHistoryEvent)>)>,
    war: Seq<(EU4Date, Vec<WarHistoryEvent>)>,
    tags: Seq<(String, MapColor)>,
    m0: (Seq<MapColor>, Seq<MapColor>),
    dates: Seq<EU4Date>,
)
    ensures
        forall|i: int|
            0 <= i < diff_log(prov, country, war, tags, m0, dates).len() ==> dates.contains(
                (#[trigger] diff_log(prov, country, war, tags, m0, dates)[i]).0,
            ),
    decreases dates.len(),
{
    if dates.len() > 0 {
        let p = dates.drop_last();
        lemma_log_dates(prov, country, war, tags, m0, p);
        let lp = diff_log(prov, country, war, tags, m0, p);
        let l = diff_log(prov, country, war, tags, m0, dates);
        assert forall|i: int| 0 <= i < l.len() implies dates.contains((#[trigger] l[i]).0) by {
            if i < lp.len() {
                assert(l[i] == lp[i]);
                let k = choose|k: int| 0 <= k < p.len() && p[k] == lp[i].0;
                assert(dates[k] == p[k]);
            } else {
                assert(l[i].0 == dates.last());
                assert(dates[dates.len() - 1] == dates.last());
            }
        }
    }
}

/// In the log of a run over increasing dates, the changes of the run's `k`-th date are that
/// date's changes.
pub(crate) proof fn lemma_log_events_on(
    prov: Seq<(EU4Date, Vec<(u16, ProvinceHistoryEvent)>)>,
    country: Seq<(EU4Date, Vec<(String, CountryHistoryEvent)>)>,
    war: Seq<(EU4Date, Vec<WarHistoryEvent>)>,
    tags: Seq<(String, MapColor)>,
    m0: (Seq<MapColor>, Seq<MapColor>),
    dates: Seq<EU4Date>,
    k: int,
)
    requires
        increasing(dates),
        0 <= k < dates.len(),
    ensures
        events_on(diffs_log_view(prov, country, war, tags, m0, dates), dates[k]) == day_step(
            prov,
            country,
            war,
            tags,
            after_days(prov, country, war, tags, m0, dates.take(k)),
            dates[k],
        ).1,
    decreases dates.len(),
{
    let p = dates.drop_last();
    let n = dates.len() - 1;
    let lp = diff_log(prov, country, war, tags, m0, p);
    let ds = day_step(prov, country, war, tags, after_days(prov, country, war, tags, m0, p), dates.last()).1;
    assert(dates.last() == dates[n]);
    if k < n {
        assert(increasing(p));
        lemma_log_events_on(prov, country, war, tags, m0, p, k);
        assert(p[k] == dates[k]);
        assert(p.take(k) =~= dates.take(k));
        assert(dates[k].spec_lt(dates[n]));
        if ds.len() > 0 {
            assert(lp.push((dates.last(), ds)).drop_last() =~= lp);
        }
    } else {
        assert(dates.take(k) =~= p);
        if ds.len() == 0 {
            lemma_log_dates(prov, country, war, tags, m0, p);
            assert forall|i: int| 0 <= i < lp.len() implies (#[trigger] lp[i]).0 != dates[k] by {
                let j = choose|j: int| 0 <= j < p.len() && p[j] == lp[i].0;
                assert(dates[j] == p[j]);
                assert(dates[j].spec_lt(dates[k]));
            }
            lemma_last_at_none(lp, dates[k]);
            assert(ds =~= Seq::<(u16, ColorMapEvent)>::empty());
        }
    }
}

/// The log of a run over `dates` as changes by date.
pub open spec fn diffs_log_view(
    prov: Seq<(EU4Date, Vec<(u16, ProvinceHistoryEvent)>)>,
    country: Seq<(EU4Date, Vec<(String, CountryHistoryEvent)>)>,
    war: Seq<(EU4Date, Vec<WarHistoryEvent>)>,
    tags: Seq<(String, MapColor)>,
    m0: (Seq<MapColor>, Seq<MapColor>),
    dates: Seq<EU4Date>,
) -> Seq<(EU4Date, Seq<(u16, ColorMapEvent)>)> {
    diff_log(prov, country, war, tags, m0, dates)
}

/// Replaying a run's logged changes over its dates gives the maps of the run.
proof fn lemma_replay_log(
    prov: Seq<(EU4Date, Vec<(u16, ProvinceHistoryEvent)>)>,
    country: Seq<(EU4Date, Vec<(String, CountryHistoryEvent)>)>,
    war: Seq<(EU4Date, Vec<WarHistoryEvent>)>,
    tags: Seq<(String, MapColor)>,
    m0: (Seq<MapColor>, Seq<MapColor>),
    dates: Seq<EU4Date>,
    k: int,
)
    requires
        increasing(dates),
        0 <= k <= dates.len(),
        m0.0.len() <= m0.1.len() <= 65536,
        history_fits(prov, m0.0.len(), m0.1.len(), dates),
    ensures
        replay_days(diff_log(prov, country, war, tags, m0, dates), m0, dates.take(k)) == after_days(
            prov,
            country,
            war,
            tags,
            m0,
            dates.take(k),
        ),
        replay_fits(diff_log(prov, country, war, tags, m0, dates), m0, dates.take(k)),
    decreases k,
{
    let log = diff_log(prov, country, war, tags, m0, dates);
    if k == 0 {
        assert(dates.take(0) =~= Seq::<EU4Date>::empty());
    } else {
        lemma_replay_log(prov, country, war, tags, m0, dates, k - 1);
        let pre = dates.take(k - 1);
        assert(dates.take(k).drop_last() =~= pre);
        assert(dates.take(k).last() == dates[k - 1]);
        assert(history_fits(prov, m0.0.len(), m0.1.len(), pre)) by {
            assert forall|d: EU4Date| pre.contains(d) implies crate::color_map::province_events_fit(
                m0.0.len(),
                m0.1.len(),
                #[trigger] crate::date_groups::on_date(prov, d),
            ) by {
                let j = choose|j: int| 0 <= j < pre.len() && pre[j] == d;
                assert(dates[j] == d);
            }
        }
        lemma_replay_diffs(prov, country, war, tags, m0, pre);
        let m = after_days(prov, country, war, tags, m0, pre);
        assert(dates.contains(dates[k - 1]));
        lemma_day_replay(prov, country, war, tags, m, dates[k - 1]);
        lemma_log_events_on(prov, country, war, tags, m0, dates, k - 1);
        let ds = day_step(prov, country, war, tags, m, dates[k - 1]).1;
        lemma_fit_lengths(m, m0, ds);
        assert forall|d: EU4Date| dates.take(k).contains(d) implies events_fit(
            m0,
            #[trigger] events_on(log, d),
        ) by {
            let j = choose|j: int| 0 <= j < k && dates.take(k)[j] == d;
            if j < k - 1 {
                assert(pre[j] == d);
                assert(pre.contains(d));
            }
        }
    }
}

proof fn lemma_rebuilt_frames_log(
    prov: Seq<(EU4Date, Vec<(u16, ProvinceHistoryEvent)>)>,
    country: Seq<(EU4Date, Vec<(String, CountryHistoryEvent)>)>,
    war: Seq<(EU4Date, Vec<WarHistoryEvent>)>,
    tags: Seq<(String, MapColor)>,
    m0: (Seq<MapColor>, Seq<MapColor>),
    start: EU4Date,
    dates: Seq<EU4Date>,
    k: int,
)
    requires
        increasing(dates),
        0 <= k <= dates.len(),
        m0.0.len() <= m0.1.len() <= 65536,
        history_fits(prov, m0.0.len(), m0.1.len(), dates),
    ensures
        rebuilt_frames(diff_log(prov, country, war, tags, m0, dates), m0, start, dates.take(k))
            == frame_log(prov, country, war, tags, m0, start, dates.take(k)),
    decreases k,
{
    if k == 0 {
        assert(dates.take(0) =~= Seq::<EU4Date>::empty());
    } else {
        lemma_rebuilt_frames_log(prov, country, war, tags, m0, start, dates, k - 1);
        assert(dates.take(k).drop_last() =~= dates.take(k - 1));
        lemma_replay_log(prov, country, war, tags, m0, dates, k);
    }
}

/// Written-out entries whose texts are the texts of `mdiffs` read back as `mdiffs`.
proof fn lemma_decoded_entries(entries: Seq<(String, String)>, mdiffs: Seq<(EU4Date, Vec<(u16, ColorMapEvent)>)>)
    requires
        entries.len() == mdiffs.len(),
        forall|i: int|
            0 <= i < entries.len() ==> (#[trigger] entries[i]).0@ == mdiffs[i].0.spec_text()
                && base64_bytes(entries[i].1@) == Some(events_bytes(mdiffs[i].1@)) && valid_day(
                mdiffs[i].0,
            ),
    ensures
        decoded_diffs(entries) == Ok::<Seq<(EU4Date, Seq<(u16, ColorMapEvent)>)>, SerializedMapError>(
            diffs_view(mdiffs),
        ),
    decreases entries.len(),
{
    if entries.len() == 0 {
        assert(diffs_view(mdiffs) =~= Seq::<(EU4Date, Seq<(u16, ColorMapEvent)>)>::empty());
    } else {
        let n = entries.len() - 1;
        assert(entries[n].0@ == mdiffs[n].0.spec_text() && base64_bytes(entries[n].1@) == Some(
            events_bytes(mdiffs[n].1@),
        ) && valid_day(mdiffs[n].0));
        assert forall|i: int| 0 <= i < entries.drop_last().len() implies (
        #[trigger] entries.drop_last()[i]).0@ == mdiffs.drop_last()[i].0.spec_text() && base64_bytes(
            entries.drop_last()[i].1@,
        ) == Some(events_bytes(mdiffs.drop_last()[i].1@)) && valid_day(mdiffs.drop_last()[i].0) by {
            assert(entries.drop_last()[i] == entries[i]);
            assert(mdiffs.drop_last()[i] == mdiffs[i]);
        }
        lemma_decoded_entries(entries.drop_last(), mdiffs.drop_last());
        assert(entries.last() == entries[n]);
        lemma_text_roundtrip(mdiffs[n].0);
        lemma_read_events_bytes(mdiffs[n].1@);
        assert(diffs_view(mdiffs.drop_last()).push((mdiffs[n].0, mdiffs[n].1@)) =~= diffs_view(mdiffs));
    }
}

/// Writing out the color maps that `ColorMapManager::new` runs over `start..=end` from `m0`
/// and reading them back (with the same first maps) gives the same dates, the same changes and
/// the same full maps: for dates within their months and maps of at most 65536 provinces.
pub proof fn lemma_encoded_manager_reads_back(
    prov: Seq<(EU4Date, Vec<(u16, ProvinceHistoryEvent)>)>,
    country: Seq<(EU4Date, Vec<(String, CountryHistoryEvent)>)>,
    war: Seq<(EU4Date, Vec<WarHistoryEvent>)>,
    tags: Seq<(String, MapColor)>,
    m0: (Seq<MapColor>, Seq<MapColor>),
    start: EU4Date,
    end: EU4Date,
    mdiffs: Seq<(EU4Date, Vec<(u16, ColorMapEvent)>)>,
    start_text: Seq<char>,
    end_text: Seq<char>,
    entries: Seq<(String, String)>,
)
    requires
        valid_day(start),
        valid_day(end),
        EU4Date::range_ok(start, end),
        m0.0.len() <= m0.1.len() <= 65536,
        history_fits(prov, m0.0.len(), m0.1.len(), EU4Date::spec_range(start, end)),
        diffs_view(mdiffs) == diff_log(prov, country, war, tags, m0, EU4Date::spec_range(start, end)),
        start_text == start.spec_text(),
        end_text == end.spec_text(),
        entries.len() == mdiffs.len(),
        forall|i: int|
            0 <= i < entries.len() ==> (#[trigger] entries[i]).0@ == mdiffs[i].0.spec_text()
                && base64_bytes(entries[i].1@) == Some(events_bytes(mdiffs[i].1@)),
    ensures
        spec_decode(start_text, end_text, entries, m0) == Ok::<
            (
                EU4Date,
                EU4Date,
                Seq<(EU4Date, Seq<(u16, ColorMapEvent)>)>,
                Seq<(EU4Date, (Seq<MapColor>, Seq<MapColor>))>,
            ),
            SerializedMapError,
        >(
            (
                start,
                end,
                diffs_view(mdiffs),
                frame_log(prov, country, war, tags, m0, start, EU4Date::spec_range(start, end)),
            ),
        ),
{
    let dates = EU4Date::spec_range(start, end);
    lemma_range_props(start, end);
    lemma_text_roundtrip(start);
    lemma_text_roundtrip(end);
    let log = diff_log(prov, country, war, tags, m0, dates);
    lemma_log_dates(prov, country, war, tags, m0, dates);
    assert forall|i: int| 0 <= i < entries.len() implies (#[trigger] entries[i]).0@
        == mdiffs[i].0.spec_text() && base64_bytes(entries[i].1@) == Some(events_bytes(mdiffs[i].1@))
        && valid_day(mdiffs[i].0) by {
        assert(diffs_view(mdiffs)[i] == log[i]);
        assert(dates.contains(log[i].0));
        let j = choose|j: int| 0 <= j < dates.len() && dates[j] == log[i].0;
        assert(valid_day(dates[j]));
    }
    lemma_decoded_entries(entries, mdiffs);
    lemma_replay_log(prov, country, war, tags, m0, dates, dates.len() as int);
    lemma_rebuilt_frames_log(prov, country, war, tags, m0, start, dates, dates.len() as int);
    assert(dates.take(dates.len() as int) =~= dates);
}

} // verus!
