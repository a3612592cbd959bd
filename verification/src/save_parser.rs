//! Wars, as an EU4 save records them.
use vstd::prelude::*;
use vstd::string::StringSliceAdditionalSpecFns;
use vstd::utf8::*;

use crate::eu4_date::EU4Date;
use crate::eu4_raw_parser::{RawEU4Object, RawEU4Scalar, RawEU4Value, kvs_of, values_of};
use crate::raw_parser::{Want, path_keys, unquote};
use crate::text_util::{parse_uint_max, spec_parse_i64, spec_parse_uint_max, str_eq};

verus! {

broadcast use vstd::string::group_string_axioms, vstd::utf8::encode_utf8_valid_utf8,
    vstd::utf8::encode_utf8_decode_utf8;

#[derive(Debug, Clone, Copy, PartialEq, Eq, Structural)]
pub enum Mod {
    Vanilla,
}

#[derive(Debug, Clone, Copy, PartialEq, Eq, Structural)]
pub enum WarResult {
    WhitePeace,
    AttackerVictory,
    DefenderVictory,
}

#[derive(Debug, Clone)]
pub struct War {
    pub name: String,
    pub attackers: Vec<String>,
    pub defenders: Vec<String>,
    pub attacker_losses: i64,
    pub defender_losses: i64,
    pub start_date: EU4Date,
    pub end_date: Option<EU4Date>,
    pub result: Option<WarResult>,
}

/// Why a war could not be read.
#[derive(Debug, Clone, Copy, PartialEq, Eq, Structural)]
pub enum WarError {
    NoHistory,
    NoName,
}

impl WarError {
    pub fn message(&self) -> (res: &'static str)
        ensures
            res@ == match self {
                WarError::NoHistory => "No history in war"@,
                WarError::NoName => "No name in war"@,
            },
    {
        match self {
            WarError::NoHistory => "No history in war",
            WarError::NoName => "No name in war",
        }
    }
}

/// The texts of `v`, as character sequences.
pub open spec fn strs(v: Seq<String>) -> Seq<Seq<char>> {
    v.map_values(|s: String| s@)
}

/// The texts of `v`, as UTF-8 bytes.
pub open spec fn utf8s(v: Seq<String>) -> Seq<Seq<u8>> {
    v.map_values(|s: String| encode_utf8(s@))
}

/// A name is one of `tags`.
pub open spec fn among(tags: Seq<String>) -> spec_fn(Seq<char>) -> bool {
    |a: Seq<char>| strs(tags).contains(a)
}

/// `s` is one of the texts of `v`.
fn contains_string(v: &Vec<String>, s: &String) -> (res: bool)
    ensures
        res == strs(v@).contains(s@),
{
    let mut i: usize = 0;
    while i < v.len()
        invariant
            0 <= i <= v@.len(),
            forall|j: int| 0 <= j < i ==> strs(v@)[j] != s@,
        decreases v@.len() - i,
    {
        if v[i] == *s {
            proof {
                assert(strs(v@)[i as int] == s@);
            }
            return true;
        }
        i = i + 1;
    }
    false
}

/// Comparing texts by their characters is comparing them by their UTF-8 bytes.
proof fn lemma_contains_utf8(v: Seq<String>, s: String)
    ensures
        strs(v).contains(s@) == utf8s(v).contains(encode_utf8(s@)),
{
    if strs(v).contains(s@) {
        let i = choose|i: int| 0 <= i < strs(v).len() && strs(v)[i] == s@;
        assert(utf8s(v)[i] == encode_utf8(s@));
    }
    if utf8s(v).contains(encode_utf8(s@)) {
        let i = choose|i: int| 0 <= i < utf8s(v).len() && utf8s(v)[i] == encode_utf8(s@);
        assert(decode_utf8(encode_utf8(v[i]@)) == decode_utf8(encode_utf8(s@)));
        assert(strs(v)[i] == s@);
    }
}

/// The names of `names` that are among `tags`, in order.
fn filter_names(names: &Vec<String>, tags: &Vec<String>) -> (res: Vec<String>)
    ensures
        strs(res@) == strs(names@).filter(among(tags@)),
{
    let mut out: Vec<String> = Vec::new();
    let mut i: usize = 0;
    while i < names.len()
        invariant
            0 <= i <= names@.len(),
            strs(out@) == strs(names@).take(i as int).filter(among(tags@)),
        decreases names@.len() - i,
    {
        let ghost before = out@;
        proof {
            let t1 = strs(names@).take(i + 1);
            assert(t1.drop_last() =~= strs(names@).take(i as int));
            assert(t1.last() == names@[i as int]@);
            reveal(Seq::filter);
        }
        if contains_string(tags, &names[i]) {
            out.push(names[i].clone());
            proof {
                assert(strs(out@) =~= strs(before).push(names@[i as int]@));
            }
        }
        i = i + 1;
    }
    proof {
        assert(strs(names@).take(names@.len() as int) =~= strs(names@));
    }
    out
}

/// The sum of the two sides' losses.
pub open spec fn casualties(w: War) -> int {
    w.attacker_losses + w.defender_losses
}

/// How significant a war probably is: its casualties, times the number of players on its
/// smaller side when both sides have more than one player.
pub open spec fn spec_war_scale(w: War, tags: Seq<String>) -> int {
    let a = strs(w.attackers@).filter(among(tags)).len();
    let d = strs(w.defenders@).filter(among(tags)).len();
    if a <= 1 || d <= 1 {
        casualties(w)
    } else {
        casualties(w) * if a < d {
            a as int
        } else {
            d as int
        }
    }
}

/// Some name of `names` is among `tags`.
pub open spec fn any_among(names: Seq<String>, tags: Seq<String>) -> bool {
    exists|i: int| 0 <= i < names.len() && #[trigger] strs(tags).contains(names[i]@)
}

impl War {
    /// The attackers that are players, in order.
    pub fn player_attackers(&self, player_tags: &Vec<String>) -> (res: Vec<String>)
        ensures
            strs(res@) == strs(self.attackers@).filter(among(player_tags@)),
    {
        filter_names(&self.attackers, player_tags)
    }

    /// The defenders that are players, in order.
    pub fn player_defenders(&self, player_tags: &Vec<String>) -> (res: Vec<String>)
        ensures
            strs(res@) == strs(self.defenders@).filter(among(player_tags@)),
    {
        filter_names(&self.defenders, player_tags)
    }

    /// An evaluation of how 'significant' the war probably is.
    pub fn war_scale(&self, player_tags: &Vec<String>) -> (res: i64)
        requires
            i64::MIN <= casualties(*self) <= i64::MAX,
            i64::MIN <= spec_war_scale(*self, player_tags@) <= i64::MAX,
            self.attackers@.len() <= i64::MAX,
        ensures
            res == spec_war_scale(*self, player_tags@),
    {
        let pa = self.player_attackers(player_tags).len();
        let pd = self.player_defenders(player_tags).len();
        proof {
            strs(self.attackers@).lemma_filter_len(among(player_tags@));
        }
        let casualties = self.attacker_losses + self.defender_losses;
        if pa <= 1 || pd <= 1 {
            return casualties;
        }
        let m = if pa < pd {
            pa
        } else {
            pd
        };
        casualties * (m as i64)
    }

    /// Players fight on both sides.
    pub fn is_player_war(&self, player_tags: &Vec<String>) -> (res: bool)
        ensures
            res == (any_among(self.attackers@, player_tags@) && any_among(
                self.defenders@,
                player_tags@,
            )),
    {
        any_player(&self.attackers, player_tags) && any_player(&self.defenders, player_tags)
    }
}

fn any_player(names: &Vec<String>, tags: &Vec<String>) -> (res: bool)
    ensures
        res == any_among(names@, tags@),
{
    let mut i: usize = 0;
    while i < names.len()
        invariant
            0 <= i <= names@.len(),
            forall|j: int| 0 <= j < i ==> !#[trigger] strs(tags@).contains(names@[j]@),
        decreases names@.len() - i,
    {
        if contains_string(tags, &names[i]) {
            return true;
        }
        i = i + 1;
    }
    false
}

/// A war is fought between players exactly when players are found among both its attackers and
/// its defenders.
pub proof fn lemma_player_war(w: War, tags: Seq<String>)
    ensures
        (any_among(w.attackers@, tags) && any_among(w.defenders@, tags)) == (strs(
            w.attackers@,
        ).filter(among(tags)).len() > 0 && strs(w.defenders@).filter(among(tags)).len() > 0),
{
    lemma_any_among_filter(w.attackers@, tags);
    lemma_any_among_filter(w.defenders@, tags);
}

proof fn lemma_any_among_filter(names: Seq<String>, tags: Seq<String>)
    ensures
        any_among(names, tags) == (strs(names).filter(among(tags)).len() > 0),
{
    let f = strs(names).filter(among(tags));
    if any_among(names, tags) {
        let i = choose|i: int| 0 <= i < names.len() && #[trigger] strs(tags).contains(names[i]@);
        strs(names).lemma_filter_contains(among(tags), i);
        assert(strs(names)[i] == names[i]@);
    }
    if f.len() > 0 {
        strs(names).lemma_filter_pred(among(tags), 0);
        let x = f[0];
        assert(f.contains(x));
        strs(names).lemma_filter_contains_rev(among(tags), x);
        let i = choose|i: int| 0 <= i < strs(names).len() && strs(names)[i] == x;
        assert(strs(tags).contains(names[i]@));
    }
}

/// A war with at most one player on a side is as significant as its casualties.
pub proof fn lemma_war_scale_small(w: War, tags: Seq<String>)
    requires
        strs(w.attackers@).filter(among(tags)).len() <= 1 || strs(w.defenders@).filter(
            among(tags),
        ).len() <= 1,
    ensures
        spec_war_scale(w, tags) == casualties(w),
{
}

/// The number of names of `names` that are among `tags`, counted one by one.
pub open spec fn players_among(names: Seq<String>, tags: Seq<String>) -> nat
    decreases names.len(),
{
    if names.len() == 0 {
        0
    } else {
        players_among(names.drop_last(), tags) + if strs(tags).contains(names.last()@) {
            1nat
        } else {
            0
        }
    }
}

/// The players filtered from a side are as many as the players counted on it.
pub proof fn lemma_players_among_filter(names: Seq<String>, tags: Seq<String>)
    ensures
        strs(names).filter(among(tags)).len() == players_among(names, tags),
    decreases names.len(),
{
    reveal(Seq::filter);
    if names.len() > 0 {
        lemma_players_among_filter(names.drop_last(), tags);
        assert(strs(names).drop_last() =~= strs(names.drop_last()));
        assert(strs(names).last() == names.last()@);
    }
}

/// How a war's significance depends on its players: with at most one player country on a
/// side it is the sum of both sides' losses; with at least two on each side it is that sum
/// times the number of player countries on the side that has fewer.
pub proof fn lemma_war_scale_players(w: War, tags: Seq<String>)
    ensures
        players_among(w.attackers@, tags) <= 1 || players_among(w.defenders@, tags) <= 1
            ==> spec_war_scale(w, tags) == w.attacker_losses + w.defender_losses,
        players_among(w.attackers@, tags) >= 2 && players_among(w.defenders@, tags) >= 2
            ==> spec_war_scale(w, tags) == (w.attacker_losses + w.defender_losses) * (if players_among(
            w.attackers@,
            tags,
        ) <= players_among(w.defenders@, tags) {
            players_among(w.attackers@, tags) as int
        } else {
            players_among(w.defenders@, tags) as int
        }),
{
    lemma_players_among_filter(w.attackers@, tags);
    lemma_players_among_filter(w.defenders@, tags);
}

} // verus!

verus! {

/// What the dated entries of a war's history say of its sides and dates.
pub struct WarSides {
    pub attackers: Seq<Seq<u8>>,
    pub defenders: Seq<Seq<u8>>,
    pub earliest: Option<EU4Date>,
    pub latest: Option<EU4Date>,
}

/// The earlier of `prev` (if any) and `d`.
pub open spec fn earlier(prev: Option<EU4Date>, d: EU4Date) -> Option<EU4Date> {
    match prev {
        None => Some(d),
        Some(p) => if d.spec_lt(p) {
            Some(d)
        } else {
            Some(p)
        },
    }
}

/// The later of `prev` (if any) and `d`.
pub open spec fn later(prev: Option<EU4Date>, d: EU4Date) -> Option<EU4Date> {
    match prev {
        None => Some(d),
        Some(p) => if p.spec_lt(d) {
            Some(d)
        } else {
            Some(p)
        },
    }
}

/// One event of a history entry dated `date`: a country joining a side, or leaving one.
pub open spec fn apply_event(acc: WarSides, date: EU4Date, key: RawEU4Scalar, value: RawEU4Value) -> WarSides {
    match value {
        RawEU4Value::Scalar(v) => if key.0@ == "add_attacker"@ {
            WarSides {
                attackers: acc.attackers.push(unquote(v@)),
                defenders: acc.defenders,
                earliest: earlier(acc.earliest, date),
                latest: acc.latest,
            }
        } else if key.0@ == "add_defender"@ {
            WarSides {
                attackers: acc.attackers,
                defenders: acc.defenders.push(unquote(v@)),
                earliest: earlier(acc.earliest, date),
                latest: acc.latest,
            }
        } else if key.0@ == "rem_attacker"@ || key.0@ == "rem_defender"@ {
            WarSides {
                attackers: acc.attackers,
                defenders: acc.defenders,
                earliest: acc.earliest,
                latest: later(acc.latest, date),
            }
        } else {
            acc
        },
        RawEU4Value::Object(_) => acc,
    }
}

/// The events of one history entry, in order.
pub open spec fn apply_events<'a>(
    acc: WarSides,
    date: EU4Date,
    events: Seq<(RawEU4Scalar<'a>, RawEU4Value<'a>)>,
) -> WarSides
    decreases events.len(),
{
    if events.len() == 0 {
        acc
    } else {
        apply_event(apply_events(acc, date, events.drop_last()), date, events.last().0, events.last().1)
    }
}

/// The date a history key stands for, if any.
pub open spec fn history_date(k: RawEU4Scalar) -> Option<EU4Date> {
    match EU4Date::spec_parse(k@) {
        Ok(d) => Some(d),
        Err(_) => None,
    }
}

/// The history entries of a war, in order; entries whose key is no date are passed over.
pub open spec fn war_history<'a>(entries: Seq<(RawEU4Scalar<'a>, RawEU4Value<'a>)>) -> WarSides
    decreases entries.len(),
{
    if entries.len() == 0 {
        WarSides { attackers: seq![], defenders: seq![], earliest: None, latest: None }
    } else {
        let acc = war_history(entries.drop_last());
        match (history_date(entries.last().0), entries.last().1) {
            (Some(d), RawEU4Value::Object(o)) => apply_events(acc, d, kvs_of(o.0@)),
            _ => acc,
        }
    }
}

/// Every history entry whose key is a date holds an object of events.
pub open spec fn dated_entries_are_objects<'a>(entries: Seq<(RawEU4Scalar<'a>, RawEU4Value<'a>)>) -> bool {
    forall|i: int|
        0 <= i < entries.len() && (#[trigger] history_date(entries[i].0)) is Some ==> entries[i].1 is Object
}

/// The losses listed by the values `vals`: the sum of those that are integers.
pub open spec fn member_losses<'a>(vals: Seq<RawEU4Value<'a>>) -> int
    decreases vals.len(),
{
    if vals.len() == 0 {
        0
    } else {
        member_losses(vals.drop_last()) + match vals.last() {
            RawEU4Value::Scalar(s) => match spec_parse_i64(s@) {
                Some(n) => n as int,
                None => 0,
            },
            RawEU4Value::Object(_) => 0,
        }
    }
}

/// `v` lies in the range of `i64`.
pub open spec fn in_i64(v: int) -> bool {
    i64::MIN <= v <= i64::MAX
}

/// Every partial sum of `member_losses` fits in an `i64`.
pub open spec fn member_losses_fit<'a>(vals: Seq<RawEU4Value<'a>>) -> bool {
    forall|i: int| 0 <= i <= vals.len() ==> in_i64(#[trigger] member_losses(vals.take(i)))
}

/// The path to a participant's losses.
pub open spec fn losses_path() -> Seq<Seq<u8>> {
    seq!["losses".spec_bytes(), "members".spec_bytes()]
}

/// A participant entry's tag (without quotes) and the values listing its losses, when it has
/// both.
pub open spec fn participant<'a>(v: RawEU4Value<'a>) -> Option<(Seq<u8>, Seq<RawEU4Value<'a>>)> {
    match v {
        RawEU4Value::Object(o) => match (
            o.spec_first("tag".spec_bytes(), Want::Scalar),
            o.spec_object_at_path(losses_path()),
        ) {
            (Some(RawEU4Value::Scalar(t)), Some(l)) => Some((unquote(t@), values_of(l.0@))),
            _ => None,
        },
        RawEU4Value::Scalar(_) => None,
    }
}

/// The losses of the attackers and of the defenders, summed over the `participants` entries of
/// a war in order.
pub open spec fn side_losses<'a>(
    kvs: Seq<(RawEU4Scalar<'a>, RawEU4Value<'a>)>,
    attackers: Seq<Seq<u8>>,
    defenders: Seq<Seq<u8>>,
) -> (int, int)
    decreases kvs.len(),
{
    if kvs.len() == 0 {
        (0, 0)
    } else {
        let (a, d) = side_losses(kvs.drop_last(), attackers, defenders);
        if kvs.last().0.0@ == "participants"@ {
            match participant(kvs.last().1) {
                Some((tag, vals)) => if attackers.contains(tag) {
                    (a + member_losses(vals), d)
                } else if defenders.contains(tag) {
                    (a, d + member_losses(vals))
                } else {
                    (a, d)
                },
                None => (a, d),
            }
        } else {
            (a, d)
        }
    }
}

/// Every sum made while adding up a war's losses fits in an `i64`.
pub open spec fn losses_fit<'a>(
    kvs: Seq<(RawEU4Scalar<'a>, RawEU4Value<'a>)>,
    attackers: Seq<Seq<u8>>,
    defenders: Seq<Seq<u8>>,
) -> bool {
    &&& forall|i: int|
        0 <= i <= kvs.len() ==> in_i64(#[trigger] side_losses(kvs.take(i), attackers, defenders).0)
            && in_i64(side_losses(kvs.take(i), attackers, defenders).1)
    &&& forall|i: int|
        0 <= i < kvs.len() && kvs[i].0.0@ == "participants"@ ==> match #[trigger] participant(
            kvs[i].1,
        ) {
            Some((_, vals)) => member_losses_fit(vals),
            None => true,
        }
}

/// A war's `history` object, if it has one.
pub open spec fn history_of<'a>(obj: RawEU4Object<'a>) -> Option<RawEU4Object<'a>> {
    match obj.spec_first("history".spec_bytes(), Want::Object) {
        Some(RawEU4Value::Object(h)) => Some(h),
        _ => None,
    }
}

/// What a war object must hold to be read without a failure of the reading itself: dated
/// history entries that are objects, and losses whose sums fit in an `i64`.
pub open spec fn war_readable<'a>(obj: RawEU4Object<'a>) -> bool {
    match history_of(obj) {
        Some(h) => {
            let sides = war_history(kvs_of(h.0@));
            dated_entries_are_objects(kvs_of(h.0@)) && (sides.earliest is Some ==> losses_fit(
                kvs_of(obj.0@),
                sides.attackers,
                sides.defenders,
            ))
        },
        None => true,
    }
}

/// A war's outcome, from its `outcome` scalar.
pub open spec fn outcome_of<'a>(obj: RawEU4Object<'a>) -> Option<WarResult> {
    match obj.spec_first("outcome".spec_bytes(), Want::Scalar) {
        Some(RawEU4Value::Scalar(s)) => if s.0@ == "1"@ {
            Some(WarResult::WhitePeace)
        } else if s.0@ == "2"@ {
            Some(WarResult::AttackerVictory)
        } else if s.0@ == "3"@ {
            Some(WarResult::DefenderVictory)
        } else {
            None
        },
        _ => None,
    }
}

/// The sides and dates of a war while its history is read.
struct SidesAcc {
    attackers: Vec<String>,
    defenders: Vec<String>,
    earliest: Option<EU4Date>,
    latest: Option<EU4Date>,
}

impl SidesAcc {
    spec fn sides(&self) -> WarSides {
        WarSides {
            attackers: utf8s(self.attackers@),
            defenders: utf8s(self.defenders@),
            earliest: self.earliest,
            latest: self.latest,
        }
    }
}

fn earlier_date(prev: Option<EU4Date>, d: EU4Date) -> (res: Option<EU4Date>)
    ensures
        res == earlier(prev, d),
{
    match prev {
        None => Some(d),
        Some(p) => if d.is_before(&p) {
            Some(d)
        } else {
            Some(p)
        },
    }
}

fn later_date(prev: Option<EU4Date>, d: EU4Date) -> (res: Option<EU4Date>)
    ensures
        res == later(prev, d),
{
    match prev {
        None => Some(d),
        Some(p) => if p.is_before(&d) {
            Some(d)
        } else {
            Some(p)
        },
    }
}

fn add_event(acc: &mut SidesAcc, date: EU4Date, key: &RawEU4Scalar, value: &RawEU4Value)
    ensures
        final(acc).sides() == apply_event(old(acc).sides(), date, *key, *value),
{
    if let RawEU4Value::Scalar(v) = value {
        if str_eq(key.0, "add_attacker") {
            let s = v.as_string();
            let ghost before = acc.attackers@;
            acc.attackers.push(s);
            proof {
                assert(utf8s(acc.attackers@) =~= utf8s(before).push(unquote(v@)));
            }
            acc.earliest = earlier_date(acc.earliest, date);
        } else if str_eq(key.0, "add_defender") {
            let s = v.as_string();
            let ghost before = acc.defenders@;
            acc.defenders.push(s);
            proof {
                assert(utf8s(acc.defenders@) =~= utf8s(before).push(unquote(v@)));
            }
            acc.earliest = earlier_date(acc.earliest, date);
        } else if str_eq(key.0, "rem_attacker") || str_eq(key.0, "rem_defender") {
            acc.latest = later_date(acc.latest, date);
        }
    }
}

fn add_events(acc: &mut SidesAcc, date: EU4Date, events: &RawEU4Object)
    ensures
        final(acc).sides() == apply_events(old(acc).sides(), date, kvs_of(events.0@)),
{
    let kvs = events.iter_all_KVs();
    let ghost start = acc.sides();
    let ghost all = kvs_of(events.0@);
    let mut i: usize = 0;
    proof {
        assert(all.take(0) =~= seq![]);
    }
    while i < kvs.len()
        invariant
            0 <= i <= kvs@.len(),
            kvs@.len() == all.len(),
            all == kvs_of(events.0@),
            forall|j: int|
                0 <= j < kvs@.len() ==> *kvs@[j].0 == all[j].0 && *kvs@[j].1 == all[j].1,
            acc.sides() == apply_events(start, date, all.take(i as int)),
        decreases kvs@.len() - i,
    {
        let (k, v) = kvs[i];
        add_event(acc, date, k, v);
        proof {
            assert(all.take(i + 1).drop_last() =~= all.take(i as int));
        }
        i = i + 1;
    }
    proof {
        assert(all.take(i as int) =~= all);
    }
}

fn read_history(history: &RawEU4Object) -> (res: SidesAcc)
    requires
        dated_entries_are_objects(kvs_of(history.0@)),
    ensures
        res.sides() == war_history(kvs_of(history.0@)),
{
    let mut acc = SidesAcc {
        attackers: Vec::new(),
        defenders: Vec::new(),
        earliest: None,
        latest: None,
    };
    let kvs = history.iter_all_KVs();
    let ghost all = kvs_of(history.0@);
    let mut i: usize = 0;
    proof {
        assert(all.take(0) =~= seq![]);
        assert(utf8s(acc.attackers@) =~= seq![]);
        assert(utf8s(acc.defenders@) =~= seq![]);
    }
    while i < kvs.len()
        invariant
            0 <= i <= kvs@.len(),
            kvs@.len() == all.len(),
            all == kvs_of(history.0@),
            dated_entries_are_objects(all),
            forall|j: int|
                0 <= j < kvs@.len() ==> *kvs@[j].0 == all[j].0 && *kvs@[j].1 == all[j].1,
            acc.sides() == war_history(all.take(i as int)),
        decreases kvs@.len() - i,
    {
        let (k, v) = kvs[i];
        proof {
            let t = all.take(i + 1);
            assert(t.drop_last() =~= all.take(i as int));
            assert(t.last() == all[i as int]);
        }
        if let Some(date) = k.as_date() {
            proof {
                assert(history_date(all[i as int].0) is Some);
            }
            if let RawEU4Value::Object(o) = v {
                add_events(&mut acc, date, o);
            }
        }
        i = i + 1;
    }
    proof {
        assert(all.take(i as int) =~= all);
    }
    acc
}

fn read_member_losses(losses: &RawEU4Object) -> (res: i64)
    requires
        member_losses_fit(values_of(losses.0@)),
    ensures
        res == member_losses(values_of(losses.0@)),
{
    let vals = losses.iter_values();
    let ghost all = values_of(losses.0@);
    let mut sum: i64 = 0;
    let mut i: usize = 0;
    proof {
        assert(all.take(0) =~= seq![]);
    }
    while i < vals.len()
        invariant
            0 <= i <= vals@.len(),
            vals@.len() == all.len(),
            all == values_of(losses.0@),
            member_losses_fit(all),
            forall|j: int| 0 <= j < vals@.len() ==> *vals@[j] == all[j],
            sum == member_losses(all.take(i as int)),
        decreases vals@.len() - i,
    {
        proof {
            let t = all.take(i + 1);
            assert(t.drop_last() =~= all.take(i as int));
            assert(t.last() == all[i as int]);
            assert(in_i64(member_losses(all.take(i + 1))));
        }
        if let Some(s) = vals[i].as_scalar() {
            if let Some(n) = s.as_int() {
                sum = sum + n;
            }
        }
        i = i + 1;
    }
    proof {
        assert(all.take(i as int) =~= all);
    }
    sum
}

fn read_losses(obj: &RawEU4Object, attackers: &Vec<String>, defenders: &Vec<String>) -> (res: (i64, i64))
    requires
        losses_fit(kvs_of(obj.0@), utf8s(attackers@), utf8s(defenders@)),
    ensures
        (res.0 as int, res.1 as int) == side_losses(kvs_of(obj.0@), utf8s(attackers@), utf8s(defenders@)),
{
    let kvs = obj.iter_all_KVs();
    let ghost all = kvs_of(obj.0@);
    let ghost att = utf8s(attackers@);
    let ghost def = utf8s(defenders@);
    let mut a: i64 = 0;
    let mut d: i64 = 0;
    let mut i: usize = 0;
    proof {
        assert(all.take(0) =~= seq![]);
    }
    while i < kvs.len()
        invariant
            0 <= i <= kvs@.len(),
            kvs@.len() == all.len(),
            all == kvs_of(obj.0@),
            att == utf8s(attackers@),
            def == utf8s(defenders@),
            losses_fit(all, att, def),
            forall|j: int|
                0 <= j < kvs@.len() ==> *kvs@[j].0 == all[j].0 && *kvs@[j].1 == all[j].1,
            (a as int, d as int) == side_losses(all.take(i as int), att, def),
        decreases kvs@.len() - i,
    {
        let (key, value) = kvs[i];
        proof {
            let t = all.take(i + 1);
            assert(t.drop_last() =~= all.take(i as int));
            assert(t.last() == all[i as int]);
            assert(in_i64(side_losses(all.take(i + 1), att, def).0));
        }
        if str_eq(key.0, "participants") {
            proof {
                let _ = participant(all[i as int].1);
            }
            if let RawEU4Value::Object(p) = value {
                if let Some(tag) = p.get_first_scalar("tag") {
                    let path = ["losses", "members"];
                    proof {
                        reveal_strlit("losses");
                        reveal_strlit("members");
                        assert(path_keys(path@) =~= losses_path());
                    }
                    if let Some(losses) = p.get_first_object_at_path(path) {
                        let l = read_member_losses(losses);
                        let t = tag.as_string();
                        proof {
                            lemma_contains_utf8(attackers@, t);
                            lemma_contains_utf8(defenders@, t);
                        }
                        if contains_string(attackers, &t) {
                            a = a + l;
                        } else if contains_string(defenders, &t) {
                            d = d + l;
                        }
                    }
                }
            }
        }
        i = i + 1;
    }
    proof {
        assert(all.take(i as int) =~= all);
    }
    (a, d)
}

/// Whether every dated entry of a war's history is an object.
fn dated_objects_check(history: &RawEU4Object) -> (res: bool)
    ensures
        res == dated_entries_are_objects(kvs_of(history.0@)),
{
    let kvs = history.iter_all_KVs();
    let ghost all = kvs_of(history.0@);
    let mut i: usize = 0;
    while i < kvs.len()
        invariant
            0 <= i <= kvs@.len(),
            kvs@.len() == all.len(),
            all == kvs_of(history.0@),
            forall|j: int|
                0 <= j < kvs@.len() ==> *kvs@[j].0 == all[j].0 && *kvs@[j].1 == all[j].1,
            forall|j: int|
                0 <= j < i && (#[trigger] history_date(all[j].0)) is Some ==> all[j].1 is Object,
        decreases kvs@.len() - i,
    {
        let (k, v) = kvs[i];
        let date = k.as_date();
        if date.is_some() && v.as_object().is_none() {
            proof {
                assert(history_date(all[i as int].0) is Some);
            }
            return false;
        }
        i = i + 1;
    }
    true
}

/// Whether every partial sum of the losses listed in `losses` fits in an `i64`.
fn member_losses_check(losses: &RawEU4Object) -> (res: bool)
    ensures
        res == member_losses_fit(values_of(losses.0@)),
{
    let vals = losses.iter_values();
    let ghost all = values_of(losses.0@);
    let mut sum: i64 = 0;
    let mut i: usize = 0;
    proof {
        assert(all.take(0) =~= seq![]);
    }
    while i < vals.len()
        invariant
            0 <= i <= vals@.len(),
            vals@.len() == all.len(),
            all == values_of(losses.0@),
            forall|j: int| 0 <= j < vals@.len() ==> *vals@[j] == all[j],
            sum == member_losses(all.take(i as int)),
            forall|j: int| 0 <= j <= i ==> in_i64(#[trigger] member_losses(all.take(j))),
        decreases vals@.len() - i,
    {
        proof {
            let t = all.take(i + 1);
            assert(t.drop_last() =~= all.take(i as int));
            assert(t.last() == all[i as int]);
        }
        if let Some(s) = vals[i].as_scalar() {
            if let Some(n) = s.as_int() {
                match sum.checked_add(n) {
                    Some(v) => {
                        sum = v;
                    },
                    None => {
                        proof {
                            assert(member_losses(all.take(i + 1)) == sum + n);
                            assert(!in_i64(member_losses(all.take(i + 1))));
                        }
                        return false;
                    },
                }
            }
        }
        i = i + 1;
    }
    proof {
        assert(all.take(i as int) =~= all);
    }
    true
}

/// Whether every sum made while adding up a war's losses fits in an `i64`.
fn losses_check(obj: &RawEU4Object, attackers: &Vec<String>, defenders: &Vec<String>) -> (res: bool)
    ensures
        res == losses_fit(kvs_of(obj.0@), utf8s(attackers@), utf8s(defenders@)),
{
    let kvs = obj.iter_all_KVs();
    let ghost all = kvs_of(obj.0@);
    let ghost att = utf8s(attackers@);
    let ghost def = utf8s(defenders@);
    let mut a: i64 = 0;
    let mut d: i64 = 0;
    let mut i: usize = 0;
    proof {
        assert(all.take(0) =~= seq![]);
    }
    while i < kvs.len()
        invariant
            0 <= i <= kvs@.len(),
            kvs@.len() == all.len(),
            all == kvs_of(obj.0@),
            att == utf8s(attackers@),
            def == utf8s(defenders@),
            forall|j: int|
                0 <= j < kvs@.len() ==> *kvs@[j].0 == all[j].0 && *kvs@[j].1 == all[j].1,
            (a as int, d as int) == side_losses(all.take(i as int), att, def),
            forall|j: int|
                0 <= j <= i ==> in_i64(#[trigger] side_losses(all.take(j), att, def).0) && in_i64(
                    side_losses(all.take(j), att, def).1,
                ),
            forall|j: int|
                0 <= j < i && all[j].0.0@ == "participants"@ ==> match #[trigger] participant(
                    all[j].1,
                ) {
                    Some((_, vals)) => member_losses_fit(vals),
                    None => true,
                },
        decreases kvs@.len() - i,
    {
        let (key, value) = kvs[i];
        proof {
            let t = all.take(i + 1);
            assert(t.drop_last() =~= all.take(i as int));
            assert(t.last() == all[i as int]);
        }
        if str_eq(key.0, "participants") {
            proof {
                let _ = participant(all[i as int].1);
            }
            if let RawEU4Value::Object(p) = value {
                if let Some(tag) = p.get_first_scalar("tag") {
                    let path = ["losses", "members"];
                    proof {
                        reveal_strlit("losses");
                        reveal_strlit("members");
                        assert(path_keys(path@) =~= losses_path());
                    }
                    if let Some(losses) = p.get_first_object_at_path(path) {
                        if !member_losses_check(losses) {
                            return false;
                        }
                        let l = read_member_losses(losses);
                        let t = tag.as_string();
                        proof {
                            lemma_contains_utf8(attackers@, t);
                            lemma_contains_utf8(defenders@, t);
                        }
                        if contains_string(attackers, &t) {
                            match a.checked_add(l) {
                                Some(v) => {
                                    a = v;
                                },
                                None => {
                                    proof {
                                        assert(side_losses(all.take(i + 1), att, def).0 == a + l);
                                        assert(!in_i64(side_losses(all.take(i + 1), att, def).0));
                                    }
                                    return false;
                                },
                            }
                        } else if contains_string(defenders, &t) {
                            match d.checked_add(l) {
                                Some(v) => {
                                    d = v;
                                },
                                None => {
                                    proof {
                                        assert(side_losses(all.take(i + 1), att, def).0 == a);
                                        assert(side_losses(all.take(i + 1), att, def).1 == d + l);
                                        assert(!in_i64(side_losses(all.take(i + 1), att, def).1));
                                    }
                                    return false;
                                },
                            }
                        }
                    }
                }
            }
        }
        i = i + 1;
    }
    proof {
        assert(all.take(i as int) =~= all);
    }
    true
}

/// Whether a war object is one that [`War::from_parsed_obj`] reads: every dated entry of its
/// history is an object, and, when some country joined it, its losses add up within `i64`.
pub fn war_is_readable(obj: &RawEU4Object) -> (res: bool)
    ensures
        res == war_readable(*obj),
{
    let history = match obj.get_first_obj("history") {
        Some(h) => h,
        None => {
            return true;
        },
    };
    if !dated_objects_check(history) {
        return false;
    }
    let acc = read_history(history);
    if acc.earliest.is_none() {
        return true;
    }
    losses_check(obj, &acc.attackers, &acc.defenders)
}

/// `res` is what reading the war object `obj` gives: an error for a war without a history, no
/// war when no country ever joined it, an error for one without a name, and else the war, its
/// sides and dates from its history, its losses and its outcome.
pub open spec fn reads_war<'a>(res: Result<Option<War>, WarError>, obj: RawEU4Object<'a>) -> bool {
    match history_of(obj) {
        None => res matches Err(WarError::NoHistory),
        Some(h) => {
            let sides = war_history(kvs_of(h.0@));
            match sides.earliest {
                None => res matches Ok(None),
                Some(start) => match obj.spec_first("name".spec_bytes(), Want::Scalar) {
                    Some(RawEU4Value::Scalar(n)) => res matches Ok(Some(w)) && encode_utf8(
                        w.name@,
                    ) == unquote(n@) && utf8s(w.attackers@) == sides.attackers && utf8s(
                        w.defenders@,
                    ) == sides.defenders && w.start_date == start && w.end_date
                        == sides.latest && (w.attacker_losses as int, w.defender_losses as int)
                        == side_losses(kvs_of(obj.0@), sides.attackers, sides.defenders)
                        && w.result == outcome_of(obj),
                    _ => res matches Err(WarError::NoName),
                },
            }
        },
    }
}

impl War {
    /// Reads a war. `Ok(None)` for a war that no country ever joined (save files hold such
    /// wars); errors for a war without a history or a name.
    pub fn from_parsed_obj(obj: &RawEU4Object) -> (res: Result<Option<War>, WarError>)
        requires
            war_readable(*obj),
        ensures
            reads_war(res, *obj),
    {
        let history = match obj.get_first_obj("history") {
            Some(h) => h,
            None => {
                return Err(WarError::NoHistory);
            },
        };
        let acc = read_history(history);
        let start_date = match acc.earliest {
            Some(d) => d,
            None => {
                return Ok(None);
            },
        };
        let (attacker_losses, defender_losses) = read_losses(obj, &acc.attackers, &acc.defenders);
        let name = match obj.get_first_scalar("name") {
            Some(n) => n.as_string(),
            None => {
                return Err(WarError::NoName);
            },
        };
        let result = match obj.get_first_scalar("outcome") {
            Some(s) => if str_eq(s.0, "1") {
                Some(WarResult::WhitePeace)
            } else if str_eq(s.0, "2") {
                Some(WarResult::AttackerVictory)
            } else if str_eq(s.0, "3") {
                Some(WarResult::DefenderVictory)
            } else {
                None
            },
            None => None,
        };
        Ok(
            Some(
                War {
                    name,
                    attackers: acc.attackers,
                    defenders: acc.defenders,
                    attacker_losses,
                    defender_losses,
                    start_date,
                    end_date: acc.latest,
                    result,
                },
            ),
        )
    }
}

} // verus!

verus! {

/// Why an object is not a color.
#[derive(Debug, Clone, Copy, PartialEq, Eq, Structural)]
pub enum ColorError {
    /// A value of the object is an object.
    NonScalar,
    /// A value of the object is not a number from 0 to 255.
    NotAByte,
    /// The object does not hold exactly three values.
    WrongLength,
}

/// Reading the values of a color object as bytes: the first failure, or the bytes.
pub open spec fn color_bytes<'a>(vals: Seq<RawEU4Value<'a>>) -> Result<Seq<u8>, ColorError>
    decreases vals.len(),
{
    if vals.len() == 0 {
        Ok(seq![])
    } else {
        match color_bytes(vals.drop_last()) {
            Err(e) => Err(e),
            Ok(bs) => match vals.last() {
                RawEU4Value::Object(_) => Err(ColorError::NonScalar),
                RawEU4Value::Scalar(s) => match spec_parse_uint_max(s@, 255) {
                    Some(b) => Ok(bs.push(b as u8)),
                    None => Err(ColorError::NotAByte),
                },
            },
        }
    }
}

/// Reads an object of three numbers from 0 to 255 as a color.
pub fn eu4_obj_as_color(value: &RawEU4Object) -> (res: Result<[u8; 3], ColorError>)
    ensures
        match color_bytes(values_of(value.0@)) {
            Err(e) => res matches Err(e2) && e2 == e,
            Ok(bs) => if bs.len() == 3 {
                res matches Ok(c) && c@ == bs
            } else {
                res matches Err(ColorError::WrongLength)
            },
        },
{
    let vals = value.iter_values();
    let ghost all = values_of(value.0@);
    let mut out: Vec<u8> = Vec::new();
    let mut i: usize = 0;
    proof {
        assert(all.take(0) =~= seq![]);
    }
    while i < vals.len()
        invariant
            0 <= i <= vals@.len(),
            vals@.len() == all.len(),
            all == values_of(value.0@),
            forall|j: int| 0 <= j < vals@.len() ==> *vals@[j] == all[j],
            color_bytes(all.take(i as int)) == Ok::<Seq<u8>, ColorError>(out@),
        decreases vals@.len() - i,
    {
        proof {
            let t = all.take(i + 1);
            assert(t.drop_last() =~= all.take(i as int));
            assert(t.last() == all[i as int]);
        }
        match vals[i] {
            RawEU4Value::Scalar(s) => match parse_uint_max(s.0.as_bytes(), 255) {
                Some(b) => {
                    out.push(b as u8);
                },
                None => {
                    proof {
                        lemma_color_err(all, i + 1);
                        assert(all.take(i + 1) == all.take(i as int).push(all[i as int]));
                    }
                    return Err(ColorError::NotAByte);
                },
            },
            RawEU4Value::Object(_) => {
                proof {
                    lemma_color_err(all, i + 1);
                }
                return Err(ColorError::NonScalar);
            },
        }
        i = i + 1;
    }
    proof {
        assert(all.take(i as int) =~= all);
    }
    if out.len() != 3 {
        return Err(ColorError::WrongLength);
    }
    let c = [out[0], out[1], out[2]];
    proof {
        assert(c@ =~= out@);
    }
    Ok(c)
}

/// A failure on a prefix is the failure on the whole.
proof fn lemma_color_err<'a>(vals: Seq<RawEU4Value<'a>>, k: int)
    requires
        0 <= k <= vals.len(),
        color_bytes(vals.take(k)) is Err,
    ensures
        color_bytes(vals) == color_bytes(vals.take(k)),
    decreases vals.len() - k,
{
    if k < vals.len() {
        let t = vals.take(k + 1);
        assert(t.drop_last() =~= vals.take(k));
        lemma_color_err(vals, k + 1);
    } else {
        assert(vals.take(k) =~= vals);
    }
}

} // verus!
