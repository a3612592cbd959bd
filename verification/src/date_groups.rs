//! Values grouped by date, kept as a list of dates (each once, in the order they first came)
//! with the values of each date in the order they came.
use vstd::prelude::*;

use crate::eu4_date::EU4Date;

verus! {

/// The groups of `s` as a map from date to values.
pub open spec fn group_view<V>(s: Seq<(EU4Date, Vec<V>)>) -> Map<EU4Date, Seq<V>>
    decreases s.len(),
{
    if s.len() == 0 {
        Map::empty()
    } else {
        group_view(s.drop_last()).insert(s.last().0, s.last().1@)
    }
}

/// No date has two groups.
pub open spec fn keys_distinct<V>(s: Seq<(EU4Date, Vec<V>)>) -> bool {
    forall|i: int, j: int| 0 <= i < j < s.len() ==> s[i].0 != s[j].0
}

/// `m` with `v` added at the end of the values of `d`.
pub open spec fn add_to<V>(m: Map<EU4Date, Seq<V>>, d: EU4Date, v: V) -> Map<EU4Date, Seq<V>> {
    m.insert(
        d,
        if m.contains_key(d) {
            m[d].push(v)
        } else {
            seq![v]
        },
    )
}

/// Dated values grouped by date, each group in the order of `events`.
pub open spec fn grouped<V>(events: Seq<(EU4Date, V)>) -> Map<EU4Date, Seq<V>>
    decreases events.len(),
{
    if events.len() == 0 {
        Map::empty()
    } else {
        add_to(grouped(events.drop_last()), events.last().0, events.last().1)
    }
}

/// The values of the events dated `d`, in order.
pub open spec fn events_on<V>(events: Seq<(EU4Date, V)>, d: EU4Date) -> Seq<V>
    decreases events.len(),
{
    if events.len() == 0 {
        seq![]
    } else {
        let prev = events_on(events.drop_last(), d);
        if events.last().0 == d {
            prev.push(events.last().1)
        } else {
            prev
        }
    }
}

/// A date has a group exactly when some event has that date, and its group is the values of
/// the events of that date, in order; so no group is empty.
pub proof fn lemma_grouped_by_date<V>(events: Seq<(EU4Date, V)>, d: EU4Date)
    ensures
        grouped(events).contains_key(d) <==> exists|i: int|
            0 <= i < events.len() && (#[trigger] events[i]).0 == d,
        grouped(events).contains_key(d) ==> grouped(events)[d] == events_on(events, d)
            && grouped(events)[d].len() > 0,
        !grouped(events).contains_key(d) ==> events_on(events, d).len() == 0,
    decreases events.len(),
{
    if events.len() > 0 {
        let prev = events.drop_last();
        lemma_grouped_by_date(prev, d);
        if exists|i: int| 0 <= i < prev.len() && (#[trigger] prev[i]).0 == d {
            let i = choose|i: int| 0 <= i < prev.len() && (#[trigger] prev[i]).0 == d;
            assert(events[i] == prev[i]);
        }
        if exists|i: int| 0 <= i < events.len() && (#[trigger] events[i]).0 == d {
            let i = choose|i: int| 0 <= i < events.len() && (#[trigger] events[i]).0 == d;
            if i < prev.len() {
                assert(prev[i] == events[i]);
            }
        }
        if events.last().0 == d && !grouped(prev).contains_key(d) {
            assert(events_on(prev, d) =~= seq![]);
            assert(events_on(events, d) =~= seq![events.last().1]);
        }
    }
}

proof fn lemma_group_lookup<V>(s: Seq<(EU4Date, Vec<V>)>, i: int)
    requires
        keys_distinct(s),
        0 <= i < s.len(),
    ensures
        group_view(s).contains_key(s[i].0),
        group_view(s)[s[i].0] == s[i].1@,
    decreases s.len(),
{
    if i < s.len() - 1 {
        lemma_group_lookup(s.drop_last(), i);
    }
}

proof fn lemma_group_absent<V>(s: Seq<(EU4Date, Vec<V>)>, d: EU4Date)
    requires
        forall|i: int| 0 <= i < s.len() ==> s[i].0 != d,
    ensures
        !group_view(s).contains_key(d),
    decreases s.len(),
{
    if s.len() > 0 {
        lemma_group_absent(s.drop_last(), d);
    }
}

/// The events not dated `d`, in order.
pub open spec fn events_off<V>(events: Seq<(EU4Date, V)>, d: EU4Date) -> Seq<(EU4Date, V)>
    decreases events.len(),
{
    if events.len() == 0 {
        seq![]
    } else {
        let prev = events_off(events.drop_last(), d);
        if events.last().0 == d {
            prev
        } else {
            prev.push(events.last())
        }
    }
}

/// The number of values in all groups of `s`.
pub open spec fn group_total<V>(s: Seq<(EU4Date, Vec<V>)>) -> nat
    decreases s.len(),
{
    if s.len() == 0 {
        0
    } else {
        group_total(s.drop_last()) + s.last().1@.len()
    }
}

proof fn lemma_group_in<V>(s: Seq<(EU4Date, Vec<V>)>, d: EU4Date)
    requires
        group_view(s).contains_key(d),
    ensures
        exists|k: int| 0 <= k < s.len() && s[k].0 == d,
    decreases s.len(),
{
    if s.last().0 != d {
        lemma_group_in(s.drop_last(), d);
        let k = choose|k: int| 0 <= k < s.len() - 1 && s.drop_last()[k].0 == d;
        assert(s[k] == s.drop_last()[k]);
    }
}

proof fn lemma_events_split<V>(events: Seq<(EU4Date, V)>, d: EU4Date)
    ensures
        events_off(events, d).len() + events_on(events, d).len() == events.len(),
        grouped(events_off(events, d)) == grouped(events).remove(d),
    decreases events.len(),
{
    if events.len() > 0 {
        let prev = events.drop_last();
        lemma_events_split(prev, d);
        if events.last().0 != d {
            let off = events_off(events, d);
            assert(off.drop_last() =~= events_off(prev, d));
            assert(off.last() == events.last());
        }
        assert(grouped(events_off(events, d)) =~= grouped(events).remove(d));
    }
}

/// Grouping keeps every event: the groups of a list with distinct dates that groups `events`
/// hold as many values as there are events, and none of its groups is empty.
pub proof fn lemma_group_total<V>(s: Seq<(EU4Date, Vec<V>)>, events: Seq<(EU4Date, V)>)
    requires
        keys_distinct(s),
        group_view(s) == grouped(events),
    ensures
        group_total(s) == events.len(),
        forall|i: int| 0 <= i < s.len() ==> (#[trigger] s[i]).1@.len() > 0,
    decreases s.len(),
{
    if s.len() > 0 {
        let prev = s.drop_last();
        let d = s.last().0;
        assert forall|i: int, j: int| 0 <= i < j < prev.len() implies prev[i].0 != prev[j].0 by {
            assert(prev[i] == s[i] && prev[j] == s[j]);
        }
        assert(!group_view(prev).contains_key(d)) by {
            if group_view(prev).contains_key(d) {
                lemma_group_in(prev, d);
                let k = choose|k: int| 0 <= k < prev.len() && prev[k].0 == d;
                assert(prev[k] == s[k]);
            }
        }
        assert(group_view(prev) =~= group_view(s).remove(d));
        lemma_events_split(events, d);
        lemma_group_total(prev, events_off(events, d));
        lemma_grouped_by_date(events, d);
        assert(group_view(s).contains_key(d));
        assert(group_view(s)[d] == s.last().1@);
        assert(s.last().1@ == events_on(events, d));
        assert forall|i: int| 0 <= i < s.len() implies (#[trigger] s[i]).1@.len() > 0 by {
            lemma_group_lookup(s, i);
            lemma_grouped_by_date(events, s[i].0);
        }
    } else if events.len() > 0 {
        assert(grouped(events).contains_key(events.last().0));
        assert(group_view(s) =~= Map::<EU4Date, Seq<V>>::empty());
    }
}

proof fn lemma_group_update<V>(s: Seq<(EU4Date, Vec<V>)>, i: int, w: Vec<V>)
    requires
        keys_distinct(s),
        0 <= i < s.len(),
    ensures
        group_view(s.update(i, (s[i].0, w))) == group_view(s).insert(s[i].0, w@),
    decreases s.len(),
{
    let u = s.update(i, (s[i].0, w));
    if i == s.len() - 1 {
        assert(u.drop_last() =~= s.drop_last());
        assert(group_view(u) =~= group_view(s).insert(s[i].0, w@));
    } else {
        assert(u.drop_last() =~= s.drop_last().update(i, (s[i].0, w)));
        lemma_group_update(s.drop_last(), i, w);
        assert(s[i].0 != s.last().0);
        assert(group_view(u) =~= group_view(s).insert(s[i].0, w@));
    }
}

/// The values of the group of `d` (none when `d` has no group).
pub open spec fn on_date<V>(s: Seq<(EU4Date, Vec<V>)>, d: EU4Date) -> Seq<V> {
    if group_view(s).contains_key(d) {
        group_view(s)[d]
    } else {
        seq![]
    }
}

/// Where the group of `date` stands, if it has one.
pub fn find_group<V>(s: &Vec<(EU4Date, Vec<V>)>, date: &EU4Date) -> (res: Option<usize>)
    requires
        keys_distinct(s@),
    ensures
        match res {
            Some(i) => i < s@.len() && s@[i as int].0 == *date && group_view(s@).contains_key(*date)
                && s@[i as int].1@ == on_date(s@, *date),
            None => !group_view(s@).contains_key(*date) && on_date(s@, *date) == Seq::<V>::empty(),
        },
{
    let mut i: usize = 0;
    while i < s.len()
        invariant
            0 <= i <= s@.len(),
            keys_distinct(s@),
            forall|j: int| 0 <= j < i ==> s@[j].0 != *date,
        decreases s@.len() - i,
    {
        if s[i].0 == *date {
            proof {
                lemma_group_lookup(s@, i as int);
            }
            return Some(i);
        }
        i = i + 1;
    }
    proof {
        lemma_group_absent(s@, *date);
    }
    None
}

/// Adds `v` to the group of `date`, making the group if there is none.
pub fn push_grouped<V>(out: &mut Vec<(EU4Date, Vec<V>)>, date: EU4Date, v: V)
    requires
        keys_distinct(old(out)@),
    ensures
        keys_distinct(final(out)@),
        group_view(final(out)@) == add_to(group_view(old(out)@), date, v),
{
    let mut i: usize = 0;
    while i < out.len()
        invariant
            0 <= i <= out@.len(),
            out@ == old(out)@,
            keys_distinct(out@),
            forall|j: int| 0 <= j < i ==> out@[j].0 != date,
        decreases out@.len() - i,
    {
        if out[i].0 == date {
            proof {
                lemma_group_lookup(out@, i as int);
            }
            let ghost before = out@;
            let ghost old_list = out@[i as int].1@;
            out[i].1.push(v);
            proof {
                assert(out@ == before.update(i as int, (date, out@[i as int].1)));
                assert(out@[i as int].1@ == old_list.push(v));
                lemma_group_update(before, i as int, out@[i as int].1);
            }
            return;
        }
        i = i + 1;
    }
    proof {
        lemma_group_absent(out@, date);
    }
    let ghost before = out@;
    let mut list: Vec<V> = Vec::new();
    list.push(v);
    out.push((date, list));
    proof {
        assert(out@.drop_last() =~= before);
    }
}

} // verus!

verus! {

/// The dated values of each owner, in order, each tagged with its owner.
pub open spec fn tag_events<I, E>(cs: Seq<(I, Vec<(EU4Date, E)>)>) -> Seq<(EU4Date, (I, E))>
    decreases cs.len(),
{
    if cs.len() == 0 {
        seq![]
    } else {
        tag_events(cs.drop_last()) + cs.last().1@.map_values(
            |e: (EU4Date, E)| (e.0, (cs.last().0, e.1)),
        )
    }
}

/// Groups the dated values of owners with `Copy` ids by date.
pub fn combine_copy<I: Copy, E>(owners: Vec<(I, Vec<(EU4Date, E)>)>) -> (res: Vec<(EU4Date, Vec<(I, E)>)>)
    ensures
        keys_distinct(res@),
        group_view(res@) == grouped(tag_events(owners@)),
{
    let ghost cs = owners@;
    let mut out: Vec<(EU4Date, Vec<(I, E)>)> = Vec::new();
    for entry in it: owners.into_iter()
        invariant
            it.seq() == cs,
            keys_distinct(out@),
            group_view(out@) == grouped(tag_events(cs.take(it.index() as int))),
    {
        let (id, events) = entry;
        let ghost k = it.index();
        let ghost base = tag_events(cs.take(k as int));
        let ghost evs = events@;
        proof {
            assert(cs.take(k + 1).drop_last() =~= cs.take(k as int));
        }
        for ev in it2: events.into_iter()
            invariant
                it2.seq() == evs,
                keys_distinct(out@),
                group_view(out@) == grouped(
                    base + evs.take(it2.index() as int).map_values(
                        |e: (EU4Date, E)| (e.0, (id, e.1)),
                    ),
                ),
        {
            let (date, event) = ev;
            let ghost j = it2.index();
            let ghost f = |e: (EU4Date, E)| (e.0, (id, e.1));
            proof {
                let a = base + evs.take(j + 1).map_values(f);
                assert(a.drop_last() =~= base + evs.take(j as int).map_values(f));
                assert(a.last() == (date, (id, event)));
            }
            push_grouped(&mut out, date, (id, event));
        }
        proof {
            assert(evs.take(evs.len() as int) =~= evs);
        }
    }
    proof {
        assert(cs.take(cs.len() as int) =~= cs);
    }
    out
}


/// Groups the dated values of named owners by date.
pub fn combine_named<E>(owners: Vec<(String, Vec<(EU4Date, E)>)>) -> (res: Vec<(EU4Date, Vec<(String, E)>)>)
    ensures
        keys_distinct(res@),
        group_view(res@) == grouped(tag_events(owners@)),
{
    let ghost cs = owners@;
    let mut out: Vec<(EU4Date, Vec<(String, E)>)> = Vec::new();
    for entry in it: owners.into_iter()
        invariant
            it.seq() == cs,
            keys_distinct(out@),
            group_view(out@) == grouped(tag_events(cs.take(it.index() as int))),
    {
        let (id, events) = entry;
        let ghost k = it.index();
        let ghost base = tag_events(cs.take(k as int));
        let ghost evs = events@;
        proof {
            assert(cs.take(k + 1).drop_last() =~= cs.take(k as int));
        }
        for ev in it2: events.into_iter()
            invariant
                it2.seq() == evs,
                keys_distinct(out@),
                group_view(out@) == grouped(
                    base + evs.take(it2.index() as int).map_values(
                        |e: (EU4Date, E)| (e.0, (id, e.1)),
                    ),
                ),
        {
            let (date, event) = ev;
            let ghost j = it2.index();
            let ghost f = |e: (EU4Date, E)| (e.0, (id, e.1));
            proof {
                let a = base + evs.take(j + 1).map_values(f);
                assert(a.drop_last() =~= base + evs.take(j as int).map_values(f));
                assert(a.last() == (date, (id, event)));
            }
            push_grouped(&mut out, date, (id.clone(), event));
        }
        proof {
            assert(evs.take(evs.len() as int) =~= evs);
        }
    }
    proof {
        assert(cs.take(cs.len() as int) =~= cs);
    }
    out
}

} // verus!

verus! {

/// `m` with the values `s` added at the end of the group of `d` (made if there was none).
pub open spec fn extend<V>(m: Map<EU4Date, Seq<V>>, d: EU4Date, s: Seq<V>) -> Map<EU4Date, Seq<V>> {
    m.insert(
        d,
        if m.contains_key(d) {
            m[d] + s
        } else {
            s
        },
    )
}

/// Adding one value after extending is extending by one more.
pub proof fn lemma_extend_push<V>(m: Map<EU4Date, Seq<V>>, d: EU4Date, s: Seq<V>, v: V)
    ensures
        add_to(extend(m, d, s), d, v) == extend(m, d, s.push(v)),
{
    if m.contains_key(d) {
        assert(m[d] + s.push(v) =~= (m[d] + s).push(v));
    }
    assert(add_to(extend(m, d, s), d, v) =~= extend(m, d, s.push(v)));
}

/// Makes an empty group for `date` if there is none.
pub fn touch_group<V>(out: &mut Vec<(EU4Date, Vec<V>)>, date: EU4Date)
    requires
        keys_distinct(old(out)@),
    ensures
        keys_distinct(final(out)@),
        group_view(final(out)@) == extend(group_view(old(out)@), date, seq![]),
{
    let mut i: usize = 0;
    while i < out.len()
        invariant
            0 <= i <= out@.len(),
            out@ == old(out)@,
            keys_distinct(out@),
            forall|j: int| 0 <= j < i ==> out@[j].0 != date,
        decreases out@.len() - i,
    {
        if out[i].0 == date {
            proof {
                lemma_group_lookup(out@, i as int);
                assert(group_view(out@)[date] + seq![] =~= group_view(out@)[date]);
                assert(extend(group_view(out@), date, seq![]) =~= group_view(out@));
            }
            return;
        }
        i = i + 1;
    }
    proof {
        lemma_group_absent(out@, date);
    }
    let ghost before = out@;
    out.push((date, Vec::new()));
    proof {
        assert(out@.drop_last() =~= before);
        assert(group_view(out@) =~= extend(group_view(before), date, seq![]));
    }
}

} // verus!
