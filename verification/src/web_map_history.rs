//! Province history for the web map, whose provinces are numbered with `u16`s.
use vstd::prelude::*;

use crate::date_groups::{group_view, grouped, keys_distinct, tag_events};
use crate::eu4_date::EU4Date;
use crate::eu4_raw_parser::{RawEU4Object, kvs_of};
use crate::map_history::{
    province_events, province_histories, province_histories_match, province_keys_ok, provinces_of,
};

pub use crate::map_history::ProvinceHistoryEvent;

verus! {

/// Renumbers provinces with the low 16 bits of their numbers.
fn to_u16_ids(ps: Vec<(u64, Vec<(EU4Date, ProvinceHistoryEvent)>)>) -> (res: Vec<(u16, Vec<(EU4Date, ProvinceHistoryEvent)>)>)
    ensures
        res@.len() == ps@.len(),
        forall|i: int|
            0 <= i < ps@.len() ==> (#[trigger] res@[i]).0 == ps@[i].0 as u16 && res@[i].1 == ps@[i].1,
{
    let ghost cs = ps@;
    let mut out: Vec<(u16, Vec<(EU4Date, ProvinceHistoryEvent)>)> = Vec::new();
    for entry in it: ps.into_iter()
        invariant
            it.seq() == cs,
            out@.len() == it.index(),
            forall|i: int|
                0 <= i < out@.len() ==> (#[trigger] out@[i]).0 == cs[i].0 as u16 && out@[i].1 == cs[i].1,
    {
        let (id, events) = entry;
        out.push((id as u16, events));
    }
    out
}

/// The events of all provinces of a save, grouped by date; provinces are numbered with the low
/// 16 bits of their numbers.
pub fn make_combined_events(save: &RawEU4Object) -> (res: Vec<(EU4Date, Vec<(u16, ProvinceHistoryEvent)>)>)
    requires
        provinces_of(*save) matches Some(p) && province_keys_ok(kvs_of(p.0@)),
    ensures
        keys_distinct(res@),
        exists|cs: Seq<(u16, Vec<(EU4Date, ProvinceHistoryEvent)>)>|
            province_histories_match(
                cs,
                province_histories(kvs_of(provinces_of(*save).unwrap().0@)),
                |n: int| (n as u64) as u16,
            ) && group_view(res@) == grouped(tag_events(cs)),
{
    let provinces = match save.get_first_obj("provinces") {
        Some(p) => p,
        None => {
            return Vec::new();
        },
    };
    let wide = province_events(provinces);
    let ghost ws = wide@;
    let histories = to_u16_ids(wide);
    let ghost hs = histories@;
    proof {
        let ph = province_histories(kvs_of(provinces_of(*save).unwrap().0@));
        assert forall|i: int| 0 <= i < hs.len() implies (#[trigger] hs[i]).0 == (|n: int| (n as u64) as u16)(
            ph[i].0,
        ) by {
            assert(ws[i].0 == (|n: int| n as u64)(ph[i].0));
        }
    }
    let res = ProvinceHistoryEvent::combine_events(histories);
    proof {
        assert(province_histories_match(
            hs,
            province_histories(kvs_of(provinces_of(*save).unwrap().0@)),
            |n: int| (n as u64) as u16,
        ) && group_view(res@) == grouped(tag_events(hs)));
    }
    res
}

} // verus!
