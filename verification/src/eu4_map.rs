//! Which country a group of provinces belongs to.
use vstd::prelude::*;
use vstd::string::StringExecFns;

use crate::text_util::str_eq;

verus! {

broadcast use vstd::string::group_string_axioms;

/// The owner of province `id`: the tag of its first entry in `owners`, if any.
pub open spec fn owner_of(owners: Seq<(u64, String)>, id: u64) -> Option<Seq<char>>
    decreases owners.len(),
{
    if owners.len() == 0 {
        None
    } else if owners[0].0 == id {
        Some(owners[0].1@)
    } else {
        owner_of(owners.drop_first(), id)
    }
}

/// How many of `provinces` the country `tag` owns.
pub open spec fn owned_count(provinces: Seq<u64>, owners: Seq<(u64, String)>, tag: Seq<char>) -> nat
    decreases provinces.len(),
{
    if provinces.len() == 0 {
        0
    } else {
        owned_count(provinces.drop_last(), owners, tag) + if owner_of(owners, provinces.last())
            == Some(tag) {
            1nat
        } else {
            0nat
        }
    }
}

proof fn lemma_owned_count_bound(provinces: Seq<u64>, owners: Seq<(u64, String)>, tag: Seq<char>)
    ensures
        owned_count(provinces, owners, tag) <= provinces.len(),
    decreases provinces.len(),
{
    if provinces.len() > 0 {
        lemma_owned_count_bound(provinces.drop_last(), owners, tag);
    }
}

fn find_owner<'a>(owners: &'a Vec<(u64, String)>, id: u64) -> (res: Option<&'a String>)
    ensures
        match owner_of(owners@, id) {
            Some(t) => res matches Some(r) && r@ == t,
            None => res is None,
        },
{
    let mut i: usize = 0;
    assert(owners@.skip(0) =~= owners@);
    while i < owners.len()
        invariant
            0 <= i <= owners@.len(),
            owner_of(owners@, id) == owner_of(owners@.skip(i as int), id),
        decreases owners@.len() - i,
    {
        assert(owners@.skip(i as int).drop_first() =~= owners@.skip(i + 1));
        if owners[i].0 == id {
            return Some(&owners[i].1);
        }
        i = i + 1;
    }
    None
}

/// Finds the tag (if any) that owns the majority of the provinces in the vector; `owners` gives
/// the owner of each province.
pub fn majority_owner(provinces: &Vec<u64>, owners: &Vec<(u64, String)>) -> (res: Option<String>)
    ensures
        match res {
            Some(t) => owned_count(provinces@, owners@, t@) > provinces@.len() / 2,
            None => forall|t: Seq<char>| owned_count(provinces@, owners@, t) <= provinces@.len() / 2,
        },
{
    let mut counts: Vec<(String, usize)> = Vec::new();
    let mut i: usize = 0;
    while i < provinces.len()
        invariant
            0 <= i <= provinces@.len(),
            forall|k: int|
                0 <= k < counts@.len() ==> (#[trigger] counts@[k]).1 == owned_count(
                    provinces@.take(i as int),
                    owners@,
                    counts@[k].0@,
                ),
            forall|k: int, l: int| 0 <= k < l < counts@.len() ==> (#[trigger] counts@[k]).0@ != (#[trigger] counts@[l]).0@,
            forall|t: Seq<char>|
                owned_count(provinces@.take(i as int), owners@, t) > 0 ==> exists|k: int|
                    0 <= k < counts@.len() && (#[trigger] counts@[k]).0@ == t,
        decreases provinces@.len() - i,
    {
        let ghost pre = provinces@.take(i as int);
        let ghost post = provinces@.take(i + 1);
        assert(post.drop_last() =~= pre);
        assert(post.last() == provinces@[i as int]);
        let id = provinces[i];
        match find_owner(owners, id) {
            None => {
                assert(forall|t: Seq<char>| owned_count(post, owners@, t) == owned_count(pre, owners@, t));
            },
            Some(owner) => {
                let mut k: usize = 0;
                while k < counts.len()
                    invariant
                        0 <= k <= counts@.len(),
                        forall|j: int| 0 <= j < k ==> (#[trigger] counts@[j]).0@ != owner@,
                    ensures
                        0 <= k <= counts@.len(),
                        forall|j: int| 0 <= j < k ==> (#[trigger] counts@[j]).0@ != owner@,
                        k < counts@.len() ==> counts@[k as int].0@ == owner@,
                    decreases counts@.len() - k,
                {
                    if str_eq(counts[k].0.as_str(), owner.as_str()) {
                        break;
                    }
                    k = k + 1;
                }
                proof {
                    lemma_owned_count_bound(pre, owners@, owner@);
                }
                let ghost before = counts@;
                if k < counts.len() {
                    let c = counts[k].1;
                    let name = String::from_str(counts[k].0.as_str());
                    counts.set(k, (name, c + 1));
                    proof {
                        assert(counts@[k as int].0@ == before[k as int].0@);
                        assert forall|j: int| 0 <= j < counts@.len() implies (#[trigger] counts@[j]).1
                            == owned_count(post, owners@, counts@[j].0@) by {
                            if j != k {
                                assert(counts@[j] == before[j]);
                                assert(before[j].0@ != owner@);
                            }
                        }
                        assert forall|j: int, l: int| 0 <= j < l < counts@.len() implies (
                        #[trigger] counts@[j]).0@ != (#[trigger] counts@[l]).0@ by {
                            assert(counts@[j].0@ == before[j].0@ && counts@[l].0@ == before[l].0@);
                        }
                        assert forall|t: Seq<char>| owned_count(post, owners@, t) > 0 implies exists|
                            j: int,
                        | 0 <= j < counts@.len() && (#[trigger] counts@[j]).0@ == t by {
                            if t == owner@ {
                                assert(counts@[k as int].0@ == t);
                            } else {
                                assert(owned_count(post, owners@, t) == owned_count(pre, owners@, t));
                                let j = choose|j: int| 0 <= j < before.len() && (#[trigger] before[j]).0@ == t;
                                assert(counts@[j].0@ == before[j].0@);
                            }
                        }
                    }
                } else {
                    let name = String::from_str(owner.as_str());
                    counts.push((name, 1));
                    proof {
                        assert(owned_count(pre, owners@, owner@) == 0) by {
                            if owned_count(pre, owners@, owner@) > 0 {
                                let j = choose|j: int| 0 <= j < before.len() && (#[trigger] before[j]).0@ == owner@;
                                assert(before[j].0@ != owner@);
                            }
                        }
                        assert forall|j: int| 0 <= j < counts@.len() implies (#[trigger] counts@[j]).1
                            == owned_count(post, owners@, counts@[j].0@) by {
                            if j < before.len() {
                                assert(counts@[j] == before[j]);
                                assert(before[j].0@ != owner@);
                            }
                        }
                        assert forall|j: int, l: int| 0 <= j < l < counts@.len() implies (
                        #[trigger] counts@[j]).0@ != (#[trigger] counts@[l]).0@ by {
                            assert(counts@[j] == before[j]);
                            if l < before.len() {
                                assert(counts@[l] == before[l]);
                            }
                        }
                        assert forall|t: Seq<char>| owned_count(post, owners@, t) > 0 implies exists|
                            j: int,
                        | 0 <= j < counts@.len() && (#[trigger] counts@[j]).0@ == t by {
                            if t == owner@ {
                                assert(counts@[before.len() as int].0@ == t);
                            } else {
                                assert(owned_count(post, owners@, t) == owned_count(pre, owners@, t));
                                let j = choose|j: int| 0 <= j < before.len() && (#[trigger] before[j]).0@ == t;
                                assert(counts@[j] == before[j]);
                            }
                        }
                    }
                }
            },
        }
        i = i + 1;
    }
    assert(provinces@.take(provinces@.len() as int) =~= provinces@);
    let half = provinces.len() / 2;
    let mut k: usize = 0;
    while k < counts.len()
        invariant
            0 <= k <= counts@.len(),
            half == provinces@.len() / 2,
            forall|j: int| 0 <= j < k ==> (#[trigger] counts@[j]).1 <= half,
            forall|j: int|
                0 <= j < counts@.len() ==> (#[trigger] counts@[j]).1 == owned_count(
                    provinces@,
                    owners@,
                    counts@[j].0@,
                ),
            forall|t: Seq<char>|
                owned_count(provinces@, owners@, t) > 0 ==> exists|j: int|
                    0 <= j < counts@.len() && (#[trigger] counts@[j]).0@ == t,
        decreases counts@.len() - k,
    {
        if counts[k].1 > half {
            return Some(String::from_str(counts[k].0.as_str()));
        }
        k = k + 1;
    }
    proof {
        assert forall|t: Seq<char>| owned_count(provinces@, owners@, t) <= provinces@.len() / 2 by {
            if owned_count(provinces@, owners@, t) > 0 {
                let j = choose|j: int| 0 <= j < counts@.len() && (#[trigger] counts@[j]).0@ == t;
                assert(counts@[j].1 <= half);
            }
        }
    }
    None
}

} // verus!
