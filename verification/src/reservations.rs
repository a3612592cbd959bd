//! The games whose maps can be reserved, and where their assets are kept.
use vstd::prelude::*;
use vstd::string::{StringExecFns, StringSliceAdditionalSpecFns};
use vstd::utf8::{decode_utf8, encode_utf8};

use crate::assets::{TagMaps, Tags};
use crate::eu5_date::{signed_decimal, signed_decimal_string};
use crate::text_util::{decimal, decimal_string, str_eq};

verus! {

broadcast use vstd::string::group_string_axioms;

#[derive(Debug, Clone, Copy, PartialEq, Eq, Structural)]
pub enum GameType {
    EU4,
    EU5,
}

/// `rel` joined onto the directory `base`, with one `/` between them (none when `base` is
/// empty or already ends with one).
pub open spec fn join_path(base: Seq<char>, rel: Seq<char>) -> Seq<char> {
    if base.len() == 0 {
        rel
    } else if base.last() == '/' {
        base + rel
    } else {
        base + seq!['/'] + rel
    }
}

/// Joins the relative path `rel` onto the directory `base`.
pub fn join(base: &str, rel: &str) -> (res: String)
    ensures
        res@ == join_path(base@, rel@),
{
    let n = base.unicode_len();
    let mut s = String::from_str(base);
    if n > 0 && base.get_char(n - 1) != '/' {
        s.append("/");
        proof {
            reveal_strlit("/");
        }
    }
    s.append(rel);
    s
}

impl GameType {
    /// The game's name, as written in commands and in the database.
    pub fn name(&self) -> (res: &'static str)
        ensures
            res@ == match self {
                GameType::EU4 => "EU4"@,
                GameType::EU5 => "EU5"@,
            },
    {
        match self {
            GameType::EU4 => "EU4",
            GameType::EU5 => "EU5",
        }
    }

    /// The game named `s`, if any.
    pub fn from_name(s: &str) -> (res: Option<GameType>)
        ensures
            res == (if s@ == "EU4"@ {
                Some(GameType::EU4)
            } else if s@ == "EU5"@ {
                Some(GameType::EU5)
            } else {
                None
            }),
    {
        if str_eq(s, "EU4") {
            Some(GameType::EU4)
        } else if str_eq(s, "EU5") {
            Some(GameType::EU5)
        } else {
            None
        }
    }

    /// The map every image of the game is drawn on.
    pub fn get_base_image_path(&self, base_path: &str) -> (res: String)
        ensures
            res@ == join_path(
                base_path@,
                match self {
                    GameType::EU4 => "eu4/vanilla/1444.png"@,
                    GameType::EU5 => "eu5/vanilla/1337.png"@,
                },
            ),
    {
        match self {
            GameType::EU4 => join(base_path, "eu4/vanilla/1444.png"),
            GameType::EU5 => join(base_path, "eu5/vanilla/1337.png"),
        }
    }

    /// The icon that marks a player on the map.
    pub fn get_icon_path(&self, base_path: &str) -> (res: String)
        ensures
            res@ == join_path(
                base_path@,
                match self {
                    GameType::EU4 => "eu4/xIcon.png"@,
                    GameType::EU5 => "eu5/player.png"@,
                },
            ),
    {
        match self {
            GameType::EU4 => join(base_path, "eu4/xIcon.png"),
            GameType::EU5 => join(base_path, "eu5/player.png"),
        }
    }

    /// Where the capitals of the game's countries are listed.
    pub fn get_capital_locations_path(&self, base_path: &str) -> (res: String)
        ensures
            res@ == join_path(
                base_path@,
                match self {
                    GameType::EU4 => "eu4/vanilla/capitals.txt"@,
                    GameType::EU5 => "eu5/vanilla/capitals.txt"@,
                },
            ),
    {
        match self {
            GameType::EU4 => join(base_path, "eu4/vanilla/capitals.txt"),
            GameType::EU5 => join(base_path, "eu5/vanilla/capitals.txt"),
        }
    }

    /// Where the game's country tags and names are listed.
    pub fn get_tags_path(&self, base_path: &str) -> (res: String)
        ensures
            res@ == join_path(
                base_path@,
                match self {
                    GameType::EU4 => "eu4/vanilla/tags.txt"@,
                    GameType::EU5 => "eu5/vanilla/tags.txt"@,
                },
            ),
    {
        match self {
            GameType::EU4 => join(base_path, "eu4/vanilla/tags.txt"),
            GameType::EU5 => join(base_path, "eu5/vanilla/tags.txt"),
        }
    }
}

impl std::str::FromStr for GameType {
    type Err = ();

    /// The game named `s` (`EU4` or `EU5`); `Err` for any other text.
    fn from_str(s: &str) -> (res: Result<Self, Self::Err>)
        ensures
            res == (if s@ == "EU4"@ {
                Ok::<GameType, ()>(GameType::EU4)
            } else if s@ == "EU5"@ {
                Ok::<GameType, ()>(GameType::EU5)
            } else {
                Err::<GameType, ()>(())
            }),
    {
        match GameType::from_name(s) {
            Some(g) => Ok(g),
            None => Err(()),
        }
    }
}

impl GameType {
    /// The game's name.
    pub fn to_text(&self) -> (res: String)
        ensures
            res@ == match self {
                GameType::EU4 => "EU4"@,
                GameType::EU5 => "EU5"@,
            },
    {
        String::from_str(self.name())
    }
}

/// A player's claim on a country for the next game.
#[derive(Debug, Clone, PartialEq, Eq)]
pub struct Reservation {
    /// When it was made, in whole seconds since the Unix epoch...
    pub timestamp: i64,
    /// ...and the nanoseconds within that second.
    pub timestamp_nanos: u32,
    pub tag: String,
    pub user_id: u64,
}

/// `a` comes strictly before `b` byte by byte (a proper prefix comes first).
pub open spec fn bytes_lt(a: Seq<u8>, b: Seq<u8>) -> bool
    decreases a.len(),
{
    if b.len() == 0 {
        false
    } else if a.len() == 0 {
        true
    } else if a[0] != b[0] {
        a[0] < b[0]
    } else {
        bytes_lt(a.drop_first(), b.drop_first())
    }
}

proof fn lemma_bytes_lt_asym(a: Seq<u8>, b: Seq<u8>)
    ensures
        bytes_lt(a, b) ==> !bytes_lt(b, a),
    decreases a.len(),
{
    if a.len() > 0 && b.len() > 0 && a[0] == b[0] {
        lemma_bytes_lt_asym(a.drop_first(), b.drop_first());
    }
}

/// The order in which reservations are listed: by time, then tag, then user.
pub open spec fn reservation_lt(a: Reservation, b: Reservation) -> bool {
    if a.timestamp != b.timestamp {
        a.timestamp < b.timestamp
    } else if a.timestamp_nanos != b.timestamp_nanos {
        a.timestamp_nanos < b.timestamp_nanos
    } else if a.tag@ != b.tag@ {
        bytes_lt(encode_utf8(a.tag@), encode_utf8(b.tag@))
    } else {
        a.user_id < b.user_id
    }
}

/// No reservation of `s` comes after the next one.
pub open spec fn listed_in_order(s: Seq<Reservation>) -> bool {
    forall|i: int| 0 <= i < s.len() - 1 ==> !reservation_lt(#[trigger] s[i + 1], s[i])
}

fn bytes_less(a: &[u8], b: &[u8]) -> (res: bool)
    ensures
        res == bytes_lt(a@, b@),
{
    let mut i: usize = 0;
    assert(a@.skip(0) =~= a@);
    assert(b@.skip(0) =~= b@);
    loop
        invariant
            i <= a@.len(),
            i <= b@.len(),
            bytes_lt(a@, b@) == bytes_lt(a@.skip(i as int), b@.skip(i as int)),
        decreases a@.len() - i,
    {
        if i == b.len() {
            return false;
        }
        if i == a.len() {
            return true;
        }
        if a[i] != b[i] {
            return a[i] < b[i];
        }
        assert(a@.skip(i as int).drop_first() =~= a@.skip(i + 1));
        assert(b@.skip(i as int).drop_first() =~= b@.skip(i + 1));
        i = i + 1;
    }
}

fn reservation_less(a: &Reservation, b: &Reservation) -> (res: bool)
    ensures
        res == reservation_lt(*a, *b),
{
    if a.timestamp != b.timestamp {
        a.timestamp < b.timestamp
    } else if a.timestamp_nanos != b.timestamp_nanos {
        a.timestamp_nanos < b.timestamp_nanos
    } else if !str_eq(a.tag.as_str(), b.tag.as_str()) {
        bytes_less(a.tag.as_str().as_bytes(), b.tag.as_str().as_bytes())
    } else {
        a.user_id < b.user_id
    }
}

/// `items` listed in order.
fn sorted_reservations(items: Vec<Reservation>) -> (res: Vec<Reservation>)
    ensures
        res@.to_multiset() == items@.to_multiset(),
        listed_in_order(res@),
{
    let ghost all = items@;
    let mut out: Vec<Reservation> = Vec::new();
    assert(all.take(0) =~= Seq::<Reservation>::empty());
    for x in it: items.into_iter()
        invariant
            it.seq() == all,
            out@.to_multiset() == all.take(it.index() as int).to_multiset(),
            listed_in_order(out@),
    {
        let ghost k = it.index();
        let mut p: usize = 0;
        while p < out.len()
            invariant
                0 <= p <= out@.len(),
                forall|q: int| 0 <= q < p ==> !reservation_lt(x, #[trigger] out@[q]),
            ensures
                0 <= p <= out@.len(),
                forall|q: int| 0 <= q < p ==> !reservation_lt(x, #[trigger] out@[q]),
                p < out@.len() ==> reservation_lt(x, out@[p as int]),
            decreases out@.len() - p,
        {
            if reservation_less(&x, &out[p]) {
                break;
            }
            p = p + 1;
        }
        proof {
            if p < out@.len() {
                lemma_bytes_lt_asym(encode_utf8(x.tag@), encode_utf8(out@[p as int].tag@));
                assert(!reservation_lt(out@[p as int], x));
            }
        }
        let ghost before = out@;
        out.insert(p, x);
        proof {
            assert(all.take(k + 1) =~= all.take(k as int).push(x));
            vstd::seq_lib::to_multiset_insert(before, p as int, x);
            vstd::seq_lib::to_multiset_build(all.take(k as int), x);
            assert(out@ == before.insert(p as int, x));
            assert forall|i: int| 0 <= i < out@.len() - 1 implies !reservation_lt(
                #[trigger] out@[i + 1],
                out@[i],
            ) by {
                if i + 1 < p {
                    assert(out@[i] == before[i] && out@[i + 1] == before[i + 1]);
                    assert(!reservation_lt(before[i + 1], before[i]));
                } else if i + 1 == p {
                    assert(out@[i] == before[i]);
                    assert(out@[i + 1] == x);
                    assert(!reservation_lt(x, before[i]));
                } else if i == p {
                    assert(out@[i] == x);
                    assert(out@[i + 1] == before[i]);
                } else {
                    assert(out@[i] == before[i - 1] && out@[i + 1] == before[i]);
                    assert(!reservation_lt(before[(i - 1) + 1], before[i - 1]));
                }
            }
        }
    }
    assert(all.take(all.len() as int) =~= all);
    out
}

/// The position of the first reservation of `tag`, if any.
pub open spec fn tag_index(s: Seq<Reservation>, tag: Seq<char>) -> Option<int> {
    if exists|i: int| 0 <= i < s.len() && (#[trigger] s[i]).tag@ == tag {
        Some(choose|i: int| 0 <= i < s.len() && s[i].tag@ == tag && forall|j: int| 0 <= j < i ==> (#[trigger] s[j]).tag@ != tag)
    } else {
        None
    }
}

/// The position of the first reservation of user `user`, if any.
pub open spec fn user_index(s: Seq<Reservation>, user: u64) -> Option<int> {
    if exists|i: int| 0 <= i < s.len() && (#[trigger] s[i]).user_id == user {
        Some(choose|i: int| 0 <= i < s.len() && s[i].user_id == user && forall|j: int| 0 <= j < i ==> (#[trigger] s[j]).user_id != user)
    } else {
        None
    }
}

proof fn lemma_first_user(s: Seq<Reservation>, user: u64, i: int)
    requires
        0 <= i < s.len(),
        s[i].user_id == user,
        forall|j: int| 0 <= j < i ==> (#[trigger] s[j]).user_id != user,
    ensures
        user_index(s, user) == Some(i),
{
    assert(exists|k: int| 0 <= k < s.len() && (#[trigger] s[k]).user_id == user);
    let k = choose|k: int|
        0 <= k < s.len() && s[k].user_id == user && forall|j: int|
            0 <= j < k ==> (#[trigger] s[j]).user_id != user;
    assert(0 <= i < s.len() && s[i].user_id == user && forall|j: int|
        0 <= j < i ==> (#[trigger] s[j]).user_id != user);
    if k < i {
        assert(s[k].user_id != user);
    }
    if k > i {
        assert(s[i].user_id != user);
    }
}

proof fn lemma_first_tag(s: Seq<Reservation>, tag: Seq<char>, i: int)
    requires
        0 <= i < s.len(),
        s[i].tag@ == tag,
        forall|j: int| 0 <= j < i ==> (#[trigger] s[j]).tag@ != tag,
    ensures
        tag_index(s, tag) == Some(i),
{
    assert(exists|k: int| 0 <= k < s.len() && (#[trigger] s[k]).tag@ == tag);
    let k = choose|k: int|
        0 <= k < s.len() && s[k].tag@ == tag && forall|j: int|
            0 <= j < k ==> (#[trigger] s[j]).tag@ != tag;
    assert(0 <= i < s.len() && s[i].tag@ == tag && forall|j: int|
        0 <= j < i ==> (#[trigger] s[j]).tag@ != tag);
    if k < i {
        assert(s[k].tag@ != tag);
    }
    if k > i {
        assert(s[i].tag@ != tag);
    }
}

fn find_user(s: &Vec<Reservation>, user: u64) -> (res: Option<usize>)
    ensures
        match res {
            Some(i) => i < s@.len() && user_index(s@, user) == Some(i as int),
            None => user_index(s@, user) is None,
        },
{
    let mut i: usize = 0;
    while i < s.len()
        invariant
            0 <= i <= s@.len(),
            forall|j: int| 0 <= j < i ==> (#[trigger] s@[j]).user_id != user,
        decreases s@.len() - i,
    {
        if s[i].user_id == user {
            proof {
                lemma_first_user(s@, user, i as int);
            }
            return Some(i);
        }
        i = i + 1;
    }
    None
}

fn tag_taken(s: &Vec<Reservation>, tag: &str) -> (res: bool)
    ensures
        res == (tag_index(s@, tag@) is Some),
{
    let mut i: usize = 0;
    while i < s.len()
        invariant
            0 <= i <= s@.len(),
            forall|j: int| 0 <= j < i ==> (#[trigger] s@[j]).tag@ != tag@,
        decreases s@.len() - i,
    {
        if str_eq(s[i].tag.as_str(), tag) {
            proof {
                lemma_first_tag(s@, tag@, i as int);
            }
            return true;
        }
        i = i + 1;
    }
    false
}

/// No two reservations are for one tag or by one user.
pub open spec fn reservations_wf(s: Seq<Reservation>) -> bool {
    forall|i: int, j: int|
        0 <= i < j < s.len() ==> (#[trigger] s[i]).tag@ != (#[trigger] s[j]).tag@ && s[i].user_id
            != s[j].user_id
}

/// Listing the same reservations in another order keeps them one per tag and one per user.
pub proof fn lemma_wf_permutation(a: Seq<Reservation>, b: Seq<Reservation>)
    requires
        reservations_wf(a),
        a.to_multiset() == b.to_multiset(),
    ensures
        reservations_wf(b),
{
    broadcast use vstd::seq_lib::group_to_multiset_ensures;

    assert(a.no_duplicates()) by {
        assert forall|i: int, j: int| 0 <= i < a.len() && 0 <= j < a.len() && i != j implies a[i]
            != a[j] by {
            if i < j {
                assert(a[i].user_id != a[j].user_id);
            } else {
                assert(a[j].user_id != a[i].user_id);
            }
        }
    }
    a.lemma_multiset_has_no_duplicates();
    b.lemma_multiset_has_no_duplicates_conv();
    assert forall|i: int, j: int| 0 <= i < j < b.len() implies (#[trigger] b[i]).tag@ != (
    #[trigger] b[j]).tag@ && b[i].user_id != b[j].user_id by {
        assert(b.to_multiset().count(b[i]) > 0);
        assert(b.to_multiset().count(b[j]) > 0);
        assert(a.contains(b[i]));
        assert(a.contains(b[j]));
        let ia = choose|k: int| 0 <= k < a.len() && a[k] == b[i];
        let ja = choose|k: int| 0 <= k < a.len() && a[k] == b[j];
        assert(b[i] != b[j]);
        assert(ia != ja);
        if ia < ja {
            assert(a[ia].tag@ != a[ja].tag@ && a[ia].user_id != a[ja].user_id);
        } else {
            assert(a[ja].tag@ != a[ia].tag@ && a[ja].user_id != a[ia].user_id);
        }
    }
}

/// The reservations of one game.
#[derive(Debug, Clone, PartialEq, Eq)]
pub struct ReservationsData {
    pub reservations: Vec<Reservation>,
    pub game_type: GameType,
}

impl ReservationsData {
    /// No reservations yet.
    pub fn new(game_type: GameType) -> (res: ReservationsData)
        ensures
            res.reservations@ == Seq::<Reservation>::empty(),
            res.game_type == game_type,
    {
        ReservationsData { reservations: Vec::new(), game_type }
    }

    /// The number of reservations.
    pub fn len(&self) -> (res: usize)
        ensures
            res == self.reservations@.len(),
    {
        self.reservations.len()
    }

    /// The reserved tags, in the order of the reservations.
    pub fn reserved_tags(&self) -> (res: Vec<String>)
        ensures
            res@.len() == self.reservations@.len(),
            forall|i: int| 0 <= i < res@.len() ==> (#[trigger] res@[i])@ == self.reservations@[i].tag@,
    {
        let mut out: Vec<String> = Vec::new();
        let mut i: usize = 0;
        while i < self.reservations.len()
            invariant
                0 <= i <= self.reservations@.len(),
                out@.len() == i,
                forall|j: int| 0 <= j < i ==> (#[trigger] out@[j])@ == self.reservations@[j].tag@,
            decreases self.reservations@.len() - i,
        {
            out.push(String::from_str(self.reservations[i].tag.as_str()));
            i = i + 1;
        }
        out
    }

    /// Adds `reservation`: `Err` when its tag is already reserved; else it replaces the
    /// reservation of its user (and the reservations are then listed in order), or, when the
    /// user has none, comes last.
    pub fn try_add(&mut self, reservation: Reservation) -> (res: Result<(), ()>)
        ensures
            final(self).game_type == old(self).game_type,
            reservations_wf(old(self).reservations@) ==> reservations_wf(final(self).reservations@),
            tag_index(old(self).reservations@, reservation.tag@) is Some ==> res is Err
                && final(self).reservations@ == old(self).reservations@,
            tag_index(old(self).reservations@, reservation.tag@) is None ==> res is Ok && match user_index(
                old(self).reservations@,
                reservation.user_id,
            ) {
                None => final(self).reservations@ == old(self).reservations@.push(reservation),
                Some(i) => final(self).reservations@.to_multiset() == old(
                    self,
                ).reservations@.update(i, reservation).to_multiset() && listed_in_order(
                    final(self).reservations@,
                ),
            },
    {
        if tag_taken(&self.reservations, reservation.tag.as_str()) {
            return Err(());
        }
        match find_user(&self.reservations, reservation.user_id) {
            None => {
                let ghost before = self.reservations@;
                self.reservations.push(reservation);
                proof {
                    if reservations_wf(before) {
                        let u = self.reservations@;
                        assert(forall|k: int| 0 <= k < before.len() ==> (#[trigger] before[k]).tag@
                            != u[before.len() as int].tag@);
                        assert(forall|k: int| 0 <= k < before.len() ==> (#[trigger] before[k]).user_id
                            != u[before.len() as int].user_id);
                        assert forall|p: int, q: int| 0 <= p < q < u.len() implies (
                        #[trigger] u[p]).tag@ != (#[trigger] u[q]).tag@ && u[p].user_id
                            != u[q].user_id by {
                            assert(u[p] == before[p]);
                            if q < before.len() {
                                assert(u[q] == before[q]);
                            }
                        }
                    }
                }
            },
            Some(i) => {
                let ghost before = self.reservations@;
                self.reservations.set(i, reservation);
                proof {
                    if reservations_wf(before) {
                        assert(forall|k: int| 0 <= k < before.len() ==> (#[trigger] before[k]).tag@
                            != self.reservations@[i as int].tag@);
                        assert(reservations_wf(self.reservations@)) by {
                            let u = self.reservations@;
                            assert forall|p: int, q: int| 0 <= p < q < u.len() implies (
                            #[trigger] u[p]).tag@ != (#[trigger] u[q]).tag@ && u[p].user_id
                                != u[q].user_id by {
                                if p == i {
                                    assert(u[q] == before[q]);
                                    assert(before[p].user_id != before[q].user_id);
                                } else if q == i {
                                    assert(u[p] == before[p]);
                                    assert(before[p].user_id != before[q].user_id);
                                } else {
                                    assert(u[p] == before[p] && u[q] == before[q]);
                                }
                            }
                        }
                    }
                }
                let ghost updated = self.reservations@;
                let mut items: Vec<Reservation> = Vec::new();
                std::mem::swap(&mut items, &mut self.reservations);
                self.reservations = sorted_reservations(items);
                proof {
                    if reservations_wf(before) {
                        lemma_wf_permutation(updated, self.reservations@);
                    }
                }
            },
        }
        Ok(())
    }

    /// Removes the first reservation of user `user_id`, if any.
    pub fn remove(&mut self, user_id: u64)
        ensures
            final(self).game_type == old(self).game_type,
            reservations_wf(old(self).reservations@) ==> reservations_wf(final(self).reservations@),
            match user_index(old(self).reservations@, user_id) {
                Some(i) => final(self).reservations@ == old(self).reservations@.remove(i),
                None => final(self).reservations@ == old(self).reservations@,
            },
    {
        match find_user(&self.reservations, user_id) {
            Some(i) => {
                let ghost before = self.reservations@;
                self.reservations.remove(i);
                proof {
                    if reservations_wf(before) {
                        let u = self.reservations@;
                        assert forall|p: int, q: int| 0 <= p < q < u.len() implies (
                        #[trigger] u[p]).tag@ != (#[trigger] u[q]).tag@ && u[p].user_id
                            != u[q].user_id by {
                            let pp = if p < i { p } else { p + 1 };
                            let qq = if q < i { q } else { q + 1 };
                            assert(u[p] == before[pp] && u[q] == before[qq]);
                        }
                    }
                }
            },
            None => {},
        }
    }
}

/// The name shown for `tag`: its country's name, else the tag itself.
pub open spec fn shown_name(tags: TagMaps, tag: Seq<char>) -> Seq<char> {
    match tags.tag_to_name.get(encode_utf8(tag)) {
        Some(n) => decode_utf8(n),
        None => tag,
    }
}

impl Reservation {
    /// The line of this reservation in a list: a mention of the user, the country and the
    /// time it was made.
    pub open spec fn spec_line(self, tags: TagMaps) -> Seq<char> {
        "<@"@ + decimal(self.user_id as nat) + ">: "@ + shown_name(tags, self.tag@) + " <t:"@
            + signed_decimal(self.timestamp as int) + ">"@
    }

    /// The line of this reservation in a list: `<@user>: country <t:seconds>`.
    pub fn format_with_tags(&self, tags: &Tags) -> (res: String)
        requires
            tags.wf(),
        ensures
            res@ == self.spec_line(tags@),
    {
        proof {
            vstd::utf8::encode_utf8_decode_utf8(self.tag@);
        }
        let mut s = String::from_str("<@");
        let u = decimal_string(self.user_id);
        s.append(u.as_str());
        s.append(">: ");
        match tags.get_name_for_tag(self.tag.as_str()) {
            Some(name) => {
                proof {
                    vstd::utf8::encode_utf8_decode_utf8(name@);
                }
                s.append(name);
            },
            None => {
                s.append(self.tag.as_str());
            },
        }
        s.append(" <t:");
        let t = signed_decimal_string(self.timestamp);
        s.append(t.as_str());
        s.append(">");
        s
    }
}

/// The lines of the reservations, each followed by a line break.
pub open spec fn reservation_lines(s: Seq<Reservation>, tags: TagMaps) -> Seq<char>
    decreases s.len(),
{
    if s.len() == 0 {
        seq![]
    } else {
        reservation_lines(s.drop_last(), tags) + s.last().spec_line(tags) + "\n"@
    }
}

impl ReservationsData {
    /// The list of the reservations under a heading naming `game_type`; `*none*` when there
    /// are none.
    pub fn format_with_game(&self, game_type: GameType, tags: &Tags) -> (res: String)
        requires
            tags.wf(),
        ensures
            res@ == game_type.to_text_spec() + " Game Reservations\n\n"@ + reservation_lines(
                self.reservations@,
                tags@,
            ) + if self.reservations@.len() == 0 {
                "*none*\n"@
            } else {
                ""@
            },
    {
        let mut s = game_type.to_text();
        s.append(" Game Reservations\n\n");
        let ghost head = s@;
        let mut i: usize = 0;
        assert(self.reservations@.take(0) =~= Seq::<Reservation>::empty());
        assert(head + reservation_lines(Seq::<Reservation>::empty(), tags@) =~= head);
        while i < self.reservations.len()
            invariant
                0 <= i <= self.reservations@.len(),
                tags.wf(),
                s@ == head + reservation_lines(self.reservations@.take(i as int), tags@),
            decreases self.reservations@.len() - i,
        {
            assert(self.reservations@.take(i + 1).drop_last() =~= self.reservations@.take(i as int));
            let line = self.reservations[i].format_with_tags(tags);
            s.append(line.as_str());
            s.append("\n");
            i = i + 1;
        }
        assert(self.reservations@.take(self.reservations@.len() as int) =~= self.reservations@);
        if self.reservations.len() == 0 {
            s.append("*none*\n");
        } else {
            proof {
                reveal_strlit("");
            }
            assert(s@ + ""@ =~= s@);
        }
        s
    }
}

impl GameType {
    /// The game's name.
    pub open spec fn to_text_spec(self) -> Seq<char> {
        match self {
            GameType::EU4 => "EU4"@,
            GameType::EU5 => "EU5"@,
        }
    }
}

/// Reserving a free country for a user who holds no reservation, and then taking that user's
/// reservation back, leaves the reservations as they were: the new reservation is listed last,
/// and it is the one taken back.
pub proof fn lemma_add_then_remove(s: Seq<Reservation>, r: Reservation)
    requires
        tag_index(s, r.tag@) is None,
        user_index(s, r.user_id) is None,
    ensures
        user_index(s.push(r), r.user_id) == Some(s.len() as int),
        s.push(r).remove(s.len() as int) == s,
{
    let t = s.push(r);
    assert forall|j: int| 0 <= j < s.len() implies (#[trigger] t[j]).user_id != r.user_id by {
        assert(t[j] == s[j]);
    }
    lemma_first_user(t, r.user_id, s.len() as int);
    assert(t.remove(s.len() as int) =~= s);
}

} // verus!
