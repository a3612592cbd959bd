//! Reading the map files of the web map: province colors (`definition.csv`), wasteland and
//! water provinces, and the order of the flags in the flag sheet.
use vstd::prelude::*;
use vstd::string::{StringExecFns, StringSliceAdditionalSpecFns};
use vstd::utf8::encode_utf8;

use crate::assets::split_on;
use crate::color_map::MapColor;
use crate::map_parsers::{
    lines_of, next_line, parse_words, word_numbers, words_from, ProvinceListError,
};
use crate::map_parsers::{lemma_word_end, word_end};
use crate::text_util::{
    is_ascii_ws, lemma_after_ascii, lemma_find_byte, parse_u64, parse_uint_max, spec_parse_u64,
    spec_parse_uint_max, split_at_byte, splittable, str_eq, str_range, trim, trim_str,
};
use vstd::utf8::{
    is_char_boundary_iff_not_is_continuation_byte, is_char_boundary_start_end_of_seq, valid_utf8,
};

verus! {

broadcast use vstd::string::group_string_axioms, vstd::utf8::encode_utf8_valid_utf8;

/// The map of key-value pairs, later pairs winning.
pub open spec fn kv_map<K, V>(s: Seq<(K, V)>) -> Map<K, V>
    decreases s.len(),
{
    if s.len() == 0 {
        Map::empty()
    } else {
        kv_map(s.drop_last()).insert(s.last().0, s.last().1)
    }
}

/// No two pairs have one key.
pub open spec fn keys_unique<K, V>(s: Seq<(K, V)>) -> bool {
    forall|i: int, j: int| 0 <= i < j < s.len() ==> s[i].0 != s[j].0
}

proof fn lemma_kv_absent<K, V>(s: Seq<(K, V)>, k: K)
    requires
        forall|i: int| 0 <= i < s.len() ==> s[i].0 != k,
    ensures
        !kv_map(s).contains_key(k),
    decreases s.len(),
{
    if s.len() > 0 {
        lemma_kv_absent(s.drop_last(), k);
    }
}

proof fn lemma_kv_update<K, V>(s: Seq<(K, V)>, i: int, v: V)
    requires
        keys_unique(s),
        0 <= i < s.len(),
    ensures
        kv_map(s.update(i, (s[i].0, v))) == kv_map(s).insert(s[i].0, v),
    decreases s.len(),
{
    let u = s.update(i, (s[i].0, v));
    if i == s.len() - 1 {
        assert(u.drop_last() =~= s.drop_last());
        assert(kv_map(u) =~= kv_map(s).insert(s[i].0, v));
    } else {
        assert(u.drop_last() =~= s.drop_last().update(i, (s[i].0, v)));
        lemma_kv_update(s.drop_last(), i, v);
        assert(s[i].0 != s.last().0);
        assert(kv_map(u) =~= kv_map(s).insert(s[i].0, v));
    }
}

/// The parts of `s` between its bytes `c` (an ASCII byte), as `str::split` gives them.
pub fn split_all<'a>(s: &'a str, c: u8) -> (res: Vec<&'a str>)
    requires
        c < 0x80,
    ensures
        res@.len() == split_on(s.spec_bytes(), c).len(),
        forall|i: int| 0 <= i < res@.len() ==> (#[trigger] res@[i]).spec_bytes() == split_on(s.spec_bytes(), c)[i],
{
    let mut out: Vec<&'a str> = Vec::new();
    let mut r: &'a str = s;
    let ghost all = split_on(s.spec_bytes(), c);
    assert(all =~= Seq::<Seq<u8>>::empty() + split_on(r.spec_bytes(), c));
    loop
        invariant
            c < 0x80,
            all == split_on(s.spec_bytes(), c),
            all == out@.map_values(|p: &str| p.spec_bytes()) + split_on(r.spec_bytes(), c),
        decreases r.spec_bytes().len(),
    {
        proof {
            lemma_find_byte(r.spec_bytes(), c, 0);
        }
        let ghost before = out@;
        let ghost rest = split_on(r.spec_bytes(), c);
        match split_at_byte(r, c) {
            Some((a, b)) => {
                out.push(a);
                assert(rest == seq![a.spec_bytes()] + split_on(b.spec_bytes(), c));
                assert(out@.map_values(|p: &str| p.spec_bytes()) =~= before.map_values(|p: &str| p.spec_bytes()).push(a.spec_bytes()));
                assert(all =~= out@.map_values(|p: &str| p.spec_bytes()) + split_on(b.spec_bytes(), c));
                r = b;
            },
            None => {
                out.push(r);
                assert(rest == seq![r.spec_bytes()]);
                assert(out@.map_values(|p: &str| p.spec_bytes()) =~= all);
                proof {
                    assert forall|i: int| 0 <= i < out@.len() implies (#[trigger] out@[i]).spec_bytes() == all[i] by {
                        assert(out@.map_values(|p: &str| p.spec_bytes())[i] == out@[i].spec_bytes());
                    }
                }
                return out;
            },
        }
    }
}

/// Why `definition.csv` could not be read.
#[derive(Debug, Clone, PartialEq, Eq)]
pub enum DefinitionError {
    /// A line does not have six `;`-separated fields.
    InvalidLine(String),
    /// A province number or a color part is not a number of its type.
    InvalidNumber,
}

/// A reading error by the bytes of its text.
pub enum DefinitionErrorView {
    InvalidLine(Seq<u8>),
    InvalidNumber,
}

impl View for DefinitionError {
    type V = DefinitionErrorView;

    open spec fn view(&self) -> DefinitionErrorView {
        match self {
            DefinitionError::InvalidLine(l) => DefinitionErrorView::InvalidLine(encode_utf8(l@)),
            DefinitionError::InvalidNumber => DefinitionErrorView::InvalidNumber,
        }
    }
}

/// Reading the lines of `definition.csv` (after its header line) into `m`: each line is
/// `id;r;g;b;name;x`, and only lines whose last field (trimmed, when `trim_x`) is `x` give a
/// province its color.
pub open spec fn definition_rows(lines: Seq<Seq<u8>>, trim_x: bool, m: Map<MapColor, u64>) -> Result<
    Map<MapColor, u64>,
    DefinitionErrorView,
>
    decreases lines.len(),
{
    if lines.len() == 0 {
        Ok(m)
    } else {
        let parts = split_on(lines[0], 0x3b);
        if parts.len() != 6 {
            Err(DefinitionErrorView::InvalidLine(lines[0]))
        } else {
            let x = if trim_x {
                trim(parts[5])
            } else {
                parts[5]
            };
            if x != seq![0x78u8] {
                definition_rows(lines.drop_first(), trim_x, m)
            } else {
                match (
                    spec_parse_u64(parts[0]),
                    spec_parse_uint_max(parts[1], 255),
                    spec_parse_uint_max(parts[2], 255),
                    spec_parse_uint_max(parts[3], 255),
                ) {
                    (Some(id), Some(r), Some(g), Some(b)) => definition_rows(
                        lines.drop_first(),
                        trim_x,
                        m.insert(MapColor { r: r as u8, g: g as u8, b: b as u8 }, id),
                    ),
                    _ => Err(DefinitionErrorView::InvalidNumber),
                }
            }
        }
    }
}

/// The lines of `s` after the first.
pub open spec fn after_first_line(s: Seq<u8>) -> Seq<Seq<u8>> {
    if lines_of(s).len() == 0 {
        seq![]
    } else {
        lines_of(s).drop_first()
    }
}

fn insert_color(v: &mut Vec<(MapColor, u64)>, k: MapColor, val: u64)
    requires
        keys_unique(old(v)@),
    ensures
        keys_unique(final(v)@),
        kv_map(final(v)@) == kv_map(old(v)@).insert(k, val),
{
    let mut i: usize = 0;
    while i < v.len()
        invariant
            0 <= i <= v@.len(),
            v@ == old(v)@,
            keys_unique(v@),
            forall|j: int| 0 <= j < i ==> v@[j].0 != k,
        decreases v@.len() - i,
    {
        if v[i].0 == k {
            let ghost before = v@;
            v.set(i, (k, val));
            proof {
                lemma_kv_update(before, i as int, val);
                assert(v@ == before.update(i as int, (before[i as int].0, val)));
            }
            return;
        }
        i = i + 1;
    }
    proof {
        lemma_kv_absent(v@, k);
    }
    let ghost before = v@;
    v.push((k, val));
    assert(v@.drop_last() =~= before);
}

fn parse_u8(t: &str) -> (res: Option<u8>)
    ensures
        match spec_parse_uint_max(t.spec_bytes(), 255) {
            Some(n) => res == Some(n as u8),
            None => res is None,
        },
{
    match parse_uint_max(t.as_bytes(), 255) {
        Some(n) => Some(n as u8),
        None => None,
    }
}

/// Reads `definition.csv`: the province number of each color. The first line is a header;
/// every other line must have six `;`-separated fields, and gives its color the province
/// number when its last field (trimmed, when `trim_x`) is `x`; a later line wins.
pub fn read_definitions(text: &str, trim_x: bool) -> (res: Result<Vec<(MapColor, u64)>, DefinitionError>)
    ensures
        match definition_rows(after_first_line(text.spec_bytes()), trim_x, Map::empty()) {
            Ok(m) => res matches Ok(v) && keys_unique(v@) && kv_map(v@) == m,
            Err(e) => res matches Err(e2) && e2@ == e,
        },
{
    let mut out: Vec<(MapColor, u64)> = Vec::new();
    let mut rest: &str = text;
    if rest.as_bytes().len() > 0 {
        let (first, r) = next_line(rest);
        proof {
            let ls = lines_of(text.spec_bytes());
            assert(ls == seq![first.spec_bytes()] + lines_of(r.spec_bytes()));
            assert(ls.drop_first() =~= lines_of(r.spec_bytes()));
        }
        rest = r;
    } else {
        proof {
            assert(text.spec_bytes().len() == 0);
            assert(lines_of(text.spec_bytes()) =~= Seq::<Seq<u8>>::empty());
        }
    }
    assert(out@ =~= Seq::<(MapColor, u64)>::empty());
    assert(kv_map(out@) == Map::<MapColor, u64>::empty());
    while rest.as_bytes().len() > 0
        invariant
            keys_unique(out@),
            definition_rows(after_first_line(text.spec_bytes()), trim_x, Map::empty())
                == definition_rows(lines_of(rest.spec_bytes()), trim_x, kv_map(out@)),
        decreases rest.spec_bytes().len(),
    {
        let (line, r) = next_line(rest);
        let ghost ls = lines_of(rest.spec_bytes());
        proof {
            assert(ls[0] == line.spec_bytes());
            assert(ls.drop_first() =~= lines_of(r.spec_bytes()));
        }
        let parts = split_all(line, 0x3b);
        if parts.len() != 6 {
            return Err(DefinitionError::InvalidLine(String::from_str(line)));
        }
        let x = if trim_x {
            trim_str(parts[5])
        } else {
            parts[5]
        };
        let xb = x.as_bytes();
        if !(xb.len() == 1 && xb[0] == 0x78) {
            proof {
                if x.spec_bytes() == seq![0x78u8] {
                    assert(xb@.len() == 1 && xb@[0] == 0x78);
                }
            }
            rest = r;
            continue;
        }
        assert(x.spec_bytes() =~= seq![0x78u8]);
        let id = parse_u64(parts[0].as_bytes());
        let rr = parse_u8(parts[1]);
        let gg = parse_u8(parts[2]);
        let bb = parse_u8(parts[3]);
        match (id, rr, gg, bb) {
            (Some(id), Some(rv), Some(gv), Some(bv)) => {
                insert_color(&mut out, MapColor { r: rv, g: gv, b: bv }, id);
            },
            _ => {
                return Err(DefinitionError::InvalidNumber);
            },
        }
        rest = r;
    }
    proof {
        assert(lines_of(rest.spec_bytes()) =~= Seq::<Seq<u8>>::empty());
    }
    Ok(out)
}

/// Why a wasteland file could not be read.
#[derive(Debug, Clone, Copy, PartialEq, Eq, Structural)]
pub enum WastelandError {
    /// A row does not start with a province number.
    MissingFirst,
    /// A neighbor of a row is not a number.
    InvalidNumber,
}

/// Every part read as a `u64`, or `None` when one is not a number.
pub open spec fn parse_parts(ps: Seq<Seq<u8>>) -> Option<Seq<u64>>
    decreases ps.len(),
{
    if ps.len() == 0 {
        Some(seq![])
    } else {
        match (parse_parts(ps.drop_last()), spec_parse_u64(ps.last())) {
            (Some(a), Some(n)) => Some(a.push(n)),
            _ => None,
        }
    }
}

/// Reading wasteland rows `province;neighbor;neighbor...` into `m`, a later row for a province
/// winning.
pub open spec fn wasteland_rows(lines: Seq<Seq<u8>>, m: Map<u64, Seq<u64>>) -> Result<Map<u64, Seq<u64>>, WastelandError>
    decreases lines.len(),
{
    if lines.len() == 0 {
        Ok(m)
    } else {
        let parts = split_on(lines[0], 0x3b);
        match spec_parse_u64(parts[0]) {
            None => Err(WastelandError::MissingFirst),
            Some(first) => match parse_parts(parts.drop_first()) {
                None => Err(WastelandError::InvalidNumber),
                Some(ns) => wasteland_rows(lines.drop_first(), m.insert(first, ns)),
            },
        }
    }
}

/// The rows by their views.
pub open spec fn rows_view(s: Seq<(u64, Vec<u64>)>) -> Seq<(u64, Seq<u64>)> {
    s.map_values(|e: (u64, Vec<u64>)| (e.0, e.1@))
}

fn insert_row(v: &mut Vec<(u64, Vec<u64>)>, k: u64, val: Vec<u64>)
    requires
        keys_unique(rows_view(old(v)@)),
    ensures
        keys_unique(rows_view(final(v)@)),
        kv_map(rows_view(final(v)@)) == kv_map(rows_view(old(v)@)).insert(k, val@),
{
    let ghost vv = val@;
    let mut i: usize = 0;
    while i < v.len()
        invariant
            0 <= i <= v@.len(),
            v@ == old(v)@,
            keys_unique(rows_view(v@)),
            forall|j: int| 0 <= j < i ==> v@[j].0 != k,
            val@ == vv,
        decreases v@.len() - i,
    {
        if v[i].0 == k {
            let ghost before = v@;
            v.set(i, (k, val));
            proof {
                lemma_kv_update(rows_view(before), i as int, vv);
                assert(v@[i as int].1@ == vv);
                assert(rows_view(before)[i as int].0 == k);
                assert forall|j: int| 0 <= j < v@.len() implies #[trigger] rows_view(v@)[j] == rows_view(
                    before,
                ).update(i as int, (k, vv))[j] by {
                    if j != i {
                        assert(v@[j] == before[j]);
                    }
                }
                assert(rows_view(v@) =~= rows_view(before).update(i as int, (rows_view(before)[i as int].0, vv)));
            }
            return;
        }
        i = i + 1;
    }
    proof {
        lemma_kv_absent(rows_view(v@), k);
    }
    let ghost before = v@;
    v.push((k, val));
    assert(rows_view(v@).drop_last() =~= rows_view(before));
    assert forall|a: int, b: int| 0 <= a < b < rows_view(v@).len() implies rows_view(v@)[a].0 != rows_view(v@)[b].0 by {
        if b < before.len() {
            assert(rows_view(v@)[a] == rows_view(before)[a] && rows_view(v@)[b] == rows_view(before)[b]);
        } else {
            assert(rows_view(v@)[a].0 == before[a].0);
        }
    }
}

/// The numbers of `parts[1..]`, or `None` when one is not a number.
fn parse_rest(parts: &Vec<&str>) -> (res: Option<Vec<u64>>)
    requires
        parts@.len() >= 1,
    ensures
        match parse_parts(parts@.map_values(|p: &str| p.spec_bytes()).drop_first()) {
            Some(ns) => res matches Some(v) && v@ == ns,
            None => res is None,
        },
{
    let ghost ps = parts@.map_values(|p: &str| p.spec_bytes()).drop_first();
    let mut out: Vec<u64> = Vec::new();
    let mut i: usize = 1;
    assert(ps.take(0) =~= Seq::<Seq<u8>>::empty());
    while i < parts.len()
        invariant
            1 <= i <= parts@.len(),
            ps == parts@.map_values(|p: &str| p.spec_bytes()).drop_first(),
            parse_parts(ps.take(i - 1)) == Some(out@),
        decreases parts@.len() - i,
    {
        assert(ps.take(i as int).drop_last() =~= ps.take(i - 1));
        assert(ps.take(i as int).last() == parts@[i as int].spec_bytes());
        match parse_u64(parts[i].as_bytes()) {
            Some(n) => {
                out.push(n);
            },
            None => {
                proof {
                    lemma_parse_parts_prefix(ps, i as int);
                }
                return None;
            },
        }
        i = i + 1;
    }
    assert(ps.take(parts@.len() - 1) =~= ps);
    Some(out)
}

/// A part that is not a number makes every longer list fail too.
proof fn lemma_parse_parts_prefix(ps: Seq<Seq<u8>>, k: int)
    requires
        0 <= k <= ps.len(),
        parse_parts(ps.take(k)) is None,
    ensures
        parse_parts(ps) is None,
    decreases ps.len() - k,
{
    if k < ps.len() {
        assert(ps.take(k + 1).drop_last() =~= ps.take(k));
        lemma_parse_parts_prefix(ps, k + 1);
    } else {
        assert(ps.take(k) =~= ps);
    }
}

/// The number of the first part, as a `u64`.
proof fn lemma_first_part(parts: Seq<&str>)
    requires
        parts.len() >= 1,
    ensures
        parts.map_values(|p: &str| p.spec_bytes())[0] == parts[0].spec_bytes(),
{
}

/// Reads wasteland rows `province;neighbor;neighbor...`, one per line, into the neighbors of
/// each wasteland province (a later row for a province wins).
pub fn read_wasteland_rows(text: &str) -> (res: Result<Vec<(u64, Vec<u64>)>, WastelandError>)
    ensures
        match wasteland_rows(lines_of(text.spec_bytes()), Map::empty()) {
            Ok(m) => res matches Ok(v) && keys_unique(rows_view(v@)) && kv_map(rows_view(v@)) == m,
            Err(e) => res == Err::<Vec<(u64, Vec<u64>)>, WastelandError>(e),
        },
{
    let mut out: Vec<(u64, Vec<u64>)> = Vec::new();
    let mut rest: &str = text;
    assert(rows_view(out@) =~= Seq::<(u64, Seq<u64>)>::empty());
    assert(kv_map(rows_view(out@)) == Map::<u64, Seq<u64>>::empty());
    while rest.as_bytes().len() > 0
        invariant
            keys_unique(rows_view(out@)),
            wasteland_rows(lines_of(text.spec_bytes()), Map::empty()) == wasteland_rows(
                lines_of(rest.spec_bytes()),
                kv_map(rows_view(out@)),
            ),
        decreases rest.spec_bytes().len(),
    {
        let (line, r) = next_line(rest);
        let ghost ls = lines_of(rest.spec_bytes());
        proof {
            assert(ls[0] == line.spec_bytes());
            assert(ls.drop_first() =~= lines_of(r.spec_bytes()));
        }
        let parts = split_all(line, 0x3b);
        let ghost pv = parts@.map_values(|p: &str| p.spec_bytes());
        proof {
            assert(pv =~= split_on(line.spec_bytes(), 0x3b));
        }
        let first = match parse_u64(parts[0].as_bytes()) {
            Some(f) => f,
            None => {
                return Err(WastelandError::MissingFirst);
            },
        };
        let ns = match parse_rest(&parts) {
            Some(v) => v,
            None => {
                return Err(WastelandError::InvalidNumber);
            },
        };
        insert_row(&mut out, first, ns);
        rest = r;
    }
    proof {
        assert(lines_of(rest.spec_bytes()) =~= Seq::<Seq<u8>>::empty());
    }
    Ok(out)
}

/// Reads the water provinces: every whitespace-separated word a province number.
pub fn read_water_words(text: &str) -> (res: Result<Vec<u64>, ProvinceListError>)
    ensures
        match parse_words(words_from(text.spec_bytes(), 0)) {
            Some(v) => res matches Ok(r) && r@ == v,
            None => res matches Err(ProvinceListError::InvalidNumber),
        },
{
    let mut out: Vec<u64> = Vec::new();
    if word_numbers(text.as_bytes(), &mut out) {
        assert(out@ =~= parse_words(words_from(text.spec_bytes(), 0)).unwrap());
        Ok(out)
    } else {
        Err(ProvinceListError::InvalidNumber)
    }
}

/// The flags by tag: each whitespace-separated word of `flagfiles.txt` is a tag, whose flag is
/// at that word's position (a later word for a tag wins).
pub open spec fn flag_positions(words: Seq<Seq<u8>>) -> Map<Seq<u8>, int>
    decreases words.len(),
{
    if words.len() == 0 {
        Map::empty()
    } else {
        flag_positions(words.drop_last()).insert(words.last(), words.len() - 1)
    }
}

/// The flag positions by the bytes of their tags.
pub open spec fn flags_view(s: Seq<(String, usize)>) -> Seq<(Seq<u8>, int)> {
    s.map_values(|e: (String, usize)| (encode_utf8(e.0@), e.1 as int))
}

fn insert_flag(v: &mut Vec<(String, usize)>, tag: &str, idx: usize)
    requires
        keys_unique(flags_view(old(v)@)),
    ensures
        keys_unique(flags_view(final(v)@)),
        kv_map(flags_view(final(v)@)) == kv_map(flags_view(old(v)@)).insert(tag.spec_bytes(), idx as int),
{
    let mut i: usize = 0;
    while i < v.len()
        invariant
            0 <= i <= v@.len(),
            v@ == old(v)@,
            keys_unique(flags_view(v@)),
            forall|j: int| 0 <= j < i ==> flags_view(v@)[j].0 != tag.spec_bytes(),
        decreases v@.len() - i,
    {
        if str_eq(v[i].0.as_str(), tag) {
            let ghost before = v@;
            let name = String::from_str(tag);
            v.set(i, (name, idx));
            proof {
                lemma_kv_update(flags_view(before), i as int, idx as int);
                assert(flags_view(before)[i as int].0 == tag.spec_bytes());
                assert forall|j: int| 0 <= j < v@.len() implies #[trigger] flags_view(v@)[j] == flags_view(
                    before,
                ).update(i as int, (tag.spec_bytes(), idx as int))[j] by {
                    if j != i {
                        assert(v@[j] == before[j]);
                    }
                }
                assert(flags_view(v@) =~= flags_view(before).update(
                    i as int,
                    (flags_view(before)[i as int].0, idx as int),
                ));
            }
            return;
        }
        i = i + 1;
    }
    proof {
        lemma_kv_absent(flags_view(v@), tag.spec_bytes());
    }
    let ghost before = v@;
    v.push((String::from_str(tag), idx));
    assert(flags_view(v@).drop_last() =~= flags_view(before));
    assert forall|a: int, b: int| 0 <= a < b < flags_view(v@).len() implies flags_view(v@)[a].0 != flags_view(
        v@,
    )[b].0 by {
        if b < before.len() {
            assert(flags_view(v@)[a] == flags_view(before)[a] && flags_view(v@)[b] == flags_view(before)[b]);
        } else {
            assert(flags_view(v@)[a] == flags_view(before)[a]);
        }
    }
}

/// Reads `flagfiles.txt`: each whitespace-separated word is a tag, whose flag stands at that
/// word's position in the flag sheet (a later word for a tag wins).
pub fn read_flagfiles_txt(text: &str) -> (res: Vec<(String, usize)>)
    ensures
        keys_unique(flags_view(res@)),
        kv_map(flags_view(res@)) == flag_positions(words_from(text.spec_bytes(), 0)),
{
    let t = text.as_bytes();
    let ghost tb = t@;
    let mut out: Vec<(String, usize)> = Vec::new();
    let ghost mut done: Seq<Seq<u8>> = seq![];
    let mut count: usize = 0;
    let mut i: usize = 0;
    proof {
        assert(valid_utf8(tb));
        is_char_boundary_start_end_of_seq(tb);
        if tb.len() > 0 {
            is_char_boundary_iff_not_is_continuation_byte(tb, 0);
        }
        assert(done + words_from(tb, 0) =~= words_from(tb, 0));
        assert(flags_view(out@) =~= Seq::<(Seq<u8>, int)>::empty());
    }
    while i < t.len()
        invariant
            tb == t@,
            tb == text.spec_bytes(),
            valid_utf8(tb),
            0 <= i <= tb.len(),
            splittable(tb, i as int),
            done + words_from(tb, i as int) == words_from(tb, 0),
            count == done.len(),
            count <= i,
            keys_unique(flags_view(out@)),
            kv_map(flags_view(out@)) == flag_positions(done),
        decreases tb.len() - i,
    {
        let c = t[i];
        if c == 0x09 || c == 0x0a || c == 0x0c || c == 0x0d || c == 0x20 {
            proof {
                lemma_after_ascii(tb, i as int);
            }
            i = i + 1;
        } else {
            let mut e = i + 1;
            proof {
                lemma_word_end(tb, i + 1);
            }
            while e < t.len() && !(t[e] == 0x09 || t[e] == 0x0a || t[e] == 0x0c || t[e] == 0x0d || t[e] == 0x20)
                invariant
                    tb == t@,
                    i < e <= tb.len(),
                    word_end(tb, i + 1) == word_end(tb, e as int),
                decreases tb.len() - e,
            {
                e = e + 1;
            }
            proof {
                lemma_word_end(tb, e as int);
                if e < tb.len() {
                    assert(is_ascii_ws(tb[e as int]));
                }
            }
            let w = str_range(text, i, e);
            let ghost rest = words_from(tb, e as int);
            proof {
                assert(words_from(tb, i as int) == seq![w.spec_bytes()] + rest);
                assert(done + (seq![w.spec_bytes()] + rest) =~= done.push(w.spec_bytes()) + rest);
                assert(done.push(w.spec_bytes()).drop_last() =~= done);
            }
            insert_flag(&mut out, w, count);
            proof {
                done = done.push(w.spec_bytes());
            }
            count = count + 1;
            i = e;
        }
    }
    proof {
        assert(words_from(tb, i as int) =~= seq![]);
        assert(done + seq![] =~= done);
    }
    out
}

/// Where each country's flag stands in the flag sheet.
#[derive(Debug, Clone)]
pub struct FlagImages {
    pub tags: Vec<(String, usize)>,
}

impl FlagImages {
    /// The flag positions of `flagfiles.txt`.
    pub fn new(flagfiles_txt: &str) -> (res: FlagImages)
        ensures
            keys_unique(flags_view(res.tags@)),
            kv_map(flags_view(res.tags@)) == flag_positions(words_from(flagfiles_txt.spec_bytes(), 0)),
    {
        FlagImages { tags: read_flagfiles_txt(flagfiles_txt) }
    }

    /// The top left corner of the 128 by 128 flag of `tag` in the flag sheet, which has 16
    /// flags per row.
    pub fn get_normal_flag(&self, tag: &str) -> (res: Option<(u32, u32)>)
        requires
            forall|i: int|
                0 <= i < self.tags@.len() ==> ((#[trigger] self.tags@[i]).1 as u32) / 16 * 128
                    <= u32::MAX,
        ensures
            match kv_map(flags_view(self.tags@)).get(tag.spec_bytes()) {
                Some(idx) => res == Some(
                    (
                        (128 * ((idx as u32) % 16)) as u32,
                        (128 * ((idx as u32) / 16)) as u32,
                    ),
                ),
                None => res is None,
            },
    {
        let mut i: usize = self.tags.len();
        assert(flags_view(self.tags@).take(i as int) =~= flags_view(self.tags@));
        while i > 0
            invariant
                0 <= i <= self.tags@.len(),
                forall|k: int|
                    0 <= k < self.tags@.len() ==> ((#[trigger] self.tags@[k]).1 as u32) / 16 * 128
                        <= u32::MAX,
                kv_map(flags_view(self.tags@)).get(tag.spec_bytes()) == kv_map(
                    flags_view(self.tags@).take(i as int),
                ).get(tag.spec_bytes()),
            decreases i,
        {
            let ghost pre = flags_view(self.tags@).take(i as int);
            assert(pre.drop_last() =~= flags_view(self.tags@).take(i - 1));
            if str_eq(self.tags[i - 1].0.as_str(), tag) {
                let index = self.tags[i - 1].1 as u32;
                assert(self.tags@[i - 1].1 as u32 / 16 * 128 <= u32::MAX);
                assert(pre.last().0 == tag.spec_bytes());
                return Some((128 * (index % 16), 128 * (index / 16)));
            }
            assert(pre.last().0 != tag.spec_bytes());
            i = i - 1;
        }
        None
    }
}

proof fn lemma_kv_lookup<K, V>(s: Seq<(K, V)>, i: int)
    requires
        keys_unique(s),
        0 <= i < s.len(),
    ensures
        kv_map(s).contains_key(s[i].0),
        kv_map(s)[s[i].0] == s[i].1,
    decreases s.len(),
{
    if i < s.len() - 1 {
        lemma_kv_lookup(s.drop_last(), i);
        assert(s[i].0 != s.last().0);
    }
}

/// The largest province number of the definitions plus one (0 without definitions).
pub open spec fn provinces_len_of(s: Seq<(MapColor, u64)>) -> int
    decreases s.len(),
{
    if s.len() == 0 {
        0
    } else if s.last().1 + 1 > provinces_len_of(s.drop_last()) {
        s.last().1 + 1
    } else {
        provinces_len_of(s.drop_last())
    }
}

/// Why the map assets could not be read.
#[derive(Debug, Clone, PartialEq, Eq)]
pub enum MapAssetsError {
    Definition(DefinitionError),
    Wasteland(WastelandError),
    Water(ProvinceListError),
}

/// The map files of the web map, read.
#[derive(Debug, Clone)]
pub struct MapAssets {
    /// Will include skipped spaces. Equal to the highest province id + 1
    pub provinces_len: u64,
    pub wasteland: Vec<(u64, Vec<u64>)>,
    pub water: Vec<u64>,
    pub flags: FlagImages,
    /// The province number of each color of the province map.
    pub definitions: Vec<(MapColor, u64)>,
}

impl MapAssets {
    /// Reads `definition.csv` (see `read_definitions`; the `x` field is trimmed).
    pub fn read_definition_csv(text: &str) -> (res: Result<Vec<(MapColor, u64)>, DefinitionError>)
        ensures
            match definition_rows(after_first_line(text.spec_bytes()), true, Map::empty()) {
                Ok(m) => res matches Ok(v) && keys_unique(v@) && kv_map(v@) == m,
                Err(e) => res matches Err(e2) && e2@ == e,
            },
    {
        read_definitions(text, true)
    }

    /// Reads the wasteland rows (see `read_wasteland_rows`).
    pub fn read_wasteland_provinces(text: &str) -> (res: Result<Vec<(u64, Vec<u64>)>, WastelandError>)
        ensures
            match wasteland_rows(lines_of(text.spec_bytes()), Map::empty()) {
                Ok(m) => res matches Ok(v) && keys_unique(rows_view(v@)) && kv_map(rows_view(v@)) == m,
                Err(e) => res == Err::<Vec<(u64, Vec<u64>)>, WastelandError>(e),
            },
    {
        read_wasteland_rows(text)
    }

    /// Reads the water provinces: every whitespace-separated word a province number.
    pub fn read_water_provinces(text: &str) -> (res: Result<Vec<u64>, ProvinceListError>)
        ensures
            match parse_words(words_from(text.spec_bytes(), 0)) {
                Some(v) => res matches Ok(r) && r@ == v,
                None => res matches Err(ProvinceListError::InvalidNumber),
            },
    {
        read_water_words(text)
    }

    /// Reads the map files: the definitions, then the wasteland rows, then the water provinces
    /// (the first that fails gives the error), and the flag positions.
    pub fn new(csv_file_text: &str, wasteland: &str, water: &str, flagfiles_txt: &str) -> (res: Result<
        MapAssets,
        MapAssetsError,
    >)
        requires
            match definition_rows(after_first_line(csv_file_text.spec_bytes()), true, Map::empty()) {
                Ok(m) => forall|c: MapColor| m.contains_key(c) ==> m[c] < u64::MAX,
                Err(_) => true,
            },
        ensures
            match definition_rows(after_first_line(csv_file_text.spec_bytes()), true, Map::empty()) {
                Err(e) => res matches Err(MapAssetsError::Definition(e2)) && e2@ == e,
                Ok(m) => match wasteland_rows(lines_of(wasteland.spec_bytes()), Map::empty()) {
                    Err(e) => res == Err::<MapAssets, MapAssetsError>(MapAssetsError::Wasteland(e)),
                    Ok(w) => match parse_words(words_from(water.spec_bytes(), 0)) {
                        None => res == Err::<MapAssets, MapAssetsError>(
                            MapAssetsError::Water(ProvinceListError::InvalidNumber),
                        ),
                        Some(ws) => res matches Ok(a) && kv_map(a.definitions@) == m && keys_unique(
                            a.definitions@,
                        ) && a.provinces_len == provinces_len_of(a.definitions@) && kv_map(
                            rows_view(a.wasteland@),
                        ) == w && keys_unique(rows_view(a.wasteland@)) && a.water@ == ws
                            && keys_unique(flags_view(a.flags.tags@)) && kv_map(
                            flags_view(a.flags.tags@),
                        ) == flag_positions(words_from(flagfiles_txt.spec_bytes(), 0)),
                    },
                },
            },
    {
        let definitions = match MapAssets::read_definition_csv(csv_file_text) {
            Ok(d) => d,
            Err(e) => {
                return Err(MapAssetsError::Definition(e));
            },
        };
        let mut len: u64 = 0;
        let mut i: usize = 0;
        assert(definitions@.take(0) =~= Seq::<(MapColor, u64)>::empty());
        while i < definitions.len()
            invariant
                0 <= i <= definitions@.len(),
                keys_unique(definitions@),
                forall|c: MapColor|
                    kv_map(definitions@).contains_key(c) ==> kv_map(definitions@)[c] < u64::MAX,
                len == provinces_len_of(definitions@.take(i as int)),
            decreases definitions@.len() - i,
        {
            assert(definitions@.take(i + 1).drop_last() =~= definitions@.take(i as int));
            assert(definitions@.take(i + 1).last() == definitions@[i as int]);
            proof {
                lemma_kv_lookup(definitions@, i as int);
            }
            let id = definitions[i].1;
            if id + 1 > len {
                len = id + 1;
            }
            i = i + 1;
        }
        assert(definitions@.take(definitions@.len() as int) =~= definitions@);
        let wasteland = match MapAssets::read_wasteland_provinces(wasteland) {
            Ok(w) => w,
            Err(e) => {
                return Err(MapAssetsError::Wasteland(e));
            },
        };
        let water = match MapAssets::read_water_provinces(water) {
            Ok(w) => w,
            Err(e) => {
                return Err(MapAssetsError::Water(e));
            },
        };
        let flags = FlagImages::new(flagfiles_txt);
        Ok(MapAssets { provinces_len: len, wasteland, water, flags, definitions })
    }
}

} // verus!
