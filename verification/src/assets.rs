//! The tags of a game's countries and their names, as listed in a tags file.
use vstd::prelude::*;
use vstd::string::{StringExecFns, StringSliceAdditionalSpecFns};
use vstd::utf8::*;

use crate::map_parsers::{lines_of, next_line};
use crate::text_util::{find_byte, lemma_find_byte, split_at_byte, str_eq, trim, trim_str};

verus! {

broadcast use vstd::string::group_string_axioms, vstd::utf8::encode_utf8_valid_utf8,
    vstd::utf8::encode_utf8_decode_utf8;

/// The characters of `s`, each ASCII lowercase letter made uppercase.
pub open spec fn ascii_upper(s: Seq<char>) -> Seq<char> {
    s.map_values(|c: char| if 'a' <= c <= 'z' { ((c as u32) - 32) as char } else { c })
}

/// All characters of `s` are ASCII.
pub open spec fn all_ascii(s: Seq<char>) -> bool {
    forall|i: int| 0 <= i < s.len() ==> (#[trigger] s[i] as u32) < 0x80
}

/// What `str::to_uppercase` gives for a text: its Unicode upper case.
pub uninterp spec fn unicode_upper(s: Seq<char>) -> Seq<char>;

/// Trusted: calls `str::to_uppercase`. Its result is named by [`unicode_upper`]; for ASCII text,
/// Unicode's upper case of each character is the ASCII one, so the result is then
/// [`ascii_upper`] of the text.
#[verifier::external_body]
fn to_uppercase(s: &str) -> (res: String)
    ensures
        res@ == unicode_upper(s@),
        all_ascii(s@) ==> res@ == ascii_upper(s@),
{
    s.to_uppercase()
}

/// The texts of a list of pairs as a map, from the UTF-8 bytes of each first text to those of
/// its second; a later pair wins over an earlier one with the same first text.
pub open spec fn pair_map(s: Seq<(String, String)>) -> Map<Seq<u8>, Seq<u8>>
    decreases s.len(),
{
    if s.len() == 0 {
        Map::empty()
    } else {
        pair_map(s.drop_last()).insert(encode_utf8(s.last().0@), encode_utf8(s.last().1@))
    }
}

/// No two pairs have the same first text.
pub open spec fn firsts_distinct(s: Seq<(String, String)>) -> bool {
    forall|i: int, j: int| 0 <= i < j < s.len() ==> s[i].0@ != s[j].0@
}

proof fn lemma_pair_lookup(s: Seq<(String, String)>, i: int)
    requires
        firsts_distinct(s),
        0 <= i < s.len(),
    ensures
        pair_map(s).contains_key(encode_utf8(s[i].0@)),
        pair_map(s)[encode_utf8(s[i].0@)] == encode_utf8(s[i].1@),
    decreases s.len(),
{
    if i < s.len() - 1 {
        lemma_pair_lookup(s.drop_last(), i);
        assert(encode_utf8(s.last().0@) != encode_utf8(s[i].0@)) by {
            assert(decode_utf8(encode_utf8(s.last().0@)) == s.last().0@);
            assert(decode_utf8(encode_utf8(s[i].0@)) == s[i].0@);
        }
    }
}

proof fn lemma_pair_absent(s: Seq<(String, String)>, k: Seq<char>)
    requires
        forall|i: int| 0 <= i < s.len() ==> s[i].0@ != k,
    ensures
        !pair_map(s).contains_key(encode_utf8(k)),
    decreases s.len(),
{
    if s.len() > 0 {
        lemma_pair_absent(s.drop_last(), k);
        assert(encode_utf8(s.last().0@) != encode_utf8(k)) by {
            assert(decode_utf8(encode_utf8(s.last().0@)) == s.last().0@);
            assert(decode_utf8(encode_utf8(k)) == k);
        }
    }
}

proof fn lemma_pair_update(s: Seq<(String, String)>, i: int, v: String)
    requires
        firsts_distinct(s),
        0 <= i < s.len(),
    ensures
        pair_map(s.update(i, (s[i].0, v))) == pair_map(s).insert(encode_utf8(s[i].0@), encode_utf8(v@)),
    decreases s.len(),
{
    let u = s.update(i, (s[i].0, v));
    if i == s.len() - 1 {
        assert(u.drop_last() =~= s.drop_last());
        assert(pair_map(u) =~= pair_map(s).insert(encode_utf8(s[i].0@), encode_utf8(v@)));
    } else {
        assert(u.drop_last() =~= s.drop_last().update(i, (s[i].0, v)));
        lemma_pair_update(s.drop_last(), i, v);
        assert(encode_utf8(s.last().0@) != encode_utf8(s[i].0@)) by {
            assert(decode_utf8(encode_utf8(s.last().0@)) == s.last().0@);
            assert(decode_utf8(encode_utf8(s[i].0@)) == s[i].0@);
        }
        assert(pair_map(u) =~= pair_map(s).insert(encode_utf8(s[i].0@), encode_utf8(v@)));
    }
}

/// Sets the second text of the pair whose first text is `k`, adding the pair if there is none.
fn insert_pair(pairs: &mut Vec<(String, String)>, k: &str, v: &str)
    requires
        firsts_distinct(old(pairs)@),
    ensures
        firsts_distinct(final(pairs)@),
        pair_map(final(pairs)@) == pair_map(old(pairs)@).insert(k.spec_bytes(), v.spec_bytes()),
{
    let mut i: usize = 0;
    while i < pairs.len()
        invariant
            0 <= i <= pairs@.len(),
            pairs@ == old(pairs)@,
            firsts_distinct(pairs@),
            forall|j: int| 0 <= j < i ==> pairs@[j].0@ != k@,
        decreases pairs@.len() - i,
    {
        if str_eq(pairs[i].0.as_str(), k) {
            let ghost before = pairs@;
            let key = pairs[i].0.clone();
            let val = v.to_string();
            pairs.set(i, (key, val));
            proof {
                assert(pairs@ == before.update(i as int, (before[i as int].0, val)));
                lemma_pair_update(before, i as int, val);
            }
            return;
        }
        i = i + 1;
    }
    proof {
        lemma_pair_absent(pairs@, k@);
    }
    let ghost before = pairs@;
    pairs.push((k.to_string(), v.to_string()));
    proof {
        assert(pairs@.drop_last() =~= before);
    }
}

/// The second text of the pair whose first text is `k`, if any.
fn get_pair<'a>(pairs: &'a Vec<(String, String)>, k: &str) -> (res: Option<&'a str>)
    requires
        firsts_distinct(pairs@),
    ensures
        match pair_map(pairs@).get(k.spec_bytes()) {
            Some(v) => res matches Some(r) && r.spec_bytes() == v,
            None => res is None,
        },
{
    let mut i: usize = 0;
    while i < pairs.len()
        invariant
            0 <= i <= pairs@.len(),
            firsts_distinct(pairs@),
            forall|j: int| 0 <= j < i ==> pairs@[j].0@ != k@,
        decreases pairs@.len() - i,
    {
        if str_eq(pairs[i].0.as_str(), k) {
            proof {
                lemma_pair_lookup(pairs@, i as int);
            }
            return Some(pairs[i].1.as_str());
        }
        i = i + 1;
    }
    proof {
        lemma_pair_absent(pairs@, k@);
    }
    None
}

/// The first text of the pair whose first text is `k`, if any.
fn get_key<'a>(pairs: &'a Vec<(String, String)>, k: &str) -> (res: Option<&'a str>)
    requires
        firsts_distinct(pairs@),
    ensures
        pair_map(pairs@).contains_key(k.spec_bytes()) ==> (res matches Some(r) && r.spec_bytes()
            == k.spec_bytes()),
        !pair_map(pairs@).contains_key(k.spec_bytes()) ==> res is None,
{
    let mut i: usize = 0;
    while i < pairs.len()
        invariant
            0 <= i <= pairs@.len(),
            firsts_distinct(pairs@),
            forall|j: int| 0 <= j < i ==> pairs@[j].0@ != k@,
        decreases pairs@.len() - i,
    {
        if str_eq(pairs[i].0.as_str(), k) {
            proof {
                lemma_pair_lookup(pairs@, i as int);
            }
            return Some(pairs[i].0.as_str());
        }
        i = i + 1;
    }
    proof {
        lemma_pair_absent(pairs@, k@);
    }
    None
}

} // verus!

verus! {

/// Why a tags file could not be read.
#[derive(Debug, Clone, PartialEq, Eq)]
pub enum TagsError {
    /// The (zero-based) line holds text but no `;`.
    InvalidLine(usize),
    /// A tag is not three uppercase ASCII letters.
    InvalidTag(String),
}

/// A [`TagsError`] with its tag as UTF-8 bytes.
pub enum TagsErrorView {
    InvalidLine(int),
    InvalidTag(Seq<u8>),
}

impl View for TagsError {
    type V = TagsErrorView;

    open spec fn view(&self) -> TagsErrorView {
        match self {
            TagsError::InvalidLine(i) => TagsErrorView::InvalidLine(*i as int),
            TagsError::InvalidTag(t) => TagsErrorView::InvalidTag(encode_utf8(t@)),
        }
    }
}

/// Three uppercase ASCII letters.
pub open spec fn is_tag(t: Seq<u8>) -> bool {
    t.len() == 3 && forall|i: int| 0 <= i < 3 ==> 0x41 <= #[trigger] t[i] <= 0x5a
}

/// The parts of `s` between its bytes `c`, as `str::split` gives them.
pub open spec fn split_on(s: Seq<u8>, c: u8) -> Seq<Seq<u8>>
    decreases s.len(),
{
    match find_byte(s, c, 0) {
        None => seq![s],
        Some(j) => {
            proof {
                lemma_find_byte(s, c, 0);
            }
            seq![s.subrange(0, j)] + split_on(s.subrange(j + 1, s.len() as int), c)
        },
    }
}

/// `m` with each of `names` mapped to `tag`, in order.
pub open spec fn insert_all(m: Map<Seq<u8>, Seq<u8>>, names: Seq<Seq<u8>>, tag: Seq<u8>) -> Map<Seq<u8>, Seq<u8>>
    decreases names.len(),
{
    if names.len() == 0 {
        m
    } else {
        insert_all(m.insert(names[0], tag), names.drop_first(), tag)
    }
}

/// The two maps of a tags file: from tag to first name, and from each name to its tag.
pub struct TagMaps {
    pub tag_to_name: Map<Seq<u8>, Seq<u8>>,
    pub name_to_tag: Map<Seq<u8>, Seq<u8>>,
}

/// Reading the lines of a tags file, the first of them numbered `idx`, into `maps`. Each line
/// that is not blank is a tag, `;`, and the country's names separated by `;`.
pub open spec fn read_tag_lines(lines: Seq<Seq<u8>>, idx: int, maps: TagMaps) -> Result<TagMaps, TagsErrorView>
    decreases lines.len(),
{
    if lines.len() == 0 {
        Ok(maps)
    } else {
        let t = trim(lines[0]);
        if t.len() == 0 {
            read_tag_lines(lines.drop_first(), idx + 1, maps)
        } else {
            match find_byte(t, 0x3b, 0) {
                None => Err(TagsErrorView::InvalidLine(idx)),
                Some(i) => {
                    let tag = trim(t.subrange(0, i));
                    if !is_tag(tag) {
                        Err(TagsErrorView::InvalidTag(tag))
                    } else {
                        let names = split_on(t.subrange(i + 1, t.len() as int), 0x3b).map_values(
                            |n: Seq<u8>| trim(n),
                        );
                        read_tag_lines(
                            lines.drop_first(),
                            idx + 1,
                            TagMaps {
                                tag_to_name: maps.tag_to_name.insert(tag, names[0]),
                                name_to_tag: insert_all(maps.name_to_tag, names, tag),
                            },
                        )
                    }
                },
            }
        }
    }
}

/// The tags of a game's countries and their names.
pub struct Tags {
    tag_to_name: Vec<(String, String)>,
    name_to_tag: Vec<(String, String)>,
}

impl View for Tags {
    type V = TagMaps;

    closed spec fn view(&self) -> TagMaps {
        TagMaps { tag_to_name: pair_map(self.tag_to_name@), name_to_tag: pair_map(self.name_to_tag@) }
    }
}

/// Checks and trims the tag of a line.
fn valid_tag(t: &str) -> (res: bool)
    ensures
        res == is_tag(t.spec_bytes()),
{
    let b = t.as_bytes();
    b.len() == 3 && 0x41 <= b[0] && b[0] <= 0x5a && 0x41 <= b[1] && b[1] <= 0x5a && 0x41 <= b[2]
        && b[2] <= 0x5a
}

/// Maps each `;`-separated name of `rest` (trimmed) to `tag`, and gives the first of them.
fn add_names(
    name_to_tag: &mut Vec<(String, String)>,
    rest: &str,
    tag: &str,
) -> (first: String)
    requires
        firsts_distinct(old(name_to_tag)@),
    ensures
        firsts_distinct(final(name_to_tag)@),
        ({
            let names = split_on(rest.spec_bytes(), 0x3b).map_values(|n: Seq<u8>| trim(n));
            &&& pair_map(final(name_to_tag)@) == insert_all(pair_map(old(name_to_tag)@), names, tag.spec_bytes())
            &&& encode_utf8(first@) == names[0]
        }),
{
    let ghost all = split_on(rest.spec_bytes(), 0x3b);
    let mut r: &str = rest;
    let mut first: Option<String> = None;
    let ghost mut done: Seq<Seq<u8>> = seq![];
    proof {
        assert(all =~= done + split_on(r.spec_bytes(), 0x3b));
    }
    loop
        invariant
            firsts_distinct(name_to_tag@),
            all == split_on(rest.spec_bytes(), 0x3b),
            all == done + split_on(r.spec_bytes(), 0x3b),
            insert_all(pair_map(old(name_to_tag)@), all.map_values(|n: Seq<u8>| trim(n)), tag.spec_bytes())
                == insert_all(pair_map(name_to_tag@), split_on(r.spec_bytes(), 0x3b).map_values(|n: Seq<u8>| trim(n)), tag.spec_bytes()),
            done.len() == 0 <==> first is None,
            first matches Some(f) ==> encode_utf8(f@) == trim(all[0]),
        decreases r.spec_bytes().len(),
    {
        let ghost parts = split_on(r.spec_bytes(), 0x3b);
        proof {
            lemma_find_byte(r.spec_bytes(), 0x3b, 0);
        }
        let (name, more) = match split_at_byte(r, 0x3b) {
            Some(p) => (p.0, Some(p.1)),
            None => (r, None),
        };
        proof {
            assert(parts[0] == name.spec_bytes());
            let tp = parts.map_values(|n: Seq<u8>| trim(n));
            assert(tp[0] == trim(name.spec_bytes()));
        }
        let n = trim_str(name);
        let ghost m0 = pair_map(name_to_tag@);
        insert_pair(name_to_tag, n, tag);
        if first.is_none() {
            first = Some(n.to_string());
            proof {
                assert(all[0] == parts[0]);
            }
        }
        match more {
            None => {
                proof {
                    assert(parts =~= seq![r.spec_bytes()]);
                    let tp = parts.map_values(|n: Seq<u8>| trim(n));
                    assert(tp =~= seq![trim(r.spec_bytes())]);
                    assert(tp.drop_first() =~= seq![]);
                    assert(insert_all(m0, tp, tag.spec_bytes()) == insert_all(
                        m0.insert(tp[0], tag.spec_bytes()),
                        tp.drop_first(),
                        tag.spec_bytes(),
                    ));
                }
                return match first {
                    Some(f) => f,
                    None => String::new(),
                };
            },
            Some(m) => {
                proof {
                    let tp = parts.map_values(|n: Seq<u8>| trim(n));
                    assert(parts.drop_first() =~= split_on(m.spec_bytes(), 0x3b));
                    assert(tp.drop_first() =~= split_on(m.spec_bytes(), 0x3b).map_values(|n: Seq<u8>| trim(n)));
                    assert(insert_all(m0, tp, tag.spec_bytes()) == insert_all(
                        m0.insert(tp[0], tag.spec_bytes()),
                        tp.drop_first(),
                        tag.spec_bytes(),
                    ));
                    assert(done + parts =~= (done + seq![parts[0]]) + split_on(m.spec_bytes(), 0x3b));
                    done = done + seq![parts[0]];
                }
                r = m;
            },
        }
    }
}

impl Tags {
    /// The keys of both maps appear once each.
    pub closed spec fn wf(&self) -> bool {
        firsts_distinct(self.tag_to_name@) && firsts_distinct(self.name_to_tag@)
    }

    /// Reads a tags file. Blank lines are passed over; each other line is a tag (three
    /// uppercase ASCII letters), `;`, and the country's names separated by `;`. A tag maps to
    /// its first name, and every name maps to its tag; later lines win.
    pub fn parse_new(text: &str) -> (res: Result<Tags, TagsError>)
        ensures
            match read_tag_lines(
                lines_of(text.spec_bytes()),
                0,
                TagMaps { tag_to_name: Map::empty(), name_to_tag: Map::empty() },
            ) {
                Ok(m) => res matches Ok(t) && t.wf() && t@ == m,
                Err(e) => res matches Err(e2) && e2@ == e,
            },
    {
        let mut tags = Tags { tag_to_name: Vec::new(), name_to_tag: Vec::new() };
        let mut rest: &str = text;
        let mut idx: usize = 0;
        let total = text.as_bytes().len();
        proof {
            assert(tags@ == TagMaps { tag_to_name: Map::empty(), name_to_tag: Map::empty() });
        }
        while rest.as_bytes().len() > 0
            invariant
                tags.wf(),
                total == text.spec_bytes().len(),
                rest.spec_bytes().len() <= total,
                idx <= total - rest.spec_bytes().len(),
                read_tag_lines(
                    lines_of(text.spec_bytes()),
                    0,
                    TagMaps { tag_to_name: Map::empty(), name_to_tag: Map::empty() },
                ) == read_tag_lines(lines_of(rest.spec_bytes()), idx as int, tags@),
            decreases rest.spec_bytes().len(),
        {
            let (line, r) = next_line(rest);
            let ghost ls = lines_of(rest.spec_bytes());
            proof {
                assert(ls[0] == line.spec_bytes());
                assert(ls.drop_first() =~= lines_of(r.spec_bytes()));
            }
            let t = trim_str(line);
            if t.as_bytes().len() > 0 {
                let (tag, names) = match split_at_byte(t, 0x3b) {
                    Some(p) => p,
                    None => {
                        return Err(TagsError::InvalidLine(idx));
                    },
                };
                let tag = trim_str(tag);
                if !valid_tag(tag) {
                    return Err(TagsError::InvalidTag(tag.to_string()));
                }
                let first = add_names(&mut tags.name_to_tag, names, tag);
                insert_pair(&mut tags.tag_to_name, tag, first.as_str());
            }
            rest = r;
            idx = idx + 1;
        }
        proof {
            assert(lines_of(rest.spec_bytes()) =~= seq![]);
        }
        Ok(tags)
    }

    /// The first name of the country with tag `tag`.
    pub fn get_name_for_tag<'a>(&'a self, tag: &str) -> (res: Option<&'a str>)
        requires
            self.wf(),
        ensures
            match self@.tag_to_name.get(tag.spec_bytes()) {
                Some(n) => res matches Some(r) && r.spec_bytes() == n,
                None => res is None,
            },
    {
        get_pair(&self.tag_to_name, tag)
    }

    /// From some tag or name, returns the tag.
    ///
    /// ## Examples
    /// - `"GBR" -> "GBR"`
    /// - `"Great Britain" -> "GBR"`
    pub fn get_tag_for_name<'a>(&'a self, name: &str) -> (res: Option<&'a str>)
        requires
            self.wf(),
        ensures
            if name.spec_bytes().len() == 3 && self@.tag_to_name.contains_key(
                encode_utf8(unicode_upper(name@)),
            ) {
                res matches Some(r) && r@ == unicode_upper(name@)
            } else {
                match self@.name_to_tag.get(name.spec_bytes()) {
                    Some(t) => res matches Some(r) && r.spec_bytes() == t,
                    None => res is None,
                }
            },
    {
        if name.as_bytes().len() == 3 {
            let upper = to_uppercase(name);
            if let Some(k) = get_key(&self.tag_to_name, upper.as_str()) {
                proof {
                    assert(decode_utf8(encode_utf8(k@)) == decode_utf8(encode_utf8(upper@)));
                }
                return Some(k);
            }
        }
        get_pair(&self.name_to_tag, name)
    }
}

} // verus!
