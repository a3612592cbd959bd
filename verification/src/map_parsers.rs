//! Reading the lists of wasteland and water provinces from EU4's map files.
use vstd::prelude::*;
use vstd::string::{StringExecFns, StringSliceAdditionalSpecFns};
use vstd::utf8::*;

use crate::text_util::{
    find_byte, find_byte_from, is_ascii_ws, lemma_after_ascii, lemma_find_byte, parse_u64,
    spec_parse_u64, split_str, splittable, str_skip, trim, trim_str,
};

verus! {

broadcast use vstd::string::group_string_axioms, vstd::utf8::encode_utf8_valid_utf8;

/// A list of provinces holds something that is not a number.
#[derive(Debug, Clone, Copy, PartialEq, Eq, Structural)]
pub enum ProvinceListError {
    InvalidNumber,
}

/// `l` without a final carriage return.
pub open spec fn strip_cr(l: Seq<u8>) -> Seq<u8> {
    if l.len() > 0 && l.last() == 0x0d {
        l.drop_last()
    } else {
        l
    }
}

/// The lines of a text, as `str::lines` gives them: split after each line feed, with a
/// carriage return before the line feed dropped, and no empty line after a final line feed.
pub open spec fn lines_of(s: Seq<u8>) -> Seq<Seq<u8>>
    decreases s.len(),
{
    if s.len() == 0 {
        seq![]
    } else {
        match find_byte(s, 0x0a, 0) {
            None => seq![s],
            Some(j) => {
                proof {
                    lemma_find_byte(s, 0x0a, 0);
                }
                seq![strip_cr(s.subrange(0, j))] + lines_of(s.subrange(j + 1, s.len() as int))
            },
        }
    }
}

/// The part of a line before its first `#`.
pub open spec fn before_hash(l: Seq<u8>) -> Seq<u8> {
    match find_byte(l, 0x23, 0) {
        Some(j) => l.subrange(0, j),
        None => l,
    }
}

/// Position of the first ASCII whitespace byte at or after `i`, or the length.
pub open spec fn word_end(s: Seq<u8>, i: int) -> int
    decreases s.len() - i,
{
    if i < 0 || i >= s.len() || is_ascii_ws(s[i]) {
        i
    } else {
        word_end(s, i + 1)
    }
}

pub proof fn lemma_word_end(s: Seq<u8>, i: int)
    requires
        0 <= i <= s.len(),
    ensures
        i <= word_end(s, i) <= s.len(),
        forall|k: int| i <= k < word_end(s, i) ==> !is_ascii_ws(#[trigger] s[k]),
        word_end(s, i) < s.len() ==> is_ascii_ws(s[word_end(s, i)]),
    decreases s.len() - i,
{
    if i < s.len() && !is_ascii_ws(s[i]) {
        lemma_word_end(s, i + 1);
    }
}

/// The words of `s` from position `i` on, as `str::split_ascii_whitespace` gives them.
pub open spec fn words_from(s: Seq<u8>, i: int) -> Seq<Seq<u8>>
    decreases s.len() - i,
{
    if i < 0 || i >= s.len() {
        seq![]
    } else if is_ascii_ws(s[i]) {
        words_from(s, i + 1)
    } else {
        proof {
            lemma_word_end(s, i + 1);
        }
        seq![s.subrange(i, word_end(s, i + 1))] + words_from(s, word_end(s, i + 1))
    }
}

/// Every word read as a `u64`, or `None` when one is not a number.
pub open spec fn parse_words(ws: Seq<Seq<u8>>) -> Option<Seq<u64>>
    decreases ws.len(),
{
    if ws.len() == 0 {
        Some(seq![])
    } else {
        match (spec_parse_u64(ws[0]), parse_words(ws.drop_first())) {
            (Some(n), Some(rest)) => Some(seq![n] + rest),
            _ => None,
        }
    }
}

/// The lines after the first line that, trimmed, is `header`.
pub open spec fn after_header(lines: Seq<Seq<u8>>, header: Seq<u8>) -> Seq<Seq<u8>>
    decreases lines.len(),
{
    if lines.len() == 0 {
        seq![]
    } else if trim(lines[0]) == header {
        lines.drop_first()
    } else {
        after_header(lines.drop_first(), header)
    }
}

/// The numbers on `lines` up to the first line that, trimmed, is `}` (comments after `#`
/// left out), or `None` when one of them is not a number.
pub open spec fn block_numbers(lines: Seq<Seq<u8>>) -> Option<Seq<u64>>
    decreases lines.len(),
{
    if lines.len() == 0 {
        Some(seq![])
    } else if trim(lines[0]) == seq![0x7du8] {
        Some(seq![])
    } else {
        match (parse_words(words_from(before_hash(lines[0]), 0)), block_numbers(lines.drop_first())) {
            (Some(a), Some(b)) => Some(a + b),
            _ => None,
        }
    }
}

/// The bytes of ` = {`.
pub open spec fn opens_block() -> Seq<u8> {
    seq![0x20u8, 0x3d, 0x20, 0x7b]
}

/// The provinces listed in the block `key = {` ... `}` of a map file.
pub open spec fn province_list(text: Seq<u8>, key: Seq<u8>) -> Option<Seq<u64>> {
    block_numbers(after_header(lines_of(text), key + opens_block()))
}

/// The first line of `s` and what follows it.
pub(crate) fn next_line<'a>(s: &'a str) -> (res: (&'a str, &'a str))
    requires
        s.spec_bytes().len() > 0,
    ensures
        lines_of(s.spec_bytes()) == seq![res.0.spec_bytes()] + lines_of(res.1.spec_bytes()),
        res.1.spec_bytes().len() < s.spec_bytes().len(),
{
    let b = s.as_bytes();
    let n = b.len();
    let ghost sb = b@;
    proof {
        lemma_find_byte(sb, 0x0a, 0);
    }
    match find_byte_from(b, 0x0a, 0) {
        None => {
            let e = str_skip(s, b.len());
            proof {
                assert(e.spec_bytes() =~= seq![]);
                assert(seq![sb] + seq![] =~= seq![sb]);
            }
            (s, e)
        },
        Some(j) => {
            proof {
                lemma_line_boundary(sb, j as int);
            }
            assert(j < n);
            let (head, _) = split_str(s, j);
            let rest = str_skip(s, j + 1);
            let hb = head.as_bytes();
            let line = if j > 0 && hb[j - 1] == 0x0d {
                proof {
                    lemma_cr_boundary(hb@, j - 1);
                }
                split_str(head, j - 1).0
            } else {
                head
            };
            proof {
                assert(line.spec_bytes() =~= strip_cr(sb.subrange(0, j as int)));
            }
            (line, rest)
        },
    }
}

/// A line feed of a string's bytes stands between characters on both sides.
proof fn lemma_line_boundary(b: Seq<u8>, j: int)
    requires
        valid_utf8(b),
        0 <= j < b.len(),
        b[j] == 0x0a,
    ensures
        splittable(b, j),
        splittable(b, j + 1),
{
    assert(splittable(b, j));
    lemma_after_ascii(b, j);
}

/// A carriage return of a string's bytes starts a character.
proof fn lemma_cr_boundary(b: Seq<u8>, j: int)
    requires
        valid_utf8(b),
        0 <= j < b.len(),
        b[j] == 0x0d,
    ensures
        splittable(b, j),
{
}

/// `a` is `b` followed by ` = {`.
fn is_header(a: &[u8], b: &[u8]) -> (res: bool)
    ensures
        res == (a@ == b@ + opens_block()),
{
    let n = b.len();
    if a.len() < 4 || a.len() - 4 != n {
        proof {
            if a@ == b@ + opens_block() {
                assert(a@.len() == n + 4);
            }
        }
        return false;
    }
    let mut i: usize = 0;
    while i < n
        invariant
            a@.len() == n + 4,
            n == b@.len(),
            0 <= i <= n,
            forall|j: int| 0 <= j < i ==> a@[j] == b@[j],
        decreases n - i,
    {
        if a[i] != b[i] {
            proof {
                if a@ == b@ + opens_block() {
                    assert(a@[i as int] == (b@ + opens_block())[i as int]);
                }
            }
            return false;
        }
        i = i + 1;
    }
    let r = a[n] == 0x20 && a[n + 1] == 0x3d && a[n + 2] == 0x20 && a[n + 3] == 0x7b;
    proof {
        if r {
            assert(a@ =~= b@ + opens_block());
        } else if a@ == b@ + opens_block() {
            assert(a@[n as int] == (b@ + opens_block())[n as int]);
            assert(a@[n + 1] == (b@ + opens_block())[n + 1]);
            assert(a@[n + 2] == (b@ + opens_block())[n + 2]);
            assert(a@[n + 3] == (b@ + opens_block())[n + 3]);
        }
    }
    r
}

/// `Some(acc + r)` for a successful `res == Some(r)`.
pub open spec fn prepend_numbers(acc: Seq<u64>, res: Option<Seq<u64>>) -> Option<Seq<u64>> {
    match res {
        Some(r) => Some(acc + r),
        None => None,
    }
}

/// Appends the numbers of the words of `t` (split at ASCII whitespace) to `out`; `false` when a
/// word is not a number.
pub fn word_numbers(t: &[u8], out: &mut Vec<u64>) -> (ok: bool)
    ensures
        ok == parse_words(words_from(t@, 0)) is Some,
        ok ==> final(out)@ == old(out)@ + parse_words(words_from(t@, 0)).unwrap(),
{
    let ghost tb = t@;
    let ghost start = out@;
    let ghost mut acc: Seq<u64> = seq![];
    let mut i: usize = 0;
    proof {
        assert(start + acc =~= start);
        assert(prepend_numbers(acc, parse_words(words_from(tb, 0))) =~~= parse_words(words_from(tb, 0)));
    }
    while i < t.len()
        invariant
            tb == t@,
            0 <= i <= tb.len(),
            out@ == start + acc,
            prepend_numbers(acc, parse_words(words_from(tb, i as int))) == parse_words(words_from(tb, 0)),
        decreases tb.len() - i,
    {
        let c = t[i];
        if c == 0x09 || c == 0x0a || c == 0x0c || c == 0x0d || c == 0x20 {
            i = i + 1;
        } else {
            let mut e = i + 1;
            proof {
                lemma_word_end(tb, i + 1);
            }
            while e < t.len() && !(t[e] == 0x09 || t[e] == 0x0a || t[e] == 0x0c || t[e] == 0x0d || t[e] == 0x20)
                invariant
                    tb == t@,
                    i < e <= tb.len(),
                    word_end(tb, i + 1) == word_end(tb, e as int),
                decreases tb.len() - e,
            {
                e = e + 1;
            }
            let w = vstd::slice::slice_subrange(t, i, e);
            let ghost rest = words_from(tb, e as int);
            proof {
                assert(words_from(tb, i as int) == seq![w@] + rest);
                assert((seq![w@] + rest).drop_first() =~= rest);
                assert((seq![w@] + rest)[0] == w@);
            }
            match parse_u64(w) {
                Some(v) => {
                    out.push(v);
                    proof {
                        if let Some(r) = parse_words(rest) {
                            assert(acc + (seq![v] + r) =~= acc.push(v) + r);
                        }
                        acc = acc.push(v);
                        assert(out@ =~= start + acc);
                    }
                    i = e;
                },
                None => {
                    return false;
                },
            }
        }
    }
    proof {
        assert(words_from(tb, i as int) =~= seq![]);
        assert(acc + seq![] =~= acc);
    }
    true
}

/// Appends the numbers of a line's words (before any `#`) to `out`; `false` when a word is
/// not a number.
fn line_numbers(line: &[u8], out: &mut Vec<u64>) -> (ok: bool)
    ensures
        ok == parse_words(words_from(before_hash(line@), 0)) is Some,
        ok ==> final(out)@ == old(out)@ + parse_words(words_from(before_hash(line@), 0)).unwrap(),
{
    proof {
        lemma_find_byte(line@, 0x23, 0);
    }
    let end = match find_byte_from(line, 0x23, 0) {
        Some(j) => j,
        None => line.len(),
    };
    let t = vstd::slice::slice_subrange(line, 0, end);
    proof {
        assert(t@ =~= before_hash(line@));
    }
    word_numbers(t, out)
}

/// The provinces listed in the block `key = {` ... `}` of a map file: the numbers on the lines
/// after the first line that, trimmed, is `key = {`, up to a line that, trimmed, is `}`. Text
/// after a `#` on a line is a comment.
pub fn get_province_list(text: &str, key: &str) -> (res: Result<Vec<u64>, ProvinceListError>)
    ensures
        match province_list(text.spec_bytes(), key.spec_bytes()) {
            Some(v) => res matches Ok(r) && r@ == v,
            None => res matches Err(ProvinceListError::InvalidNumber),
        },
{
    let header = key.as_bytes();
    let ghost hb = header@ + opens_block();
    let mut rest: &str = text;
    let mut found = false;
    while !found && rest.as_bytes().len() > 0
        invariant
            hb == header@ + opens_block(),
            header@ == key.spec_bytes(),
            !found ==> after_header(lines_of(text.spec_bytes()), hb) == after_header(
                lines_of(rest.spec_bytes()),
                hb,
            ),
            found ==> after_header(lines_of(text.spec_bytes()), hb) == lines_of(rest.spec_bytes()),
        decreases rest.spec_bytes().len(),
    {
        let (line, r) = next_line(rest);
        proof {
            let ls = lines_of(rest.spec_bytes());
            assert(ls[0] == line.spec_bytes());
            assert(ls.drop_first() =~= lines_of(r.spec_bytes()));
        }
        let t = trim_str(line);
        if is_header(t.as_bytes(), header) {
            found = true;
        }
        rest = r;
    }
    if !found {
        proof {
            assert(lines_of(rest.spec_bytes()) =~= seq![]);
        }
        return Ok(Vec::new());
    }
    let mut out: Vec<u64> = Vec::new();
    let ghost mut acc: Seq<u64> = seq![];
    let ghost body = lines_of(rest.spec_bytes());
    proof {
        assert(prepend_numbers(acc, block_numbers(body)) =~~= block_numbers(body));
    }
    while rest.as_bytes().len() > 0
        invariant
            hb == key.spec_bytes() + opens_block(),
            body == after_header(lines_of(text.spec_bytes()), hb),
            out@ == acc,
            prepend_numbers(acc, block_numbers(lines_of(rest.spec_bytes()))) == block_numbers(body),
        decreases rest.spec_bytes().len(),
    {
        let (line, r) = next_line(rest);
        let ghost ls = lines_of(rest.spec_bytes());
        proof {
            assert(ls[0] == line.spec_bytes());
            assert(ls.drop_first() =~= lines_of(r.spec_bytes()));
        }
        let t = trim_str(line);
        let tb = t.as_bytes();
        if tb.len() == 1 && tb[0] == 0x7d {
            proof {
                assert(tb@ =~= seq![0x7du8]);
                assert(acc + seq![] =~= acc);
            }
            return Ok(out);
        }
        proof {
            assert(trim(ls[0]) != seq![0x7du8]);
        }
        let ghost before = out@;
        if !line_numbers(line.as_bytes(), &mut out) {
            return Err(ProvinceListError::InvalidNumber);
        }
        proof {
            let a = parse_words(words_from(before_hash(ls[0]), 0)).unwrap();
            if let Some(b) = block_numbers(lines_of(r.spec_bytes())) {
                assert(acc + (a + b) =~= (acc + a) + b);
            }
            acc = acc + a;
        }
        rest = r;
    }
    proof {
        assert(lines_of(rest.spec_bytes()) =~= seq![]);
        assert(acc + seq![] =~= acc);
    }
    Ok(out)
}

/// The provinces of the `impassable` block of `climate.txt`.
pub fn read_wasteland_provinces(text: &str) -> (res: Result<Vec<u64>, ProvinceListError>)
    ensures
        match province_list(text.spec_bytes(), "impassable".spec_bytes()) {
            Some(v) => res matches Ok(r) && r@ == v,
            None => res matches Err(ProvinceListError::InvalidNumber),
        },
{
    get_province_list(text, "impassable")
}

/// The provinces of the `sea_starts` block and then those of the `lakes` block of
/// `default.map`.
pub fn read_water_provinces(text: &str) -> (res: Result<Vec<u64>, ProvinceListError>)
    ensures
        match (
            province_list(text.spec_bytes(), "sea_starts".spec_bytes()),
            province_list(text.spec_bytes(), "lakes".spec_bytes()),
        ) {
            (Some(a), Some(b)) => res matches Ok(r) && r@ == a + b,
            _ => res matches Err(ProvinceListError::InvalidNumber),
        },
{
    let mut seas = get_province_list(text, "sea_starts")?;
    let mut lakes = get_province_list(text, "lakes")?;
    seas.append(&mut lakes);
    Ok(seas)
}

/// Reads `definition.csv` (see `read_definitions`; the `x` field is compared as it is).
pub fn read_definition_csv(text: &str) -> (res: Result<Vec<(crate::color_map::MapColor, u64)>, crate::web_map_parsers::DefinitionError>)
    ensures
        match crate::web_map_parsers::definition_rows(
            crate::web_map_parsers::after_first_line(text.spec_bytes()),
            false,
            Map::empty(),
        ) {
            Ok(m) => res matches Ok(v) && crate::web_map_parsers::keys_unique(v@)
                && crate::web_map_parsers::kv_map(v@) == m,
            Err(e) => res matches Err(e2) && e2@ == e,
        },
{
    crate::web_map_parsers::read_definitions(text, false)
}

} // verus!
