//! Reading colors and wars from EU4 save objects, and the line structure of EU4 text saves
//! read line by line.
use vstd::prelude::*;
use vstd::string::StringSliceAdditionalSpecFns;
use vstd::utf8::*;

use crate::eu4_raw_parser::{RawEU4Object, RawEU4Value, values_of};
use crate::text_util::{
    find_byte, find_byte_from, lemma_after_ascii, lemma_find_byte, spec_parse_i64, splittable,
    str_range, str_skip, trim, trim_str,
};

pub use crate::save_parser::{Mod, War, WarResult};

verus! {

broadcast use vstd::string::group_string_axioms, vstd::utf8::encode_utf8_valid_utf8;

/// The values of an object read as integers, each cut to its low byte; `None` when one of them
/// is not an integer.
pub open spec fn low_bytes<'a>(vals: Seq<RawEU4Value<'a>>) -> Option<Seq<u8>>
    decreases vals.len(),
{
    if vals.len() == 0 {
        Some(seq![])
    } else {
        match low_bytes(vals.drop_last()) {
            None => None,
            Some(bs) => match vals.last() {
                RawEU4Value::Scalar(s) => match spec_parse_i64(s@) {
                    Some(n) => Some(bs.push(n as u8)),
                    None => None,
                },
                RawEU4Value::Object(_) => None,
            },
        }
    }
}

/// A failure on a prefix is the failure on the whole.
proof fn lemma_low_bytes_none<'a>(vals: Seq<RawEU4Value<'a>>, k: int)
    requires
        0 <= k <= vals.len(),
        low_bytes(vals.take(k)) is None,
    ensures
        low_bytes(vals) is None,
    decreases vals.len() - k,
{
    if k < vals.len() {
        assert(vals.take(k + 1).drop_last() =~= vals.take(k));
        lemma_low_bytes_none(vals, k + 1);
    } else {
        assert(vals.take(k) =~= vals);
    }
}

impl<'a> RawEU4Object<'a> {
    /// The object's bare values as a color: three integers, each cut to its low byte.
    pub fn as_color(&self) -> (res: Option<[u8; 3]>)
        ensures
            match low_bytes(values_of(self.0@)) {
                Some(bs) => if bs.len() == 3 {
                    res matches Some(c) && c@ == bs
                } else {
                    res is None
                },
                None => res is None,
            },
    {
        let vals = self.iter_values();
        let ghost all = values_of(self.0@);
        let mut out: Vec<u8> = Vec::new();
        let mut i: usize = 0;
        proof {
            assert(all.take(0) =~= seq![]);
        }
        while i < vals.len()
            invariant
                0 <= i <= vals@.len(),
                vals@.len() == all.len(),
                all == values_of(self.0@),
                forall|j: int| 0 <= j < vals@.len() ==> *vals@[j] == all[j],
                low_bytes(all.take(i as int)) == Some(out@),
            decreases vals@.len() - i,
        {
            proof {
                let t = all.take(i + 1);
                assert(t.drop_last() =~= all.take(i as int));
                assert(t.last() == all[i as int]);
            }
            let n = match vals[i].as_scalar() {
                Some(s) => s.as_int(),
                None => None,
            };
            match n {
                Some(n) => {
                    out.push(n as u8);
                },
                None => {
                    proof {
                        lemma_low_bytes_none(all, i + 1);
                    }
                    return None;
                },
            }
            i = i + 1;
        }
        proof {
            assert(all.take(i as int) =~= all);
        }
        if out.len() != 3 {
            return None;
        }
        let c = [out[0], out[1], out[2]];
        proof {
            assert(c@ =~= out@);
        }
        Some(c)
    }
}


/// How a line of a text save moves the line-by-line reading.
#[derive(Debug, PartialEq, Eq)]
pub enum LineKind<'a> {
    /// The line both opens and closes brackets, and is passed over.
    Both,
    /// The line opens brackets.
    Opened,
    /// The line closes a bracket.
    Closed,
    /// Any other line: its key, when it has a `=` with no `"` before it, and its value, both
    /// trimmed.
    Entry(Option<&'a str>, &'a str),
}

/// A line that closes a bracket when none is open.
#[derive(Debug, Clone, Copy, PartialEq, Eq, Structural)]
pub enum BracketError {
    Unbalanced,
}

/// `s` holds the byte `c`.
pub open spec fn has_byte(s: Seq<u8>, c: u8) -> bool {
    exists|i: int| 0 <= i < s.len() && s[i] == c
}

/// The number of bytes `c` in `s`.
pub open spec fn byte_count(s: Seq<u8>, c: u8) -> nat
    decreases s.len(),
{
    if s.len() == 0 {
        0
    } else {
        byte_count(s.drop_last(), c) + if s.last() == c {
            1nat
        } else {
            0
        }
    }
}

/// `s` without the bytes `c` at its end.
pub open spec fn strip_end(s: Seq<u8>, c: u8) -> Seq<u8>
    decreases s.len(),
{
    if s.len() > 0 && s.last() == c {
        strip_end(s.drop_last(), c)
    } else {
        s
    }
}

/// The name a line that opens one bracket gives it: the line trimmed, without the `{`s and
/// then the `=`s at its end.
pub open spec fn bracket_name(line: Seq<u8>) -> Seq<u8> {
    strip_end(strip_end(trim(line), 0x7b), 0x3d)
}

/// The position of the `=` that splits a line into key and value: its first `=`, when no `"`
/// comes before it.
pub open spec fn key_split(line: Seq<u8>) -> Option<int> {
    match find_byte(line, 0x3d, 0) {
        Some(e) => match find_byte(line, 0x22, 0) {
            Some(q) => if q < e {
                None
            } else {
                Some(e)
            },
            None => Some(e),
        },
        None => None,
    }
}

/// The key of a line, trimmed, if it has one.
pub open spec fn line_key(line: Seq<u8>) -> Option<Seq<u8>> {
    match key_split(line) {
        Some(e) => Some(trim(line.subrange(0, e))),
        None => None,
    }
}

/// The value of a line, trimmed: what follows the splitting `=`, or the whole line.
pub open spec fn line_value(line: Seq<u8>) -> Seq<u8> {
    match key_split(line) {
        Some(e) => trim(line.subrange(e + 1, line.len() as int)),
        None => trim(line),
    }
}

/// The bytes of a text, if there is one.
pub open spec fn opt_bytes<'a>(t: Option<&'a str>) -> Option<Seq<u8>> {
    match t {
        Some(t) => Some(t.spec_bytes()),
        None => None,
    }
}

/// The bytes of each text.
pub open spec fn strs_view<'a>(v: Seq<&'a str>) -> Seq<Seq<u8>> {
    v.map_values(|s: &'a str| s.spec_bytes())
}

/// The names that a line opening `n` brackets at once pushes: one `{` each.
pub open spec fn open_marks(n: nat) -> Seq<Seq<u8>> {
    Seq::new(n, |i: int| seq![0x7bu8])
}

/// The number of bytes `c` in `b`.
fn count_byte(b: &[u8], c: u8) -> (res: usize)
    ensures
        res == byte_count(b@, c),
{
    let mut n: usize = 0;
    let mut i: usize = 0;
    while i < b.len()
        invariant
            0 <= i <= b@.len(),
            n == byte_count(b@.take(i as int), c),
            n <= i,
        decreases b@.len() - i,
    {
        proof {
            assert(b@.take(i + 1).drop_last() =~= b@.take(i as int));
        }
        if b[i] == c {
            n = n + 1;
        }
        i = i + 1;
    }
    proof {
        assert(b@.take(i as int) =~= b@);
    }
    n
}

proof fn lemma_strip_end_prefix(s: Seq<u8>, c: u8, j: int)
    requires
        0 <= j <= s.len(),
        j == 0 || s[j - 1] != c,
        forall|k: int| j <= k < s.len() ==> s[k] == c,
    ensures
        strip_end(s, c) == s.subrange(0, j),
    decreases s.len(),
{
    if s.len() > j {
        lemma_strip_end_prefix(s.drop_last(), c, j);
        assert(s.drop_last().subrange(0, j) =~= s.subrange(0, j));
    } else {
        assert(s.subrange(0, j) =~= s);
    }
}

/// Valid UTF-8 may be split at its start.
proof fn lemma_start_splittable(b: Seq<u8>)
    requires
        valid_utf8(b),
    ensures
        splittable(b, 0),
{
    if b.len() > 0 {
        assert(valid_first_scalar(b));
    }
}

/// `s` without the ASCII bytes `c` at its end.
fn strip_end_str<'a>(s: &'a str, c: u8) -> (res: &'a str)
    requires
        c < 0x80,
    ensures
        res.spec_bytes() == strip_end(s.spec_bytes(), c),
{
    let b = s.as_bytes();
    let mut j = b.len();
    while j > 0 && b[j - 1] == c
        invariant
            0 <= j <= b@.len(),
            b@ == s.spec_bytes(),
            forall|k: int| j <= k < b@.len() ==> b@[k] == c,
        decreases j,
    {
        j = j - 1;
    }
    proof {
        lemma_strip_end_prefix(b@, c, j as int);
        lemma_start_splittable(b@);
    }
    str_range(s, 0, j)
}

/// One line of the line-by-line reading of a text save, given the names of the brackets open
/// before it (`brackets`, changed as the line opens or closes brackets). A line that holds
/// both `{` and `}` is passed over; one that holds `{` pushes its name when it opens one
/// bracket (the line trimmed, without its ending `{`s and `=`s) and a `{` for each bracket
/// when it opens several; one that holds `}` closes the last bracket, an error when none is
/// open; any other line is an entry, split at its first `=` unless a `"` comes before it.
pub fn line_structure<'a>(brackets: &mut Vec<&'a str>, line: &'a str) -> (res: Result<
    LineKind<'a>,
    BracketError,
>)
    ensures
        has_byte(line.spec_bytes(), 0x7b) && has_byte(line.spec_bytes(), 0x7d) ==> res == Ok::<
            LineKind<'a>,
            BracketError,
        >(LineKind::Both) && final(brackets)@ == old(brackets)@,
        has_byte(line.spec_bytes(), 0x7b) && !has_byte(line.spec_bytes(), 0x7d) ==> res == Ok::<
            LineKind<'a>,
            BracketError,
        >(LineKind::Opened) && strs_view(final(brackets)@) == if byte_count(line.spec_bytes(), 0x7b)
            == 1 {
            strs_view(old(brackets)@).push(bracket_name(line.spec_bytes()))
        } else {
            strs_view(old(brackets)@) + open_marks(byte_count(line.spec_bytes(), 0x7b))
        },
        !has_byte(line.spec_bytes(), 0x7b) && has_byte(line.spec_bytes(), 0x7d) ==> if old(
            brackets,
        )@.len() == 0 {
            res == Err::<LineKind<'a>, BracketError>(BracketError::Unbalanced) && final(brackets)@
                == old(brackets)@
        } else {
            res == Ok::<LineKind<'a>, BracketError>(LineKind::Closed) && final(brackets)@ == old(
                brackets,
            )@.drop_last()
        },
        !has_byte(line.spec_bytes(), 0x7b) && !has_byte(line.spec_bytes(), 0x7d) ==> (res matches Ok(
            LineKind::Entry(k, v),
        ) && line_key(line.spec_bytes()) == opt_bytes(k) && v.spec_bytes() == line_value(
            line.spec_bytes(),
        )) && final(brackets)@ == old(brackets)@,
{
    let b = line.as_bytes();
    let ghost lb = line.spec_bytes();
    proof {
        lemma_find_byte(lb, 0x7b, 0);
        lemma_find_byte(lb, 0x7d, 0);
    }
    let open = find_byte_from(b, 0x7b, 0);
    let close = find_byte_from(b, 0x7d, 0);
    if open.is_some() {
        if close.is_some() {
            return Ok(LineKind::Both);
        }
        let n = count_byte(b, 0x7b);
        if n == 1 {
            let t = trim_str(line);
            let t1 = strip_end_str(t, 0x7b);
            let name = strip_end_str(t1, 0x3d);
            let ghost before = brackets@;
            brackets.push(name);
            proof {
                assert(strs_view(brackets@) =~= strs_view(before).push(bracket_name(lb)));
            }
        } else {
            let pos = match open {
                Some(p) => p,
                None => 0,
            };
            proof {
                assert(pos < b@.len());
                assert(b@.len() == b.len());
                assert(splittable(lb, pos as int));
                lemma_after_ascii(lb, pos as int);
            }
            let mark = str_range(line, pos, pos + 1);
            proof {
                assert(mark.spec_bytes() =~= seq![0x7bu8]);
            }
            let ghost before = brackets@;
            let mut k: usize = 0;
            while k < n
                invariant
                    0 <= k <= n,
                    strs_view(brackets@) == strs_view(before) + open_marks(k as nat),
                    mark.spec_bytes() == seq![0x7bu8],
                decreases n - k,
            {
                let ghost prev = brackets@;
                brackets.push(mark);
                proof {
                    assert(strs_view(brackets@) =~= strs_view(prev).push(seq![0x7bu8]));
                    assert(open_marks((k + 1) as nat) =~= open_marks(k as nat).push(seq![0x7bu8]));
                    assert(strs_view(before) + open_marks((k + 1) as nat) =~= (strs_view(before)
                        + open_marks(k as nat)).push(seq![0x7bu8]));
                }
                k = k + 1;
            }
        }
        return Ok(LineKind::Opened);
    }
    if close.is_some() {
        if brackets.len() == 0 {
            return Err(BracketError::Unbalanced);
        }
        brackets.pop();
        return Ok(LineKind::Closed);
    }
    proof {
        lemma_find_byte(lb, 0x3d, 0);
        lemma_find_byte(lb, 0x22, 0);
    }
    let eq = find_byte_from(b, 0x3d, 0);
    let quote = find_byte_from(b, 0x22, 0);
    let split = match eq {
        Some(e) => match quote {
            Some(q) => if q < e {
                None
            } else {
                Some(e)
            },
            None => Some(e),
        },
        None => None,
    };
    match split {
        Some(e) => {
            proof {
                assert(e < b@.len());
                assert(b@.len() == b.len());
                lemma_start_splittable(lb);
                assert(splittable(lb, e as int));
                lemma_after_ascii(lb, e as int);
            }
            let key = trim_str(str_range(line, 0, e));
            let value = trim_str(str_skip(line, e + 1));
            Ok(LineKind::Entry(Some(key), value))
        },
        None => Ok(LineKind::Entry(None, trim_str(line))),
    }
}

} // verus!
