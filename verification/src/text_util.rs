//! Byte-level helpers for scanning UTF-8 text.
//!
//! Strings are modelled by their UTF-8 bytes (`spec_bytes`), which are always valid UTF-8.
use vstd::prelude::*;
use vstd::utf8::*;
use vstd::string::{StringExecFns, StringSliceAdditionalSpecFns};

verus! {

broadcast use vstd::string::group_string_axioms, vstd::utf8::encode_utf8_valid_utf8;

/// Width in bytes of the UTF-8 encoding that starts with the leading byte `b`.
pub open spec fn lead_width(b: u8) -> int {
    if b < 0x80 {
        1
    } else if b < 0xe0 {
        2
    } else if b < 0xf0 {
        3
    } else {
        4
    }
}

/// In valid UTF-8, the byte after a complete character encoding is never a continuation byte.
pub proof fn lemma_next_boundary(b: Seq<u8>, i: int)
    requires
        valid_utf8(b),
        0 <= i < b.len(),
        !is_continuation_byte(b[i]),
    ensures
        i + lead_width(b[i]) <= b.len(),
        i + lead_width(b[i]) < b.len() ==> !is_continuation_byte(b[i + lead_width(b[i])]),
    decreases b.len(),
{
    let l0 = length_of_first_scalar(b);
    let pop = pop_first_scalar(b);
    assert(valid_utf8(pop));
    if i == 0 {
        if pop.len() > 0 {
            assert(valid_first_scalar(pop));
            assert(pop[0] == b[l0]);
        }
    } else {
        if i < l0 {
            assert(is_continuation_byte(b[i]));
        }
        assert(pop[i - l0] == b[i]);
        lemma_next_boundary(pop, i - l0);
        let w = lead_width(b[i]);
        if i + w < b.len() {
            assert(pop[i - l0 + w] == b[i + w]);
        }
    }
}

/// A position of a string's bytes at which the string may be split: its end, or any byte
/// that does not continue a multi-byte character.
pub open spec fn splittable(b: Seq<u8>, i: int) -> bool {
    0 <= i <= b.len() && (i == b.len() || !is_continuation_byte(b[i]))
}

/// Splitting right after an ASCII byte that starts a character stays on a character boundary.
pub proof fn lemma_after_ascii(b: Seq<u8>, i: int)
    requires
        valid_utf8(b),
        splittable(b, i),
        i < b.len(),
        b[i] < 0x80,
    ensures
        splittable(b, i + 1),
{
    lemma_next_boundary(b, i);
}

/// Splits `s` at byte `mid`, which must fall between two characters.
pub fn split_str<'a>(s: &'a str, mid: usize) -> (res: (&'a str, &'a str))
    requires
        splittable(s.spec_bytes(), mid as int),
    ensures
        res.0.spec_bytes() == s.spec_bytes().subrange(0, mid as int),
        res.1.spec_bytes() == s.spec_bytes().subrange(mid as int, s.spec_bytes().len() as int),
{
    proof {
        let b = s.spec_bytes();
        assert(valid_utf8(b));
        if mid as int == b.len() {
            is_char_boundary_start_end_of_seq(b);
        } else {
            is_char_boundary_iff_not_is_continuation_byte(b, mid as int);
        }
    }
    s.split_at(mid)
}

/// The bytes of `s` that follow its first `n` bytes.
pub fn str_skip<'a>(s: &'a str, n: usize) -> (res: &'a str)
    requires
        splittable(s.spec_bytes(), n as int),
    ensures
        res.spec_bytes() == s.spec_bytes().subrange(n as int, s.spec_bytes().len() as int),
{
    split_str(s, n).1
}

/// Number of bytes of the whitespace character whose UTF-8 encoding starts at `i`, or 0 when
/// none does. Whitespace is the set of characters with the Unicode `White_Space` property
/// (what `char::is_whitespace` accepts): U+0009..U+000D, U+0020, U+0085, U+00A0, U+1680,
/// U+2000..U+200A, U+2028, U+2029, U+202F, U+205F and U+3000.
pub open spec fn ws_width(s: Seq<u8>, i: int) -> int {
    if !(0 <= i < s.len()) {
        0
    } else if (0x09 <= s[i] <= 0x0d) || s[i] == 0x20 {
        1
    } else if s[i] == 0xc2 && i + 1 < s.len() && (s[i + 1] == 0x85 || s[i + 1] == 0xa0) {
        2
    } else if i + 2 < s.len() && ((s[i] == 0xe1 && s[i + 1] == 0x9a && s[i + 2] == 0x80) || (
    s[i] == 0xe2 && s[i + 1] == 0x80 && ((0x80 <= s[i + 2] <= 0x8a) || s[i + 2] == 0xa8 || s[i
        + 2] == 0xa9 || s[i + 2] == 0xaf)) || (s[i] == 0xe2 && s[i + 1] == 0x81 && s[i + 2]
        == 0x9f) || (s[i] == 0xe3 && s[i + 1] == 0x80 && s[i + 2] == 0x80)) {
        3
    } else {
        0
    }
}

/// ASCII whitespace as `u8::is_ascii_whitespace` defines it: tab, line feed, form feed,
/// carriage return and space.
pub open spec fn is_ascii_ws(c: u8) -> bool {
    c == 0x09 || c == 0x0a || c == 0x0c || c == 0x0d || c == 0x20
}

pub fn ws_width_at(b: &[u8], i: usize) -> (w: usize)
    ensures
        w == ws_width(b@, i as int),
{
    let n = b.len();
    if i >= n {
        return 0;
    }
    let c = b[i];
    if (0x09 <= c && c <= 0x0d) || c == 0x20 {
        return 1;
    }
    if c == 0xc2 && i + 1 < n && (b[i + 1] == 0x85 || b[i + 1] == 0xa0) {
        return 2;
    }
    if n - i > 2 {
        let c1 = b[i + 1];
        let c2 = b[i + 2];
        if (c == 0xe1 && c1 == 0x9a && c2 == 0x80) || (c == 0xe2 && c1 == 0x80 && ((0x80 <= c2
            && c2 <= 0x8a) || c2 == 0xa8 || c2 == 0xa9 || c2 == 0xaf)) || (c == 0xe2 && c1 == 0x81
            && c2 == 0x9f) || (c == 0xe3 && c1 == 0x80 && c2 == 0x80) {
            return 3;
        }
    }
    0
}

/// A whitespace encoding is a whole character: it starts and ends on character boundaries.
pub proof fn lemma_ws_boundary(b: Seq<u8>, i: int)
    requires
        valid_utf8(b),
        splittable(b, i),
        ws_width(b, i) > 0,
    ensures
        splittable(b, i + ws_width(b, i)),
{
    lemma_next_boundary(b, i);
}

/// `s` with leading whitespace characters removed (what `str::trim_start` keeps).
pub open spec fn trim_start(s: Seq<u8>) -> Seq<u8>
    decreases s.len(),
{
    if ws_width(s, 0) > 0 {
        trim_start(s.subrange(ws_width(s, 0), s.len() as int))
    } else {
        s
    }
}

/// Number of leading bytes that `trim_start` removes.
pub open spec fn trim_start_len(s: Seq<u8>) -> int
    decreases s.len(),
{
    if ws_width(s, 0) > 0 {
        ws_width(s, 0) + trim_start_len(s.subrange(ws_width(s, 0), s.len() as int))
    } else {
        0
    }
}

pub proof fn lemma_trim_start_len(s: Seq<u8>, k: int)
    requires
        0 <= k <= s.len(),
    ensures
        0 <= trim_start_len(s.subrange(k, s.len() as int)) <= s.len() - k,
        trim_start(s.subrange(k, s.len() as int)) == s.subrange(
            k + trim_start_len(s.subrange(k, s.len() as int)),
            s.len() as int,
        ),
    decreases s.len() - k,
{
    let t = s.subrange(k, s.len() as int);
    let w = ws_width(t, 0);
    if w > 0 {
        assert(t.subrange(w, t.len() as int) =~= s.subrange(k + w, s.len() as int));
        lemma_trim_start_len(s, k + w);
    } else {
        assert(t =~= s.subrange(k + 0, s.len() as int));
    }
}

/// `str::trim_start`: removes leading whitespace characters.
pub fn trim_start_str<'a>(s: &'a str) -> (res: &'a str)
    ensures
        res.spec_bytes() == trim_start(s.spec_bytes()),
{
    let b = s.as_bytes();
    let n = b.len();
    let mut i: usize = 0;
    proof {
        lemma_trim_start_len(b@, 0);
        assert(b@.subrange(0, n as int) =~= b@);
    }
    while i < n
        invariant
            b@ == s.spec_bytes(),
            n == b@.len(),
            0 <= i <= n,
            splittable(b@, i as int),
            trim_start(b@) == trim_start(b@.subrange(i as int, n as int)),
        ensures
            ws_width(b@, i as int) == 0,
        decreases n - i,
    {
        let w = ws_width_at(b, i);
        proof {
            let t = b@.subrange(i as int, n as int);
            assert(ws_width(t, 0) == ws_width(b@, i as int));
        }
        if w == 0 {
            break;
        }
        proof {
            lemma_ws_boundary(b@, i as int);
            let t = b@.subrange(i as int, n as int);
            assert(t.subrange(w as int, t.len() as int) =~= b@.subrange(i + w, n as int));
        }
        i = i + w;
    }
    proof {
        let t = b@.subrange(i as int, n as int);
        assert(ws_width(t, 0) == ws_width(b@, i as int));
        assert(trim_start(t) == t);
    }
    str_skip(s, i)
}

/// Byte-wise equality of two strings, which is equality of their characters.
pub fn str_eq(a: &str, b: &str) -> (res: bool)
    ensures
        res == (a.spec_bytes() == b.spec_bytes()),
        res == (a@ == b@),
{
    proof {
        encode_utf8_decode_utf8(a@);
        encode_utf8_decode_utf8(b@);
    }
    let x = a.as_bytes();
    let y = b.as_bytes();
    if x.len() != y.len() {
        return false;
    }
    let mut i: usize = 0;
    while i < x.len()
        invariant
            x@ == a.spec_bytes(),
            y@ == b.spec_bytes(),
            x@.len() == y@.len(),
            0 <= i <= x@.len(),
            forall|j: int| 0 <= j < i ==> x@[j] == y@[j],
        decreases x@.len() - i,
    {
        if x[i] != y[i] {
            return false;
        }
        i = i + 1;
    }
    assert(x@ =~= y@);
    true
}

} // verus!

verus! {

/// True when every byte of `b` is an ASCII decimal digit.
pub open spec fn all_digits(b: Seq<u8>) -> bool {
    forall|i: int| 0 <= i < b.len() ==> 0x30 <= #[trigger] b[i] <= 0x39
}

/// The number written in decimal by the ASCII digits `b` (0 for no digits).
pub open spec fn digits_value(b: Seq<u8>) -> nat
    decreases b.len(),
{
    if b.len() == 0 {
        0
    } else {
        digits_value(b.drop_last()) * 10 + (b.last() - 0x30) as nat
    }
}

/// What `str::parse` gives for an unsigned integer type, before the range check: an optional
/// `+` followed by at least one ASCII digit.
pub open spec fn spec_parse_unsigned(b: Seq<u8>) -> Option<nat> {
    let d = if b.len() > 0 && b[0] == 0x2b {
        b.subrange(1, b.len() as int)
    } else {
        b
    };
    if d.len() > 0 && all_digits(d) {
        Some(digits_value(d))
    } else {
        None
    }
}

/// What `str::parse` gives for a signed integer type, before the range check: an optional `+`
/// or `-` followed by at least one ASCII digit.
pub open spec fn spec_parse_signed(b: Seq<u8>) -> Option<int> {
    if b.len() > 0 && b[0] == 0x2d {
        let d = b.subrange(1, b.len() as int);
        if d.len() > 0 && all_digits(d) {
            Some(-digits_value(d))
        } else {
            None
        }
    } else {
        match spec_parse_unsigned(b) {
            Some(v) => Some(v as int),
            None => None,
        }
    }
}

/// `str::parse::<u64>`.
pub open spec fn spec_parse_u64(b: Seq<u8>) -> Option<u64> {
    match spec_parse_unsigned(b) {
        Some(v) => if v <= u64::MAX {
            Some(v as u64)
        } else {
            None
        },
        None => None,
    }
}

/// `str::parse::<i64>`.
pub open spec fn spec_parse_i64(b: Seq<u8>) -> Option<i64> {
    match spec_parse_signed(b) {
        Some(v) => if i64::MIN <= v <= i64::MAX {
            Some(v as i64)
        } else {
            None
        },
        None => None,
    }
}

proof fn lemma_digits_value_prefix(b: Seq<u8>, k: int)
    requires
        0 <= k <= b.len(),
        all_digits(b),
    ensures
        digits_value(b.subrange(0, k)) <= digits_value(b),
    decreases b.len() - k,
{
    if k < b.len() {
        lemma_digits_value_prefix(b, k + 1);
        let p = b.subrange(0, k + 1);
        assert(p.drop_last() =~= b.subrange(0, k));
    } else {
        assert(b.subrange(0, k) =~= b);
    }
}

/// Value of the digits `b[start..]`, or `None` when some byte is not a digit, there are no
/// digits, or the value exceeds `u64::MAX`.
fn parse_digits(b: &[u8], start: usize) -> (res: Option<u64>)
    requires
        start <= b@.len(),
    ensures
        ({
            let d = b@.subrange(start as int, b@.len() as int);
            match res {
                Some(v) => d.len() > 0 && all_digits(d) && v == digits_value(d),
                None => !(d.len() > 0 && all_digits(d) && digits_value(d) <= u64::MAX),
            }
        }),
{
    let n = b.len();
    if start >= n {
        return None;
    }
    let mut acc: u64 = 0;
    let mut i = start;
    let ghost d = b@.subrange(start as int, n as int);
    while i < n
        invariant
            start <= i <= n,
            n == b@.len(),
            d == b@.subrange(start as int, n as int),
            all_digits(b@.subrange(start as int, i as int)),
            acc == digits_value(b@.subrange(start as int, i as int)),
        decreases n - i,
    {
        let c = b[i];
        let ghost p = b@.subrange(start as int, i + 1);
        assert(p.drop_last() =~= b@.subrange(start as int, i as int));
        if c < 0x30 || c > 0x39 {
            proof {
                assert(d[i - start] == c);
            }
            return None;
        }
        let m = acc.checked_mul(10);
        let next = match m {
            Some(m) => m.checked_add((c - 0x30) as u64),
            None => None,
        };
        match next {
            Some(v) => {
                acc = v;
            },
            None => {
                proof {
                    if all_digits(d) {
                        lemma_digits_value_prefix(d, i + 1 - start);
                        assert(d.subrange(0, i + 1 - start) =~= p);
                    }
                }
                return None;
            },
        }
        i = i + 1;
    }
    assert(b@.subrange(start as int, i as int) =~= d);
    Some(acc)
}

/// `str::parse::<u64>` on the bytes of a string.
pub fn parse_u64(b: &[u8]) -> (res: Option<u64>)
    ensures
        res == spec_parse_u64(b@),
{
    let start: usize = if b.len() > 0 && b[0] == 0x2b {
        1
    } else {
        0
    };
    proof {
        assert(b@.subrange(0, b@.len() as int) =~= b@);
    }
    parse_digits(b, start)
}

/// `str::parse::<i64>` on the bytes of a string.
pub fn parse_i64(b: &[u8]) -> (res: Option<i64>)
    ensures
        res == spec_parse_i64(b@),
{
    if b.len() > 0 && b[0] == 0x2d {
        match parse_digits(b, 1) {
            Some(v) => {
                if v <= 0x8000_0000_0000_0000u64 {
                    if v == 0x8000_0000_0000_0000u64 {
                        Some(i64::MIN)
                    } else {
                        Some(-(v as i64))
                    }
                } else {
                    None
                }
            },
            None => None,
        }
    } else {
        match parse_u64(b) {
            Some(v) => {
                if v <= 0x7fff_ffff_ffff_ffffu64 {
                    Some(v as i64)
                } else {
                    None
                }
            },
            None => None,
        }
    }
}

} // verus!

verus! {

/// Number of bytes of the whitespace character whose UTF-8 encoding ends `s`, or 0 when it
/// does not end with one.
pub open spec fn ws_width_end(s: Seq<u8>) -> int {
    if ws_width(s, s.len() - 1) == 1 {
        1
    } else if ws_width(s, s.len() - 2) == 2 {
        2
    } else if ws_width(s, s.len() - 3) == 3 {
        3
    } else {
        0
    }
}

/// `s` with trailing whitespace characters removed (what `str::trim_end` keeps).
pub open spec fn trim_end(s: Seq<u8>) -> Seq<u8>
    decreases s.len(),
{
    if ws_width_end(s) > 0 {
        trim_end(s.subrange(0, s.len() - ws_width_end(s)))
    } else {
        s
    }
}

/// `s` with leading and trailing whitespace characters removed (what `str::trim` keeps).
pub open spec fn trim(s: Seq<u8>) -> Seq<u8> {
    trim_end(trim_start(s))
}

fn ws_width_end_of(b: &[u8], n: usize) -> (w: usize)
    requires
        n <= b@.len(),
    ensures
        w == ws_width_end(b@.subrange(0, n as int)),
{
    let sub = vstd::slice::slice_subrange(b, 0, n);
    if n >= 1 && ws_width_at(sub, n - 1) == 1 {
        return 1;
    }
    if n >= 2 && ws_width_at(sub, n - 2) == 2 {
        return 2;
    }
    if n >= 3 && ws_width_at(sub, n - 3) == 3 {
        return 3;
    }
    0
}

/// `str::trim_end`: removes trailing whitespace characters.
pub fn trim_end_str<'a>(s: &'a str) -> (res: &'a str)
    ensures
        res.spec_bytes() == trim_end(s.spec_bytes()),
{
    let b = s.as_bytes();
    let mut n = b.len();
    proof {
        assert(b@.subrange(0, n as int) =~= b@);
    }
    while n > 0
        invariant
            b@ == s.spec_bytes(),
            0 <= n <= b@.len(),
            splittable(b@, n as int),
            trim_end(b@) == trim_end(b@.subrange(0, n as int)),
        ensures
            ws_width_end(b@.subrange(0, n as int)) == 0,
        decreases n,
    {
        let w = ws_width_end_of(b, n);
        if w == 0 {
            break;
        }
        proof {
            let t = b@.subrange(0, n as int);
            assert(t.subrange(0, n - w) =~= b@.subrange(0, n - w));
            assert(ws_width(b@, n - w) == w as int);
        }
        n = n - w;
    }
    proof {
        assert(trim_end(b@.subrange(0, n as int)) == b@.subrange(0, n as int));
    }
    split_str(s, n).0
}

/// `str::trim`: removes leading and trailing whitespace characters.
pub fn trim_str<'a>(s: &'a str) -> (res: &'a str)
    ensures
        res.spec_bytes() == trim(s.spec_bytes()),
{
    trim_end_str(trim_start_str(s))
}

/// Position of the first byte `c` in `s` at or after `i`.
pub open spec fn find_byte(s: Seq<u8>, c: u8, i: int) -> Option<int>
    decreases s.len() - i,
{
    if i < 0 || i >= s.len() {
        None
    } else if s[i] == c {
        Some(i)
    } else {
        find_byte(s, c, i + 1)
    }
}

pub proof fn lemma_find_byte(s: Seq<u8>, c: u8, i: int)
    requires
        0 <= i,
    ensures
        find_byte(s, c, i) matches Some(j) ==> i <= j < s.len() && s[j] == c && forall|k: int|
            i <= k < j ==> s[k] != c,
        find_byte(s, c, i) is None ==> forall|k: int| i <= k < s.len() ==> s[k] != c,
    decreases s.len() - i,
{
    if i < s.len() && s[i] != c {
        lemma_find_byte(s, c, i + 1);
    }
}

/// The first position of byte `c` in `b` at or after `i`.
pub fn find_byte_from(b: &[u8], c: u8, i: usize) -> (res: Option<usize>)
    ensures
        res matches Some(j) ==> find_byte(b@, c, i as int) == Some(j as int) && j < b@.len(),
        res is None ==> find_byte(b@, c, i as int) is None,
{
    proof {
        lemma_find_byte(b@, c, i as int);
    }
    let mut j = i;
    while j < b.len()
        invariant
            i <= j,
            find_byte(b@, c, i as int) == find_byte(b@, c, j as int),
        decreases b@.len() - j,
    {
        if b[j] == c {
            return Some(j);
        }
        j = j + 1;
    }
    None
}

/// The parts of `s` separated by exactly two `.`s (the three parts `str::split('.')` gives
/// when it gives three).
pub open spec fn split3_dots(s: Seq<u8>) -> Option<(Seq<u8>, Seq<u8>, Seq<u8>)> {
    match find_byte(s, 0x2e, 0) {
        Some(i) => match find_byte(s, 0x2e, i + 1) {
            Some(j) => match find_byte(s, 0x2e, j + 1) {
                Some(_) => None,
                None => Some(
                    (s.subrange(0, i), s.subrange(i + 1, j), s.subrange(j + 1, s.len() as int)),
                ),
            },
            None => None,
        },
        None => None,
    }
}

/// Splits `s` into exactly three parts at `.`s.
pub fn split3_dots_str<'a>(s: &'a str) -> (res: Option<(&'a str, &'a str, &'a str)>)
    ensures
        match split3_dots(s.spec_bytes()) {
            Some((x, y, z)) => res matches Some((a, b, c)) && a.spec_bytes() == x
                && b.spec_bytes() == y && c.spec_bytes() == z,
            None => res is None,
        },
{
    let b = s.as_bytes();
    let n = b.len();
    proof {
        lemma_find_byte(b@, 0x2e, 0);
    }
    let i = match find_byte_from(b, 0x2e, 0) {
        Some(i) => i,
        None => {
            return None;
        },
    };
    proof {
        lemma_find_byte(b@, 0x2e, i + 1);
    }
    let j = match find_byte_from(b, 0x2e, i + 1) {
        Some(j) => j,
        None => {
            return None;
        },
    };
    proof {
        lemma_find_byte(b@, 0x2e, j + 1);
    }
    if find_byte_from(b, 0x2e, j + 1).is_some() {
        return None;
    }
    proof {
        lemma_after_ascii(b@, i as int);
        lemma_after_ascii(b@, j as int);
    }
    let (first, rest) = split_str(s, i);
    let rest = str_skip(rest, 1);
    proof {
        assert(rest.spec_bytes() =~= b@.subrange(i + 1, b@.len() as int));
        assert(rest.spec_bytes()[j - i - 1] == b@[j as int]);
    }
    let (second, third) = split_str(rest, j - i - 1);
    proof {
        assert(third.spec_bytes()[0] == b@[j as int]);
        lemma_after_ascii(third.spec_bytes(), 0);
    }
    let third = str_skip(third, 1);
    proof {
        assert(second.spec_bytes() =~= b@.subrange(i + 1, j as int));
        assert(third.spec_bytes() =~= b@.subrange(j + 1, b@.len() as int));
    }
    Some((first, second, third))
}

} // verus!

verus! {

/// `str::parse` for an unsigned integer type whose largest value is `max`.
pub open spec fn spec_parse_uint_max(b: Seq<u8>, max: nat) -> Option<nat> {
    match spec_parse_unsigned(b) {
        Some(v) => if v <= max {
            Some(v)
        } else {
            None
        },
        None => None,
    }
}

/// `str::parse` for an unsigned integer type whose largest value is `max`, on a string's bytes.
pub fn parse_uint_max(b: &[u8], max: u64) -> (res: Option<u64>)
    ensures
        match spec_parse_uint_max(b@, max as nat) {
            Some(v) => res == Some(v as u64),
            None => res is None,
        },
{
    match parse_u64(b) {
        Some(v) => if v <= max {
            Some(v)
        } else {
            None
        },
        None => None,
    }
}

} // verus!

verus! {

/// Decimal digit `d` (below 10).
pub open spec fn digit_char(d: nat) -> char {
    ((d + 0x30) as u8) as char
}

/// `n` written in decimal, without leading zeros.
pub open spec fn decimal(n: nat) -> Seq<char>
    decreases n,
{
    if n < 10 {
        seq![digit_char(n)]
    } else {
        decimal(n / 10) + seq![digit_char(n % 10)]
    }
}

fn digit_str(d: u64) -> (res: &'static str)
    requires
        d < 10,
    ensures
        res@ == seq![digit_char(d as nat)],
{
    let r = match d {
        0 => "0",
        1 => "1",
        2 => "2",
        3 => "3",
        4 => "4",
        5 => "5",
        6 => "6",
        7 => "7",
        8 => "8",
        _ => "9",
    };
    proof {
        reveal_strlit("0");
        reveal_strlit("1");
        reveal_strlit("2");
        reveal_strlit("3");
        reveal_strlit("4");
        reveal_strlit("5");
        reveal_strlit("6");
        reveal_strlit("7");
        reveal_strlit("8");
        reveal_strlit("9");
    }
    r
}

/// `n` written in decimal.
pub fn decimal_string(n: u64) -> (res: String)
    ensures
        res@ == decimal(n as nat),
    decreases n,
{
    if n < 10 {
        String::from_str(digit_str(n))
    } else {
        let mut s = decimal_string(n / 10);
        s.append(digit_str(n % 10));
        s
    }
}

/// `a` followed by `b`.
pub fn concat_str(a: &str, b: &str) -> (res: String)
    ensures
        res@ == a@ + b@,
{
    let mut s = String::from_str(a);
    s.append(b);
    s
}

} // verus!

verus! {

/// The bytes `a..b` of `s`, which must both fall between characters.
pub fn str_range<'a>(s: &'a str, a: usize, b: usize) -> (res: &'a str)
    requires
        a <= b,
        splittable(s.spec_bytes(), a as int),
        splittable(s.spec_bytes(), b as int),
    ensures
        res.spec_bytes() == s.spec_bytes().subrange(a as int, b as int),
{
    let (head, _) = split_str(s, b);
    proof {
        let hb = head.spec_bytes();
        assert(hb =~= s.spec_bytes().subrange(0, b as int));
        if (a as int) < hb.len() {
            assert(hb[a as int] == s.spec_bytes()[a as int]);
        }
    }
    let r = str_skip(head, a);
    proof {
        assert(r.spec_bytes() =~= s.spec_bytes().subrange(a as int, b as int));
    }
    r
}

/// After a run of ASCII bytes that starts on a character boundary, the next position is on
/// one too.
pub proof fn lemma_ascii_run(s: Seq<u8>, a: int, e: int)
    requires
        valid_utf8(s),
        splittable(s, a),
        a <= e <= s.len(),
        forall|j: int| a <= j < e ==> s[j] < 0x80,
    ensures
        splittable(s, e),
    decreases e - a,
{
    if a < e {
        lemma_after_ascii(s, a);
        lemma_ascii_run(s, a + 1, e);
    }
}

} // verus!

verus! {

/// `s` split at its first byte `c` (an ASCII byte): the text before it and the text after it.
pub fn split_at_byte<'a>(s: &'a str, c: u8) -> (res: Option<(&'a str, &'a str)>)
    requires
        c < 0x80,
    ensures
        match find_byte(s.spec_bytes(), c, 0) {
            None => res is None,
            Some(i) => res matches Some((a, b)) && a.spec_bytes() == s.spec_bytes().subrange(0, i)
                && b.spec_bytes() == s.spec_bytes().subrange(i + 1, s.spec_bytes().len() as int),
        },
{
    let b = s.as_bytes();
    let n = b.len();
    proof {
        lemma_find_byte(b@, c, 0);
    }
    match find_byte_from(b, c, 0) {
        None => None,
        Some(i) => {
            assert(i < n);
            proof {
                lemma_after_ascii(b@, i as int);
            }
            let (head, _) = split_str(s, i);
            let tail = str_skip(s, i + 1);
            Some((head, tail))
        },
    }
}

} // verus!

verus! {

/// The UTF-8 bytes of characters joined are the bytes of each joined.
pub proof fn lemma_encode_concat(a: Seq<char>, b: Seq<char>)
    ensures
        encode_utf8(a + b) == encode_utf8(a) + encode_utf8(b),
    decreases a.len(),
{
    if a.len() == 0 {
        assert(a + b =~= b);
    } else {
        assert((a + b).drop_first() =~= a.drop_first() + b);
        lemma_encode_concat(a.drop_first(), b);
    }
}

/// An ASCII character is encoded as its own byte.
pub proof fn lemma_encode_ascii(c: char)
    requires
        (c as u32) < 0x80,
    ensures
        encode_utf8(seq![c]) == seq![(c as u32) as u8],
{
    assert(seq![c].drop_first() =~= Seq::<char>::empty());
    let v = c as u32;
    assert(v < 0x80 ==> (v & 0x7F) as u8 == v as u8) by (bit_vector);
    assert(encode_utf8(Seq::<char>::empty()) == Seq::<u8>::empty());
    assert(seq![c][0] == c);
    assert(encode_scalar(v) == seq![v as u8]);
    assert(encode_utf8(seq![c]) == encode_scalar(v) + encode_utf8(Seq::<char>::empty()));
    assert(encode_utf8(seq![c]) =~= seq![v as u8]);
}

/// The bytes of `n` in decimal are ASCII digits whose value is `n`.
pub proof fn lemma_decimal_bytes(n: nat)
    ensures
        encode_utf8(decimal(n)).len() >= 1,
        all_digits(encode_utf8(decimal(n))),
        digits_value(encode_utf8(decimal(n))) == n,
    decreases n,
{
    if n < 10 {
        assert((digit_char(n) as u32) == n + 0x30);
        lemma_encode_ascii(digit_char(n));
        assert(encode_utf8(decimal(n)) == seq![((n + 0x30) as u8)]);
        assert(seq![((n + 0x30) as u8)].drop_last() =~= Seq::<u8>::empty());
        assert(digits_value(Seq::<u8>::empty()) == 0);
    } else {
        lemma_decimal_bytes(n / 10);
        assert((digit_char(n % 10) as u32) == n % 10 + 0x30);
        lemma_encode_ascii(digit_char(n % 10));
        lemma_encode_concat(decimal(n / 10), seq![digit_char(n % 10)]);
        let b = encode_utf8(decimal(n));
        let p = encode_utf8(decimal(n / 10));
        assert(b == p + seq![((n % 10 + 0x30) as u8)]);
        assert(b.drop_last() =~= p);
        assert(b.last() == ((n % 10 + 0x30) as u8));
        assert(digits_value(b) == digits_value(p) * 10 + (b.last() - 0x30) as nat);
        assert((n / 10) * 10 + n % 10 == n);
    }
}

/// `find_byte` from `i` finds `j` when `b[j]` is `c` and no byte from `i` up to `j` is.
pub proof fn lemma_find_byte_at(s: Seq<u8>, c: u8, i: int, j: int)
    requires
        0 <= i <= j < s.len(),
        s[j] == c,
        forall|k: int| i <= k < j ==> s[k] != c,
    ensures
        find_byte(s, c, i) == Some(j),
    decreases j - i,
{
    if i < j {
        lemma_find_byte_at(s, c, i + 1, j);
    }
}

/// `find_byte` from `i` finds nothing when no byte from `i` on is `c`.
pub proof fn lemma_find_byte_none(s: Seq<u8>, c: u8, i: int)
    requires
        0 <= i,
        forall|k: int| i <= k < s.len() ==> s[k] != c,
    ensures
        find_byte(s, c, i) is None,
    decreases s.len() - i,
{
    if i < s.len() {
        lemma_find_byte_none(s, c, i + 1);
    }
}

/// Text that starts and ends with an ASCII digit has nothing to trim.
pub proof fn lemma_trim_digits(s: Seq<u8>)
    requires
        s.len() >= 1,
        0x30 <= s[0] <= 0x39,
        0x30 <= s[s.len() - 1] <= 0x39,
    ensures
        trim(s) == s,
{
    assert(ws_width(s, 0) == 0);
    assert(trim_start(s) == s);
    assert(ws_width(s, s.len() - 1) == 0);
    assert(ws_width_end(s) == 0);
}

} // verus!
