//! Which texts read as decimal numbers: the grammar that the standard library documents for
//! reading a floating-point number from a string (`Sign? ('inf' | 'infinity' | 'nan' |
//! Number)`, with `Number` one of `Digit+`, `Digit+ '.' Digit*`, `Digit* '.' Digit+`, each
//! with an optional `'e' Sign? Digit+`, all after lower-casing). Only the question whether a
//! text reads is answered here; the number itself is left to callers outside the library.
use vstd::prelude::*;
use vstd::string::StringSliceAdditionalSpecFns;

verus! {

/// `c` is a decimal digit.
pub open spec fn is_digit(c: u8) -> bool {
    0x30 <= c <= 0x39
}

/// `c` is `+` or `-`.
pub open spec fn is_sign(c: u8) -> bool {
    c == 0x2b || c == 0x2d
}

/// `c` in lower case, for ASCII letters.
pub open spec fn lower(c: u8) -> u8 {
    if 0x41 <= c <= 0x5a {
        (c + 32) as u8
    } else {
        c
    }
}

/// Every byte of `s` is a digit.
pub open spec fn digits(s: Seq<u8>) -> bool {
    forall|i: int| 0 <= i < s.len() ==> is_digit(#[trigger] s[i])
}

/// `s`, lower-cased, is the word `w`.
pub open spec fn word_is(s: Seq<u8>, w: Seq<u8>) -> bool {
    s.len() == w.len() && forall|i: int| 0 <= i < s.len() ==> lower(#[trigger] s[i]) == w[i]
}

/// `Digit+`, `Digit+ '.' Digit*` or `Digit* '.' Digit+`.
pub open spec fn mantissa(m: Seq<u8>) -> bool {
    (m.len() > 0 && digits(m)) || (m.len() > 1 && exists|d: int|
        0 <= d < m.len() && #[trigger] m[d] == 0x2e && digits(m.subrange(0, d)) && digits(
            m.subrange(d + 1, m.len() as int),
        ))
}

/// What follows the `e` of an exponent: `Sign? Digit+`.
pub open spec fn exponent(x: Seq<u8>) -> bool {
    let y = if x.len() > 0 && is_sign(x[0]) {
        x.subrange(1, x.len() as int)
    } else {
        x
    };
    y.len() > 0 && digits(y)
}

/// A mantissa, with or without an exponent.
pub open spec fn number(t: Seq<u8>) -> bool {
    mantissa(t) || exists|k: int|
        0 <= k < t.len() && lower(#[trigger] t[k]) == 0x65 && mantissa(t.subrange(0, k))
            && exponent(t.subrange(k + 1, t.len() as int))
}

/// `s` without a leading sign.
pub open spec fn unsigned_part(s: Seq<u8>) -> Seq<u8> {
    if s.len() > 0 && is_sign(s[0]) {
        s.subrange(1, s.len() as int)
    } else {
        s
    }
}

/// `s` reads as a floating-point number.
pub open spec fn float_text(s: Seq<u8>) -> bool {
    let t = unsigned_part(s);
    word_is(t, seq![0x69u8, 0x6e, 0x66]) || word_is(
        t,
        seq![0x69u8, 0x6e, 0x66, 0x69, 0x6e, 0x69, 0x74, 0x79],
    ) || word_is(t, seq![0x6eu8, 0x61, 0x6e]) || number(t)
}

/// Whether `b[lo..hi]` is all digits.
fn digits_in(b: &[u8], lo: usize, hi: usize) -> (res: bool)
    requires
        lo <= hi <= b@.len(),
    ensures
        res == digits(b@.subrange(lo as int, hi as int)),
{
    let mut i = lo;
    while i < hi
        invariant
            lo <= i <= hi <= b@.len(),
            digits(b@.subrange(lo as int, i as int)),
        decreases hi - i,
    {
        if !(0x30 <= b[i] && b[i] <= 0x39) {
            proof {
                assert(b@.subrange(lo as int, hi as int)[i - lo] == b@[i as int]);
            }
            return false;
        }
        proof {
            assert forall|j: int| 0 <= j < i + 1 - lo implies is_digit(
                #[trigger] b@.subrange(lo as int, i + 1)[j],
            ) by {
                if j < i - lo {
                    assert(b@.subrange(lo as int, i + 1)[j] == b@.subrange(lo as int, i as int)[j]);
                }
            }
        }
        i = i + 1;
    }
    true
}

/// The first position in `lo..hi` whose byte, lower-cased, is `c` (`hi` if none).
fn find_lower(b: &[u8], lo: usize, hi: usize, c: u8) -> (res: usize)
    requires
        lo <= hi <= b@.len(),
    ensures
        lo <= res <= hi,
        res < hi ==> lower(b@[res as int]) == c,
        forall|j: int| lo <= j < res ==> lower(#[trigger] b@[j]) != c,
{
    let mut i = lo;
    while i < hi
        invariant
            lo <= i <= hi <= b@.len(),
            forall|j: int| lo <= j < i ==> lower(#[trigger] b@[j]) != c,
        decreases hi - i,
    {
        let x = b[i];
        let l = if 0x41 <= x && x <= 0x5a {
            x + 32
        } else {
            x
        };
        if l == c {
            return i;
        }
        i = i + 1;
    }
    hi
}

/// Whether `b[lo..hi]` is a mantissa.
fn mantissa_in(b: &[u8], lo: usize, hi: usize) -> (res: bool)
    requires
        lo <= hi <= b@.len(),
    ensures
        res == mantissa(b@.subrange(lo as int, hi as int)),
{
    let ghost m = b@.subrange(lo as int, hi as int);
    let d = find_lower(b, lo, hi, 0x2e);
    if d == hi {
        proof {
            assert forall|k: int| 0 <= k < m.len() implies #[trigger] m[k] != 0x2e by {
                assert(m[k] == b@[lo + k]);
            }
        }
        hi > lo && digits_in(b, lo, hi)
    } else {
        let before = digits_in(b, lo, d);
        let after = digits_in(b, d + 1, hi);
        proof {
            let dd = d - lo;
            assert(m[dd] == 0x2e);
            assert(m.subrange(0, dd) =~= b@.subrange(lo as int, d as int));
            assert(m.subrange(dd + 1, m.len() as int) =~= b@.subrange(d + 1, hi as int));
            assert(!digits(m)) by {
                assert(!is_digit(m[dd]));
            }
            if exists|e: int|
                0 <= e < m.len() && #[trigger] m[e] == 0x2e && digits(m.subrange(0, e)) && digits(
                    m.subrange(e + 1, m.len() as int),
                ) {
                let e = choose|e: int|
                    0 <= e < m.len() && #[trigger] m[e] == 0x2e && digits(m.subrange(0, e))
                        && digits(m.subrange(e + 1, m.len() as int));
                if e < dd {
                    assert(m[e] == b@[lo + e]);
                    assert(lower(b@[lo + e]) != 0x2e);
                } else if e > dd {
                    assert(m.subrange(0, e)[dd] == m[dd]);
                }
            }
        }
        hi - lo > 1 && before && after
    }
}

/// Whether `b[lo..hi]` is what follows the `e` of an exponent.
fn exponent_in(b: &[u8], lo: usize, hi: usize) -> (res: bool)
    requires
        lo <= hi <= b@.len(),
    ensures
        res == exponent(b@.subrange(lo as int, hi as int)),
{
    let ghost x = b@.subrange(lo as int, hi as int);
    let start = if lo < hi && (b[lo] == 0x2b || b[lo] == 0x2d) {
        lo + 1
    } else {
        lo
    };
    proof {
        if lo < hi && is_sign(b@[lo as int]) {
            assert(x.subrange(1, x.len() as int) =~= b@.subrange(start as int, hi as int));
        } else {
            assert(x =~= b@.subrange(start as int, hi as int));
        }
    }
    start < hi && digits_in(b, start, hi)
}

/// Whether `b[lo..]`, lower-cased, is the word `w`.
fn word_in(b: &[u8], lo: usize, w: &[u8]) -> (res: bool)
    requires
        lo <= b@.len(),
    ensures
        res == word_is(b@.subrange(lo as int, b@.len() as int), w@),
{
    let ghost t = b@.subrange(lo as int, b@.len() as int);
    if b.len() - lo != w.len() {
        return false;
    }
    let mut i: usize = 0;
    while i < w.len()
        invariant
            lo <= b.len(),
            b.len() - lo == w.len(),
            w.len() == w@.len(),
            b.len() == b@.len(),
            t == b@.subrange(lo as int, b@.len() as int),
            0 <= i <= w@.len(),
            forall|j: int| 0 <= j < i ==> lower(#[trigger] t[j]) == w@[j],
        decreases w@.len() - i,
    {
        let x = b[lo + i];
        let l = if 0x41 <= x && x <= 0x5a {
            x + 32
        } else {
            x
        };
        proof {
            assert(t[i as int] == x);
        }
        if l != w[i] {
            return false;
        }
        i = i + 1;
    }
    true
}

/// A mantissa holds no `e`.
proof fn lemma_mantissa_no_e(m: Seq<u8>, k: int)
    requires
        mantissa(m),
        0 <= k < m.len(),
    ensures
        lower(m[k]) != 0x65,
{
    if !digits(m) {
        let d = choose|d: int|
            0 <= d < m.len() && #[trigger] m[d] == 0x2e && digits(m.subrange(0, d)) && digits(
                m.subrange(d + 1, m.len() as int),
            );
        if k < d {
            assert(m.subrange(0, d)[k] == m[k]);
        } else if k > d {
            assert(m.subrange(d + 1, m.len() as int)[k - d - 1] == m[k]);
        }
    }
}

/// A text with no `e` is a number when it is a mantissa.
proof fn lemma_number_without_e(t: Seq<u8>)
    requires
        forall|j: int| 0 <= j < t.len() ==> lower(#[trigger] t[j]) != 0x65,
    ensures
        number(t) == mantissa(t),
{
}

/// A text whose first `e` is at `k` is a number when a mantissa comes before it and an exponent
/// after it.
proof fn lemma_number_at_first_e(t: Seq<u8>, k: int)
    requires
        0 <= k < t.len(),
        lower(t[k]) == 0x65,
        forall|j: int| 0 <= j < k ==> lower(#[trigger] t[j]) != 0x65,
    ensures
        number(t) == (mantissa(t.subrange(0, k)) && exponent(t.subrange(k + 1, t.len() as int))),
{
    if mantissa(t) {
        lemma_mantissa_no_e(t, k);
    }
    if exists|j: int|
        0 <= j < t.len() && lower(#[trigger] t[j]) == 0x65 && mantissa(t.subrange(0, j))
            && exponent(t.subrange(j + 1, t.len() as int)) {
        let j = choose|j: int|
            0 <= j < t.len() && lower(#[trigger] t[j]) == 0x65 && mantissa(t.subrange(0, j))
                && exponent(t.subrange(j + 1, t.len() as int));
        if j > k {
            lemma_mantissa_no_e(t.subrange(0, j), k);
        }
    }
}

/// Whether `text` reads as a floating-point number.
pub fn is_float_text(text: &str) -> (res: bool)
    ensures
        res == float_text(text.spec_bytes()),
{
    let b = text.as_bytes();
    let n = b.len();
    let lo: usize = if n > 0 && (b[0] == 0x2b || b[0] == 0x2d) {
        1
    } else {
        0
    };
    let ghost t = unsigned_part(b@);
    proof {
        if lo == 0 {
            assert(t =~= b@.subrange(0, n as int));
        }
    }
    let inf: [u8; 3] = [0x69, 0x6e, 0x66];
    let infinity: [u8; 8] = [0x69, 0x6e, 0x66, 0x69, 0x6e, 0x69, 0x74, 0x79];
    let nan: [u8; 3] = [0x6e, 0x61, 0x6e];
    proof {
        assert(inf@ =~= seq![0x69u8, 0x6e, 0x66]);
        assert(infinity@ =~= seq![0x69u8, 0x6e, 0x66, 0x69, 0x6e, 0x69, 0x74, 0x79]);
        assert(nan@ =~= seq![0x6eu8, 0x61, 0x6e]);
    }
    if word_in(b, lo, inf.as_slice()) || word_in(b, lo, infinity.as_slice()) || word_in(
        b,
        lo,
        nan.as_slice(),
    ) {
        return true;
    }
    let k = find_lower(b, lo, n, 0x65);
    if k == n {
        let r = mantissa_in(b, lo, n);
        proof {
            assert forall|j: int| 0 <= j < t.len() implies lower(#[trigger] t[j]) != 0x65 by {
                assert(t[j] == b@[lo + j]);
            }
            lemma_number_without_e(t);
        }
        return r;
    }
    let m = mantissa_in(b, lo, k);
    let e = exponent_in(b, k + 1, n);
    proof {
        let kk = k - lo;
        assert(t[kk] == b@[k as int]);
        assert(t.subrange(0, kk) =~= b@.subrange(lo as int, k as int));
        assert(t.subrange(kk + 1, t.len() as int) =~= b@.subrange(k + 1, n as int));
        assert forall|j: int| 0 <= j < kk implies lower(#[trigger] t[j]) != 0x65 by {
            assert(t[j] == b@[lo + j]);
        }
        lemma_number_at_first_e(t, kk);
    }
    m && e
}

} // verus!
