//! A loose parser for the text format of Paradox save and game files: objects of
//! whitespace-separated values and `key = value` pairs, nested with `{ }`.
use vstd::prelude::*;
use vstd::string::StringSliceAdditionalSpecFns;
use vstd::utf8::*;

use crate::eu4_date::EU4Date;
use crate::stellaris_date::StellarisDate;
use crate::text_util::{
    lemma_after_ascii, lemma_trim_start_len, parse_i64, spec_parse_i64, str_eq, str_skip,
    split_str, trim_start_len, trim_start_str, ws_width, ws_width_at,
};

verus! {

broadcast use vstd::string::group_string_axioms, vstd::utf8::encode_utf8_valid_utf8;

/// The parsed shape of a value: a scalar's text (as UTF-8 bytes) or the items of an object.
pub enum ValueView {
    Scalar(Seq<u8>),
    Object(Seq<ItemView>),
}

/// The parsed shape of an object item: a key-value pair or a bare value.
pub enum ItemView {
    KV(Seq<u8>, ValueView),
    Value(ValueView),
}

/// `{`
pub open spec fn OPEN() -> u8 {
    0x7b
}

/// `}`
pub open spec fn CLOSE() -> u8 {
    0x7d
}

/// `=`
pub open spec fn EQUAL() -> u8 {
    0x3d
}

/// `"`
pub open spec fn QUOTE() -> u8 {
    0x22
}

/// A character that ends an unquoted scalar: whitespace, `{`, `}` or `=`.
pub open spec fn is_delim_at(s: Seq<u8>, i: int) -> bool {
    0 <= i < s.len() && (ws_width(s, i) > 0 || s[i] == OPEN() || s[i] == CLOSE() || s[i]
        == EQUAL())
}

/// Position of the first delimiter at or after `i`, or the length when there is none.
pub open spec fn scalar_end(s: Seq<u8>, i: int) -> int
    decreases s.len() - i,
{
    if i >= s.len() {
        s.len() as int
    } else if is_delim_at(s, i) {
        i
    } else {
        scalar_end(s, i + 1)
    }
}

/// Position of the first `"` at or after `i`.
pub open spec fn quote_end(s: Seq<u8>, i: int) -> Option<int>
    decreases s.len() - i,
{
    if i >= s.len() {
        None
    } else if s[i] == QUOTE() {
        Some(i)
    } else {
        quote_end(s, i + 1)
    }
}

/// Reading one value from the start of `s`: the number of bytes it takes and what it is.
pub open spec fn spec_value_take(s: Seq<u8>) -> Option<(int, ValueView)>
    decreases s.len(), 0int,
{
    if s.len() == 0 || s[0] == CLOSE() || s[0] == EQUAL() {
        None
    } else if s[0] == OPEN() {
        match spec_object_inner(s.subrange(1, s.len() as int)) {
            Some((n, items)) => Some((n + 1, ValueView::Object(items))),
            None => None,
        }
    } else if s[0] == QUOTE() {
        match quote_end(s, 1) {
            Some(j) => Some((j + 1, ValueView::Scalar(s.subrange(0, j + 1)))),
            None => None,
        }
    } else if ws_width(s, 0) > 0 {
        None
    } else {
        let j = scalar_end(s, 0);
        Some((j, ValueView::Scalar(s.subrange(0, j))))
    }
}

/// Reading one object item from the start of `s`. A scalar followed by `=` and a value is a
/// key-value pair, and so is a scalar directly followed by `{` (the `=` is sometimes left out).
pub open spec fn spec_item_take(s: Seq<u8>) -> Option<(int, ItemView)>
    decreases s.len(), 1int,
{
    match spec_value_take(s) {
        None => None,
        Some((n, ValueView::Scalar(key))) => {
            if !(0 < n <= s.len()) {
                None
            } else {
                let rest = s.subrange(n, s.len() as int);
                let direct = if rest.len() > 0 && rest[0] == OPEN() {
                    spec_object_inner(rest.subrange(1, rest.len() as int))
                } else {
                    None
                };
                match direct {
                    Some((m, items)) => Some((n + 1 + m, ItemView::KV(key, ValueView::Object(items)))),
                    None => {
                        let k = trim_start_len(rest);
                        if 0 <= k < rest.len() && rest[k] == EQUAL() {
                            let after = rest.subrange(k + 1, rest.len() as int);
                            let k2 = trim_start_len(after);
                            if 0 <= k2 <= after.len() {
                                match spec_value_take(after.subrange(k2, after.len() as int)) {
                                    Some((m, v)) => Some((n + k + 1 + k2 + m, ItemView::KV(key, v))),
                                    None => None,
                                }
                            } else {
                                None
                            }
                        } else {
                            Some((n, ItemView::Value(ValueView::Scalar(key))))
                        }
                    },
                }
            }
        },
        Some((n, v)) => Some((n, ItemView::Value(v))),
    }
}

/// Reading the items of an object up to and including its `}` (or to the end of `s`).
pub open spec fn spec_object_inner(s: Seq<u8>) -> Option<(int, Seq<ItemView>)>
    decreases s.len(), 2int,
{
    let k = trim_start_len(s);
    if !(0 <= k <= s.len()) {
        None
    } else {
        let t = s.subrange(k, s.len() as int);
        if t.len() == 0 {
            Some((s.len() as int, seq![]))
        } else if t[0] == CLOSE() {
            Some((k + 1, seq![]))
        } else {
            match spec_item_take(t) {
                None => None,
                Some((n, item)) => {
                    if 0 < n <= t.len() {
                        match spec_object_inner(t.subrange(n, t.len() as int)) {
                            Some((m, items)) => Some((k + n + m, seq![item] + items)),
                            None => None,
                        }
                    } else {
                        None
                    }
                },
            }
        }
    }
}

} // verus!

verus! {

/// A value read from the start of `s` takes at least one of its bytes.
pub proof fn lemma_value_bounds(s: Seq<u8>)
    ensures
        spec_value_take(s) matches Some((n, _)) ==> 0 < n <= s.len(),
    decreases s.len(), 0int,
{
    if s.len() > 0 {
        let tail = s.subrange(1, s.len() as int);
        if s[0] == OPEN() {
            lemma_object_bounds(tail);
        }
        lemma_quote_end(s, 1);
        lemma_scalar_end(s, 0);
    }
}

/// An item read from the start of `s` takes at least one of its bytes.
pub proof fn lemma_item_bounds(s: Seq<u8>)
    ensures
        spec_item_take(s) matches Some((n, _)) ==> 0 < n <= s.len(),
    decreases s.len(), 1int,
{
    lemma_value_bounds(s);
    if let Some((n, v)) = spec_value_take(s) {
        if 0 < n <= s.len() {
            let rest = s.subrange(n, s.len() as int);
            lemma_trim_start_len(rest, 0);
            assert(rest.subrange(0, rest.len() as int) =~= rest);
            if rest.len() > 0 {
                lemma_object_bounds(rest.subrange(1, rest.len() as int));
            }
            let k = trim_start_len(rest);
            if 0 <= k < rest.len() {
                let after = rest.subrange(k + 1, rest.len() as int);
                lemma_trim_start_len(after, 0);
                assert(after.subrange(0, after.len() as int) =~= after);
                let k2 = trim_start_len(after);
                lemma_value_bounds(after.subrange(k2, after.len() as int));
            }
        }
    }
}

/// The items of an object read from the start of `s` take at most all of it.
pub proof fn lemma_object_bounds(s: Seq<u8>)
    ensures
        spec_object_inner(s) matches Some((n, _)) ==> 0 <= n <= s.len(),
    decreases s.len(), 2int,
{
    lemma_trim_start_len(s, 0);
    assert(s.subrange(0, s.len() as int) =~= s);
    let k = trim_start_len(s);
    let t = s.subrange(k, s.len() as int);
    if t.len() > 0 && t[0] != CLOSE() {
        lemma_item_bounds(t);
        if let Some((n, item)) = spec_item_take(t) {
            if 0 < n <= t.len() {
                lemma_object_bounds(t.subrange(n, t.len() as int));
            }
        }
    }
}

pub(crate) proof fn lemma_quote_end(s: Seq<u8>, i: int)
    requires
        0 <= i,
    ensures
        quote_end(s, i) matches Some(j) ==> i <= j < s.len() && s[j] == QUOTE(),
        quote_end(s, i) matches Some(j) ==> forall|k: int| i <= k < j ==> s[k] != QUOTE(),
        quote_end(s, i) is None ==> forall|k: int| i <= k < s.len() ==> s[k] != QUOTE(),
    decreases s.len() - i,
{
    if i < s.len() && s[i] != QUOTE() {
        lemma_quote_end(s, i + 1);
    }
}

pub(crate) proof fn lemma_scalar_end(s: Seq<u8>, i: int)
    requires
        0 <= i,
    ensures
        i <= s.len() ==> i <= scalar_end(s, i) <= s.len(),
        scalar_end(s, i) < s.len() ==> is_delim_at(s, scalar_end(s, i)),
        forall|k: int| i <= k < scalar_end(s, i) ==> !is_delim_at(s, k),
    decreases s.len() - i,
{
    if i < s.len() && !is_delim_at(s, i) {
        lemma_scalar_end(s, i + 1);
    }
}

} // verus!

verus! {

/// A scalar exactly as written, quotes included.
#[derive(Debug, PartialEq, Eq, PartialOrd, Ord)]
pub struct RawPDXScalar<'a>(pub &'a str);

#[derive(Debug, PartialEq, Eq, PartialOrd, Ord)]
pub enum RawPDXObjectItem<'a> {
    KV(RawPDXScalar<'a>, RawPDXValue<'a>),
    Value(RawPDXValue<'a>),
}

#[derive(Debug, PartialEq, Eq, PartialOrd, Ord)]
pub struct RawPDXObject<'a>(pub Vec<RawPDXObjectItem<'a>>);

#[derive(Debug, PartialEq, Eq, PartialOrd, Ord)]
pub enum RawPDXValue<'a> {
    Scalar(RawPDXScalar<'a>),
    Object(RawPDXObject<'a>),
}

impl<'a> View for RawPDXScalar<'a> {
    type V = Seq<u8>;

    /// The scalar's text as UTF-8 bytes.
    open spec fn view(&self) -> Seq<u8> {
        self.0.spec_bytes()
    }
}

impl<'a> View for RawPDXValue<'a> {
    type V = ValueView;

    open spec fn view(&self) -> ValueView
        decreases self,
    {
        match self {
            RawPDXValue::Scalar(s) => ValueView::Scalar(s.0.spec_bytes()),
            RawPDXValue::Object(o) => ValueView::Object(items_view(o.0@)),
        }
    }
}

impl<'a> View for RawPDXObjectItem<'a> {
    type V = ItemView;

    open spec fn view(&self) -> ItemView
        decreases self,
    {
        match self {
            RawPDXObjectItem::KV(k, v) => ItemView::KV(k.0.spec_bytes(), v@),
            RawPDXObjectItem::Value(v) => ItemView::Value(v@),
        }
    }
}

/// The shapes of a sequence of items.
pub open spec fn items_view<'a>(items: Seq<RawPDXObjectItem<'a>>) -> Seq<ItemView>
    decreases items,
{
    if items.len() == 0 {
        seq![]
    } else {
        items_view(items.drop_last()).push(items.last()@)
    }
}

impl<'a> View for RawPDXObject<'a> {
    type V = Seq<ItemView>;

    open spec fn view(&self) -> Seq<ItemView> {
        items_view(self.0@)
    }
}

} // verus!

verus! {

/// `Some((k + m, prefix + items))` for a successful `r == Some((m, items))`.
pub open spec fn prepend_items(k: int, prefix: Seq<ItemView>, r: Option<(int, Seq<ItemView>)>) -> Option<
    (int, Seq<ItemView>),
> {
    match r {
        Some((m, items)) => Some((k + m, prefix + items)),
        None => None,
    }
}

/// The bytes of `s` from position `n` on.
pub open spec fn suffix(s: Seq<u8>, n: int) -> Seq<u8> {
    s.subrange(n, s.len() as int)
}

pub(crate) fn find_quote(b: &[u8], i: usize) -> (res: Option<usize>)
    ensures
        res == (match quote_end(b@, i as int) {
            Some(j) => Some(j as usize),
            None => None::<usize>,
        }),
        res matches Some(j) ==> i <= j < b@.len() && b@[j as int] == QUOTE() && quote_end(
            b@,
            i as int,
        ) == Some(j as int),
        res is None ==> quote_end(b@, i as int) is None,
{
    proof {
        lemma_quote_end(b@, i as int);
    }
    let mut j = i;
    while j < b.len()
        invariant
            i <= j,
            quote_end(b@, i as int) == quote_end(b@, j as int),
        decreases b@.len() - j,
    {
        if b[j] == 0x22 {
            return Some(j);
        }
        j = j + 1;
    }
    None
}

pub(crate) fn find_scalar_end(b: &[u8], i: usize) -> (res: usize)
    requires
        i <= b@.len(),
    ensures
        res == scalar_end(b@, i as int),
        i <= res <= b@.len(),
{
    proof {
        lemma_scalar_end(b@, i as int);
    }
    let mut j = i;
    while j < b.len()
        invariant
            i <= j <= b@.len(),
            scalar_end(b@, i as int) == scalar_end(b@, j as int),
        decreases b@.len() - j,
    {
        let c = b[j];
        if ws_width_at(b, j) > 0 || c == 0x7b || c == 0x7d || c == 0x3d {
            return j;
        }
        j = j + 1;
    }
    j
}

impl<'a> RawPDXValue<'a> {
    /// Reads one value from the start of `input` (which should start on the value's first
    /// character: no whitespace is skipped). Returns the rest of the input and the value.
    pub fn take(input: &'a str) -> (res: Option<(&'a str, RawPDXValue<'a>)>)
        ensures
            match spec_value_take(input.spec_bytes()) {
                None => res is None,
                Some((n, v)) => res matches Some((rest, val)) && rest.spec_bytes() == suffix(
                    input.spec_bytes(),
                    n,
                ) && val@ == v,
            },
        decreases input.spec_bytes().len(), 0int,
    {
        let b = input.as_bytes();
        let ghost s = b@;
        if b.len() == 0 {
            return None;
        }
        let c = b[0];
        if c == 0x7d || c == 0x3d {
            return None;
        }
        if c == 0x7b {
            proof {
                lemma_after_ascii(s, 0);
            }
            let inner = str_skip(input, 1);
            let r = RawPDXObject::parse_object_inner(inner);
            proof {
                assert(suffix(inner.spec_bytes(), 0) =~= inner.spec_bytes());
                lemma_object_bounds(inner.spec_bytes());
            }
            return match r {
                Some((rest, obj)) => {
                    proof {
                        let (m, items) = spec_object_inner(inner.spec_bytes()).unwrap();
                        assert(rest.spec_bytes() =~= suffix(s, m + 1));
                    }
                    Some((rest, RawPDXValue::Object(obj)))
                },
                None => None,
            };
        }
        if c == 0x22 {
            let q = find_quote(b, 1);
            return match q {
                Some(j) => {
                    proof {
                        lemma_after_ascii(s, j as int);
                    }
                    let (part, rest) = split_str(input, j + 1);
                    proof {
                        assert(quote_end(s, 1) == Some(j as int));
                        assert(spec_value_take(s) == Some(
                            ((j + 1) as int, ValueView::Scalar(s.subrange(0, j + 1))),
                        ));
                    }
                    Some((rest, RawPDXValue::Scalar(RawPDXScalar(part))))
                },
                None => None,
            };
        }
        if ws_width_at(b, 0) > 0 {
            return None;
        }
        let j = find_scalar_end(b, 0);
        proof {
            lemma_scalar_end(s, 0);
        }
        let (part, rest) = split_str(input, j);
        Some((rest, RawPDXValue::Scalar(RawPDXScalar(part))))
    }
}

impl<'a> RawPDXObjectItem<'a> {
    /// Reads one object item from the start of `input` (which should start on the item's first
    /// character: no whitespace is skipped). Returns the rest of the input and the item.
    #[verifier::rlimit(100)]
    #[verifier::spinoff_prover]
    pub fn take(input: &'a str) -> (res: Option<(&'a str, RawPDXObjectItem<'a>)>)
        ensures
            match spec_item_take(input.spec_bytes()) {
                None => res is None,
                Some((n, it)) => res matches Some((rest, item)) && rest.spec_bytes() == suffix(
                    input.spec_bytes(),
                    n,
                ) && item@ == it,
            },
        decreases input.spec_bytes().len(), 1int,
    {
        let ghost s = input.spec_bytes();
        proof {
            lemma_value_bounds(s);
        }
        match RawPDXValue::take(input) {
            None => None,
            Some((rest, RawPDXValue::Scalar(scalar))) => {
                let ghost n = spec_value_take(s).unwrap().0;
                let ghost rs = rest.spec_bytes();
                let rb = rest.as_bytes();
                if rb.len() > 0 && rb[0] == 0x7b {
                    proof {
                        lemma_after_ascii(rs, 0);
                    }
                    let inner = str_skip(rest, 1);
                    let r = RawPDXObject::parse_object_inner(inner);
                    if let Some((r2, obj)) = r {
                        proof {
                            let (m, items) = spec_object_inner(inner.spec_bytes()).unwrap();
                            lemma_object_bounds(inner.spec_bytes());
                            assert(r2.spec_bytes() =~= suffix(s, n + 1 + m));
                        }
                        return Some((r2, RawPDXObjectItem::KV(scalar, RawPDXValue::Object(obj))));
                    }
                }
                let t = trim_start_str(rest);
                proof {
                    lemma_trim_start_len(rs, 0);
                    assert(rs.subrange(0, rs.len() as int) =~= rs);
                }
                let tb = t.as_bytes();
                if tb.len() > 0 && tb[0] == 0x3d {
                    let ghost k = trim_start_len(rs);
                    proof {
                        assert(tb@[0] == rs[k]);
                        lemma_after_ascii(tb@, 0);
                    }
                    let after0 = str_skip(t, 1);
                    let after = trim_start_str(after0);
                    proof {
                        let a0 = after0.spec_bytes();
                        assert(a0 =~= rs.subrange(k + 1, rs.len() as int));
                        lemma_trim_start_len(a0, 0);
                        assert(a0.subrange(0, a0.len() as int) =~= a0);
                        lemma_value_bounds(after.spec_bytes());
                    }
                    match RawPDXValue::take(after) {
                        None => None,
                        Some((r3, v)) => {
                            proof {
                                let a0 = after0.spec_bytes();
                                let k2 = trim_start_len(a0);
                                let m = spec_value_take(after.spec_bytes()).unwrap().0;
                                assert(r3.spec_bytes() =~= suffix(s, n + k + 1 + k2 + m));
                            }
                            Some((r3, RawPDXObjectItem::KV(scalar, v)))
                        },
                    }
                } else {
                    proof {
                        let k = trim_start_len(rs);
                        if 0 <= k < rs.len() {
                            assert(tb@[0] == rs[k]);
                        }
                    }
                    Some((rest, RawPDXObjectItem::Value(RawPDXValue::Scalar(scalar))))
                }
            },
            Some((rest, v)) => Some((rest, RawPDXObjectItem::Value(v))),
        }
    }
}

impl<'a> RawPDXObject<'a> {
    /// Reads the items of an object whose `{` has already been read. Stops after the closing
    /// `}` (the rest then starts with the next character) or at the end of the input.
    #[verifier::rlimit(80)]
    #[verifier::spinoff_prover]
    pub fn parse_object_inner(input: &'a str) -> (res: Option<(&'a str, RawPDXObject<'a>)>)
        ensures
            match spec_object_inner(input.spec_bytes()) {
                None => res is None,
                Some((n, items)) => res matches Some((rest, obj)) && rest.spec_bytes() == suffix(
                    input.spec_bytes(),
                    n,
                ) && obj@ == items,
            },
        decreases input.spec_bytes().len(), 2int,
    {
        let ghost b = input.spec_bytes();
        let mut out: Vec<RawPDXObjectItem<'a>> = Vec::new();
        let mut rest: &'a str = input;
        let ghost mut consumed: int = 0;
        proof {
            assert(b.subrange(0, b.len() as int) =~= b);
            assert(prepend_items(0, seq![], spec_object_inner(b)) =~~= spec_object_inner(b));
        }
        loop
            invariant
                0 <= consumed <= b.len(),
                b == input.spec_bytes(),
                rest.spec_bytes() == suffix(b, consumed),
                spec_object_inner(b) == prepend_items(
                    consumed,
                    items_view(out@),
                    spec_object_inner(rest.spec_bytes()),
                ),
            decreases rest.spec_bytes().len(),
        {
            let ghost rb = rest.spec_bytes();
            let t = trim_start_str(rest);
            let ghost k = trim_start_len(rb);
            proof {
                lemma_trim_start_len(rb, 0);
                assert(rb.subrange(0, rb.len() as int) =~= rb);
            }
            let tb = t.as_bytes();
            if tb.len() == 0 {
                proof {
                    assert(items_view(out@) + seq![] =~= items_view(out@));
                    assert(t.spec_bytes() =~= suffix(b, b.len() as int));
                }
                return Some((t, RawPDXObject(out)));
            }
            if tb[0] == 0x7d {
                proof {
                    lemma_after_ascii(tb@, 0);
                    assert(items_view(out@) + seq![] =~= items_view(out@));
                }
                let r = str_skip(t, 1);
                proof {
                    assert(r.spec_bytes() =~= suffix(b, consumed + k + 1));
                }
                return Some((r, RawPDXObject(out)));
            }
            proof {
                lemma_item_bounds(tb@);
            }
            match RawPDXObjectItem::take(t) {
                None => {
                    return None;
                },
                Some((r, item)) => {
                    let ghost n = spec_item_take(tb@).unwrap().0;
                    let ghost old_out = out@;
                    out.push(item);
                    proof {
                        assert(out@.drop_last() =~= old_out);
                        assert(items_view(out@) == items_view(old_out).push(item@));
                        assert(r.spec_bytes() =~= suffix(b, consumed + k + n));
                        let inner = spec_object_inner(r.spec_bytes());
                        assert(r.spec_bytes() =~= tb@.subrange(n, tb@.len() as int));
                        if let Some((m, items)) = inner {
                            assert(items_view(old_out) + (seq![item@] + items) =~= items_view(
                                out@,
                            ) + items);
                        }
                        assert(prepend_items(
                            consumed,
                            items_view(old_out),
                            spec_object_inner(rb),
                        ) =~~= prepend_items(consumed + k + n, items_view(out@), inner));
                        consumed = consumed + k + n;
                    }
                    rest = r;
                },
            }
        }
    }
}

} // verus!

verus! {

/// A scalar's text without its surrounding quotes, if it has both.
pub open spec fn unquote(b: Seq<u8>) -> Seq<u8> {
    if b.len() >= 2 && b[0] == QUOTE() && b.last() == QUOTE() {
        b.subrange(1, b.len() - 1)
    } else {
        b
    }
}

/// `s` without its surrounding quotes, if it has both.
pub fn unquote_str<'a>(s: &'a str) -> (res: &'a str)
    ensures
        res.spec_bytes() == unquote(s.spec_bytes()),
{
    let b = s.as_bytes();
    let n = b.len();
    if n >= 2 && b[0] == 0x22 && b[n - 1] == 0x22 {
        proof {
            lemma_after_ascii(b@, 0);
        }
        let inner = str_skip(s, 1);
        let (mid, _) = split_str(inner, n - 2);
        proof {
            assert(inner.spec_bytes()[n - 2] == b@[n - 1]);
            assert(mid.spec_bytes() =~= b@.subrange(1, n - 1));
        }
        mid
    } else {
        s
    }
}

impl<'a> RawPDXScalar<'a> {
    /// The scalar read as an `i64`, as `str::parse` reads it.
    pub fn as_int(&self) -> (res: Option<i64>)
        ensures
            res == spec_parse_i64(self@),
    {
        parse_i64(self.0.as_bytes())
    }

    /// `yes` is true and `no` is false; anything else is not a boolean.
    pub fn as_bool(&self) -> (res: Option<bool>)
        ensures
            res == (if self.0@ == "yes"@ {
                Some(true)
            } else if self.0@ == "no"@ {
                Some(false)
            } else {
                None
            }),
    {
        if str_eq(self.0, "yes") {
            Some(true)
        } else if str_eq(self.0, "no") {
            Some(false)
        } else {
            None
        }
    }

    /// The scalar's text, without its surrounding quotes if it has both.
    pub fn as_string(&self) -> (res: String)
        ensures
            encode_utf8(res@) == unquote(self@),
    {
        let s = unquote_str(self.0);
        s.to_string()
    }
}

impl<'a> RawPDXValue<'a> {
    pub fn as_scalar<'b>(&'b self) -> (res: Option<&'b RawPDXScalar<'a>>)
        ensures
            match self {
                RawPDXValue::Scalar(s) => res == Some(s),
                RawPDXValue::Object(_) => res is None,
            },
    {
        if let RawPDXValue::Scalar(scalar) = self {
            Some(scalar)
        } else {
            None
        }
    }

    pub fn as_object<'b>(&'b self) -> (res: Option<&'b RawPDXObject<'a>>)
        ensures
            match self {
                RawPDXValue::Object(o) => res == Some(o),
                RawPDXValue::Scalar(_) => res is None,
            },
    {
        if let RawPDXValue::Object(object) = self {
            Some(object)
        } else {
            None
        }
    }
}

/// Which values a key lookup accepts.
pub enum Want {
    Any,
    Object,
    Scalar,
}

/// `item` is a key-value pair with key `key` whose value is of the wanted kind.
pub open spec fn kv_matches<'a>(item: RawPDXObjectItem<'a>, key: Seq<u8>, want: Want) -> bool {
    match item {
        RawPDXObjectItem::KV(k, v) => k@ == key && match want {
            Want::Any => true,
            Want::Object => v is Object,
            Want::Scalar => v is Scalar,
        },
        RawPDXObjectItem::Value(_) => false,
    }
}

/// Index of the first item at or after `i` that `kv_matches`.
pub open spec fn first_match<'a>(items: Seq<RawPDXObjectItem<'a>>, key: Seq<u8>, want: Want, i: int) -> Option<
    int,
>
    decreases items.len() - i,
{
    if i < 0 || i >= items.len() {
        None
    } else if kv_matches(items[i], key, want) {
        Some(i)
    } else {
        first_match(items, key, want, i + 1)
    }
}

/// The value of an item (meaningful for key-value pairs and bare values alike).
pub open spec fn item_value<'a>(item: RawPDXObjectItem<'a>) -> RawPDXValue<'a> {
    match item {
        RawPDXObjectItem::KV(_, v) => v,
        RawPDXObjectItem::Value(v) => v,
    }
}

/// The bare values of `items`, in order.
pub open spec fn values_of<'a>(items: Seq<RawPDXObjectItem<'a>>) -> Seq<RawPDXValue<'a>>
    decreases items.len(),
{
    if items.len() == 0 {
        seq![]
    } else {
        match items.last() {
            RawPDXObjectItem::Value(v) => values_of(items.drop_last()).push(v),
            RawPDXObjectItem::KV(_, _) => values_of(items.drop_last()),
        }
    }
}

/// The key-value pairs of `items`, in order.
pub open spec fn kvs_of<'a>(items: Seq<RawPDXObjectItem<'a>>) -> Seq<(RawPDXScalar<'a>, RawPDXValue<'a>)>
    decreases items.len(),
{
    if items.len() == 0 {
        seq![]
    } else {
        match items.last() {
            RawPDXObjectItem::KV(k, v) => kvs_of(items.drop_last()).push((k, v)),
            RawPDXObjectItem::Value(_) => kvs_of(items.drop_last()),
        }
    }
}

/// Every item is either a key-value pair or a value: together they are as many as the items.
pub proof fn lemma_kvs_and_values_count<'a>(items: Seq<RawPDXObjectItem<'a>>)
    ensures
        kvs_of(items).len() + values_of(items).len() == items.len(),
    decreases items.len(),
{
    if items.len() > 0 {
        lemma_kvs_and_values_count(items.drop_last());
    }
}

proof fn lemma_first_match(items: Seq<RawPDXObjectItem>, key: Seq<u8>, want: Want, i: int)
    requires
        0 <= i <= items.len(),
    ensures
        first_match(items, key, want, i) matches Some(j) ==> i <= j < items.len() && kv_matches(
            items[j],
            key,
            want,
        ) && forall|k: int| i <= k < j ==> !kv_matches(#[trigger] items[k], key, want),
        first_match(items, key, want, i) is None ==> forall|k: int|
            i <= k < items.len() ==> !kv_matches(#[trigger] items[k], key, want),
    decreases items.len() - i,
{
    if i < items.len() && !kv_matches(items[i], key, want) {
        lemma_first_match(items, key, want, i + 1);
    }
}

impl<'a> RawPDXObject<'a> {
    /// The first key-value pair with key `key` whose value is of the wanted kind.
    pub open spec fn spec_first(&self, key: Seq<u8>, want: Want) -> Option<RawPDXValue<'a>> {
        match first_match(self.0@, key, want, 0) {
            Some(i) => Some(item_value(self.0@[i])),
            None => None,
        }
    }

    /// Following a path of keys through the first object values found for each.
    pub open spec fn spec_object_at_path(&self, keys: Seq<Seq<u8>>) -> Option<RawPDXObject<'a>>
        decreases keys.len(),
    {
        if keys.len() == 0 {
            Some(*self)
        } else {
            match self.spec_first(keys[0], Want::Object) {
                Some(RawPDXValue::Object(o)) => o.spec_object_at_path(keys.drop_first()),
                _ => None,
            }
        }
    }

    fn find_kv<'b>(&'b self, key: &str, want: Want) -> (res: Option<&'b RawPDXValue<'a>>)
        ensures
            match self.spec_first(key.spec_bytes(), want) {
                None => res is None,
                Some(v) => res matches Some(r) && *r == v,
            },
    {
        proof {
            lemma_first_match(self.0@, key.spec_bytes(), want, 0);
        }
        let mut i: usize = 0;
        while i < self.0.len()
            invariant
                0 <= i <= self.0@.len(),
                first_match(self.0@, key.spec_bytes(), want, 0) == first_match(
                    self.0@,
                    key.spec_bytes(),
                    want,
                    i as int,
                ),
            decreases self.0@.len() - i,
        {
            match &self.0[i] {
                RawPDXObjectItem::KV(k, v) => {
                    let wanted = match want {
                        Want::Any => true,
                        Want::Object => matches!(v, RawPDXValue::Object(_)),
                        Want::Scalar => matches!(v, RawPDXValue::Scalar(_)),
                    };
                    if wanted && str_eq(k.0, key) {
                        return Some(v);
                    }
                },
                RawPDXObjectItem::Value(_) => {},
            }
            i = i + 1;
        }
        None
    }

    /// The bare values (items that are not key-value pairs), in order.
    pub fn iter_values<'b>(&'b self) -> (res: Vec<&'b RawPDXValue<'a>>)
        ensures
            res@.len() == values_of(self.0@).len(),
            forall|i: int| 0 <= i < res@.len() ==> *res@[i] == values_of(self.0@)[i],
    {
        let mut out: Vec<&'b RawPDXValue<'a>> = Vec::new();
        let mut i: usize = 0;
        while i < self.0.len()
            invariant
                0 <= i <= self.0@.len(),
                out@.len() == values_of(self.0@.take(i as int)).len(),
                forall|j: int|
                    0 <= j < out@.len() ==> *out@[j] == values_of(self.0@.take(i as int))[j],
            decreases self.0@.len() - i,
        {
            proof {
                assert(self.0@.take(i + 1).drop_last() =~= self.0@.take(i as int));
            }
            if let RawPDXObjectItem::Value(v) = &self.0[i] {
                out.push(v);
            }
            i = i + 1;
        }
        proof {
            assert(self.0@.take(i as int) =~= self.0@);
        }
        out
    }

    /// The key-value pairs, in order.
    #[allow(non_snake_case)]
    pub fn iter_all_KVs<'b>(&'b self) -> (res: Vec<(&'b RawPDXScalar<'a>, &'b RawPDXValue<'a>)>)
        ensures
            res@.len() == kvs_of(self.0@).len(),
            forall|i: int|
                0 <= i < res@.len() ==> *res@[i].0 == kvs_of(self.0@)[i].0 && *res@[i].1 == kvs_of(
                    self.0@,
                )[i].1,
    {
        let mut out: Vec<(&'b RawPDXScalar<'a>, &'b RawPDXValue<'a>)> = Vec::new();
        let mut i: usize = 0;
        while i < self.0.len()
            invariant
                0 <= i <= self.0@.len(),
                out@.len() == kvs_of(self.0@.take(i as int)).len(),
                forall|j: int|
                    0 <= j < out@.len() ==> *out@[j].0 == kvs_of(self.0@.take(i as int))[j].0
                        && *out@[j].1 == kvs_of(self.0@.take(i as int))[j].1,
            decreases self.0@.len() - i,
        {
            proof {
                assert(self.0@.take(i + 1).drop_last() =~= self.0@.take(i as int));
            }
            if let RawPDXObjectItem::KV(k, v) = &self.0[i] {
                out.push((k, v));
            }
            i = i + 1;
        }
        proof {
            assert(self.0@.take(i as int) =~= self.0@);
        }
        out
    }

    /// Gets the first value for the specified key.
    pub fn get_first<'b>(&'b self, key: &str) -> (res: Option<&'b RawPDXValue<'a>>)
        ensures
            match self.spec_first(key.spec_bytes(), Want::Any) {
                None => res is None,
                Some(v) => res matches Some(r) && *r == v,
            },
    {
        self.find_kv(key, Want::Any)
    }

    /// Gets the first object value for the specified key, passing over non-object values.
    pub fn get_first_obj<'b>(&'b self, key: &str) -> (res: Option<&'b RawPDXObject<'a>>)
        ensures
            match self.spec_first(key.spec_bytes(), Want::Object) {
                Some(RawPDXValue::Object(o)) => res matches Some(r) && *r == o,
                _ => res is None,
            },
    {
        match self.find_kv(key, Want::Object) {
            Some(RawPDXValue::Object(o)) => Some(o),
            _ => None,
        }
    }

    /// Gets the first scalar value for the specified key, passing over object values.
    pub fn get_first_scalar<'b>(&'b self, key: &str) -> (res: Option<&'b RawPDXScalar<'a>>)
        ensures
            match self.spec_first(key.spec_bytes(), Want::Scalar) {
                Some(RawPDXValue::Scalar(s)) => res matches Some(r) && *r == s,
                _ => res is None,
            },
    {
        proof {
            lemma_first_match(self.0@, key.spec_bytes(), Want::Scalar, 0);
        }
        match self.find_kv(key, Want::Scalar) {
            Some(RawPDXValue::Scalar(s)) => Some(s),
            _ => None,
        }
    }

    /// The first value for `key`, read as an `i64` if it is a scalar.
    pub fn get_first_as_int(&self, key: &str) -> (res: Option<i64>)
        ensures
            res == match self.spec_first(key.spec_bytes(), Want::Any) {
                Some(RawPDXValue::Scalar(s)) => spec_parse_i64(s@),
                _ => None,
            },
    {
        self.get_first(key)?.as_scalar()?.as_int()
    }

    /// The first value for `key`, read as a boolean (`yes`/`no`) if it is a scalar.
    pub fn get_first_as_bool(&self, key: &str) -> (res: Option<bool>)
        ensures
            res == match self.spec_first(key.spec_bytes(), Want::Any) {
                Some(RawPDXValue::Scalar(s)) => if s.0@ == "yes"@ {
                    Some(true)
                } else if s.0@ == "no"@ {
                    Some(false)
                } else {
                    None
                },
                _ => None,
            },
    {
        self.get_first(key)?.as_scalar()?.as_bool()
    }

    /// The first value for `key`, as text without surrounding quotes, if it is a scalar.
    pub fn get_first_as_string(&self, key: &str) -> (res: Option<String>)
        ensures
            match self.spec_first(key.spec_bytes(), Want::Any) {
                Some(RawPDXValue::Scalar(s)) => res matches Some(t) && encode_utf8(t@) == unquote(
                    s@,
                ),
                _ => res is None,
            },
    {
        Some(self.get_first(key)?.as_scalar()?.as_string())
    }
}

} // verus!

verus! {

/// The UTF-8 bytes of each key of a path.
pub open spec fn path_keys(path: Seq<&str>) -> Seq<Seq<u8>> {
    path.map_values(|k: &str| k.spec_bytes())
}

impl<'a> RawPDXObject<'a> {
    /// The object reached by following the first `N - 1` keys of `path`.
    fn walk_path<'b, const N: usize>(&'b self, path: &[&str; N]) -> (res: Option<&'b RawPDXObject<'a>>)
        requires
            N >= 1,
        ensures
            match self.spec_object_at_path(path_keys(path@).take(N - 1)) {
                None => res is None,
                Some(o) => res matches Some(r) && *r == o,
            },
    {
        let ghost keys = path_keys(path@).take(N - 1);
        let mut obj: &'b RawPDXObject<'a> = self;
        let mut i: usize = 0;
        proof {
            assert(keys.subrange(0, N - 1) =~= keys);
        }
        while i + 1 < N
            invariant
                N >= 1,
                0 <= i <= N - 1,
                keys == path_keys(path@).take(N - 1),
                self.spec_object_at_path(keys) == obj.spec_object_at_path(
                    keys.subrange(i as int, N - 1),
                ),
            decreases N - i,
        {
            let ghost sub = keys.subrange(i as int, N - 1);
            proof {
                assert(sub[0] == path[i as int].spec_bytes());
                assert(sub.drop_first() =~= keys.subrange(i + 1, N - 1));
            }
            match obj.get_first_obj(path[i]) {
                Some(o) => {
                    obj = o;
                },
                None => {
                    return None;
                },
            }
            i = i + 1;
        }
        proof {
            assert(keys.subrange(i as int, N - 1).len() == 0);
        }
        Some(obj)
    }

    /// The first value for the last key of `path`, in the object reached by following the
    /// first object value of each of the other keys in turn.
    pub fn get_first_at_path<'b, const N: usize>(&'b self, path: [&str; N]) -> (res: Option<
        &'b RawPDXValue<'a>,
    >)
        requires
            N >= 1,
        ensures
            match self.spec_object_at_path(path_keys(path@).take(N - 1)) {
                None => res is None,
                Some(o) => match o.spec_first(path@[N - 1].spec_bytes(), Want::Any) {
                    None => res is None,
                    Some(v) => res matches Some(r) && *r == v,
                },
            },
    {
        let obj = self.walk_path(&path)?;
        obj.get_first(path[N - 1])
    }

    /// As [`Self::get_first_at_path`], for a scalar value.
    pub fn get_first_scalar_at_path<'b, const N: usize>(&'b self, path: [&str; N]) -> (res: Option<
        &'b RawPDXScalar<'a>,
    >)
        requires
            N >= 1,
        ensures
            match self.spec_object_at_path(path_keys(path@).take(N - 1)) {
                None => res is None,
                Some(o) => match o.spec_first(path@[N - 1].spec_bytes(), Want::Scalar) {
                    Some(RawPDXValue::Scalar(s)) => res matches Some(r) && *r == s,
                    _ => res is None,
                },
            },
    {
        let obj = self.walk_path(&path)?;
        obj.get_first_scalar(path[N - 1])
    }

    /// As [`Self::get_first_at_path`], for an object value.
    pub fn get_first_object_at_path<'b, const N: usize>(&'b self, path: [&str; N]) -> (res: Option<
        &'b RawPDXObject<'a>,
    >)
        requires
            N >= 1,
        ensures
            match self.spec_object_at_path(path_keys(path@)) {
                None => res is None,
                Some(o) => res matches Some(r) && *r == o,
            },
    {
        proof {
            let keys = path_keys(path@);
            let head = keys.take(N - 1);
            lemma_path_split(*self, head, keys[N - 1]);
            assert(head.push(keys[N - 1]) =~= keys);
        }
        let obj = self.walk_path(&path)?;
        obj.get_first_obj(path[N - 1])
    }
}

/// Following a path and then one more key is following the longer path.
pub proof fn lemma_path_split<'a>(obj: RawPDXObject<'a>, keys: Seq<Seq<u8>>, last: Seq<u8>)
    ensures
        obj.spec_object_at_path(keys.push(last)) == match obj.spec_object_at_path(keys) {
            Some(o) => match o.spec_first(last, Want::Object) {
                Some(RawPDXValue::Object(p)) => Some(p),
                _ => None,
            },
            None => None,
        },
    decreases keys.len(),
{
    if keys.len() == 0 {
        assert(keys.push(last).drop_first() =~= seq![]);
        let e: Seq<Seq<u8>> = seq![];
        match obj.spec_first(last, Want::Object) {
            Some(RawPDXValue::Object(p)) => {
                assert(p.spec_object_at_path(e) == Some(p));
            },
            _ => {},
        }
    } else {
        assert(keys.push(last).drop_first() =~= keys.drop_first().push(last));
        match obj.spec_first(keys[0], Want::Object) {
            Some(RawPDXValue::Object(o)) => {
                lemma_path_split(o, keys.drop_first(), last);
            },
            _ => {},
        }
    }
}

} // verus!

verus! {

/// A date type that can be read from a scalar's text.
pub trait ScalarDate: Sized {
    /// The date a text reads as, if any.
    spec fn spec_from_text(b: Seq<u8>) -> Option<Self>;

    fn from_text(text: &str) -> (res: Option<Self>)
        ensures
            res == Self::spec_from_text(text.spec_bytes()),
    ;
}

impl ScalarDate for EU4Date {
    open spec fn spec_from_text(b: Seq<u8>) -> Option<EU4Date> {
        match EU4Date::spec_parse(b) {
            Ok(d) => Some(d),
            Err(_) => None,
        }
    }

    fn from_text(text: &str) -> (res: Option<EU4Date>) {
        match EU4Date::parse_text(text) {
            Ok(d) => Some(d),
            Err(_) => None,
        }
    }
}

impl ScalarDate for StellarisDate {
    open spec fn spec_from_text(b: Seq<u8>) -> Option<StellarisDate> {
        match StellarisDate::spec_parse(b) {
            Ok(d) => Some(d),
            Err(_) => None,
        }
    }

    fn from_text(text: &str) -> (res: Option<StellarisDate>) {
        match StellarisDate::parse_text(text) {
            Ok(d) => Some(d),
            Err(_) => None,
        }
    }
}

impl<'a> RawPDXScalar<'a> {
    /// The scalar read as a date of type `D`.
    pub fn as_date<D: ScalarDate>(&self) -> (res: Option<D>)
        ensures
            res == D::spec_from_text(self@),
    {
        D::from_text(self.0)
    }
}

impl<'a> RawPDXObject<'a> {
    /// The first value for `key`, read as a date of type `D` if it is a scalar.
    pub fn get_first_as_date<D: ScalarDate>(&self, key: &str) -> (res: Option<D>)
        ensures
            res == match self.spec_first(key.spec_bytes(), Want::Any) {
                Some(RawPDXValue::Scalar(s)) => D::spec_from_text(s@),
                _ => None,
            },
    {
        self.get_first(key)?.as_scalar()?.as_date()
    }
}

} // verus!
