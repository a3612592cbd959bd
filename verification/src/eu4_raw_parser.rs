//! The loose text parser for EU4 saves: the same grammar as [`crate::raw_parser`], with dates
//! read as [`EU4Date`]s.
use vstd::prelude::*;
use vstd::string::StringSliceAdditionalSpecFns;
use vstd::utf8::*;

use crate::eu4_date::EU4Date;
use crate::raw_parser::{
    ItemView, ValueView, Want, find_quote, find_scalar_end, lemma_item_bounds, lemma_object_bounds,
    lemma_scalar_end, lemma_value_bounds, path_keys, prepend_items, quote_end, spec_item_take,
    spec_object_inner, spec_value_take, suffix, unquote, unquote_str,
};
use crate::text_util::{
    lemma_after_ascii, lemma_trim_start_len, parse_i64, spec_parse_i64, split_str, str_eq,
    str_skip, trim_start_len, trim_start_str, ws_width_at,
};

verus! {

broadcast use vstd::string::group_string_axioms, vstd::utf8::encode_utf8_valid_utf8;

} // verus!

verus! {

/// A scalar exactly as written, quotes included.
#[derive(Debug, PartialEq, Eq, PartialOrd, Ord)]
pub struct RawEU4Scalar<'a>(pub &'a str);

#[derive(Debug, PartialEq, Eq, PartialOrd, Ord)]
pub enum RawEU4ObjectItem<'a> {
    KV(RawEU4Scalar<'a>, RawEU4Value<'a>),
    Value(RawEU4Value<'a>),
}

#[derive(Debug, PartialEq, Eq, PartialOrd, Ord)]
pub struct RawEU4Object<'a>(pub Vec<RawEU4ObjectItem<'a>>);

#[derive(Debug, PartialEq, Eq, PartialOrd, Ord)]
pub enum RawEU4Value<'a> {
    Scalar(RawEU4Scalar<'a>),
    Object(RawEU4Object<'a>),
}

impl<'a> View for RawEU4Scalar<'a> {
    type V = Seq<u8>;

    /// The scalar's text as UTF-8 bytes.
    open spec fn view(&self) -> Seq<u8> {
        self.0.spec_bytes()
    }
}

impl<'a> View for RawEU4Value<'a> {
    type V = ValueView;

    open spec fn view(&self) -> ValueView
        decreases self,
    {
        match self {
            RawEU4Value::Scalar(s) => ValueView::Scalar(s.0.spec_bytes()),
            RawEU4Value::Object(o) => ValueView::Object(items_view(o.0@)),
        }
    }
}

impl<'a> View for RawEU4ObjectItem<'a> {
    type V = ItemView;

    open spec fn view(&self) -> ItemView
        decreases self,
    {
        match self {
            RawEU4ObjectItem::KV(k, v) => ItemView::KV(k.0.spec_bytes(), v@),
            RawEU4ObjectItem::Value(v) => ItemView::Value(v@),
        }
    }
}

/// The shapes of a sequence of items.
pub open spec fn items_view<'a>(items: Seq<RawEU4ObjectItem<'a>>) -> Seq<ItemView>
    decreases items,
{
    if items.len() == 0 {
        seq![]
    } else {
        items_view(items.drop_last()).push(items.last()@)
    }
}

impl<'a> View for RawEU4Object<'a> {
    type V = Seq<ItemView>;

    open spec fn view(&self) -> Seq<ItemView> {
        items_view(self.0@)
    }
}

} // verus!
verus! {

impl<'a> RawEU4Value<'a> {
    /// Reads one value from the start of `input` (which should start on the value's first
    /// character: no whitespace is skipped). Returns the rest of the input and the value.
    pub fn take(input: &'a str) -> (res: Option<(&'a str, RawEU4Value<'a>)>)
        ensures
            match spec_value_take(input.spec_bytes()) {
                None => res is None,
                Some((n, v)) => res matches Some((rest, val)) && rest.spec_bytes() == suffix(
                    input.spec_bytes(),
                    n,
                ) && val@ == v,
            },
        decreases input.spec_bytes().len(), 0int,
    {
        let b = input.as_bytes();
        let ghost s = b@;
        if b.len() == 0 {
            return None;
        }
        let c = b[0];
        if c == 0x7d || c == 0x3d {
            return None;
        }
        if c == 0x7b {
            proof {
                lemma_after_ascii(s, 0);
            }
            let inner = str_skip(input, 1);
            let r = RawEU4Object::parse_object_inner(inner);
            proof {
                assert(suffix(inner.spec_bytes(), 0) =~= inner.spec_bytes());
                lemma_object_bounds(inner.spec_bytes());
            }
            return match r {
                Some((rest, obj)) => {
                    proof {
                        let (m, items) = spec_object_inner(inner.spec_bytes()).unwrap();
                        assert(rest.spec_bytes() =~= suffix(s, m + 1));
                    }
                    Some((rest, RawEU4Value::Object(obj)))
                },
                None => None,
            };
        }
        if c == 0x22 {
            let q = find_quote(b, 1);
            return match q {
                Some(j) => {
                    proof {
                        lemma_after_ascii(s, j as int);
                    }
                    let (part, rest) = split_str(input, j + 1);
                    proof {
                        assert(quote_end(s, 1) == Some(j as int));
                        assert(spec_value_take(s) == Some(
                            ((j + 1) as int, ValueView::Scalar(s.subrange(0, j + 1))),
                        ));
                    }
                    Some((rest, RawEU4Value::Scalar(RawEU4Scalar(part))))
                },
                None => None,
            };
        }
        if ws_width_at(b, 0) > 0 {
            return None;
        }
        let j = find_scalar_end(b, 0);
        proof {
            lemma_scalar_end(s, 0);
        }
        let (part, rest) = split_str(input, j);
        Some((rest, RawEU4Value::Scalar(RawEU4Scalar(part))))
    }
}

impl<'a> RawEU4ObjectItem<'a> {
    /// Reads one object item from the start of `input` (which should start on the item's first
    /// character: no whitespace is skipped). Returns the rest of the input and the item.
    #[verifier::rlimit(60)]
    #[verifier::spinoff_prover]
    pub fn take(input: &'a str) -> (res: Option<(&'a str, RawEU4ObjectItem<'a>)>)
        ensures
            match spec_item_take(input.spec_bytes()) {
                None => res is None,
                Some((n, it)) => res matches Some((rest, item)) && rest.spec_bytes() == suffix(
                    input.spec_bytes(),
                    n,
                ) && item@ == it,
            },
        decreases input.spec_bytes().len(), 1int,
    {
        let ghost s = input.spec_bytes();
        proof {
            lemma_value_bounds(s);
        }
        match RawEU4Value::take(input) {
            None => None,
            Some((rest, RawEU4Value::Scalar(scalar))) => {
                let ghost n = spec_value_take(s).unwrap().0;
                let ghost rs = rest.spec_bytes();
                let rb = rest.as_bytes();
                if rb.len() > 0 && rb[0] == 0x7b {
                    proof {
                        lemma_after_ascii(rs, 0);
                    }
                    let inner = str_skip(rest, 1);
                    let r = RawEU4Object::parse_object_inner(inner);
                    if let Some((r2, obj)) = r {
                        proof {
                            let (m, items) = spec_object_inner(inner.spec_bytes()).unwrap();
                            lemma_object_bounds(inner.spec_bytes());
                            assert(r2.spec_bytes() =~= suffix(s, n + 1 + m));
                        }
                        return Some((r2, RawEU4ObjectItem::KV(scalar, RawEU4Value::Object(obj))));
                    }
                }
                let t = trim_start_str(rest);
                proof {
                    lemma_trim_start_len(rs, 0);
                    assert(rs.subrange(0, rs.len() as int) =~= rs);
                }
                let tb = t.as_bytes();
                if tb.len() > 0 && tb[0] == 0x3d {
                    let ghost k = trim_start_len(rs);
                    proof {
                        assert(tb@[0] == rs[k]);
                        lemma_after_ascii(tb@, 0);
                    }
                    let after0 = str_skip(t, 1);
                    let after = trim_start_str(after0);
                    proof {
                        let a0 = after0.spec_bytes();
                        assert(a0 =~= rs.subrange(k + 1, rs.len() as int));
                        lemma_trim_start_len(a0, 0);
                        assert(a0.subrange(0, a0.len() as int) =~= a0);
                        lemma_value_bounds(after.spec_bytes());
                    }
                    match RawEU4Value::take(after) {
                        None => None,
                        Some((r3, v)) => {
                            proof {
                                let a0 = after0.spec_bytes();
                                let k2 = trim_start_len(a0);
                                let m = spec_value_take(after.spec_bytes()).unwrap().0;
                                assert(r3.spec_bytes() =~= suffix(s, n + k + 1 + k2 + m));
                            }
                            Some((r3, RawEU4ObjectItem::KV(scalar, v)))
                        },
                    }
                } else {
                    proof {
                        let k = trim_start_len(rs);
                        if 0 <= k < rs.len() {
                            assert(tb@[0] == rs[k]);
                        }
                    }
                    Some((rest, RawEU4ObjectItem::Value(RawEU4Value::Scalar(scalar))))
                }
            },
            Some((rest, v)) => Some((rest, RawEU4ObjectItem::Value(v))),
        }
    }
}

impl<'a> RawEU4Object<'a> {
    /// Reads the items of an object whose `{` has already been read. Stops after the closing
    /// `}` (the rest then starts with the next character) or at the end of the input.
    #[verifier::rlimit(80)]
    #[verifier::spinoff_prover]
    pub fn parse_object_inner(input: &'a str) -> (res: Option<(&'a str, RawEU4Object<'a>)>)
        ensures
            match spec_object_inner(input.spec_bytes()) {
                None => res is None,
                Some((n, items)) => res matches Some((rest, obj)) && rest.spec_bytes() == suffix(
                    input.spec_bytes(),
                    n,
                ) && obj@ == items,
            },
        decreases input.spec_bytes().len(), 2int,
    {
        let ghost b = input.spec_bytes();
        let mut out: Vec<RawEU4ObjectItem<'a>> = Vec::new();
        let mut rest: &'a str = input;
        let ghost mut consumed: int = 0;
        proof {
            assert(b.subrange(0, b.len() as int) =~= b);
            assert(prepend_items(0, seq![], spec_object_inner(b)) =~~= spec_object_inner(b));
        }
        loop
            invariant
                0 <= consumed <= b.len(),
                b == input.spec_bytes(),
                rest.spec_bytes() == suffix(b, consumed),
                spec_object_inner(b) == prepend_items(
                    consumed,
                    items_view(out@),
                    spec_object_inner(rest.spec_bytes()),
                ),
            decreases rest.spec_bytes().len(),
        {
            let ghost rb = rest.spec_bytes();
            let t = trim_start_str(rest);
            let ghost k = trim_start_len(rb);
            proof {
                lemma_trim_start_len(rb, 0);
                assert(rb.subrange(0, rb.len() as int) =~= rb);
            }
            let tb = t.as_bytes();
            if tb.len() == 0 {
                proof {
                    assert(items_view(out@) + seq![] =~= items_view(out@));
                    assert(t.spec_bytes() =~= suffix(b, b.len() as int));
                }
                return Some((t, RawEU4Object(out)));
            }
            if tb[0] == 0x7d {
                proof {
                    lemma_after_ascii(tb@, 0);
                    assert(items_view(out@) + seq![] =~= items_view(out@));
                }
                let r = str_skip(t, 1);
                proof {
                    assert(r.spec_bytes() =~= suffix(b, consumed + k + 1));
                }
                return Some((r, RawEU4Object(out)));
            }
            proof {
                lemma_item_bounds(tb@);
            }
            match RawEU4ObjectItem::take(t) {
                None => {
                    return None;
                },
                Some((r, item)) => {
                    let ghost n = spec_item_take(tb@).unwrap().0;
                    let ghost old_out = out@;
                    out.push(item);
                    proof {
                        assert(out@.drop_last() =~= old_out);
                        assert(items_view(out@) == items_view(old_out).push(item@));
                        assert(r.spec_bytes() =~= suffix(b, consumed + k + n));
                        let inner = spec_object_inner(r.spec_bytes());
                        assert(r.spec_bytes() =~= tb@.subrange(n, tb@.len() as int));
                        if let Some((m, items)) = inner {
                            assert(items_view(old_out) + (seq![item@] + items) =~= items_view(
                                out@,
                            ) + items);
                        }
                        assert(prepend_items(
                            consumed,
                            items_view(old_out),
                            spec_object_inner(rb),
                        ) =~~= prepend_items(consumed + k + n, items_view(out@), inner));
                        consumed = consumed + k + n;
                    }
                    rest = r;
                },
            }
        }
    }
}

} // verus!
verus! {

impl<'a> RawEU4Scalar<'a> {
    /// The scalar read as an `i64`, as `str::parse` reads it.
    pub fn as_int(&self) -> (res: Option<i64>)
        ensures
            res == spec_parse_i64(self@),
    {
        parse_i64(self.0.as_bytes())
    }

    /// `yes` is true and `no` is false; anything else is not a boolean.
    pub fn as_bool(&self) -> (res: Option<bool>)
        ensures
            res == (if self.0@ == "yes"@ {
                Some(true)
            } else if self.0@ == "no"@ {
                Some(false)
            } else {
                None
            }),
    {
        if str_eq(self.0, "yes") {
            Some(true)
        } else if str_eq(self.0, "no") {
            Some(false)
        } else {
            None
        }
    }

    /// The scalar's text, without its surrounding quotes if it has both.
    pub fn as_string(&self) -> (res: String)
        ensures
            encode_utf8(res@) == unquote(self@),
    {
        let s = unquote_str(self.0);
        s.to_string()
    }
}

impl<'a> RawEU4Value<'a> {
    pub fn as_scalar<'b>(&'b self) -> (res: Option<&'b RawEU4Scalar<'a>>)
        ensures
            match self {
                RawEU4Value::Scalar(s) => res == Some(s),
                RawEU4Value::Object(_) => res is None,
            },
    {
        if let RawEU4Value::Scalar(scalar) = self {
            Some(scalar)
        } else {
            None
        }
    }

    pub fn as_object<'b>(&'b self) -> (res: Option<&'b RawEU4Object<'a>>)
        ensures
            match self {
                RawEU4Value::Object(o) => res == Some(o),
                RawEU4Value::Scalar(_) => res is None,
            },
    {
        if let RawEU4Value::Object(object) = self {
            Some(object)
        } else {
            None
        }
    }
}

/// `item` is a key-value pair with key `key` whose value is of the wanted kind.
pub open spec fn kv_matches<'a>(item: RawEU4ObjectItem<'a>, key: Seq<u8>, want: Want) -> bool {
    match item {
        RawEU4ObjectItem::KV(k, v) => k@ == key && match want {
            Want::Any => true,
            Want::Object => v is Object,
            Want::Scalar => v is Scalar,
        },
        RawEU4ObjectItem::Value(_) => false,
    }
}

/// Index of the first item at or after `i` that `kv_matches`.
pub open spec fn first_match<'a>(items: Seq<RawEU4ObjectItem<'a>>, key: Seq<u8>, want: Want, i: int) -> Option<
    int,
>
    decreases items.len() - i,
{
    if i < 0 || i >= items.len() {
        None
    } else if kv_matches(items[i], key, want) {
        Some(i)
    } else {
        first_match(items, key, want, i + 1)
    }
}

/// The value of an item (meaningful for key-value pairs and bare values alike).
pub open spec fn item_value<'a>(item: RawEU4ObjectItem<'a>) -> RawEU4Value<'a> {
    match item {
        RawEU4ObjectItem::KV(_, v) => v,
        RawEU4ObjectItem::Value(v) => v,
    }
}

/// The bare values of `items`, in order.
pub open spec fn values_of<'a>(items: Seq<RawEU4ObjectItem<'a>>) -> Seq<RawEU4Value<'a>>
    decreases items.len(),
{
    if items.len() == 0 {
        seq![]
    } else {
        match items.last() {
            RawEU4ObjectItem::Value(v) => values_of(items.drop_last()).push(v),
            RawEU4ObjectItem::KV(_, _) => values_of(items.drop_last()),
        }
    }
}

/// The key-value pairs of `items`, in order.
pub open spec fn kvs_of<'a>(items: Seq<RawEU4ObjectItem<'a>>) -> Seq<(RawEU4Scalar<'a>, RawEU4Value<'a>)>
    decreases items.len(),
{
    if items.len() == 0 {
        seq![]
    } else {
        match items.last() {
            RawEU4ObjectItem::KV(k, v) => kvs_of(items.drop_last()).push((k, v)),
            RawEU4ObjectItem::Value(_) => kvs_of(items.drop_last()),
        }
    }
}

/// Every item is either a key-value pair or a value: together they are as many as the items.
pub proof fn lemma_kvs_and_values_count<'a>(items: Seq<RawEU4ObjectItem<'a>>)
    ensures
        kvs_of(items).len() + values_of(items).len() == items.len(),
    decreases items.len(),
{
    if items.len() > 0 {
        lemma_kvs_and_values_count(items.drop_last());
    }
}

proof fn lemma_first_match(items: Seq<RawEU4ObjectItem>, key: Seq<u8>, want: Want, i: int)
    requires
        0 <= i <= items.len(),
    ensures
        first_match(items, key, want, i) matches Some(j) ==> i <= j < items.len() && kv_matches(
            items[j],
            key,
            want,
        ) && forall|k: int| i <= k < j ==> !kv_matches(#[trigger] items[k], key, want),
        first_match(items, key, want, i) is None ==> forall|k: int|
            i <= k < items.len() ==> !kv_matches(#[trigger] items[k], key, want),
    decreases items.len() - i,
{
    if i < items.len() && !kv_matches(items[i], key, want) {
        lemma_first_match(items, key, want, i + 1);
    }
}

impl<'a> RawEU4Object<'a> {
    /// The first key-value pair with key `key` whose value is of the wanted kind.
    pub open spec fn spec_first(&self, key: Seq<u8>, want: Want) -> Option<RawEU4Value<'a>> {
        match first_match(self.0@, key, want, 0) {
            Some(i) => Some(item_value(self.0@[i])),
            None => None,
        }
    }

    /// Following a path of keys through the first object values found for each.
    pub open spec fn spec_object_at_path(&self, keys: Seq<Seq<u8>>) -> Option<RawEU4Object<'a>>
        decreases keys.len(),
    {
        if keys.len() == 0 {
            Some(*self)
        } else {
            match self.spec_first(keys[0], Want::Object) {
                Some(RawEU4Value::Object(o)) => o.spec_object_at_path(keys.drop_first()),
                _ => None,
            }
        }
    }

    fn find_kv<'b>(&'b self, key: &str, want: Want) -> (res: Option<&'b RawEU4Value<'a>>)
        ensures
            match self.spec_first(key.spec_bytes(), want) {
                None => res is None,
                Some(v) => res matches Some(r) && *r == v,
            },
    {
        proof {
            lemma_first_match(self.0@, key.spec_bytes(), want, 0);
        }
        let mut i: usize = 0;
        while i < self.0.len()
            invariant
                0 <= i <= self.0@.len(),
                first_match(self.0@, key.spec_bytes(), want, 0) == first_match(
                    self.0@,
                    key.spec_bytes(),
                    want,
                    i as int,
                ),
            decreases self.0@.len() - i,
        {
            match &self.0[i] {
                RawEU4ObjectItem::KV(k, v) => {
                    let wanted = match want {
                        Want::Any => true,
                        Want::Object => matches!(v, RawEU4Value::Object(_)),
                        Want::Scalar => matches!(v, RawEU4Value::Scalar(_)),
                    };
                    if wanted && str_eq(k.0, key) {
                        return Some(v);
                    }
                },
                RawEU4ObjectItem::Value(_) => {},
            }
            i = i + 1;
        }
        None
    }

    /// The bare values (items that are not key-value pairs), in order.
    pub fn iter_values<'b>(&'b self) -> (res: Vec<&'b RawEU4Value<'a>>)
        ensures
            res@.len() == values_of(self.0@).len(),
            forall|i: int| 0 <= i < res@.len() ==> *res@[i] == values_of(self.0@)[i],
    {
        let mut out: Vec<&'b RawEU4Value<'a>> = Vec::new();
        let mut i: usize = 0;
        while i < self.0.len()
            invariant
                0 <= i <= self.0@.len(),
                out@.len() == values_of(self.0@.take(i as int)).len(),
                forall|j: int|
                    0 <= j < out@.len() ==> *out@[j] == values_of(self.0@.take(i as int))[j],
            decreases self.0@.len() - i,
        {
            proof {
                assert(self.0@.take(i + 1).drop_last() =~= self.0@.take(i as int));
            }
            if let RawEU4ObjectItem::Value(v) = &self.0[i] {
                out.push(v);
            }
            i = i + 1;
        }
        proof {
            assert(self.0@.take(i as int) =~= self.0@);
        }
        out
    }

    /// The key-value pairs, in order.
    #[allow(non_snake_case)]
    pub fn iter_all_KVs<'b>(&'b self) -> (res: Vec<(&'b RawEU4Scalar<'a>, &'b RawEU4Value<'a>)>)
        ensures
            res@.len() == kvs_of(self.0@).len(),
            forall|i: int|
                0 <= i < res@.len() ==> *res@[i].0 == kvs_of(self.0@)[i].0 && *res@[i].1 == kvs_of(
                    self.0@,
                )[i].1,
    {
        let mut out: Vec<(&'b RawEU4Scalar<'a>, &'b RawEU4Value<'a>)> = Vec::new();
        let mut i: usize = 0;
        while i < self.0.len()
            invariant
                0 <= i <= self.0@.len(),
                out@.len() == kvs_of(self.0@.take(i as int)).len(),
                forall|j: int|
                    0 <= j < out@.len() ==> *out@[j].0 == kvs_of(self.0@.take(i as int))[j].0
                        && *out@[j].1 == kvs_of(self.0@.take(i as int))[j].1,
            decreases self.0@.len() - i,
        {
            proof {
                assert(self.0@.take(i + 1).drop_last() =~= self.0@.take(i as int));
            }
            if let RawEU4ObjectItem::KV(k, v) = &self.0[i] {
                out.push((k, v));
            }
            i = i + 1;
        }
        proof {
            assert(self.0@.take(i as int) =~= self.0@);
        }
        out
    }

    /// Gets the first value for the specified key.
    pub fn get_first<'b>(&'b self, key: &str) -> (res: Option<&'b RawEU4Value<'a>>)
        ensures
            match self.spec_first(key.spec_bytes(), Want::Any) {
                None => res is None,
                Some(v) => res matches Some(r) && *r == v,
            },
    {
        self.find_kv(key, Want::Any)
    }

    /// Gets the first object value for the specified key, passing over non-object values.
    pub fn get_first_obj<'b>(&'b self, key: &str) -> (res: Option<&'b RawEU4Object<'a>>)
        ensures
            match self.spec_first(key.spec_bytes(), Want::Object) {
                Some(RawEU4Value::Object(o)) => res matches Some(r) && *r == o,
                _ => res is None,
            },
    {
        match self.find_kv(key, Want::Object) {
            Some(RawEU4Value::Object(o)) => Some(o),
            _ => None,
        }
    }

    /// Gets the first scalar value for the specified key, passing over object values.
    pub fn get_first_scalar<'b>(&'b self, key: &str) -> (res: Option<&'b RawEU4Scalar<'a>>)
        ensures
            match self.spec_first(key.spec_bytes(), Want::Scalar) {
                Some(RawEU4Value::Scalar(s)) => res matches Some(r) && *r == s,
                _ => res is None,
            },
    {
        proof {
            lemma_first_match(self.0@, key.spec_bytes(), Want::Scalar, 0);
        }
        match self.find_kv(key, Want::Scalar) {
            Some(RawEU4Value::Scalar(s)) => Some(s),
            _ => None,
        }
    }

    /// The first value for `key`, read as an `i64` if it is a scalar.
    pub fn get_first_as_int(&self, key: &str) -> (res: Option<i64>)
        ensures
            res == match self.spec_first(key.spec_bytes(), Want::Any) {
                Some(RawEU4Value::Scalar(s)) => spec_parse_i64(s@),
                _ => None,
            },
    {
        self.get_first(key)?.as_scalar()?.as_int()
    }

    /// The first value for `key`, read as a boolean (`yes`/`no`) if it is a scalar.
    pub fn get_first_as_bool(&self, key: &str) -> (res: Option<bool>)
        ensures
            res == match self.spec_first(key.spec_bytes(), Want::Any) {
                Some(RawEU4Value::Scalar(s)) => if s.0@ == "yes"@ {
                    Some(true)
                } else if s.0@ == "no"@ {
                    Some(false)
                } else {
                    None
                },
                _ => None,
            },
    {
        self.get_first(key)?.as_scalar()?.as_bool()
    }

    /// The first value for `key`, as text without surrounding quotes, if it is a scalar.
    pub fn get_first_as_string(&self, key: &str) -> (res: Option<String>)
        ensures
            match self.spec_first(key.spec_bytes(), Want::Any) {
                Some(RawEU4Value::Scalar(s)) => res matches Some(t) && encode_utf8(t@) == unquote(
                    s@,
                ),
                _ => res is None,
            },
    {
        Some(self.get_first(key)?.as_scalar()?.as_string())
    }
}

} // verus!
verus! {

impl<'a> RawEU4Object<'a> {
    /// The object reached by following the first `N - 1` keys of `path`.
    fn walk_path<'b, const N: usize>(&'b self, path: &[&str; N]) -> (res: Option<&'b RawEU4Object<'a>>)
        requires
            N >= 1,
        ensures
            match self.spec_object_at_path(path_keys(path@).take(N - 1)) {
                None => res is None,
                Some(o) => res matches Some(r) && *r == o,
            },
    {
        let ghost keys = path_keys(path@).take(N - 1);
        let mut obj: &'b RawEU4Object<'a> = self;
        let mut i: usize = 0;
        proof {
            assert(keys.subrange(0, N - 1) =~= keys);
        }
        while i + 1 < N
            invariant
                N >= 1,
                0 <= i <= N - 1,
                keys == path_keys(path@).take(N - 1),
                self.spec_object_at_path(keys) == obj.spec_object_at_path(
                    keys.subrange(i as int, N - 1),
                ),
            decreases N - i,
        {
            let ghost sub = keys.subrange(i as int, N - 1);
            proof {
                assert(sub[0] == path[i as int].spec_bytes());
                assert(sub.drop_first() =~= keys.subrange(i + 1, N - 1));
            }
            match obj.get_first_obj(path[i]) {
                Some(o) => {
                    obj = o;
                },
                None => {
                    return None;
                },
            }
            i = i + 1;
        }
        proof {
            assert(keys.subrange(i as int, N - 1).len() == 0);
        }
        Some(obj)
    }

    /// The first value for the last key of `path`, in the object reached by following the
    /// first object value of each of the other keys in turn.
    pub fn get_first_at_path<'b, const N: usize>(&'b self, path: [&str; N]) -> (res: Option<
        &'b RawEU4Value<'a>,
    >)
        requires
            N >= 1,
        ensures
            match self.spec_object_at_path(path_keys(path@).take(N - 1)) {
                None => res is None,
                Some(o) => match o.spec_first(path@[N - 1].spec_bytes(), Want::Any) {
                    None => res is None,
                    Some(v) => res matches Some(r) && *r == v,
                },
            },
    {
        let obj = self.walk_path(&path)?;
        obj.get_first(path[N - 1])
    }

    /// As [`Self::get_first_at_path`], for a scalar value.
    pub fn get_first_scalar_at_path<'b, const N: usize>(&'b self, path: [&str; N]) -> (res: Option<
        &'b RawEU4Scalar<'a>,
    >)
        requires
            N >= 1,
        ensures
            match self.spec_object_at_path(path_keys(path@).take(N - 1)) {
                None => res is None,
                Some(o) => match o.spec_first(path@[N - 1].spec_bytes(), Want::Scalar) {
                    Some(RawEU4Value::Scalar(s)) => res matches Some(r) && *r == s,
                    _ => res is None,
                },
            },
    {
        let obj = self.walk_path(&path)?;
        obj.get_first_scalar(path[N - 1])
    }

    /// As [`Self::get_first_at_path`], for an object value.
    pub fn get_first_object_at_path<'b, const N: usize>(&'b self, path: [&str; N]) -> (res: Option<
        &'b RawEU4Object<'a>,
    >)
        requires
            N >= 1,
        ensures
            match self.spec_object_at_path(path_keys(path@)) {
                None => res is None,
                Some(o) => res matches Some(r) && *r == o,
            },
    {
        proof {
            let keys = path_keys(path@);
            let head = keys.take(N - 1);
            lemma_path_split(*self, head, keys[N - 1]);
            assert(head.push(keys[N - 1]) =~= keys);
        }
        let obj = self.walk_path(&path)?;
        obj.get_first_obj(path[N - 1])
    }
}

/// Following a path and then one more key is following the longer path.
pub proof fn lemma_path_split<'a>(obj: RawEU4Object<'a>, keys: Seq<Seq<u8>>, last: Seq<u8>)
    ensures
        obj.spec_object_at_path(keys.push(last)) == match obj.spec_object_at_path(keys) {
            Some(o) => match o.spec_first(last, Want::Object) {
                Some(RawEU4Value::Object(p)) => Some(p),
                _ => None,
            },
            None => None,
        },
    decreases keys.len(),
{
    if keys.len() == 0 {
        assert(keys.push(last).drop_first() =~= seq![]);
        let e: Seq<Seq<u8>> = seq![];
        match obj.spec_first(last, Want::Object) {
            Some(RawEU4Value::Object(p)) => {
                assert(p.spec_object_at_path(e) == Some(p));
            },
            _ => {},
        }
    } else {
        assert(keys.push(last).drop_first() =~= keys.drop_first().push(last));
        match obj.spec_first(keys[0], Want::Object) {
            Some(RawEU4Value::Object(o)) => {
                lemma_path_split(o, keys.drop_first(), last);
            },
            _ => {},
        }
    }
}

} // verus!

verus! {

impl<'a> RawEU4Scalar<'a> {
    /// The scalar read as an [`EU4Date`].
    pub fn as_date(&self) -> (res: Option<EU4Date>)
        ensures
            res == (match EU4Date::spec_parse(self@) {
                Ok(d) => Some(d),
                Err(_) => None::<EU4Date>,
            }),
    {
        match EU4Date::parse_text(self.0) {
            Ok(d) => Some(d),
            Err(_) => None,
        }
    }
}

impl<'a> RawEU4Object<'a> {
    /// The first value for `key`, read as an [`EU4Date`] if it is a scalar.
    pub fn get_first_as_date(&self, key: &str) -> (res: Option<EU4Date>)
        ensures
            res == match self.spec_first(key.spec_bytes(), Want::Any) {
                Some(RawEU4Value::Scalar(s)) => match EU4Date::spec_parse(s@) {
                    Ok(d) => Some(d),
                    Err(_) => None,
                },
                _ => None,
            },
    {
        self.get_first(key)?.as_scalar()?.as_date()
    }
}

} // verus!
