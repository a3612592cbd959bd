//! Values shared by the binary and text formats.
use vstd::prelude::*;
use vstd::string::StringExecFns;

use crate::bin_deserialize::{
    BinDeserialize, BinDeserializer, BinError, BinErrorView, expect_fixed, is_rest_of, le16, le24,
    lemma_rest_trans, lemma_same_stream, read_le16, read_le24, starts_close, take_fixed,
};
use crate::bin_lexer::{BinToken, fixed_payload_len, is_string_token};
use crate::text_deserialize::{
    TextDeserialize, TextDeserializer, TextError, TextErrorView, TextState, advance, front,
    lemma_look_keeps_stream, lemma_weight, looked, text_with_context, weight,
};
use crate::text_lexer::{TextToken, TokenView};
use crate::text_deserialize::spec_int_in;
use crate::text_util::{decimal, decimal_string};
use vstd::string::StringSliceAdditionalSpecFns;

verus! {

/// Represents a string lookup index in v2 save formats. Generally used in
/// [`crate::strings_resolver::StringsResolver`].
#[derive(Clone, Copy, Debug, PartialEq, Eq, Structural, PartialOrd, Ord)]
pub struct LookupU16(pub u16);

#[derive(Clone, Copy, Debug, PartialEq, Eq, Structural, PartialOrd, Ord)]
pub struct LookupU8(pub u8);

#[derive(Clone, Copy, Debug, PartialEq, Eq, Structural, PartialOrd, Ord)]
pub struct LookupU24(pub u32);

/// Reading a token that must be one of `a` and `b`, and an `n`-byte payload.
pub open spec fn expect_fixed2(s: Seq<u8>, a: u16, b: u16, n: int) -> Result<(), BinError> {
    if s.len() < 2 {
        Err(BinError::EOF)
    } else if le16(s, 0) != a && le16(s, 0) != b {
        Err(BinError::UnexpectedToken(le16(s, 0)))
    } else if s.len() < 2 + n {
        Err(BinError::EOF)
    } else {
        Ok(())
    }
}

impl<'de> BinDeserialize<'de> for LookupU16 {
    open spec fn took(stream: BinDeserializer<'de>, rest: BinDeserializer<'de>, value: LookupU16) -> bool {
        expect_fixed2(stream@, 0x0d3e, 0x0d44, 2) is Ok && value.0 == le16(stream@, 2) && rest@
            == stream@.subrange(4, stream@.len() as int)
    }

    fn take(stream: BinDeserializer<'de>) -> (res: Result<(LookupU16, BinDeserializer<'de>), BinError>)
        ensures
            match expect_fixed2(stream@, 0x0d3e, 0x0d44, 2) {
                Ok(_) => res is Ok,
                Err(e) => res matches Err(e2) && e2 == e,
            },
    {
        let mut s = stream;
        let token = s.expect_token()?;
        if token != BinToken::ID_LOOKUP_U16 && token != BinToken::ID_LOOKUP_U16_ALT {
            return Err(BinError::UnexpectedToken(token));
        }
        let v = s.expect_bytes(2)?;
        proof {
            assert(v@[0] == stream@[2] && v@[1] == stream@[3]);
            assert(s@ =~= stream@.subrange(4, stream@.len() as int));
        }
        Ok((LookupU16(read_le16(v, 0)), s))
    }
}

impl<'de> BinDeserialize<'de> for LookupU8 {
    open spec fn took(stream: BinDeserializer<'de>, rest: BinDeserializer<'de>, value: LookupU8) -> bool {
        expect_fixed2(stream@, 0x0d40, 0x0d43, 1) is Ok && value.0 == stream@[2] && rest@
            == stream@.subrange(3, stream@.len() as int)
    }

    fn take(stream: BinDeserializer<'de>) -> (res: Result<(LookupU8, BinDeserializer<'de>), BinError>)
        ensures
            match expect_fixed2(stream@, 0x0d40, 0x0d43, 1) {
                Ok(_) => res is Ok,
                Err(e) => res matches Err(e2) && e2 == e,
            },
    {
        let mut s = stream;
        let token = s.expect_token()?;
        if token != BinToken::ID_LOOKUP_U8 && token != BinToken::ID_LOOKUP_U8_ALT {
            return Err(BinError::UnexpectedToken(token));
        }
        let v = s.expect_bytes(1)?;
        proof {
            assert(v@[0] == stream@[2]);
            assert(s@ =~= stream@.subrange(3, stream@.len() as int));
        }
        Ok((LookupU8(v[0]), s))
    }
}

impl<'de> BinDeserialize<'de> for LookupU24 {
    open spec fn took(stream: BinDeserializer<'de>, rest: BinDeserializer<'de>, value: LookupU24) -> bool {
        expect_fixed(stream@, 0x0d41, 3) is Ok && value.0 == le24(stream@, 2) && rest@
            == stream@.subrange(5, stream@.len() as int)
    }

    fn take(stream: BinDeserializer<'de>) -> (res: Result<(LookupU24, BinDeserializer<'de>), BinError>)
        ensures
            match expect_fixed(stream@, 0x0d41, 3) {
                Ok(_) => res is Ok,
                Err(e) => res matches Err(e2) && e2 == e,
            },
    {
        let (v, rest) = take_fixed(stream, BinToken::ID_LOOKUP_U24, 3)?;
        Ok((LookupU24(read_le24(v, 0)), rest))
    }
}

/// Extracts no data, just exists to implement [`BinDeserialize`] or
/// [`crate::text_deserialize::TextDeserialize`] and skip the next value.
///
/// Note that named types are just treated as a scalar string and an unassociated object,
/// since we currently have no consistent way of knowing which are named types.
/// However, this shouldn't matter when we're skipping it all anyway.
#[derive(Debug)]
pub struct SkipValue;

/// `e` as a [`BinError::Custom`] whose text is `ctx`, `:`, a line break, and `e`'s own text.
pub open spec fn with_context(e: BinErrorView, ctx: Seq<char>) -> BinErrorView {
    BinErrorView::Custom(ctx + ":\n"@ + e.message())
}

/// The context added to errors met while skipping the items of an object.
pub open spec fn SKIP_CTX() -> Seq<char> {
    "While skipping value or KV key"@
}

/// Skipping one value at the front of `s` in the binary format: the number of bytes it takes.
pub open spec fn spec_skip_value(s: Seq<u8>) -> Result<int, BinErrorView>
    decreases s.len(), 0int,
{
    if s.len() < 2 {
        Err(BinErrorView::EOF)
    } else {
        let id = le16(s, 0);
        if id == 0x0003 {
            match spec_finish_object(s.subrange(2, s.len() as int)) {
                Ok(n) => Ok(2 + n),
                Err(e) => Err(e),
            }
        } else if id == 0x0004 || id == 0x0001 {
            Err(BinErrorView::UnexpectedToken(id))
        } else if is_string_token(id) {
            if s.len() < 4 || s.len() < 4 + le16(s, 2) {
                Err(BinErrorView::EOF)
            } else {
                Ok(4 + le16(s, 2))
            }
        } else if s.len() < 2 + fixed_payload_len(id) {
            Err(BinErrorView::EOF)
        } else {
            Ok(2 + fixed_payload_len(id))
        }
    }
}

/// Skipping the rest of an object whose `{` has been read: its values and key-value pairs,
/// and its `}`. The number of bytes it takes.
pub open spec fn spec_finish_object(s: Seq<u8>) -> Result<int, BinErrorView>
    decreases s.len(), 1int,
{
    if s.len() < 2 {
        Err(BinErrorView::EOF)
    } else if le16(s, 0) == 0x0004 {
        Ok(2)
    } else if le16(s, 0) == 0x0001 {
        Err(BinErrorView::UnexpectedToken(0x0001))
    } else {
        match spec_skip_value(s) {
            Err(e) => Err(with_context(e, SKIP_CTX())),
            Ok(n) => if !(0 < n <= s.len()) {
                Err(BinErrorView::EOF)
            } else {
                let r = s.subrange(n, s.len() as int);
                if r.len() >= 2 && le16(r, 0) == 0x0001 {
                    let r2 = r.subrange(2, r.len() as int);
                    match spec_skip_value(r2) {
                        Err(e) => Err(with_context(e, SKIP_CTX())),
                        Ok(m) => if !(0 < m <= r2.len()) {
                            Err(BinErrorView::EOF)
                        } else {
                            match spec_finish_object(r2.subrange(m, r2.len() as int)) {
                                Ok(k) => Ok(n + 2 + m + k),
                                Err(e) => Err(e),
                            }
                        },
                    }
                } else {
                    match spec_finish_object(r) {
                        Ok(k) => Ok(n + k),
                        Err(e) => Err(e),
                    }
                }
            },
        }
    }
}

pub proof fn lemma_skip_bounds(s: Seq<u8>)
    ensures
        spec_skip_value(s) matches Ok(n) ==> 0 < n <= s.len(),
        spec_finish_object(s) matches Ok(n) ==> 0 < n <= s.len(),
    decreases s.len(),
{
    if s.len() >= 2 {
        lemma_skip_bounds(s.subrange(2, s.len() as int));
        if let Ok(n) = spec_skip_value(s) {
            if 0 < n <= s.len() {
                let r = s.subrange(n, s.len() as int);
                lemma_skip_bounds(r);
                if r.len() >= 2 {
                    let r2 = r.subrange(2, r.len() as int);
                    lemma_skip_bounds(r2);
                    if let Ok(m) = spec_skip_value(r2) {
                        if 0 < m <= r2.len() {
                            lemma_skip_bounds(r2.subrange(m, r2.len() as int));
                        }
                    }
                }
            }
        }
    }
}

impl SkipValue {
    /// Starting after the opening `{`, skips the rest of the current object.
    fn finish_object<'de>(stream: BinDeserializer<'de>) -> (res: Result<BinDeserializer<'de>, BinError>)
        ensures
            match spec_finish_object(stream@) {
                Ok(n) => res matches Ok(rest) && rest@ == stream@.subrange(n, stream@.len() as int)
                    && rest.same_source(&stream),
                Err(e) => res matches Err(e2) && e2@ == e,
            },
        decreases stream@.len(), 1int,
    {
        let mut s = stream;
        let peek = match s.peek_token() {
            Some(p) => p,
            None => {
                return Err(BinError::EOF);
            },
        };
        if peek == BinToken::ID_CLOSE_BRACKET {
            s.eat_token();
            return Ok(s);
        }
        if peek == BinToken::ID_EQUAL {
            return Err(BinError::UnexpectedToken(BinToken::ID_EQUAL));
        }
        proof {
            lemma_skip_bounds(stream@);
        }
        let s1 = match SkipValue::take(s) {
            Ok((_, rest)) => rest,
            Err(err) => {
                return Err(err.context("While skipping value or KV key"));
            },
        };
        let ghost n = spec_skip_value(stream@)->Ok_0;
        let mut s2 = s1;
        if let Some(t) = s2.peek_token() {
            if t == BinToken::ID_EQUAL {
                s2.eat_token();
                let ghost r2 = s2@;
                proof {
                    assert(r2 =~= stream@.subrange(n + 2, stream@.len() as int));
                    lemma_skip_bounds(r2);
                }
                let s3 = match SkipValue::take(s2) {
                    Ok((_, rest)) => rest,
                    Err(err) => {
                        return Err(err.context("While skipping value or KV key"));
                    },
                };
                let ghost m = spec_skip_value(r2)->Ok_0;
                proof {
                    lemma_skip_bounds(s3@);
                }
                let r = SkipValue::finish_object(s3);
                proof {
                    assert(s3@ =~= r2.subrange(m, r2.len() as int));
                    if let Ok(k) = spec_finish_object(s3@) {
                        assert(stream@.subrange(n + 2 + m + k, stream@.len() as int) =~= s3@.subrange(
                            k,
                            s3@.len() as int,
                        ));
                    }
                }
                return r;
            }
        }
        proof {
            lemma_skip_bounds(s1@);
        }
        let r = SkipValue::finish_object(s1);
        proof {
            if let Ok(k) = spec_finish_object(s1@) {
                assert(stream@.subrange(n + k, stream@.len() as int) =~= s1@.subrange(
                    k,
                    s1@.len() as int,
                ));
            }
        }
        r
    }
}

impl<'de> BinDeserialize<'de> for SkipValue {
    /// One whole value (a scalar with its payload, or an object with everything in it).
    open spec fn took(stream: BinDeserializer<'de>, rest: BinDeserializer<'de>, value: SkipValue) -> bool {
        spec_skip_value(stream@) matches Ok(n) && rest@ == stream@.subrange(n, stream@.len() as int)
    }

    fn take(stream: BinDeserializer<'de>) -> (res: Result<(SkipValue, BinDeserializer<'de>), BinError>)
        ensures
            match spec_skip_value(stream@) {
                Ok(_) => res is Ok,
                Err(e) => res matches Err(e2) && e2@ == e,
            },
        decreases stream@.len(), 0int,
    {
        proof {
            lemma_skip_bounds(stream@);
        }
        let mut s = stream;
        let id = s.expect_token()?;
        if id == BinToken::ID_OPEN_BRACKET {
            proof {
                lemma_skip_bounds(s@);
            }
            let rest = SkipValue::finish_object(s)?;
            proof {
                let n = spec_finish_object(s@)->Ok_0;
                assert(rest@ =~= stream@.subrange(2 + n, stream@.len() as int));
                assert(is_rest_of(rest@, stream@));
            }
            return Ok((SkipValue, rest));
        }
        if id == BinToken::ID_CLOSE_BRACKET || id == BinToken::ID_EQUAL {
            return Err(BinError::UnexpectedToken(id));
        }
        if id == BinToken::ID_STRING_QUOTED || id == BinToken::ID_STRING_UNQUOTED {
            let len = s.expect_token()?;
            s.eat_bytes(len as usize)?;
            proof {
                assert(s@ =~= stream@.subrange(4 + len, stream@.len() as int));
            }
            return Ok((SkipValue, s));
        }
        let n: usize = if id == 0x000c || id == 0x000d || id == 0x0014 || id == 0x0d4b || id
            == 0x0d52 {
            4
        } else if id == 0x0167 || id == 0x029c || id == 0x0317 {
            8
        } else if id == 0x000e || id == 0x0d48 || id == 0x0d4f || id == 0x0d40 || id == 0x0d43 {
            1
        } else if id == 0x0d49 || id == 0x0d50 || id == 0x0d3e || id == 0x0d44 {
            2
        } else if id == 0x0d4a || id == 0x0d51 || id == 0x0d41 {
            3
        } else if id == 0x0d4c || id == 0x0d53 {
            5
        } else if id == 0x0d4d || id == 0x0d54 {
            6
        } else if id == 0x0d4e || id == 0x0d55 {
            7
        } else {
            0
        };
        s.eat_bytes(n)?;
        proof {
            assert(s@ =~= stream@.subrange(2 + n, stream@.len() as int));
        }
        Ok((SkipValue, s))
    }
}

} // verus!

verus! {

/// Skipping one value at the front of a token stream: what is left after it.
pub open spec fn spec_skip_text(s: TextState) -> Result<TextState, TextErrorView>
    decreases weight(s), 0int,
{
    match front(s) {
        None => Err(TextErrorView::EOF),
        Some(TokenView::OpenBracket) => {
            proof {
                lemma_weight(s);
            }
            spec_finish_text(advance(s))
        },
        Some(TokenView::CloseBracket) => Err(TextErrorView::UnexpectedToken),
        Some(TokenView::Equal) => Err(TextErrorView::UnexpectedToken),
        Some(_) => Ok(advance(s)),
    }
}

/// Skipping the rest of an object whose `{` has been read: its values and key-value pairs, and
/// its `}`. What is left after it.
pub open spec fn spec_finish_text(s: TextState) -> Result<TextState, TextErrorView>
    decreases weight(s), 1int,
{
    proof {
        lemma_weight(s);
    }
    match front(s) {
        None => Err(TextErrorView::EOF),
        Some(TokenView::CloseBracket) => Ok(advance(s)),
        Some(TokenView::Equal) => Err(TextErrorView::UnexpectedToken),
        Some(_) => match spec_skip_text(looked(s)) {
            Err(e) => Err(text_with_context(e, SKIP_CTX())),
            Ok(r) => if weight(r) < weight(s) {
                proof {
                    lemma_weight(r);
                }
                if front(r) == Some(TokenView::Equal) {
                    match spec_skip_text(advance(r)) {
                        Err(e) => Err(text_with_context(e, "While skipping KV value"@)),
                        Ok(r2) => if weight(r2) < weight(s) {
                            spec_finish_text(r2)
                        } else {
                            Err(TextErrorView::EOF)
                        },
                    }
                } else {
                    spec_finish_text(looked(r))
                }
            } else {
                Err(TextErrorView::EOF)
            },
        },
    }
}

/// Skipping a value takes at least one token.
pub proof fn lemma_skip_text_weight(s: TextState)
    ensures
        spec_skip_text(s) matches Ok(r) ==> weight(r) < weight(s),
    decreases weight(s), 0int,
{
    lemma_weight(s);
    if front(s) == Some(TokenView::OpenBracket) {
        lemma_finish_text_weight(advance(s));
    }
}

/// Skipping the rest of an object takes at least one token.
pub proof fn lemma_finish_text_weight(s: TextState)
    ensures
        spec_finish_text(s) matches Ok(r) ==> weight(r) < weight(s),
    decreases weight(s), 1int,
{
    lemma_weight(s);
    if front(s) is Some && front(s) != Some(TokenView::CloseBracket) && front(s) != Some(
        TokenView::Equal,
    ) {
        lemma_skip_text_weight(looked(s));
        if let Ok(r) = spec_skip_text(looked(s)) {
            if weight(r) < weight(s) {
                lemma_weight(r);
                if front(r) == Some(TokenView::Equal) {
                    lemma_skip_text_weight(advance(r));
                    if let Ok(r2) = spec_skip_text(advance(r)) {
                        if weight(r2) < weight(s) {
                            lemma_finish_text_weight(r2);
                        }
                    }
                } else {
                    lemma_finish_text_weight(looked(r));
                }
            }
        }
    }
}

impl SkipValue {
    /// Starting after the opening `{`, skips the rest of the current object.
    fn finish_object_text<'de>(stream: TextDeserializer<'de>) -> (res: Result<TextDeserializer<'de>, TextError>)
        ensures
            match spec_finish_text(stream@) {
                Ok(r) => res matches Ok(rest) && rest@ == r,
                Err(e) => res matches Err(e2) && e2@ == e,
            },
        decreases weight(stream@), 1int,
    {
        proof {
            lemma_weight(stream@);
            lemma_finish_text_weight(stream@);
        }
        let mut s = stream;
        let peek = match s.peek_token() {
            Some(p) => p,
            None => {
                return Err(TextError::EOF);
            },
        };
        match peek {
            TextToken::CloseBracket => {
                s.eat_token();
                proof {
                    lemma_look_keeps_stream(stream@);
                }
                return Ok(s);
            },
            TextToken::Equal => {
                return Err(TextError::UnexpectedToken);
            },
            _ => {},
        }
        proof {
            lemma_skip_text_weight(s@);
        }
        let s1 = match SkipValue::take_text(s) {
            Ok((_, rest)) => rest,
            Err(err) => {
                return Err(err.context("While skipping value or KV key"));
            },
        };
        let ghost r = s1@;
        let mut s2 = s1;
        proof {
            lemma_weight(r);
        }
        if let Some(TextToken::Equal) = s2.peek_token() {
            s2.eat_token();
            proof {
                lemma_look_keeps_stream(r);
                lemma_skip_text_weight(s2@);
            }
            let s3 = match SkipValue::take_text(s2) {
                Ok((_, rest)) => rest,
                Err(err) => {
                    return Err(err.context("While skipping KV value"));
                },
            };
            return SkipValue::finish_object_text(s3);
        }
        SkipValue::finish_object_text(s2)
    }
}

impl<'de> TextDeserialize<'de> for SkipValue {
    /// One whole value (a scalar, or an object with everything in it).
    open spec fn took(stream: TextState, rest: TextState, value: SkipValue) -> bool {
        spec_skip_text(stream) == Ok::<TextState, TextErrorView>(rest)
    }

    fn take_text(stream: TextDeserializer<'de>) -> (res: Result<(SkipValue, TextDeserializer<'de>), TextError>)
        ensures
            match spec_skip_text(stream@) {
                Ok(_) => res is Ok,
                Err(e) => res matches Err(e2) && e2@ == e,
            },
        decreases weight(stream@), 0int,
    {
        proof {
            lemma_weight(stream@);
            lemma_skip_text_weight(stream@);
        }
        let mut s = stream;
        match s.expect_token() {
            Err(e) => Err(e),
            Ok(TextToken::OpenBracket) => {
                let rest = SkipValue::finish_object_text(s)?;
                Ok((SkipValue, rest))
            },
            Ok(TextToken::CloseBracket) => Err(TextError::UnexpectedToken),
            Ok(TextToken::Equal) => Err(TextError::UnexpectedToken),
            Ok(_) => Ok((SkipValue, s)),
        }
    }
}

} // verus!

verus! {

/// A newtype for parsing a list of key-value pairs.
/// Very similar to `HashMap`, but just stored as a list of key-value pairs.
/// Also maintains order.
///
/// Strict: will error if a non-KV or non-matching type is found.
pub struct KVs<K, V> {
    inner: Vec<(K, V)>,
}

impl<K, V> KVs<K, V> {
    /// The pairs, in order.
    pub closed spec fn pairs(&self) -> Seq<(K, V)> {
        self.inner@
    }

    /// The pairs, in order.
    pub fn unwrap(self) -> (res: Vec<(K, V)>)
        ensures
            res@ == self.pairs(),
    {
        self.inner
    }
}

/// Reading the pairs `items` one after another from a token stream `s` leaves `e`: before
/// each pair the next token was looked at (and, when `bracketed`, was not a `}`); each pair
/// is a key, a `=`, and a value.
pub open spec fn text_kvs_took<'de, K: TextDeserialize<'de>, V: TextDeserialize<'de>>(
    s: TextState,
    e: TextState,
    items: Seq<(K, V)>,
    bracketed: bool,
) -> bool
    decreases items.len(),
{
    if items.len() == 0 {
        e == s
    } else {
        exists|m: TextState, m1: TextState|
            #![trigger K::took(looked(m), m1, items.last().0), V::took(advance(m1), e, items.last().1)]
            text_kvs_took(s, m, items.drop_last(), bracketed) && (bracketed ==> front(m) != Some(
                TokenView::CloseBracket,
            )) && K::took(looked(m), m1, items.last().0) && front(m1) == Some(TokenView::Equal)
                && V::took(advance(m1), e, items.last().1)
    }
}

proof fn lemma_text_kvs_push<'de, K: TextDeserialize<'de>, V: TextDeserialize<'de>>(
    s: TextState,
    m: TextState,
    m1: TextState,
    e: TextState,
    items: Seq<(K, V)>,
    k: K,
    v: V,
    bracketed: bool,
)
    requires
        text_kvs_took(s, m, items, bracketed),
        bracketed ==> front(m) != Some(TokenView::CloseBracket),
        K::took(looked(m), m1, k),
        front(m1) == Some(TokenView::Equal),
        V::took(advance(m1), e, v),
    ensures
        text_kvs_took(s, e, items.push((k, v)), bracketed),
{
    let all = items.push((k, v));
    assert(all.drop_last() =~= items);
    assert(all.last() == (k, v));
    assert(K::took(looked(m), m1, all.last().0));
    assert(V::took(advance(m1), e, all.last().1));
}

/// A key, a `=` and a value can be read from `a`.
pub open spec fn kv_step_from<'de, K: TextDeserialize<'de>, V: TextDeserialize<'de>>(a: TextState) -> bool {
    exists|m1: TextState, k: K, e: TextState, v: V|
        #![trigger K::took(looked(a), m1, k), V::took(advance(m1), e, v)]
        K::took(looked(a), m1, k) && front(m1) == Some(TokenView::Equal) && V::took(
            advance(m1),
            e,
            v,
        )
}

/// Where a run of pairs goes on: before a next token that is no `}` when `bracketed`, and
/// before any next token otherwise.
pub open spec fn kv_guard(a: TextState, bracketed: bool) -> bool {
    if bracketed {
        front(a) != Some(TokenView::CloseBracket)
    } else {
        front(a) is Some
    }
}

/// From `a` (whose next token is no `}` when `bracketed`, and exists otherwise), reading a
/// key, a `=` and a value can only leave `b`.
pub open spec fn kv_step_to<'de, K: TextDeserialize<'de>, V: TextDeserialize<'de>>(
    a: TextState,
    b: TextState,
    bracketed: bool,
) -> bool {
    &&& kv_guard(a, bracketed)
    &&& forall|m1: TextState, k: K, e: TextState, v: V|
        #![trigger K::took(looked(a), m1, k), V::took(advance(m1), e, v)]
        K::took(looked(a), m1, k) && front(m1) == Some(TokenView::Equal) && V::took(
            advance(m1),
            e,
            v,
        ) ==> e == b
}

/// The `k`th step of `ms`: a pair read from `ms[k]` can only leave `ms[k + 1]`.
pub open spec fn kv_path_step<'de, K: TextDeserialize<'de>, V: TextDeserialize<'de>>(
    ms: Seq<TextState>,
    k: int,
    bracketed: bool,
) -> bool {
    kv_step_to::<K, V>(ms[k], ms[k + 1], bracketed)
}

/// `ms` are the states that a run of pairs passes through, each step the only one possible.
pub open spec fn kv_path<'de, K: TextDeserialize<'de>, V: TextDeserialize<'de>>(
    ms: Seq<TextState>,
    bracketed: bool,
) -> bool {
    forall|k: int| 0 <= k < ms.len() - 1 ==> #[trigger] kv_path_step::<K, V>(ms, k, bracketed)
}

/// A run of pairs read from the start of a path either stops on the path, at the state after
/// as many steps as it has pairs, or goes past its last state, where a pair can be read.
proof fn lemma_kvs_on_path<'de, K: TextDeserialize<'de>, V: TextDeserialize<'de>>(
    ms: Seq<TextState>,
    e: TextState,
    items: Seq<(K, V)>,
    bracketed: bool,
)
    requires
        ms.len() >= 1,
        kv_path::<K, V>(ms, bracketed),
        text_kvs_took(ms[0], e, items, bracketed),
    ensures
        items.len() < ms.len() ==> e == ms[items.len() as int],
        items.len() >= ms.len() ==> kv_step_from::<K, V>(ms.last()) && (bracketed ==> front(
            ms.last(),
        ) != Some(TokenView::CloseBracket)),
    decreases items.len(),
{
    if items.len() > 0 {
        let (m, m1) = choose|m: TextState, m1: TextState|
            #![trigger K::took(looked(m), m1, items.last().0), V::took(advance(m1), e, items.last().1)]
            text_kvs_took(ms[0], m, items.drop_last(), bracketed) && (bracketed ==> front(m) != Some(
                TokenView::CloseBracket,
            )) && K::took(looked(m), m1, items.last().0) && front(m1) == Some(TokenView::Equal)
                && V::took(advance(m1), e, items.last().1);
        lemma_kvs_on_path(ms, m, items.drop_last(), bracketed);
        let j = items.len() - 1;
        if j < ms.len() - 1 {
            assert(kv_path_step::<K, V>(ms, j, bracketed));
        } else if j == ms.len() - 1 {
            assert(K::took(looked(ms.last()), m1, items.last().0) && V::took(
                advance(m1),
                e,
                items.last().1,
            ));
        }
    }
}

/// A path whose last state goes on but where no pair can be read: every run of pairs from
/// its start stops where the run would go on.
proof fn lemma_kvs_stuck<'de, K: TextDeserialize<'de>, V: TextDeserialize<'de>>(
    ms: Seq<TextState>,
    bracketed: bool,
)
    requires
        ms.len() >= 1,
        kv_path::<K, V>(ms, bracketed),
        kv_guard(ms.last(), bracketed),
        !kv_step_from::<K, V>(ms.last()),
    ensures
        forall|end: TextState, items: Seq<(K, V)>|
            #[trigger] text_kvs_took(ms[0], end, items, bracketed) ==> kv_guard(end, bracketed),
{
    assert forall|end: TextState, items: Seq<(K, V)>|
        #[trigger] text_kvs_took(ms[0], end, items, bracketed) implies kv_guard(end, bracketed) by {
        lemma_kvs_on_path(ms, end, items, bracketed);
        if items.len() < ms.len() - 1 {
            assert(kv_path_step::<K, V>(ms, items.len() as int, bracketed));
        }
    }
}

/// Extending a path by a step that is the only one possible from its last state.
proof fn lemma_kv_path_push<'de, K: TextDeserialize<'de>, V: TextDeserialize<'de>>(
    ms: Seq<TextState>,
    b: TextState,
    bracketed: bool,
)
    requires
        ms.len() >= 1,
        kv_path::<K, V>(ms, bracketed),
        kv_step_to::<K, V>(ms.last(), b, bracketed),
    ensures
        kv_path::<K, V>(ms.push(b), bracketed),
{
    let ms2 = ms.push(b);
    assert forall|k: int| 0 <= k < ms2.len() - 1 implies #[trigger] kv_path_step::<K, V>(
        ms2,
        k,
        bracketed,
    ) by {
        if k < ms.len() - 1 {
            assert(kv_path_step::<K, V>(ms, k, bracketed));
        }
    }
}

/// The text of a number in decimal, for an item's place in error messages.
fn item_message(prefix: &str, n: usize, suffix: &str) -> (res: String)
    ensures
        res@ == prefix@ + decimal(n as nat) + suffix@,
{
    let mut s = String::from_str(prefix);
    let d = decimal_string(n as u64);
    s.append(d.as_str());
    s.append(suffix);
    s
}

impl<'de, K: TextDeserialize<'de>, V: TextDeserialize<'de>> TextDeserialize<'de> for KVs<K, V> {
    /// A `{`, the key-value pairs, and a `}`.
    open spec fn took(stream: TextState, rest: TextState, value: KVs<K, V>) -> bool {
        front(stream) == Some(TokenView::OpenBracket) && exists|end: TextState|
            text_kvs_took(advance(stream), end, value.pairs(), true) && front(end) == Some(
                TokenView::CloseBracket,
            ) && rest == advance(end)
    }

    fn take_text(stream: TextDeserializer<'de>) -> (res: Result<(KVs<K, V>, TextDeserializer<'de>), TextError>)
        ensures
            front(stream@) != Some(TokenView::OpenBracket) ==> res is Err,
    {
        let mut s = stream;
        s.parse_token(TextToken::OpenBracket)?;
        let ghost inner = s@;
        let mut out: Vec<(K, V)> = Vec::new();
        let ghost mut ms: Seq<TextState> = seq![inner];
        proof {
            lemma_weight(stream@);
        }
        loop
            invariant
                front(stream@) == Some(TokenView::OpenBracket),
                inner == advance(stream@),
                weight(s@) <= weight(inner),
                weight(inner) < weight(stream@),
                text_kvs_took(inner, s@, out@, true),
                ms.len() == out@.len() + 1,
                ms[0] == inner,
                ms.last() == s@,
                kv_path::<K, V>(ms, true),
            decreases weight(s@),
        {
            let ghost before = s@;
            proof {
                lemma_weight(before);
            }
            if let Some(TextToken::CloseBracket) = s.peek_token() {
                s.eat_token();
                proof {
                    lemma_look_keeps_stream(before);
                    assert(KVs { inner: out }.pairs() == out@);
                    assert forall|r: TextState, w: KVs<K, V>| #[trigger]
                        Self::took(stream@, r, w) implies r == s@ by {
                        let end = choose|end: TextState|
                            text_kvs_took(advance(stream@), end, w.pairs(), true) && front(end)
                                == Some(TokenView::CloseBracket) && r == advance(end);
                        lemma_kvs_on_path(ms, end, w.pairs(), true);
                        if w.pairs().len() < out@.len() {
                            assert(kv_path_step::<K, V>(ms, w.pairs().len() as int, true));
                        }
                    }
                }
                return Ok((KVs { inner: out }, s));
            }
            let ghost items = out@;
            let (key, mut rest) = match K::take_text(s) {
                Ok(p) => p,
                Err(e) => {
                    proof {
                        assert(!kv_step_from::<K, V>(before));
                        lemma_kvs_stuck::<K, V>(ms, true);
                    }
                    let msg = item_message("While parsing key #", out.len(), " for KVs");
                    return Err(e.context(msg.as_str()));
                },
            };
            let ghost m1 = rest@;
            proof {
                lemma_weight(m1);
                lemma_look_keeps_stream(m1);
            }
            match rest.parse_token(TextToken::Equal) {
                Ok(()) => {},
                Err(e) => {
                    proof {
                        assert(!kv_step_from::<K, V>(before));
                        lemma_kvs_stuck::<K, V>(ms, true);
                    }
                    let msg = item_message("While parsing eq #", out.len(), " for KVs");
                    return Err(e.context(msg.as_str()));
                },
            }
            let (value, rest2) = match V::take_text(rest) {
                Ok(p) => p,
                Err(e) => {
                    proof {
                        assert(!kv_step_from::<K, V>(before));
                        lemma_kvs_stuck::<K, V>(ms, true);
                    }
                    let msg = item_message("While parsing value #", out.len(), " for KVs");
                    return Err(e.context(msg.as_str()));
                },
            };
            out.push((key, value));
            s = rest2;
            proof {
                lemma_text_kvs_push(inner, before, m1, s@, items, key, value, true);
                assert(items.push((key, value)) =~= out@);
                assert(kv_step_to::<K, V>(before, s@, true));
                lemma_kv_path_push::<K, V>(ms, s@, true);
                ms = ms.push(s@);
            }
        }
    }
}

/// A newtype for parsing a list of key-value pairs from an input with no outer brackets `{}`.
/// Very similar to `HashMap`.
///
/// Strict: will error if a non-KV or non-matching type is found.
pub struct UnbracketedKVs<'de, K: TextDeserialize<'de>, V: TextDeserialize<'de>> {
    inner: Vec<(K, V)>,
    _phantom: std::marker::PhantomData<&'de ()>,
}

impl<'de, K: TextDeserialize<'de>, V: TextDeserialize<'de>> UnbracketedKVs<'de, K, V> {
    /// The pairs, in order.
    pub closed spec fn pairs(&self) -> Seq<(K, V)> {
        self.inner@
    }

    /// The pairs, in order.
    pub fn unwrap(self) -> (res: Vec<(K, V)>)
        ensures
            res@ == self.pairs(),
    {
        self.inner
    }
}

impl<'de, K: TextDeserialize<'de>, V: TextDeserialize<'de>> UnbracketedKVs<'de, K, V> {
    /// Key-value pairs up to the end of the stream.
    pub open spec fn took(stream: TextState, rest: TextState, value: UnbracketedKVs<'de, K, V>) -> bool {
        exists|end: TextState|
            text_kvs_took(stream, end, value.pairs(), false) && front(end) is None && rest
                == looked(end)
    }

    /// Reads key-value pairs up to the end of the stream (none for an empty stream). This reader
    /// may take no token, so it is no [`TextDeserialize`], whose readers always take one. It
    /// fails only where no reading of pairs up to the end exists.
    pub fn take_text(stream: TextDeserializer<'de>) -> (res: Result<
        (UnbracketedKVs<'de, K, V>, TextDeserializer<'de>),
        TextError,
    >)
        ensures
            res matches Ok((v, rest)) ==> Self::took(stream@, rest@, v),
            res is Err ==> forall|r: TextState, v: UnbracketedKVs<'de, K, V>|
                !#[trigger] Self::took(stream@, r, v),
    {
        let mut s = stream;
        let mut out: Vec<(K, V)> = Vec::new();
        let ghost mut ms: Seq<TextState> = seq![stream@];
        loop
            invariant
                text_kvs_took(stream@, s@, out@, false),
                ms.len() >= 1,
                ms[0] == stream@,
                ms.last() == s@,
                kv_path::<K, V>(ms, false),
            decreases weight(s@),
        {
            let ghost before = s@;
            proof {
                lemma_weight(before);
            }
            if s.peek_token().is_none() {
                let res = UnbracketedKVs { inner: out, _phantom: std::marker::PhantomData };
                proof {
                    assert(res.pairs() == out@);
                }
                return Ok((res, s));
            }
            let ghost items = out@;
            let (key, mut rest) = match K::take_text(s) {
                Ok(p) => p,
                Err(e) => {
                    proof {
                        assert(!kv_step_from::<K, V>(before));
                        lemma_kvs_stuck::<K, V>(ms, false);
                    }
                    let msg = item_message("While parsing key #", out.len(), " for UnbracketedKVs");
                    return Err(e.context(msg.as_str()));
                },
            };
            let ghost m1 = rest@;
            proof {
                lemma_weight(m1);
                lemma_look_keeps_stream(m1);
            }
            match rest.parse_token(TextToken::Equal) {
                Ok(()) => {},
                Err(e) => {
                    proof {
                        assert(!kv_step_from::<K, V>(before));
                        lemma_kvs_stuck::<K, V>(ms, false);
                    }
                    let msg = item_message("While parsing eq #", out.len(), " for UnbracketedKVs");
                    return Err(e.context(msg.as_str()));
                },
            }
            let (value, rest2) = match V::take_text(rest) {
                Ok(p) => p,
                Err(e) => {
                    proof {
                        assert(!kv_step_from::<K, V>(before));
                        lemma_kvs_stuck::<K, V>(ms, false);
                    }
                    let msg = item_message("While parsing value #", out.len(), " for UnbracketedKVs");
                    return Err(e.context(msg.as_str()));
                },
            };
            out.push((key, value));
            s = rest2;
            proof {
                lemma_text_kvs_push(stream@, before, m1, s@, items, key, value, false);
                assert(items.push((key, value)) =~= out@);
                assert(kv_step_to::<K, V>(before, s@, false));
                lemma_kv_path_push::<K, V>(ms, s@, false);
                ms = ms.push(s@);
            }
        }
    }
}

/// An RGB color.
#[derive(Clone, Copy, Debug, PartialEq, Eq)]
pub struct Rgb(pub [u8; 3]);

impl Rgb {
    pub fn unwrap(self) -> (res: [u8; 3])
        ensures
            res == self.0,
    {
        self.0
    }
}

impl<'de> TextDeserialize<'de> for Rgb {
    /// `rgb`, then `{`, three numbers from 0 to 255, and `}`.
    open spec fn took(stream: TextState, rest: TextState, value: Rgb) -> bool {
        let s1 = advance(stream);
        let s2 = advance(s1);
        let s3 = advance(s2);
        let s4 = advance(s3);
        let s5 = advance(s4);
        &&& front(stream) == Some(TokenView::StringUnquoted("rgb".spec_bytes()))
        &&& front(s1) == Some(TokenView::OpenBracket)
        &&& spec_int_in(s2, 0, 255) == Ok::<int, TextError>(value.0[0] as int)
        &&& spec_int_in(s3, 0, 255) == Ok::<int, TextError>(value.0[1] as int)
        &&& spec_int_in(s4, 0, 255) == Ok::<int, TextError>(value.0[2] as int)
        &&& front(s5) == Some(TokenView::CloseBracket)
        &&& rest == advance(s5)
    }

    fn take_text(stream: TextDeserializer<'de>) -> (res: Result<(Rgb, TextDeserializer<'de>), TextError>) {
        let mut s = stream;
        proof {
            lemma_weight(stream@);
        }
        s.parse_token(TextToken::StringUnquoted("rgb"))?;
        let ghost s1 = s@;
        proof {
            lemma_weight(s1);
        }
        s.parse_token(TextToken::OpenBracket)?;
        let ghost s2 = s@;
        let r: u8 = match s.parse() {
            Ok(v) => v,
            Err(e) => {
                proof {
                    assert forall|rest: TextState, w: Rgb| !#[trigger] Self::took(stream@, rest, w) by {
                        if Self::took(stream@, rest, w) {
                            assert(<u8 as TextDeserialize<'de>>::took(s2, advance(s2), w.0[0]));
                        }
                    }
                }
                return Err(e);
            },
        };
        let ghost s3 = s@;
        let g: u8 = match s.parse() {
            Ok(v) => v,
            Err(e) => {
                proof {
                    assert forall|rest: TextState, w: Rgb| !#[trigger] Self::took(stream@, rest, w) by {
                        if Self::took(stream@, rest, w) {
                            assert(<u8 as TextDeserialize<'de>>::took(s3, advance(s3), w.0[1]));
                        }
                    }
                }
                return Err(e);
            },
        };
        let ghost s4 = s@;
        let b: u8 = match s.parse() {
            Ok(v) => v,
            Err(e) => {
                proof {
                    assert forall|rest: TextState, w: Rgb| !#[trigger] Self::took(stream@, rest, w) by {
                        if Self::took(stream@, rest, w) {
                            assert(<u8 as TextDeserialize<'de>>::took(s4, advance(s4), w.0[2]));
                        }
                    }
                }
                return Err(e);
            },
        };
        let ghost s5 = s@;
        proof {
            lemma_weight(s5);
        }
        s.parse_token(TextToken::CloseBracket)?;
        Ok((Rgb([r, g, b]), s))
    }
}

/// Reading the pairs `items` one after another from a binary stream `s` leaves `e`; no pair
/// starts at a `}`, and each is a key, a `=`, and a value.
pub open spec fn bin_kvs_took<'de, K: BinDeserialize<'de>, V: BinDeserialize<'de>>(
    s: BinDeserializer<'de>,
    e: BinDeserializer<'de>,
    items: Seq<(K, V)>,
) -> bool
    decreases items.len(),
{
    if items.len() == 0 {
        e == s
    } else {
        exists|m: BinDeserializer<'de>, m1: BinDeserializer<'de>, m2: BinDeserializer<'de>|
            #![trigger K::took(m, m1, items.last().0), V::took(m2, e, items.last().1)]
            bin_kvs_took(s, m, items.drop_last()) && !starts_close(m@) && kv_pair_at(
                m,
                m1,
                m2,
                e,
                items.last().0,
                items.last().1,
            ) && m.same_source(&s)
    }
}

/// From `m`, key `k` leaves `m1`, which starts with a `=`; after it, at `m2`, value `v` leaves
/// `e`; all four streams are of one source.
pub open spec fn kv_pair_at<'de, K: BinDeserialize<'de>, V: BinDeserialize<'de>>(
    m: BinDeserializer<'de>,
    m1: BinDeserializer<'de>,
    m2: BinDeserializer<'de>,
    e: BinDeserializer<'de>,
    k: K,
    v: V,
) -> bool {
    &&& K::took(m, m1, k)
    &&& m1@.len() >= 2 && le16(m1@, 0) == 0x0001
    &&& m2@ == m1@.subrange(2, m1@.len() as int)
    &&& V::took(m2, e, v)
    &&& m1.same_source(&m) && m2.same_source(&m) && e.same_source(&m)
}

/// A key, a `=` and a value can be read from `a`.
pub open spec fn bin_kv_step_from<'de, K: BinDeserialize<'de>, V: BinDeserialize<'de>>(
    a: BinDeserializer<'de>,
) -> bool {
    exists|m1: BinDeserializer<'de>, k: K, m2: BinDeserializer<'de>, e: BinDeserializer<'de>, v: V|
        #![trigger K::took(a, m1, k), V::took(m2, e, v)]
        kv_pair_at(a, m1, m2, e, k, v)
}

/// From `a`, which does not start with a `}`, reading a key, a `=` and a value can only leave
/// `b`.
pub open spec fn bin_kv_step_to<'de, K: BinDeserialize<'de>, V: BinDeserialize<'de>>(
    a: BinDeserializer<'de>,
    b: BinDeserializer<'de>,
) -> bool {
    !starts_close(a@) && forall|
        m1: BinDeserializer<'de>,
        k: K,
        m2: BinDeserializer<'de>,
        e: BinDeserializer<'de>,
        v: V,
    |
        #![trigger K::took(a, m1, k), V::took(m2, e, v)]
        kv_pair_at(a, m1, m2, e, k, v) ==> e == b
}

/// The `k`th step of `ms`: a pair read from `ms[k]` can only leave `ms[k + 1]`.
pub open spec fn bin_kv_path_step<'de, K: BinDeserialize<'de>, V: BinDeserialize<'de>>(
    ms: Seq<BinDeserializer<'de>>,
    k: int,
) -> bool {
    bin_kv_step_to::<K, V>(ms[k], ms[k + 1])
}

/// `ms` are the streams, all of one source, that a run of pairs passes through, each step the
/// only one possible.
pub open spec fn bin_kv_path<'de, K: BinDeserialize<'de>, V: BinDeserialize<'de>>(
    ms: Seq<BinDeserializer<'de>>,
) -> bool {
    &&& forall|k: int| 0 <= k < ms.len() - 1 ==> #[trigger] bin_kv_path_step::<K, V>(ms, k)
    &&& forall|k: int| 0 <= k < ms.len() ==> #[trigger] ms[k].same_source(&ms[0])
}

/// A run of pairs read from the start of a path either stops on the path, at the stream after
/// as many steps as it has pairs, or goes past its last stream, where a pair can be read.
proof fn lemma_bin_kvs_on_path<'de, K: BinDeserialize<'de>, V: BinDeserialize<'de>>(
    ms: Seq<BinDeserializer<'de>>,
    e: BinDeserializer<'de>,
    items: Seq<(K, V)>,
)
    requires
        ms.len() >= 1,
        bin_kv_path::<K, V>(ms),
        bin_kvs_took(ms[0], e, items),
    ensures
        items.len() < ms.len() ==> e == ms[items.len() as int],
        items.len() >= ms.len() ==> !starts_close(ms.last()@) && bin_kv_step_from::<K, V>(
            ms.last(),
        ),
    decreases items.len(),
{
    if items.len() > 0 {
        let (m, m1, m2) = choose|m: BinDeserializer<'de>, m1: BinDeserializer<'de>, m2: BinDeserializer<'de>|
            #![trigger K::took(m, m1, items.last().0), V::took(m2, e, items.last().1)]
            bin_kvs_took(ms[0], m, items.drop_last()) && !starts_close(m@) && kv_pair_at(
                m,
                m1,
                m2,
                e,
                items.last().0,
                items.last().1,
            ) && m.same_source(&ms[0]);
        lemma_bin_kvs_on_path(ms, m, items.drop_last());
        let j = items.len() - 1;
        if j < ms.len() - 1 {
            assert(bin_kv_path_step::<K, V>(ms, j));
        } else if j == ms.len() - 1 {
            assert(K::took(ms.last(), m1, items.last().0) && V::took(m2, e, items.last().1));
        }
    }
}

proof fn lemma_bin_kvs_push<'de, K: BinDeserialize<'de>, V: BinDeserialize<'de>>(
    s: BinDeserializer<'de>,
    m: BinDeserializer<'de>,
    m1: BinDeserializer<'de>,
    m2: BinDeserializer<'de>,
    e: BinDeserializer<'de>,
    items: Seq<(K, V)>,
    k: K,
    v: V,
)
    requires
        bin_kvs_took(s, m, items),
        !starts_close(m@),
        kv_pair_at(m, m1, m2, e, k, v),
        m.same_source(&s),
    ensures
        bin_kvs_took(s, e, items.push((k, v))),
{
    let all = items.push((k, v));
    assert(all.drop_last() =~= items);
    assert(all.last() == (k, v));
    assert(K::took(m, m1, all.last().0));
    assert(V::took(m2, e, all.last().1));
}

/// A reading of pairs in brackets from `stream`, whose inside is the start of the path, ends
/// on the path or goes past its last stream, where a pair can be read.
proof fn lemma_bin_kvs_end<'de, K: BinDeserialize<'de>, V: BinDeserialize<'de>>(
    ms: Seq<BinDeserializer<'de>>,
    stream: BinDeserializer<'de>,
    inner: BinDeserializer<'de>,
    r: BinDeserializer<'de>,
    w: KVs<K, V>,
)
    requires
        ms.len() >= 1,
        bin_kv_path::<K, V>(ms),
        ms[0] == inner,
        inner@ == stream@.subrange(2, stream@.len() as int),
        inner.same_source(&stream),
        <KVs<K, V> as BinDeserialize<'de>>::took(stream, r, w),
    ensures
        exists|end: BinDeserializer<'de>|
            starts_close(end@) && r@ == end@.subrange(2, end@.len() as int) && (w.pairs().len()
                < ms.len() ==> end == ms[w.pairs().len() as int]),
        w.pairs().len() >= ms.len() ==> !starts_close(ms.last()@) && bin_kv_step_from::<K, V>(
            ms.last(),
        ),
{
    let (inner2, end2) = choose|inner2: BinDeserializer<'de>, end2: BinDeserializer<'de>|
        inner2@ == stream@.subrange(2, stream@.len() as int) && inner2.same_source(&stream)
            && bin_kvs_took(inner2, end2, w.pairs()) && starts_close(end2@) && r@
            == end2@.subrange(2, end2@.len() as int);
    lemma_same_stream(inner2, inner);
    lemma_bin_kvs_on_path(ms, end2, w.pairs());
}

/// A path whose last stream does not start with a `}` and where no pair can be read: no
/// reading of pairs in brackets from `stream` exists.
proof fn lemma_bin_kvs_stuck<'de, K: BinDeserialize<'de>, V: BinDeserialize<'de>>(
    ms: Seq<BinDeserializer<'de>>,
    stream: BinDeserializer<'de>,
    inner: BinDeserializer<'de>,
)
    requires
        ms.len() >= 1,
        bin_kv_path::<K, V>(ms),
        ms[0] == inner,
        inner@ == stream@.subrange(2, stream@.len() as int),
        inner.same_source(&stream),
        !starts_close(ms.last()@),
        !bin_kv_step_from::<K, V>(ms.last()),
    ensures
        forall|r: BinDeserializer<'de>, w: KVs<K, V>|
            !#[trigger] <KVs<K, V> as BinDeserialize<'de>>::took(stream, r, w),
{
    assert forall|r: BinDeserializer<'de>, w: KVs<K, V>|
        !#[trigger] <KVs<K, V> as BinDeserialize<'de>>::took(stream, r, w) by {
        if <KVs<K, V> as BinDeserialize<'de>>::took(stream, r, w) {
            lemma_bin_kvs_end(ms, stream, inner, r, w);
            if w.pairs().len() < ms.len() - 1 {
                assert(bin_kv_path_step::<K, V>(ms, w.pairs().len() as int));
            }
        }
    }
}

impl<'de, K: BinDeserialize<'de>, V: BinDeserialize<'de>> BinDeserialize<'de> for KVs<K, V> {
    /// A `{`, the key-value pairs, and a `}`.
    open spec fn took(stream: BinDeserializer<'de>, rest: BinDeserializer<'de>, value: KVs<K, V>) -> bool {
        stream@.len() >= 2 && le16(stream@, 0) == 0x0003 && exists|inner: BinDeserializer<'de>, end: BinDeserializer<'de>|
            inner@ == stream@.subrange(2, stream@.len() as int) && inner.same_source(&stream)
                && bin_kvs_took(inner, end, value.pairs()) && starts_close(end@) && rest@
                == end@.subrange(2, end@.len() as int)
    }

    fn take(stream: BinDeserializer<'de>) -> (res: Result<(KVs<K, V>, BinDeserializer<'de>), BinError>)
        ensures
            !(stream@.len() >= 2 && le16(stream@, 0) == 0x0003) ==> res is Err,
    {
        let mut s = stream;
        s.parse_token(BinToken::ID_OPEN_BRACKET)?;
        let inner = s;
        let mut out: Vec<(K, V)> = Vec::new();
        let ghost mut ms: Seq<BinDeserializer<'de>> = seq![inner];
        proof {
            assert(s@.subrange(0, s@.len() as int) =~= s@);
        }
        loop
            invariant
                stream@.len() >= 2 && le16(stream@, 0) == 0x0003,
                inner@ == stream@.subrange(2, stream@.len() as int),
                inner.same_source(&stream),
                s.same_source(&stream),
                is_rest_of(s@, inner@),
                bin_kvs_took(inner, s, out@),
                ms.len() == out@.len() + 1,
                ms[0] == inner,
                ms.last() == s,
                bin_kv_path::<K, V>(ms),
            decreases s@.len(),
        {
            if let Some(t) = s.peek_token() {
                if t == BinToken::ID_CLOSE_BRACKET {
                    let end = s;
                    s.eat_token();
                    proof {
                        lemma_rest_trans(end@, inner@, stream@);
                        lemma_rest_trans(s@, end@, stream@);
                        assert(starts_close(end@));
                        assert(KVs { inner: out }.pairs() == out@);
                        assert forall|r: BinDeserializer<'de>, w: KVs<K, V>| #[trigger]
                            Self::took(stream, r, w) implies r@ == s@ by {
                            lemma_bin_kvs_end(ms, stream, inner, r, w);
                            if w.pairs().len() < out@.len() {
                                assert(bin_kv_path_step::<K, V>(ms, w.pairs().len() as int));
                            }
                        }
                    }
                    return Ok((KVs { inner: out }, s));
                }
            }
            let ghost items = out@;
            let prev = s;
            let (key, mut rest) = match K::take(s) {
                Ok(p) => p,
                Err(e) => {
                    proof {
                        lemma_bin_kvs_stuck::<K, V>(ms, stream, inner);
                    }
                    let msg = item_message("While parsing key #", out.len(), " for KVs");
                    return Err(e.context(msg.as_str()));
                },
            };
            let m1 = rest;
            match rest.parse_token(BinToken::ID_EQUAL) {
                Ok(()) => {},
                Err(e) => {
                    proof {
                        assert forall|
                            m1x: BinDeserializer<'de>,
                            kx: K,
                            m2x: BinDeserializer<'de>,
                            ex: BinDeserializer<'de>,
                            vx: V,
                        | !(#[trigger] K::took(prev, m1x, kx) && #[trigger] V::took(m2x, ex, vx)
                            && kv_pair_at(prev, m1x, m2x, ex, kx, vx)) by {
                            if K::took(prev, m1x, kx) && V::took(m2x, ex, vx) && kv_pair_at(
                                prev,
                                m1x,
                                m2x,
                                ex,
                                kx,
                                vx,
                            ) {
                                lemma_same_stream(m1x, m1);
                            }
                        }
                        lemma_bin_kvs_stuck::<K, V>(ms, stream, inner);
                    }
                    let msg = item_message("While parsing eq #", out.len(), " for KVs");
                    return Err(e.context(msg.as_str()));
                },
            }
            let m2 = rest;
            let (value, rest2) = match V::take(rest) {
                Ok(p) => p,
                Err(e) => {
                    proof {
                        assert forall|
                            m1x: BinDeserializer<'de>,
                            kx: K,
                            m2x: BinDeserializer<'de>,
                            ex: BinDeserializer<'de>,
                            vx: V,
                        | !(#[trigger] K::took(prev, m1x, kx) && #[trigger] V::took(m2x, ex, vx)
                            && kv_pair_at(prev, m1x, m2x, ex, kx, vx)) by {
                            if K::took(prev, m1x, kx) && V::took(m2x, ex, vx) && kv_pair_at(
                                prev,
                                m1x,
                                m2x,
                                ex,
                                kx,
                                vx,
                            ) {
                                lemma_same_stream(m1x, m1);
                                assert(m2x@ =~= m2@);
                                lemma_same_stream(m2x, m2);
                            }
                        }
                        lemma_bin_kvs_stuck::<K, V>(ms, stream, inner);
                    }
                    let msg = item_message("While parsing value #", out.len(), " for KVs");
                    return Err(e.context(msg.as_str()));
                },
            };
            out.push((key, value));
            s = rest2;
            proof {
                lemma_bin_kvs_push(inner, prev, m1, m2, s, items, key, value);
                assert(items.push((key, value)) =~= out@);
                lemma_rest_trans(m1@, prev@, inner@);
                lemma_rest_trans(m2@, m1@, inner@);
                lemma_rest_trans(s@, m2@, inner@);
                assert forall|
                    m1x: BinDeserializer<'de>,
                    kx: K,
                    m2x: BinDeserializer<'de>,
                    ex: BinDeserializer<'de>,
                    vx: V,
                | #![trigger K::took(prev, m1x, kx), V::took(m2x, ex, vx)]
                    kv_pair_at(prev, m1x, m2x, ex, kx, vx) implies ex == s by {
                    lemma_same_stream(m1x, m1);
                    assert(m2x@ =~= m2@);
                    lemma_same_stream(m2x, m2);
                    lemma_same_stream(ex, s);
                }
                let old_ms = ms;
                ms = ms.push(s);
                assert forall|k: int| 0 <= k < ms.len() - 1 implies #[trigger] bin_kv_path_step::<
                    K,
                    V,
                >(ms, k) by {
                    if k < old_ms.len() - 1 {
                        assert(bin_kv_path_step::<K, V>(old_ms, k));
                    }
                }
                assert forall|k: int| 0 <= k < ms.len() implies #[trigger] ms[k].same_source(
                    &ms[0],
                ) by {
                    if k < old_ms.len() {
                        assert(old_ms[k].same_source(&old_ms[0]));
                    }
                }
            }
        }
    }
}

} // verus!
