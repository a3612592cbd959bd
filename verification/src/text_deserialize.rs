//! Deserializing the text format of Paradox files from its stream of tokens.
use vstd::prelude::*;
use vstd::string::{StringExecFns, StringSliceAdditionalSpecFns};
use vstd::utf8::*;

use crate::text_lexer::{TextLexer, TextToken, TokenView, lemma_lex_next_bounds, spec_lex_next};

verus! {

broadcast use vstd::string::group_string_axioms, vstd::utf8::encode_utf8_valid_utf8,
    vstd::utf8::encode_utf8_decode_utf8;

#[derive(Debug)]
pub enum TextError {
    /// Unexpected end of file/input
    EOF,
    /// An unexpected token was received
    UnexpectedToken,
    /// Failed to decode a string
    StringDecode,
    /// The found value was not the same length as what was supposed to be strictly a
    /// fixed-size array/tuple
    UnexpectedLength,
    /// A KV was found in what was supposed to be strictly a list of values
    UnexpectedKV,
    /// An expected field was missing from a struct or similar
    MissingExpectedField,
    /// An integer overflow (or underflow) has occurred
    IntegerOverflow,
    Custom(String),
}

/// A [`TextError`] with its text as a character sequence.
pub enum TextErrorView {
    EOF,
    UnexpectedToken,
    StringDecode,
    UnexpectedLength,
    UnexpectedKV,
    MissingExpectedField,
    IntegerOverflow,
    Custom(Seq<char>),
}

impl View for TextError {
    type V = TextErrorView;

    open spec fn view(&self) -> TextErrorView {
        match self {
            TextError::EOF => TextErrorView::EOF,
            TextError::UnexpectedToken => TextErrorView::UnexpectedToken,
            TextError::StringDecode => TextErrorView::StringDecode,
            TextError::UnexpectedLength => TextErrorView::UnexpectedLength,
            TextError::UnexpectedKV => TextErrorView::UnexpectedKV,
            TextError::MissingExpectedField => TextErrorView::MissingExpectedField,
            TextError::IntegerOverflow => TextErrorView::IntegerOverflow,
            TextError::Custom(m) => TextErrorView::Custom(m@),
        }
    }
}

impl TextErrorView {
    /// The text that describes the error.
    pub open spec fn message(self) -> Seq<char> {
        match self {
            TextErrorView::EOF => "Unexpected end of file/input"@,
            TextErrorView::UnexpectedToken => "Unexpected token recieved"@,
            TextErrorView::StringDecode => "Failed to decode string parse"@,
            TextErrorView::UnexpectedLength => "The found value was not the same length as what was supposed to be strictly a fixed-size array/tuple"@,
            TextErrorView::UnexpectedKV => "A KV was found in what was supposted to be strictly a list of values"@,
            TextErrorView::MissingExpectedField => "An expected field was missing from a struct or similar."@,
            TextErrorView::IntegerOverflow => "An integer overflow (or underflow) has occurred."@,
            TextErrorView::Custom(m) => m,
        }
    }
}

/// `e` as a custom error whose text is `ctx`, `:`, a line break, and `e`'s own text.
pub open spec fn text_with_context(e: TextErrorView, ctx: Seq<char>) -> TextErrorView {
    TextErrorView::Custom(ctx + ":\n"@ + e.message())
}

impl TextError {
    /// The text that describes the error.
    pub open spec fn spec_message(&self) -> Seq<char> {
        self@.message()
    }

    /// The text that describes the error.
    pub fn message(&self) -> (res: String)
        ensures
            res@ == self.spec_message(),
    {
        match self {
            TextError::EOF => String::from_str("Unexpected end of file/input"),
            TextError::UnexpectedToken => String::from_str("Unexpected token recieved"),
            TextError::StringDecode => String::from_str("Failed to decode string parse"),
            TextError::UnexpectedLength => String::from_str(
                "The found value was not the same length as what was supposed to be strictly a fixed-size array/tuple",
            ),
            TextError::UnexpectedKV => String::from_str(
                "A KV was found in what was supposted to be strictly a list of values",
            ),
            TextError::MissingExpectedField => String::from_str(
                "An expected field was missing from a struct or similar.",
            ),
            TextError::IntegerOverflow => String::from_str(
                "An integer overflow (or underflow) has occurred.",
            ),
            TextError::Custom(m) => m.clone(),
        }
    }

    /// The error as a [`TextError::Custom`] whose text is `context`, `:`, a line break, and
    /// the error's own text.
    pub fn context(self, context: &str) -> (res: Self)
        ensures
            res matches TextError::Custom(m) && m@ == context@ + ":\n"@ + self.spec_message(),
    {
        let mut s = String::from_str(context);
        s.append(":\n");
        let m = self.message();
        s.append(m.as_str());
        TextError::Custom(s)
    }
}

/// Where a token stream stands: the text still to be lexed, and what was already looked at
/// without being read (`Some(None)` when looking found no token).
pub struct TextState {
    pub rest: Seq<u8>,
    pub peeked: Option<Option<TokenView>>,
}

/// The token that reading would give next.
pub open spec fn front(s: TextState) -> Option<TokenView> {
    match s.peeked {
        Some(t) => t,
        None => spec_lex_next(s.rest).1,
    }
}

/// The stream after reading one token.
pub open spec fn advance(s: TextState) -> TextState {
    match s.peeked {
        Some(_) => TextState { rest: s.rest, peeked: None },
        None => TextState {
            rest: s.rest.subrange(spec_lex_next(s.rest).0, s.rest.len() as int),
            peeked: None,
        },
    }
}

/// The stream after looking at its next token.
pub open spec fn looked(s: TextState) -> TextState {
    match s.peeked {
        Some(_) => s,
        None => TextState {
            rest: s.rest.subrange(spec_lex_next(s.rest).0, s.rest.len() as int),
            peeked: Some(spec_lex_next(s.rest).1),
        },
    }
}

/// A measure of what is left in a stream, which reading a token lowers.
pub open spec fn weight(s: TextState) -> int {
    2 * s.rest.len() + if s.peeked matches Some(Some(_)) {
        1int
    } else {
        0int
    }
}

/// An optional token by its view.
pub open spec fn opt_token(t: Option<TextToken>) -> Option<TokenView> {
    match t {
        Some(x) => Some(x@),
        None => None,
    }
}

/// Looking at the next token changes neither what is read next nor what is left after it.
pub proof fn lemma_look_keeps_stream(s: TextState)
    ensures
        front(looked(s)) == front(s),
        advance(looked(s)) == advance(s),
        looked(looked(s)) == looked(s),
{
}

/// Looking never adds to the stream, and reading a token takes from it.
pub proof fn lemma_weight(s: TextState)
    ensures
        0 <= weight(looked(s)) <= weight(s),
        front(s) is Some ==> 0 <= weight(advance(s)) < weight(s),
{
    lemma_lex_next_bounds(s.rest);
}

/// A reader of tokens from text, with one token of look-ahead.
#[derive(Clone, Copy)]
pub struct TextDeserializer<'de> {
    lexer: TextLexer<'de>,
    peeked: Option<Option<TextToken<'de>>>,
}

impl<'de> View for TextDeserializer<'de> {
    type V = TextState;

    closed spec fn view(&self) -> TextState {
        TextState {
            rest: self.lexer@,
            peeked: match self.peeked {
                Some(t) => Some(opt_token(t)),
                None => None,
            },
        }
    }
}

impl<'de> TextDeserializer<'de> {
    pub fn from_str(input: &'de str) -> (res: Self)
        ensures
            res@ == (TextState { rest: input.spec_bytes(), peeked: None }),
    {
        TextDeserializer { lexer: TextLexer::new(input), peeked: None }
    }

    /// The next token, without reading it.
    pub fn peek_token(&mut self) -> (res: Option<TextToken<'de>>)
        ensures
            opt_token(res) == front(old(self)@),
            final(self)@ == looked(old(self)@),
    {
        match self.peeked {
            Some(t) => t,
            None => {
                let t = self.lexer.next();
                self.peeked = Some(t);
                t
            },
        }
    }

    /// Reads past the next token. Does nothing if at EOF.
    pub fn eat_token(&mut self)
        ensures
            final(self)@ == advance(old(self)@),
    {
        let _ = self.next_token();
    }

    /// Reads the next token.
    pub fn next_token(&mut self) -> (res: Option<TextToken<'de>>)
        ensures
            opt_token(res) == front(old(self)@),
            final(self)@ == advance(old(self)@),
    {
        match self.peeked {
            Some(t) => {
                self.peeked = None;
                t
            },
            None => self.lexer.next(),
        }
    }

    /// `peek_token` except it returns [`TextError::EOF`] if not found.
    pub fn expect_peek_token(&mut self) -> (res: Result<TextToken<'de>, TextError>)
        ensures
            match front(old(self)@) {
                Some(t) => res matches Ok(r) && r@ == t,
                None => res matches Err(TextError::EOF),
            },
            final(self)@ == looked(old(self)@),
    {
        match self.peek_token() {
            Some(t) => Ok(t),
            None => Err(TextError::EOF),
        }
    }

    /// `next_token` except it returns [`TextError::EOF`] if not found.
    pub fn expect_token(&mut self) -> (res: Result<TextToken<'de>, TextError>)
        ensures
            match front(old(self)@) {
                Some(t) => res matches Ok(r) && r@ == t,
                None => res matches Err(TextError::EOF),
            },
            final(self)@ == advance(old(self)@),
    {
        match self.next_token() {
            Some(t) => Ok(t),
            None => Err(TextError::EOF),
        }
    }

    /// Expects the next token to be `token`, and reads past it.
    ///
    /// Will not consume any tokens on failure.
    pub fn parse_token(&mut self, token: TextToken<'de>) -> (res: Result<(), TextError>)
        ensures
            match front(old(self)@) {
                None => res matches Err(TextError::EOF),
                Some(t) => if t == token@ {
                    res is Ok
                } else {
                    res matches Err(TextError::UnexpectedToken)
                },
            },
            final(self)@ == (if res is Ok {
                advance(old(self)@)
            } else {
                looked(old(self)@)
            }),
    {
        let peeked = match self.peek_token() {
            Some(t) => t,
            None => {
                return Err(TextError::EOF);
            },
        };
        if token.same(&peeked) {
            self.eat_token();
            Ok(())
        } else {
            Err(TextError::UnexpectedToken)
        }
    }

    /// Reads a `T` from the stream; on failure the stream is left as it was. It fails only
    /// where no reading of a `T` exists, and leaves the only rest that a reading can leave.
    pub fn parse<T: TextDeserialize<'de>>(&mut self) -> (res: Result<T, TextError>)
        ensures
            match res {
                Ok(v) => T::took(old(self)@, final(self)@, v),
                Err(_) => final(self)@ == old(self)@,
            },
            res is Ok ==> weight(final(self)@) < weight(old(self)@),
            res is Ok ==> forall|r: TextState, w: T|
                #[trigger] T::took(old(self)@, r, w) ==> r == final(self)@,
            res is Err ==> forall|r: TextState, w: T| !#[trigger] T::took(old(self)@, r, w),
    {
        match T::take_text(*self) {
            Ok((value, rest)) => {
                *self = rest;
                Ok(value)
            },
            Err(e) => Err(e),
        }
    }
}

/// A type that can be read from a stream of text tokens.
pub trait TextDeserialize<'de>: Sized {
    /// Reading `value` from `stream` leaves `rest` (a description of a successful read).
    spec fn took(stream: TextState, rest: TextState, value: Self) -> bool;

    /// Reads a value from the front of `stream`; returns it and the rest of the stream. A
    /// successful read takes at least one token and leaves the only rest that a reading can
    /// leave; a read fails only where no reading of a value exists.
    fn take_text(stream: TextDeserializer<'de>) -> (res: Result<(Self, TextDeserializer<'de>), TextError>)
        ensures
            res matches Ok((v, rest)) ==> Self::took(stream@, rest@, v) && weight(rest@) < weight(
                stream@,
            ),
            res matches Ok((_, rest)) ==> forall|r: TextState, w: Self|
                #[trigger] Self::took(stream@, r, w) ==> r == rest@,
            res is Err ==> forall|r: TextState, w: Self| !#[trigger] Self::took(stream@, r, w),
    ;
}

/// A type that can be read from a stream of text tokens with the help of a value of type `W`.
pub trait TextDeserializeWith<'de, W>: Sized {
    fn take_with(stream: TextDeserializer<'de>, with: W) -> Result<(Self, TextDeserializer<'de>), TextError>;
}

} // verus!

verus! {

impl<'de> TextDeserialize<'de> for bool {
    open spec fn took(stream: TextState, rest: TextState, value: bool) -> bool {
        front(stream) == Some(TokenView::Bool(value)) && rest == advance(stream)
    }

    fn take_text(stream: TextDeserializer<'de>) -> (res: Result<(bool, TextDeserializer<'de>), TextError>)
        ensures
            match front(stream@) {
                None => res matches Err(TextError::EOF),
                Some(TokenView::Bool(b)) => res matches Ok((v, _)) && v == b,
                Some(_) => res matches Err(TextError::UnexpectedToken),
            },
    {
        proof {
            lemma_weight(stream@);
        }
        let mut s = stream;
        match s.expect_token()? {
            TextToken::Bool(out) => Ok((out, s)),
            _ => Err(TextError::UnexpectedToken),
        }
    }
}

/// The number an integer token holds.
pub open spec fn token_int(t: TokenView) -> Option<int> {
    match t {
        TokenView::Int(n) => Some(n as int),
        TokenView::UInt(n) => Some(n as int),
        _ => None,
    }
}

/// Reading an integer token from `s` for a type whose values run from `lo` to `hi`.
pub open spec fn spec_int_in(s: TextState, lo: int, hi: int) -> Result<int, TextError> {
    match front(s) {
        None => Err(TextError::EOF),
        Some(t) => match token_int(t) {
            None => Err(TextError::UnexpectedToken),
            Some(n) => if lo <= n <= hi {
                Ok(n)
            } else {
                Err(TextError::IntegerOverflow)
            },
        },
    }
}

/// Reads an integer token whose number lies in `lo..=hi`.
fn take_int<'de>(stream: TextDeserializer<'de>, lo: i128, hi: i128) -> (res: Result<
    (i128, TextDeserializer<'de>),
    TextError,
>)
    ensures
        match spec_int_in(stream@, lo as int, hi as int) {
            Ok(n) => res matches Ok((v, rest)) && v == n && rest@ == advance(stream@) && weight(
                rest@,
            ) < weight(stream@),
            Err(e) => res matches Err(e2) && e2 == e,
        },
{
    proof {
        lemma_weight(stream@);
    }
    let mut s = stream;
    let n: i128 = match s.expect_token()? {
        TextToken::Int(out) => out as i128,
        TextToken::UInt(out) => out as i128,
        _ => {
            return Err(TextError::UnexpectedToken);
        },
    };
    if n < lo || n > hi {
        return Err(TextError::IntegerOverflow);
    }
    Ok((n, s))
}

impl<'de> TextDeserialize<'de> for i8 {
    open spec fn took(stream: TextState, rest: TextState, value: i8) -> bool {
        spec_int_in(stream, i8::MIN as int, i8::MAX as int) == Ok::<int, TextError>(value as int)
            && rest == advance(stream)
    }

    fn take_text(stream: TextDeserializer<'de>) -> (res: Result<(i8, TextDeserializer<'de>), TextError>)
        ensures
            match spec_int_in(stream@, i8::MIN as int, i8::MAX as int) {
                Ok(_) => res is Ok,
                Err(e) => res matches Err(e2) && e2 == e,
            },
    {
        let (v, rest) = take_int(stream, i8::MIN as i128, i8::MAX as i128)?;
        Ok((v as i8, rest))
    }
}

impl<'de> TextDeserialize<'de> for i16 {
    open spec fn took(stream: TextState, rest: TextState, value: i16) -> bool {
        spec_int_in(stream, i16::MIN as int, i16::MAX as int) == Ok::<int, TextError>(value as int)
            && rest == advance(stream)
    }

    fn take_text(stream: TextDeserializer<'de>) -> (res: Result<(i16, TextDeserializer<'de>), TextError>)
        ensures
            match spec_int_in(stream@, i16::MIN as int, i16::MAX as int) {
                Ok(_) => res is Ok,
                Err(e) => res matches Err(e2) && e2 == e,
            },
    {
        let (v, rest) = take_int(stream, i16::MIN as i128, i16::MAX as i128)?;
        Ok((v as i16, rest))
    }
}

impl<'de> TextDeserialize<'de> for i32 {
    open spec fn took(stream: TextState, rest: TextState, value: i32) -> bool {
        spec_int_in(stream, i32::MIN as int, i32::MAX as int) == Ok::<int, TextError>(value as int)
            && rest == advance(stream)
    }

    fn take_text(stream: TextDeserializer<'de>) -> (res: Result<(i32, TextDeserializer<'de>), TextError>)
        ensures
            match spec_int_in(stream@, i32::MIN as int, i32::MAX as int) {
                Ok(_) => res is Ok,
                Err(e) => res matches Err(e2) && e2 == e,
            },
    {
        let (v, rest) = take_int(stream, i32::MIN as i128, i32::MAX as i128)?;
        Ok((v as i32, rest))
    }
}

impl<'de> TextDeserialize<'de> for i64 {
    open spec fn took(stream: TextState, rest: TextState, value: i64) -> bool {
        spec_int_in(stream, i64::MIN as int, i64::MAX as int) == Ok::<int, TextError>(value as int)
            && rest == advance(stream)
    }

    fn take_text(stream: TextDeserializer<'de>) -> (res: Result<(i64, TextDeserializer<'de>), TextError>)
        ensures
            match spec_int_in(stream@, i64::MIN as int, i64::MAX as int) {
                Ok(_) => res is Ok,
                Err(e) => res matches Err(e2) && e2 == e,
            },
    {
        let (v, rest) = take_int(stream, i64::MIN as i128, i64::MAX as i128)?;
        Ok((v as i64, rest))
    }
}

impl<'de> TextDeserialize<'de> for u8 {
    open spec fn took(stream: TextState, rest: TextState, value: u8) -> bool {
        spec_int_in(stream, 0, u8::MAX as int) == Ok::<int, TextError>(value as int) && rest
            == advance(stream)
    }

    fn take_text(stream: TextDeserializer<'de>) -> (res: Result<(u8, TextDeserializer<'de>), TextError>)
        ensures
            match spec_int_in(stream@, 0, u8::MAX as int) {
                Ok(_) => res is Ok,
                Err(e) => res matches Err(e2) && e2 == e,
            },
    {
        let (v, rest) = take_int(stream, 0, u8::MAX as i128)?;
        Ok((v as u8, rest))
    }
}

impl<'de> TextDeserialize<'de> for u16 {
    open spec fn took(stream: TextState, rest: TextState, value: u16) -> bool {
        spec_int_in(stream, 0, u16::MAX as int) == Ok::<int, TextError>(value as int) && rest
            == advance(stream)
    }

    fn take_text(stream: TextDeserializer<'de>) -> (res: Result<(u16, TextDeserializer<'de>), TextError>)
        ensures
            match spec_int_in(stream@, 0, u16::MAX as int) {
                Ok(_) => res is Ok,
                Err(e) => res matches Err(e2) && e2 == e,
            },
    {
        let (v, rest) = take_int(stream, 0, u16::MAX as i128)?;
        Ok((v as u16, rest))
    }
}

impl<'de> TextDeserialize<'de> for u32 {
    open spec fn took(stream: TextState, rest: TextState, value: u32) -> bool {
        spec_int_in(stream, 0, u32::MAX as int) == Ok::<int, TextError>(value as int) && rest
            == advance(stream)
    }

    fn take_text(stream: TextDeserializer<'de>) -> (res: Result<(u32, TextDeserializer<'de>), TextError>)
        ensures
            match spec_int_in(stream@, 0, u32::MAX as int) {
                Ok(_) => res is Ok,
                Err(e) => res matches Err(e2) && e2 == e,
            },
    {
        let (v, rest) = take_int(stream, 0, u32::MAX as i128)?;
        Ok((v as u32, rest))
    }
}

impl<'de> TextDeserialize<'de> for u64 {
    open spec fn took(stream: TextState, rest: TextState, value: u64) -> bool {
        spec_int_in(stream, 0, u64::MAX as int) == Ok::<int, TextError>(value as int) && rest
            == advance(stream)
    }

    fn take_text(stream: TextDeserializer<'de>) -> (res: Result<(u64, TextDeserializer<'de>), TextError>)
        ensures
            match spec_int_in(stream@, 0, u64::MAX as int) {
                Ok(_) => res is Ok,
                Err(e) => res matches Err(e2) && e2 == e,
            },
    {
        let (v, rest) = take_int(stream, 0, u64::MAX as i128)?;
        Ok((v as u64, rest))
    }
}

/// The text of a quoted or unquoted string token.
pub open spec fn token_text(t: TokenView) -> Option<Seq<u8>> {
    match t {
        TokenView::StringQuoted(b) => Some(b),
        TokenView::StringUnquoted(b) => Some(b),
        _ => None,
    }
}

impl<'de> TextDeserialize<'de> for &'de str {
    open spec fn took(stream: TextState, rest: TextState, value: &'de str) -> bool {
        front(stream) matches Some(t) && token_text(t) == Some(value.spec_bytes()) && rest
            == advance(stream)
    }

    fn take_text(stream: TextDeserializer<'de>) -> (res: Result<(&'de str, TextDeserializer<'de>), TextError>)
        ensures
            match front(stream@) {
                None => res matches Err(TextError::EOF),
                Some(t) => match token_text(t) {
                    Some(_) => res is Ok,
                    None => res matches Err(TextError::UnexpectedToken),
                },
            },
    {
        proof {
            lemma_weight(stream@);
        }
        let mut s = stream;
        match s.expect_token()? {
            TextToken::StringQuoted(out) => Ok((out, s)),
            TextToken::StringUnquoted(out) => Ok((out, s)),
            _ => Err(TextError::UnexpectedToken),
        }
    }
}

impl<'de> TextDeserialize<'de> for String {
    open spec fn took(stream: TextState, rest: TextState, value: String) -> bool {
        front(stream) matches Some(t) && token_text(t) == Some(encode_utf8(value@)) && rest
            == advance(stream)
    }

    fn take_text(stream: TextDeserializer<'de>) -> (res: Result<(String, TextDeserializer<'de>), TextError>)
        ensures
            match front(stream@) {
                None => res matches Err(TextError::EOF),
                Some(t) => match token_text(t) {
                    Some(_) => res is Ok,
                    None => res matches Err(TextError::UnexpectedToken),
                },
            },
    {
        let (text, rest) = <&'de str as TextDeserialize<'de>>::take_text(stream)?;
        Ok((text.to_string(), rest))
    }
}

/// Reading `items` one after another from `s` leaves `e`; before each item the next token was
/// looked at, and it was not a `}`.
pub open spec fn items_took<'de, T: TextDeserialize<'de>>(s: TextState, e: TextState, items: Seq<T>) -> bool
    decreases items.len(),
{
    if items.len() == 0 {
        e == s
    } else {
        exists|m: TextState|
            #![trigger T::took(looked(m), e, items.last())]
            items_took(s, m, items.drop_last()) && front(m) != Some(TokenView::CloseBracket)
                && T::took(looked(m), e, items.last())
    }
}

/// Reading one more item extends a run of items.
pub proof fn lemma_items_took_push<'de, T: TextDeserialize<'de>>(
    s: TextState,
    m: TextState,
    e: TextState,
    items: Seq<T>,
    item: T,
)
    requires
        items_took(s, m, items),
        front(m) != Some(TokenView::CloseBracket),
        T::took(looked(m), e, item),
    ensures
        items_took(s, e, items.push(item)),
{
    assert(items.push(item).drop_last() =~= items);
    assert(items.push(item).last() == item);
}

/// From `a`, whose next token is no `}`, reading an item can only leave `b`.
pub open spec fn item_step_to<'de, T: TextDeserialize<'de>>(a: TextState, b: TextState) -> bool {
    front(a) != Some(TokenView::CloseBracket) && forall|r: TextState, w: T|
        #[trigger] T::took(looked(a), r, w) ==> r == b
}

/// The `k`th step of `ms`: reading an item from `ms[k]` can only leave `ms[k + 1]`.
pub open spec fn item_path_step<'de, T: TextDeserialize<'de>>(ms: Seq<TextState>, k: int) -> bool {
    item_step_to::<T>(ms[k], ms[k + 1])
}

/// `ms` are the states that a run of items passes through, each step the only one possible.
pub open spec fn item_path<'de, T: TextDeserialize<'de>>(ms: Seq<TextState>) -> bool {
    forall|k: int| 0 <= k < ms.len() - 1 ==> #[trigger] item_path_step::<T>(ms, k)
}

/// A run of items read from the start of a path either stops on the path, at the state after
/// as many steps as it has items, or goes past its last state, where an item can be read.
pub proof fn lemma_items_on_path<'de, T: TextDeserialize<'de>>(
    ms: Seq<TextState>,
    e: TextState,
    items: Seq<T>,
)
    requires
        ms.len() >= 1,
        item_path::<T>(ms),
        items_took(ms[0], e, items),
    ensures
        items.len() < ms.len() ==> e == ms[items.len() as int],
        items.len() >= ms.len() ==> front(ms.last()) != Some(TokenView::CloseBracket) && exists|
            r: TextState,
            w: T,
        | #[trigger] T::took(looked(ms.last()), r, w),
    decreases items.len(),
{
    if items.len() > 0 {
        let m = choose|m: TextState|
            #![trigger T::took(looked(m), e, items.last())]
            items_took(ms[0], m, items.drop_last()) && front(m) != Some(TokenView::CloseBracket)
                && T::took(looked(m), e, items.last());
        lemma_items_on_path(ms, m, items.drop_last());
        let j = items.len() - 1;
        if j < ms.len() - 1 {
            assert(item_path_step::<T>(ms, j));
        } else if j == ms.len() - 1 {
            assert(T::took(looked(ms.last()), e, items.last()));
        }
    }
}

impl<'de, T: TextDeserialize<'de>> TextDeserialize<'de> for Vec<T> {
    /// A `{`, the items, and a `}`.
    open spec fn took(stream: TextState, rest: TextState, value: Vec<T>) -> bool {
        front(stream) == Some(TokenView::OpenBracket) && exists|end: TextState|
            items_took(advance(stream), end, value@) && front(end) == Some(
                TokenView::CloseBracket,
            ) && rest == advance(end)
    }

    /// Strict: will error if a KV or non-matching type is found.
    fn take_text(stream: TextDeserializer<'de>) -> (res: Result<(Vec<T>, TextDeserializer<'de>), TextError>)
        ensures
            front(stream@) != Some(TokenView::OpenBracket) ==> res is Err,
    {
        let mut s = stream;
        s.parse_token(TextToken::OpenBracket)?;
        let ghost inner = s@;
        let mut out: Vec<T> = Vec::new();
        let ghost mut ms: Seq<TextState> = seq![inner];
        proof {
            lemma_weight(stream@);
        }
        loop
            invariant
                front(stream@) == Some(TokenView::OpenBracket),
                inner == advance(stream@),
                weight(s@) <= weight(inner),
                weight(inner) < weight(stream@),
                items_took(inner, s@, out@),
                ms.len() == out@.len() + 1,
                ms[0] == inner,
                ms.last() == s@,
                item_path::<T>(ms),
            decreases weight(s@),
        {
            let ghost before = s@;
            proof {
                lemma_weight(before);
            }
            if let Some(TextToken::CloseBracket) = s.peek_token() {
                s.eat_token();
                proof {
                    lemma_look_keeps_stream(before);
                    assert forall|r: TextState, w: Vec<T>| #[trigger]
                        Self::took(stream@, r, w) implies r == s@ by {
                        let end = choose|end: TextState|
                            items_took(advance(stream@), end, w@) && front(end) == Some(
                                TokenView::CloseBracket,
                            ) && r == advance(end);
                        lemma_items_on_path(ms, end, w@);
                        if w@.len() < out@.len() {
                            assert(item_path_step::<T>(ms, w@.len() as int));
                        }
                    }
                }
                return Ok((out, s));
            }
            let ghost items = out@;
            match T::take_text(s) {
                Ok((item, rest)) => {
                    out.push(item);
                    s = rest;
                    proof {
                        lemma_items_took_push(inner, before, s@, items, item);
                        assert(items.push(item) =~= out@);
                        let old_ms = ms;
                        ms = ms.push(s@);
                        assert forall|k: int| 0 <= k < ms.len() - 1 implies #[trigger]
                            item_path_step::<T>(ms, k) by {
                            if k < old_ms.len() - 1 {
                                assert(item_path_step::<T>(old_ms, k));
                            }
                        }
                    }
                },
                Err(e) => {
                    proof {
                        assert forall|r: TextState, w: Vec<T>| !#[trigger]
                            Self::took(stream@, r, w) by {
                            if Self::took(stream@, r, w) {
                                let end = choose|end: TextState|
                                    items_took(advance(stream@), end, w@) && front(end) == Some(
                                        TokenView::CloseBracket,
                                    ) && r == advance(end);
                                lemma_items_on_path(ms, end, w@);
                                if w@.len() < out@.len() {
                                    assert(item_path_step::<T>(ms, w@.len() as int));
                                }
                            }
                        }
                    }
                    return Err(e);
                },
            }
        }
    }
}

} // verus!
