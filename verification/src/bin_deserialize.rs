//! Deserializing the binary format of Paradox save files: a stream of 2-byte little-endian
//! tokens, some followed by a payload.
use vstd::prelude::*;
use vstd::utf8::*;
use vstd::string::{StringExecFns, StringSliceAdditionalSpecFns};

use crate::bin_lexer::BinToken;
use crate::strings_resolver::{StringsResolver, str_from_utf8};
use crate::text_util::{concat_str, decimal_string};

verus! {

broadcast use vstd::string::group_string_axioms, vstd::utf8::encode_utf8_valid_utf8,
    vstd::utf8::encode_utf8_decode_utf8;

#[derive(Debug)]
pub enum BinError {
    /// Unexpected end of file/input
    EOF,
    /// An unexpected token was received
    UnexpectedToken(u16),
    /// The received binary token was unknown
    UnknownToken,
    /// Failed to decode a string
    StringDecode,
    /// The found value was not the same length as what was supposed to be strictly a
    /// fixed-size array/tuple
    UnexpectedLength,
    /// A KV was found in what was supposed to be strictly a list of values
    UnexpectedKV,
    /// An expected field was missing from a struct or similar
    MissingExpectedField(String),
    Custom(String),
}

/// A [`BinError`] with its texts as character sequences.
pub enum BinErrorView {
    EOF,
    UnexpectedToken(u16),
    UnknownToken,
    StringDecode,
    UnexpectedLength,
    UnexpectedKV,
    MissingExpectedField(Seq<char>),
    Custom(Seq<char>),
}

impl View for BinError {
    type V = BinErrorView;

    open spec fn view(&self) -> BinErrorView {
        match self {
            BinError::EOF => BinErrorView::EOF,
            BinError::UnexpectedToken(t) => BinErrorView::UnexpectedToken(*t),
            BinError::UnknownToken => BinErrorView::UnknownToken,
            BinError::StringDecode => BinErrorView::StringDecode,
            BinError::UnexpectedLength => BinErrorView::UnexpectedLength,
            BinError::UnexpectedKV => BinErrorView::UnexpectedKV,
            BinError::MissingExpectedField(f) => BinErrorView::MissingExpectedField(f@),
            BinError::Custom(m) => BinErrorView::Custom(m@),
        }
    }
}

impl BinErrorView {
    /// The text that describes the error.
    pub open spec fn message(self) -> Seq<char> {
        match self {
            BinErrorView::EOF => "Unexpected end of file/input"@,
            BinErrorView::UnexpectedToken(t) => "Unexpected token 0x"@ + hex4(t) + " ("@ + match BinToken::spec_base_token_repr(t) {
                Some(name) => name,
                None => "???"@,
            } + ") recieved"@,
            BinErrorView::UnknownToken => "Recieved binary token was unknown"@,
            BinErrorView::StringDecode => "Failed to decode string parse"@,
            BinErrorView::UnexpectedLength => "The found value was not the same length as what was supposed to be strictly a fixed-size array/tuple"@,
            BinErrorView::UnexpectedKV => "A KV was found in what was supposted to be strictly a list of values"@,
            BinErrorView::MissingExpectedField(f) => "An expected field '"@ + f + "' was missing from a struct or similar."@,
            BinErrorView::Custom(m) => m,
        }
    }
}

/// Hexadecimal digit `d` (below 16), lowercase.
pub open spec fn hex_digit(d: int) -> char {
    if d < 10 {
        ((d + 0x30) as u8) as char
    } else {
        ((d - 10 + 0x61) as u8) as char
    }
}

/// `v` as four lowercase hexadecimal digits.
pub open spec fn hex4(v: u16) -> Seq<char> {
    seq![
        hex_digit((v / 4096) as int),
        hex_digit((v / 256 % 16) as int),
        hex_digit((v / 16 % 16) as int),
        hex_digit((v % 16) as int),
    ]
}

fn hex_digit_str(d: u16) -> (res: &'static str)
    requires
        d < 16,
    ensures
        res@ == seq![hex_digit(d as int)],
{
    let r = match d {
        0 => "0",
        1 => "1",
        2 => "2",
        3 => "3",
        4 => "4",
        5 => "5",
        6 => "6",
        7 => "7",
        8 => "8",
        9 => "9",
        10 => "a",
        11 => "b",
        12 => "c",
        13 => "d",
        14 => "e",
        _ => "f",
    };
    proof {
        reveal_strlit("0");
        reveal_strlit("1");
        reveal_strlit("2");
        reveal_strlit("3");
        reveal_strlit("4");
        reveal_strlit("5");
        reveal_strlit("6");
        reveal_strlit("7");
        reveal_strlit("8");
        reveal_strlit("9");
        reveal_strlit("a");
        reveal_strlit("b");
        reveal_strlit("c");
        reveal_strlit("d");
        reveal_strlit("e");
        reveal_strlit("f");
    }
    r
}

impl BinError {
    /// The text that describes the error.
    pub open spec fn spec_message(&self) -> Seq<char> {
        self@.message()
    }

    /// The text that describes the error.
    pub fn message(&self) -> (res: String)
        ensures
            res@ == self.spec_message(),
    {
        match self {
            BinError::EOF => String::from_str("Unexpected end of file/input"),
            BinError::UnexpectedToken(t) => {
                let mut s = String::from_str("Unexpected token 0x");
                s.append(hex_digit_str(*t / 4096));
                s.append(hex_digit_str(*t / 256 % 16));
                s.append(hex_digit_str(*t / 16 % 16));
                s.append(hex_digit_str(*t % 16));
                s.append(" (");
                match BinToken::base_token_repr(*t) {
                    Some(name) => s.append(name),
                    None => s.append("???"),
                }
                s.append(") recieved");
                proof {
                    assert(s@ =~= self.spec_message());
                }
                s
            },
            BinError::UnknownToken => String::from_str("Recieved binary token was unknown"),
            BinError::StringDecode => String::from_str("Failed to decode string parse"),
            BinError::UnexpectedLength => String::from_str(
                "The found value was not the same length as what was supposed to be strictly a fixed-size array/tuple",
            ),
            BinError::UnexpectedKV => String::from_str(
                "A KV was found in what was supposted to be strictly a list of values",
            ),
            BinError::MissingExpectedField(f) => {
                let mut s = String::from_str("An expected field '");
                s.append(f.as_str());
                s.append("' was missing from a struct or similar.");
                s
            },
            BinError::Custom(m) => m.clone(),
        }
    }

    /// The error as a [`BinError::Custom`] whose text is `context`, `:`, a line break, and the
    /// error's own text.
    pub fn context(self, context: &str) -> (res: Self)
        ensures
            res matches BinError::Custom(m) && m@ == context@ + ":\n"@ + self.spec_message(),
    {
        let mut s = String::from_str(context);
        s.append(":\n");
        let m = self.message();
        s.append(m.as_str());
        BinError::Custom(s)
    }
}

/// A position in a binary stream: the bytes still to be read, with the string table that
/// lookup tokens resolve against.
#[derive(Clone, Copy)]
pub struct BinDeserializer<'de> {
    pub(crate) input: &'de [u8],
    pub(crate) strings: &'de StringsResolver,
    pub(crate) total: usize,
}

impl<'de> View for BinDeserializer<'de> {
    type V = Seq<u8>;

    /// The bytes still to be read.
    closed spec fn view(&self) -> Seq<u8> {
        self.input@
    }
}

/// The little-endian `u16` at `b[i..i + 2]`.
pub open spec fn le16(b: Seq<u8>, i: int) -> u16 {
    (b[i] + b[i + 1] * 256) as u16
}

/// The little-endian `u32` at `b[i..i + 4]`.
pub open spec fn le32(b: Seq<u8>, i: int) -> u32 {
    (b[i] + b[i + 1] * 0x100 + b[i + 2] * 0x10000 + b[i + 3] * 0x1000000) as u32
}

/// The little-endian `u64` at `b[i..i + 8]`.
pub open spec fn le64(b: Seq<u8>, i: int) -> u64 {
    (b[i] + b[i + 1] * 0x100 + b[i + 2] * 0x10000 + b[i + 3] * 0x1000000 + b[i + 4]
        * 0x100000000 + b[i + 5] * 0x10000000000 + b[i + 6] * 0x1000000000000 + b[i + 7]
        * 0x100000000000000) as u64
}

/// The `i32` whose two's complement bits are `v`.
pub open spec fn as_i32(v: u32) -> i32 {
    if v < 0x8000_0000 {
        v as i32
    } else {
        (v - 0x1_0000_0000) as i32
    }
}

/// The `i64` whose two's complement bits are `v`.
pub open spec fn as_i64(v: u64) -> i64 {
    if v < 0x8000_0000_0000_0000 {
        v as i64
    } else {
        (v - 0x1_0000_0000_0000_0000) as i64
    }
}

/// `b` is what is left of `a` after reading some bytes from its front.
pub open spec fn is_rest_of(b: Seq<u8>, a: Seq<u8>) -> bool {
    b.len() <= a.len() && b == a.subrange(a.len() - b.len(), a.len() as int)
}

pub fn read_le16(b: &[u8], i: usize) -> (res: u16)
    requires
        i + 2 <= b@.len(),
    ensures
        res == le16(b@, i as int),
{
    b[i] as u16 + (b[i + 1] as u16) * 256
}

pub fn read_le32(b: &[u8], i: usize) -> (res: u32)
    requires
        i + 4 <= b@.len(),
    ensures
        res == le32(b@, i as int),
{
    b[i] as u32 + (b[i + 1] as u32) * 0x100 + (b[i + 2] as u32) * 0x10000 + (b[i + 3] as u32)
        * 0x1000000
}

pub fn read_le64(b: &[u8], i: usize) -> (res: u64)
    requires
        i + 8 <= b@.len(),
    ensures
        res == le64(b@, i as int),
{
    b[i] as u64 + (b[i + 1] as u64) * 0x100 + (b[i + 2] as u64) * 0x10000 + (b[i + 3] as u64)
        * 0x1000000 + (b[i + 4] as u64) * 0x100000000 + (b[i + 5] as u64) * 0x10000000000 + (b[i
        + 6] as u64) * 0x1000000000000 + (b[i + 7] as u64) * 0x100000000000000
}

pub fn to_i32(v: u32) -> (res: i32)
    ensures
        res == as_i32(v),
{
    if v < 0x8000_0000 {
        v as i32
    } else {
        ((v as i64) - 0x1_0000_0000i64) as i32
    }
}

pub fn to_i64(v: u64) -> (res: i64)
    ensures
        res == as_i64(v),
{
    if v < 0x8000_0000_0000_0000 {
        v as i64
    } else {
        -((u64::MAX - v) as i64) - 1
    }
}

impl<'de> BinDeserializer<'de> {
    /// Both read the same source: same string table and same starting length.
    pub open spec fn same_source(&self, other: &Self) -> bool {
        self.strings_ref() == other.strings_ref() && self.spec_total() == other.spec_total()
    }

    /// The string table lookups resolve against.
    pub closed spec fn strings_ref(&self) -> StringsResolver {
        *self.strings
    }

    /// Length of the whole input the stream was made from.
    pub closed spec fn spec_total(&self) -> int {
        self.total as int
    }

    /// The string table lookups resolve against.
    pub closed spec fn strings_view(&self) -> Seq<Seq<char>> {
        self.strings@
    }

    /// Number of bytes read since the stream was made.
    pub closed spec fn spec_index(&self) -> int {
        self.total - self.input@.len()
    }

    pub fn from_bytes(input: &'de [u8], strings: &'de StringsResolver) -> (res: Self)
        ensures
            res@ == input@,
            res.strings_view() == strings@,
            res.spec_index() == 0,
    {
        BinDeserializer { input, strings, total: input.len() }
    }

    /// The string table lookups resolve against.
    pub fn strings(&self) -> (res: &'de StringsResolver)
        ensures
            res@ == self.strings_view(),
    {
        self.strings
    }

    /// Number of bytes still to be read.
    pub fn remaining_len(&self) -> (res: usize)
        ensures
            res == self@.len(),
    {
        self.input.len()
    }

    /// Number of bytes read since the stream was made.
    pub fn current_index(&self) -> (res: usize)
        ensures
            self.spec_index() >= 0 ==> res == self.spec_index(),
    {
        if self.total >= self.input.len() {
            self.total - self.input.len()
        } else {
            0
        }
    }

    /// The next token, without reading it.
    pub fn peek_token(&mut self) -> (res: Option<u16>)
        ensures
            *final(self) == *old(self),
            res == (if old(self)@.len() >= 2 {
                Some(le16(old(self)@, 0))
            } else {
                None
            }),
    {
        if self.input.len() < 2 {
            return None;
        }
        Some(read_le16(self.input, 0))
    }

    /// Reads past the next token. Does nothing at EOF (or when only one byte is left).
    pub fn eat_token(&mut self)
        ensures
            final(self)@ == (if old(self)@.len() >= 2 {
                old(self)@.subrange(2, old(self)@.len() as int)
            } else {
                old(self)@
            }),
            final(self).same_source(old(self)),
    {
        if self.input.len() < 2 {
            return;
        }
        self.input = vstd::slice::slice_subrange(self.input, 2, self.input.len());
    }

    /// Reads the next token.
    pub fn next_token(&mut self) -> (res: Option<u16>)
        ensures
            res == (if old(self)@.len() >= 2 {
                Some(le16(old(self)@, 0))
            } else {
                None
            }),
            final(self)@ == (if old(self)@.len() >= 2 {
                old(self)@.subrange(2, old(self)@.len() as int)
            } else {
                old(self)@
            }),
            final(self).same_source(old(self)),
    {
        if self.input.len() < 2 {
            return None;
        }
        let t = read_le16(self.input, 0);
        self.input = vstd::slice::slice_subrange(self.input, 2, self.input.len());
        Some(t)
    }

    /// `next_token` except it returns [`BinError::EOF`] if not found.
    pub fn expect_token(&mut self) -> (res: Result<u16, BinError>)
        ensures
            match res {
                Ok(t) => old(self)@.len() >= 2 && t == le16(old(self)@, 0) && final(self)@
                    == old(self)@.subrange(2, old(self)@.len() as int),
                Err(e) => old(self)@.len() < 2 && e is EOF && final(self)@ == old(self)@,
            },
            final(self).same_source(old(self)),
    {
        match self.next_token() {
            Some(t) => Ok(t),
            None => Err(BinError::EOF),
        }
    }

    /// Expects the next token to be `token`, and reads past it.
    ///
    /// ## Returns
    /// - `Ok(())` if the token matches
    /// - `Err(BinError::UnexpectedToken(parsed_token))` if `token != parsed_token`
    /// - `Err(BinError::EOF)` if the end of the stream is reached
    ///
    /// Errors will not affect the stream's state.
    pub fn parse_token(&mut self, token: u16) -> (res: Result<(), BinError>)
        ensures
            final(self).same_source(old(self)),
            old(self)@.len() < 2 ==> res matches Err(BinError::EOF),
            old(self)@.len() >= 2 && le16(old(self)@, 0) == token ==> res is Ok,
            old(self)@.len() >= 2 && le16(old(self)@, 0) != token ==> (res matches Err(
                BinError::UnexpectedToken(t),
            ) && t == le16(old(self)@, 0)),
            res is Ok ==> final(self)@ == old(self)@.subrange(2, old(self)@.len() as int),
            res is Err ==> final(self)@ == old(self)@,
    {
        let peek = match self.peek_token() {
            Some(p) => p,
            None => {
                return Err(BinError::EOF);
            },
        };
        if token == peek {
            self.eat_token();
            Ok(())
        } else {
            Err(BinError::UnexpectedToken(peek))
        }
    }

    /// Reads past the next `n` bytes, or fails with [`BinError::EOF`] when there are fewer.
    pub fn eat_bytes(&mut self, n: usize) -> (res: Result<(), BinError>)
        ensures
            final(self).same_source(old(self)),
            match res {
                Ok(()) => n <= old(self)@.len() && final(self)@ == old(self)@.subrange(
                    n as int,
                    old(self)@.len() as int,
                ),
                Err(e) => n > old(self)@.len() && e is EOF && final(self)@ == old(self)@,
            },
    {
        if n > self.input.len() {
            return Err(BinError::EOF);
        }
        self.input = vstd::slice::slice_subrange(self.input, n, self.input.len());
        Ok(())
    }

    /// Reads the next `n` bytes, or fails with [`BinError::EOF`] when there are fewer.
    pub fn expect_bytes(&mut self, n: usize) -> (res: Result<&'de [u8], BinError>)
        ensures
            final(self).same_source(old(self)),
            match res {
                Ok(v) => n <= old(self)@.len() && v@ == old(self)@.subrange(0, n as int)
                    && final(self)@ == old(self)@.subrange(n as int, old(self)@.len() as int),
                Err(e) => n > old(self)@.len() && e is EOF && final(self)@ == old(self)@,
            },
    {
        if n > self.input.len() {
            return Err(BinError::EOF);
        }
        let v = vstd::slice::slice_subrange(self.input, 0, n);
        self.input = vstd::slice::slice_subrange(self.input, n, self.input.len());
        Ok(v)
    }

    /// As [`Self::eat_bytes`], for a number of bytes fixed by the caller's type.
    pub fn eat_bytes_const<const N: usize>(&mut self) -> (res: Result<(), BinError>)
        ensures
            final(self).same_source(old(self)),
            match res {
                Ok(()) => N <= old(self)@.len() && final(self)@ == old(self)@.subrange(
                    N as int,
                    old(self)@.len() as int,
                ),
                Err(e) => N > old(self)@.len() && e is EOF && final(self)@ == old(self)@,
            },
    {
        self.eat_bytes(N)
    }

    /// As [`Self::expect_bytes`], for a number of bytes fixed by the caller's type.
    pub fn expect_bytes_const<const N: usize>(&mut self) -> (res: Result<&'de [u8], BinError>)
        ensures
            final(self).same_source(old(self)),
            match res {
                Ok(v) => N <= old(self)@.len() && v@ == old(self)@.subrange(0, N as int)
                    && final(self)@ == old(self)@.subrange(N as int, old(self)@.len() as int),
                Err(e) => N > old(self)@.len() && e is EOF && final(self)@ == old(self)@,
            },
    {
        self.expect_bytes(N)
    }

    /// Reads a `T` from the stream; on failure the stream is left as it was. It fails only
    /// where no reading of a `T` exists, and any reading leaves the bytes it leaves.
    pub fn parse<T: BinDeserialize<'de>>(&mut self) -> (res: Result<T, BinError>)
        ensures
            final(self).same_source(old(self)),
            match res {
                Ok(v) => T::took(*old(self), *final(self), v),
                Err(_) => final(self)@ == old(self)@,
            },
            res is Ok ==> is_rest_of(final(self)@, old(self)@) && final(self)@.len() < old(
                self,
            )@.len(),
            res is Ok ==> forall|r: BinDeserializer<'de>, w: T|
                #[trigger] T::took(*old(self), r, w) ==> r@ == final(self)@,
            res is Err ==> forall|r: BinDeserializer<'de>, w: T| !#[trigger] T::took(*old(self), r, w),
    {
        let start = *self;
        match T::take(start) {
            Ok((value, rest)) => {
                *self = rest;
                Ok(value)
            },
            Err(e) => Err(e),
        }
    }
}

/// Two streams with the same bytes left and the same source are the same stream.
pub proof fn lemma_same_stream<'de>(a: BinDeserializer<'de>, b: BinDeserializer<'de>)
    requires
        a@ == b@,
        a.same_source(&b),
    ensures
        a == b,
{
    broadcast use vstd::slice::group_slice_axioms;

    assert(a.input =~= b.input);
}

/// A type that can be read from a binary stream.
pub trait BinDeserialize<'de>: Sized {
    /// Reading `value` from `stream` leaves `rest` (a description of a successful read).
    spec fn took(stream: BinDeserializer<'de>, rest: BinDeserializer<'de>, value: Self) -> bool;

    /// Reads a value from the front of `stream`; returns it and the rest of the stream. A
    /// successful read takes at least one byte, and any reading leaves the bytes it leaves; a
    /// read fails only where no reading of a value exists.
    fn take(stream: BinDeserializer<'de>) -> (res: Result<(Self, BinDeserializer<'de>), BinError>)
        ensures
            res matches Ok((v, rest)) ==> Self::took(stream, rest, v) && rest.same_source(
                &stream,
            ) && is_rest_of(rest@, stream@) && rest@.len() < stream@.len(),
            res matches Ok((_, rest)) ==> forall|r: BinDeserializer<'de>, w: Self|
                #[trigger] Self::took(stream, r, w) ==> r@ == rest@,
            res is Err ==> forall|r: BinDeserializer<'de>, w: Self| !#[trigger] Self::took(stream, r, w),
    ;
}

} // verus!

verus! {

/// Reading token `id` and an `n`-byte payload from the front of `s`: `Ok` when they are
/// there, else the error reading them gives.
pub open spec fn expect_fixed(s: Seq<u8>, id: u16, n: int) -> Result<(), BinError> {
    if s.len() < 2 {
        Err(BinError::EOF)
    } else if le16(s, 0) != id {
        Err(BinError::UnexpectedToken(le16(s, 0)))
    } else if s.len() < 2 + n {
        Err(BinError::EOF)
    } else {
        Ok(())
    }
}

/// Reads token `id` and the `n` bytes after it.
pub fn take_fixed<'de>(stream: BinDeserializer<'de>, id: u16, n: usize) -> (res: Result<
    (&'de [u8], BinDeserializer<'de>),
    BinError,
>)
    ensures
        match expect_fixed(stream@, id, n as int) {
            Ok(_) => res matches Ok((v, rest)) && v@ == stream@.subrange(2, 2 + n) && rest@
                == stream@.subrange(2 + n, stream@.len() as int) && rest.same_source(&stream),
            Err(e) => res matches Err(e2) && e2 == e,
        },
{
    let mut s = stream;
    match s.parse_token(id) {
        Ok(()) => {},
        Err(e) => {
            return Err(e);
        },
    }
    match s.expect_bytes(n) {
        Ok(v) => {
            proof {
                assert(v@ =~= stream@.subrange(2, 2 + n));
                assert(s@ =~= stream@.subrange(2 + n, stream@.len() as int));
            }
            Ok((v, s))
        },
        Err(e) => Err(e),
    }
}

impl<'de> BinDeserialize<'de> for bool {
    open spec fn took(stream: BinDeserializer<'de>, rest: BinDeserializer<'de>, value: bool) -> bool {
        expect_fixed(stream@, 0x000e, 1) is Ok && value == (stream@[2] != 0) && rest@
            == stream@.subrange(3, stream@.len() as int)
    }

    fn take(stream: BinDeserializer<'de>) -> (res: Result<(bool, BinDeserializer<'de>), BinError>)
        ensures
            match expect_fixed(stream@, 0x000e, 1) {
                Ok(_) => res is Ok,
                Err(e) => res matches Err(e2) && e2 == e,
            },
    {
        let (v, rest) = take_fixed(stream, BinToken::ID_BOOL, 1)?;
        Ok((v[0] != 0, rest))
    }
}

impl<'de> BinDeserialize<'de> for i32 {
    open spec fn took(stream: BinDeserializer<'de>, rest: BinDeserializer<'de>, value: i32) -> bool {
        expect_fixed(stream@, 0x000c, 4) is Ok && value == as_i32(le32(stream@, 2)) && rest@
            == stream@.subrange(6, stream@.len() as int)
    }

    fn take(stream: BinDeserializer<'de>) -> (res: Result<(i32, BinDeserializer<'de>), BinError>)
        ensures
            match expect_fixed(stream@, 0x000c, 4) {
                Ok(_) => res is Ok,
                Err(e) => res matches Err(e2) && e2 == e,
            },
    {
        let (v, rest) = take_fixed(stream, BinToken::ID_I32, 4)?;
        Ok((to_i32(read_le32(v, 0)), rest))
    }
}

impl<'de> BinDeserialize<'de> for i64 {
    open spec fn took(stream: BinDeserializer<'de>, rest: BinDeserializer<'de>, value: i64) -> bool {
        expect_fixed(stream@, 0x0317, 8) is Ok && value == as_i64(le64(stream@, 2)) && rest@
            == stream@.subrange(10, stream@.len() as int)
    }

    fn take(stream: BinDeserializer<'de>) -> (res: Result<(i64, BinDeserializer<'de>), BinError>)
        ensures
            match expect_fixed(stream@, 0x0317, 8) {
                Ok(_) => res is Ok,
                Err(e) => res matches Err(e2) && e2 == e,
            },
    {
        let (v, rest) = take_fixed(stream, BinToken::ID_I64, 8)?;
        Ok((to_i64(read_le64(v, 0)), rest))
    }
}

impl<'de> BinDeserialize<'de> for u32 {
    open spec fn took(stream: BinDeserializer<'de>, rest: BinDeserializer<'de>, value: u32) -> bool {
        expect_fixed(stream@, 0x0014, 4) is Ok && value == le32(stream@, 2) && rest@
            == stream@.subrange(6, stream@.len() as int)
    }

    fn take(stream: BinDeserializer<'de>) -> (res: Result<(u32, BinDeserializer<'de>), BinError>)
        ensures
            match expect_fixed(stream@, 0x0014, 4) {
                Ok(_) => res is Ok,
                Err(e) => res matches Err(e2) && e2 == e,
            },
    {
        let (v, rest) = take_fixed(stream, BinToken::ID_U32, 4)?;
        Ok((read_le32(v, 0), rest))
    }
}

impl<'de> BinDeserialize<'de> for u64 {
    open spec fn took(stream: BinDeserializer<'de>, rest: BinDeserializer<'de>, value: u64) -> bool {
        expect_fixed(stream@, 0x029c, 8) is Ok && value == le64(stream@, 2) && rest@
            == stream@.subrange(10, stream@.len() as int)
    }

    fn take(stream: BinDeserializer<'de>) -> (res: Result<(u64, BinDeserializer<'de>), BinError>)
        ensures
            match expect_fixed(stream@, 0x029c, 8) {
                Ok(_) => res is Ok,
                Err(e) => res matches Err(e2) && e2 == e,
            },
    {
        let (v, rest) = take_fixed(stream, BinToken::ID_U64, 8)?;
        Ok((read_le64(v, 0), rest))
    }
}

/// Reading a string from the front of `s`: a quoted or unquoted string token, a 2-byte
/// little-endian length, and that many bytes of UTF-8. `Ok` holds the text's bytes and the
/// number of bytes read.
pub open spec fn spec_take_str(s: Seq<u8>) -> Result<(Seq<u8>, int), BinError> {
    if s.len() < 2 {
        Err(BinError::EOF)
    } else if le16(s, 0) != 0x000f && le16(s, 0) != 0x0017 {
        Err(BinError::UnexpectedToken(le16(s, 0)))
    } else if s.len() < 4 {
        Err(BinError::EOF)
    } else if s.len() < 4 + le16(s, 2) {
        Err(BinError::EOF)
    } else if !valid_utf8(s.subrange(4, 4 + le16(s, 2))) {
        Err(BinError::StringDecode)
    } else {
        Ok((s.subrange(4, 4 + le16(s, 2)), 4 + le16(s, 2)))
    }
}

impl<'de> BinDeserialize<'de> for &'de str {
    open spec fn took(stream: BinDeserializer<'de>, rest: BinDeserializer<'de>, value: &'de str) -> bool {
        spec_take_str(stream@) matches Ok((text, n)) && value.spec_bytes() == text && rest@
            == stream@.subrange(n, stream@.len() as int)
    }

    fn take(stream: BinDeserializer<'de>) -> (res: Result<(&'de str, BinDeserializer<'de>), BinError>)
        ensures
            match spec_take_str(stream@) {
                Ok(_) => res is Ok,
                Err(e) => res matches Err(e2) && e2 == e,
            },
    {
        let mut s = stream;
        let t = s.expect_token()?;
        if t != BinToken::ID_STRING_QUOTED && t != BinToken::ID_STRING_UNQUOTED {
            return Err(BinError::UnexpectedToken(t));
        }
        let len = s.expect_token()?;
        let raw = s.expect_bytes(len as usize)?;
        proof {
            assert(raw@ =~= stream@.subrange(4, 4 + le16(stream@, 2)));
        }
        let text = match str_from_utf8(raw) {
            Some(t) => t,
            None => {
                return Err(BinError::StringDecode);
            },
        };
        proof {
            assert(text.spec_bytes() =~= stream@.subrange(4, 4 + le16(stream@, 2)));
            assert(s@ =~= stream@.subrange(4 + le16(stream@, 2), stream@.len() as int));
        }
        Ok((text, s))
    }
}

impl<'de> BinDeserialize<'de> for String {
    open spec fn took(stream: BinDeserializer<'de>, rest: BinDeserializer<'de>, value: String) -> bool {
        spec_take_str(stream@) matches Ok((text, n)) && encode_utf8(value@) == text && rest@
            == stream@.subrange(n, stream@.len() as int)
    }

    fn take(stream: BinDeserializer<'de>) -> (res: Result<(String, BinDeserializer<'de>), BinError>)
        ensures
            match spec_take_str(stream@) {
                Ok(_) => res is Ok,
                Err(e) => res matches Err(e2) && e2 == e,
            },
    {
        let (text, rest) = <&'de str as BinDeserialize<'de>>::take(stream)?;
        Ok((text.to_string(), rest))
    }
}

} // verus!

verus! {

pub proof fn lemma_rest_trans(a: Seq<u8>, b: Seq<u8>, c: Seq<u8>)
    requires
        is_rest_of(a, b),
        is_rest_of(b, c),
    ensures
        is_rest_of(a, c),
{
    assert(a =~= c.subrange(c.len() - a.len(), c.len() as int));
}

/// `s` starts with the token `}`.
pub open spec fn starts_close(s: Seq<u8>) -> bool {
    s.len() >= 2 && le16(s, 0) == 0x0004
}

/// Reading `items` one after another from `s`, none of them starting at a `}`, leaves `e`,
/// a stream of the same source.
pub open spec fn items_took<'de, T: BinDeserialize<'de>>(
    s: BinDeserializer<'de>,
    e: BinDeserializer<'de>,
    items: Seq<T>,
) -> bool
    decreases items.len(),
{
    if items.len() == 0 {
        e == s
    } else {
        exists|m: BinDeserializer<'de>|
            #![trigger T::took(m, e, items.last())]
            items_took(s, m, items.drop_last()) && !starts_close(m@) && T::took(
                m,
                e,
                items.last(),
            ) && e.same_source(&s)
    }
}

/// Reading one more item extends a run of items.
pub proof fn lemma_items_took_push<'de, T: BinDeserialize<'de>>(
    s: BinDeserializer<'de>,
    m: BinDeserializer<'de>,
    e: BinDeserializer<'de>,
    items: Seq<T>,
    item: T,
)
    requires
        items_took(s, m, items),
        !starts_close(m@),
        T::took(m, e, item),
        e.same_source(&s),
    ensures
        items_took(s, e, items.push(item)),
{
    assert(items.push(item).drop_last() =~= items);
    assert(items.push(item).last() == item);
}

/// From `a`, which does not start with a `}`, reading an item can only leave the bytes of `b`.
pub open spec fn bin_item_step_to<'de, T: BinDeserialize<'de>>(
    a: BinDeserializer<'de>,
    b: BinDeserializer<'de>,
) -> bool {
    !starts_close(a@) && forall|r: BinDeserializer<'de>, w: T|
        #[trigger] T::took(a, r, w) ==> r@ == b@
}

/// The `k`th step of `ms`: reading an item from `ms[k]` can only leave the bytes of `ms[k + 1]`.
pub open spec fn bin_item_path_step<'de, T: BinDeserialize<'de>>(
    ms: Seq<BinDeserializer<'de>>,
    k: int,
) -> bool {
    bin_item_step_to::<T>(ms[k], ms[k + 1])
}

/// `ms` are the streams, all of one source, that a run of items passes through, each step the
/// only one possible.
pub open spec fn bin_item_path<'de, T: BinDeserialize<'de>>(ms: Seq<BinDeserializer<'de>>) -> bool {
    &&& forall|k: int| 0 <= k < ms.len() - 1 ==> #[trigger] bin_item_path_step::<T>(ms, k)
    &&& forall|k: int| 0 <= k < ms.len() ==> #[trigger] ms[k].same_source(&ms[0])
}

/// A run of items read from the start of a path either stops on the path, at the stream after
/// as many steps as it has items, or goes past its last stream, where an item can be read.
pub proof fn lemma_bin_items_on_path<'de, T: BinDeserialize<'de>>(
    ms: Seq<BinDeserializer<'de>>,
    e: BinDeserializer<'de>,
    items: Seq<T>,
)
    requires
        ms.len() >= 1,
        bin_item_path::<T>(ms),
        items_took(ms[0], e, items),
    ensures
        items.len() < ms.len() ==> e == ms[items.len() as int],
        items.len() >= ms.len() ==> !starts_close(ms.last()@) && exists|
            r: BinDeserializer<'de>,
            w: T,
        | #[trigger] T::took(ms.last(), r, w),
    decreases items.len(),
{
    if items.len() > 0 {
        let m = choose|m: BinDeserializer<'de>|
            #![trigger T::took(m, e, items.last())]
            items_took(ms[0], m, items.drop_last()) && !starts_close(m@) && T::took(
                m,
                e,
                items.last(),
            ) && e.same_source(&ms[0]);
        lemma_bin_items_on_path(ms, m, items.drop_last());
        let j = items.len() - 1;
        if j < ms.len() - 1 {
            assert(bin_item_path_step::<T>(ms, j));
            assert(ms[j + 1].same_source(&ms[0]));
            lemma_same_stream(e, ms[j + 1]);
        } else if j == ms.len() - 1 {
            assert(T::took(ms.last(), e, items.last()));
        }
    }
}

impl<'de, T: BinDeserialize<'de>> BinDeserialize<'de> for Vec<T> {
    /// A `{`, the items, and a `}`.
    open spec fn took(stream: BinDeserializer<'de>, rest: BinDeserializer<'de>, value: Vec<T>) -> bool {
        stream@.len() >= 2 && le16(stream@, 0) == 0x0003 && exists|inner: BinDeserializer<'de>, end: BinDeserializer<'de>|
            inner@ == stream@.subrange(2, stream@.len() as int) && inner.same_source(&stream)
                && items_took(inner, end, value@) && starts_close(end@) && rest@
                == end@.subrange(2, end@.len() as int)
    }

    /// Strict: will error if a KV or non-matching type is found.
    fn take(stream: BinDeserializer<'de>) -> (res: Result<(Vec<T>, BinDeserializer<'de>), BinError>)
        ensures
            !(stream@.len() >= 2 && le16(stream@, 0) == 0x0003) ==> res is Err,
    {
        let mut s = stream;
        match s.parse_token(BinToken::ID_OPEN_BRACKET) {
            Ok(()) => {},
            Err(err) => {
                return Err(err.context("While parsing open bracket at start of list"));
            },
        }
        let inner = s;
        let mut out: Vec<T> = Vec::new();
        let ghost mut ms: Seq<BinDeserializer<'de>> = seq![inner];
        proof {
            assert(items_took(inner, s, out@));
            assert(s@.subrange(0, s@.len() as int) =~= s@);
        }
        loop
            invariant
                stream@.len() >= 2 && le16(stream@, 0) == 0x0003,
                inner@ == stream@.subrange(2, stream@.len() as int),
                inner.same_source(&stream),
                s.same_source(&stream),
                is_rest_of(s@, inner@),
                items_took(inner, s, out@),
                ms.len() == out@.len() + 1,
                ms[0] == inner,
                ms.last() == s,
                bin_item_path::<T>(ms),
            decreases s@.len(),
        {
            if let Some(t) = s.peek_token() {
                if t == BinToken::ID_CLOSE_BRACKET {
                    let end = s;
                    s.eat_token();
                    proof {
                        lemma_rest_trans(end@, inner@, stream@);
                        lemma_rest_trans(s@, end@, stream@);
                        assert(starts_close(end@));
                        assert forall|r: BinDeserializer<'de>, w: Vec<T>| #[trigger]
                            Self::took(stream, r, w) implies r@ == s@ by {
                            let (inner2, end2) = choose|
                                inner2: BinDeserializer<'de>,
                                end2: BinDeserializer<'de>,
                            |
                                inner2@ == stream@.subrange(2, stream@.len() as int)
                                    && inner2.same_source(&stream) && items_took(inner2, end2, w@)
                                    && starts_close(end2@) && r@ == end2@.subrange(
                                    2,
                                    end2@.len() as int,
                                );
                            lemma_same_stream(inner2, inner);
                            lemma_bin_items_on_path(ms, end2, w@);
                            if w@.len() < out@.len() {
                                assert(bin_item_path_step::<T>(ms, w@.len() as int));
                            }
                        }
                    }
                    return Ok((out, s));
                }
            }
            let ghost before = out@;
            let prev = s;
            match T::take(s) {
                Ok((item, rest)) => {
                    out.push(item);
                    s = rest;
                    proof {
                        lemma_items_took_push(inner, prev, s, before, item);
                        assert(before.push(item) =~= out@);
                        lemma_rest_trans(s@, prev@, inner@);
                        let old_ms = ms;
                        ms = ms.push(s);
                        assert forall|k: int| 0 <= k < ms.len() - 1 implies #[trigger]
                            bin_item_path_step::<T>(ms, k) by {
                            if k < old_ms.len() - 1 {
                                assert(bin_item_path_step::<T>(old_ms, k));
                            }
                        }
                        assert forall|k: int| 0 <= k < ms.len() implies #[trigger] ms[k].same_source(
                            &ms[0],
                        ) by {
                            if k < old_ms.len() {
                                assert(old_ms[k].same_source(&old_ms[0]));
                            }
                        }
                    }
                },
                Err(err) => {
                    proof {
                        assert forall|r: BinDeserializer<'de>, w: Vec<T>| !#[trigger]
                            Self::took(stream, r, w) by {
                            if Self::took(stream, r, w) {
                                let (inner2, end2) = choose|
                                    inner2: BinDeserializer<'de>,
                                    end2: BinDeserializer<'de>,
                                |
                                    inner2@ == stream@.subrange(2, stream@.len() as int)
                                        && inner2.same_source(&stream) && items_took(
                                        inner2,
                                        end2,
                                        w@,
                                    ) && starts_close(end2@) && r@ == end2@.subrange(
                                        2,
                                        end2@.len() as int,
                                    );
                                lemma_same_stream(inner2, inner);
                                lemma_bin_items_on_path(ms, end2, w@);
                                if w@.len() < out@.len() {
                                    assert(bin_item_path_step::<T>(ms, w@.len() as int));
                                }
                            }
                        }
                    }
                    let mut msg = concat_str("While parsing item #", decimal_string(out.len() as u64).as_str());
                    msg.append(" in list");
                    return Err(err.context(msg.as_str()));
                },
            }
        }
    }
}

} // verus!

verus! {

/// The little-endian 24-bit number at `b[i..i + 3]`.
pub open spec fn le24(b: Seq<u8>, i: int) -> u32 {
    (b[i] + b[i + 1] * 0x100 + b[i + 2] * 0x10000) as u32
}

/// The little-endian 40-bit number at `b[i..i + 5]`.
pub open spec fn le40(b: Seq<u8>, i: int) -> u64 {
    (b[i] + b[i + 1] * 0x100 + b[i + 2] * 0x10000 + b[i + 3] * 0x1000000 + b[i + 4]
        * 0x100000000) as u64
}

/// The little-endian 48-bit number at `b[i..i + 6]`.
pub open spec fn le48(b: Seq<u8>, i: int) -> u64 {
    (b[i] + b[i + 1] * 0x100 + b[i + 2] * 0x10000 + b[i + 3] * 0x1000000 + b[i + 4]
        * 0x100000000 + b[i + 5] * 0x10000000000) as u64
}

/// The little-endian 56-bit number at `b[i..i + 7]`.
pub open spec fn le56(b: Seq<u8>, i: int) -> u64 {
    (b[i] + b[i + 1] * 0x100 + b[i + 2] * 0x10000 + b[i + 3] * 0x1000000 + b[i + 4]
        * 0x100000000 + b[i + 5] * 0x10000000000 + b[i + 6] * 0x1000000000000) as u64
}

pub fn read_le24(b: &[u8], i: usize) -> (res: u32)
    requires
        i + 3 <= b@.len(),
    ensures
        res == le24(b@, i as int),
{
    b[i] as u32 + (b[i + 1] as u32) * 0x100 + (b[i + 2] as u32) * 0x10000
}

/// The little-endian number of `n` bytes (at most 7) at `b[i..i + n]`.
pub fn read_le_upto56(b: &[u8], i: usize, n: usize) -> (res: u64)
    requires
        5 <= n <= 7,
        i + n <= b@.len(),
    ensures
        n == 5 ==> res == le40(b@, i as int),
        n == 6 ==> res == le48(b@, i as int),
        n == 7 ==> res == le56(b@, i as int),
{
    let low = b[i] as u64 + (b[i + 1] as u64) * 0x100 + (b[i + 2] as u64) * 0x10000 + (b[i
        + 3] as u64) * 0x1000000 + (b[i + 4] as u64) * 0x100000000;
    if n == 5 {
        low
    } else if n == 6 {
        low + (b[i + 5] as u64) * 0x10000000000
    } else {
        low + (b[i + 5] as u64) * 0x10000000000 + (b[i + 6] as u64) * 0x1000000000000
    }
}

} // verus!
