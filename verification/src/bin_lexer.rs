//! The tokens of the binary version of Clausewitz files.
use vstd::prelude::*;

use crate::bin_deserialize::{
    BinDeserialize, BinDeserializer, BinError, as_i32, as_i64, is_rest_of, le16, le24, le32, le40,
    le48, le56, le64, read_le16, read_le24, read_le32, read_le64, read_le_upto56, to_i32, to_i64,
};
use crate::common_deserialize::{LookupU16, LookupU24, LookupU8};
use crate::map_parsers::{lines_of, next_line};
use crate::strings_resolver::StringsResolver;
use crate::text_util::{find_byte, parse_uint_max, spec_parse_uint_max, split_at_byte, str_eq};
use vstd::string::StringSliceAdditionalSpecFns;
use vstd::utf8::encode_utf8;

verus! {

/// Binary tokens used in the binary format. They are each represented by 2 bytes.
///
/// Floating-point payloads are kept as integers: `F32(n)` stands for `n / 1000` and `F64(n)`
/// for `n / 100000`. A payload with two fixed decimal places, `p` for `p / 100`, is kept as
/// `F64(p * 1000)`; one with five, `p` for `p / 100000`, as `F64(p)`.
#[derive(Debug, Clone, Copy, PartialEq, Eq)]
pub enum BinToken<'a> {
    Equal,
    OpenBracket,
    CloseBracket,
    I32(i32),
    F32(i32),
    Bool(bool),
    StringQuoted(&'a [u8]),
    U32(u32),
    StringUnquoted(&'a [u8]),
    F64(i64),
    U64(u64),
    I64(i64),
    LookupU8(LookupU8),
    LookupU16(LookupU16),
    LookupU24(LookupU24),
    Other(u16),
}

impl<'a> BinToken<'a> {
    /// `=`
    pub const ID_EQUAL: u16 = 0x0001;
    /// `{`
    pub const ID_OPEN_BRACKET: u16 = 0x0003;
    /// `}`
    pub const ID_CLOSE_BRACKET: u16 = 0x0004;
    pub const ID_I32: u16 = 0x000c;
    pub const ID_F32: u16 = 0x000d;
    pub const ID_BOOL: u16 = 0x000e;
    pub const ID_STRING_QUOTED: u16 = 0x000f;
    pub const ID_U32: u16 = 0x0014;
    pub const ID_STRING_UNQUOTED: u16 = 0x0017;
    pub const ID_F64: u16 = 0x0167;
    pub const ID_U64: u16 = 0x029c;
    pub const ID_I64: u16 = 0x0317;
    /// Represents a constant 0.0
    pub const ID_ZERO: u16 = 0x0d47;
    /// Fixed 2 decimal places
    pub const ID_FIXED2_U8: u16 = 0x0d48;
    /// Fixed 2 decimal places
    pub const ID_FIXED2_U16: u16 = 0x0d49;
    /// Fixed 2 decimal places
    pub const ID_FIXED5_U24: u16 = 0x0d4a;
    /// Fixed 5 decimal places
    pub const ID_FIXED5_U32: u16 = 0x0d4b;
    /// Fixed 5 decimal places
    pub const ID_FIXED5_U40: u16 = 0x0d4c;
    /// Fixed 5 decimal places
    pub const ID_FIXED5_U48: u16 = 0x0d4d;
    /// Fixed 5 decimal places
    pub const ID_FIXED5_U56: u16 = 0x0d4e;
    /// Fixed 2 decimal places, negative
    pub const ID_FIXED2_U8_NEG: u16 = 0x0d4f;
    /// Fixed 2 decimal places, negative
    pub const ID_FIXED2_U16_NEG: u16 = 0x0d50;
    /// Fixed 2 decimal places, negative
    pub const ID_FIXED2_U24_NEG: u16 = 0x0d51;
    /// Fixed 5 decimal places, negative
    pub const ID_FIXED5_U32_NEG: u16 = 0x0d52;
    /// Fixed 5 decimal places, negative
    pub const ID_FIXED5_U40_NEG: u16 = 0x0d53;
    /// Fixed 5 decimal places, negative
    pub const ID_FIXED5_U48_NEG: u16 = 0x0d54;
    /// Fixed 5 decimal places, negative
    pub const ID_FIXED5_U56_NEG: u16 = 0x0d55;
    pub const ID_LOOKUP_U8: u16 = 0x0d40;
    /// Seems to be the same use as [`Self::ID_LOOKUP_U8`]
    pub const ID_LOOKUP_U8_ALT: u16 = 0x0d43;
    pub const ID_LOOKUP_U16: u16 = 0x0d3e;
    /// Seems to be the same use as [`Self::ID_LOOKUP_U16`]
    pub const ID_LOOKUP_U16_ALT: u16 = 0x0d44;
    pub const ID_LOOKUP_U24: u16 = 0x0d41;

    /// The name of each base token id; `None` for any other id.
    pub open spec fn spec_base_token_repr(token: u16) -> Option<Seq<char>> {
        if token == 0x0001 {
            Some("="@)
        } else if token == 0x0003 {
            Some("{"@)
        } else if token == 0x0004 {
            Some("}"@)
        } else if token == 0x000c {
            Some("i32"@)
        } else if token == 0x000d {
            Some("f32"@)
        } else if token == 0x000e {
            Some("bool"@)
        } else if token == 0x000f {
            Some("string_quoted"@)
        } else if token == 0x0014 {
            Some("u32"@)
        } else if token == 0x0017 {
            Some("string_unquoted"@)
        } else if token == 0x0167 {
            Some("f64"@)
        } else if token == 0x029c {
            Some("u64"@)
        } else if token == 0x0317 {
            Some("i64"@)
        } else if token == 0x0d47 {
            Some("zero"@)
        } else if token == 0x0d48 {
            Some("fixed2_u8"@)
        } else if token == 0x0d49 {
            Some("fixed2_u16"@)
        } else if token == 0x0d4a {
            Some("fixed5_u24"@)
        } else if token == 0x0d4b {
            Some("fixed5_u32"@)
        } else if token == 0x0d4c {
            Some("fixed5_u40"@)
        } else if token == 0x0d4d {
            Some("fixed5_u48"@)
        } else if token == 0x0d4e {
            Some("fixed5_u56"@)
        } else if token == 0x0d4f {
            Some("fixed2_u8_neg"@)
        } else if token == 0x0d50 {
            Some("fixed2_u16_neg"@)
        } else if token == 0x0d51 {
            Some("fixed5_u24_neg"@)
        } else if token == 0x0d52 {
            Some("fixed5_u32_neg"@)
        } else if token == 0x0d53 {
            Some("fixed5_u40_neg"@)
        } else if token == 0x0d54 {
            Some("fixed5_u48_neg"@)
        } else if token == 0x0d55 {
            Some("fixed5_u56_neg"@)
        } else if token == 0x0d40 {
            Some("lookup_u8"@)
        } else if token == 0x0d43 {
            Some("lookup_u8_alt"@)
        } else if token == 0x0d3e {
            Some("lookup_u16"@)
        } else if token == 0x0d44 {
            Some("lookup_u16_alt"@)
        } else if token == 0x0d41 {
            Some("lookup_u24"@)
        } else {
            None
        }
    }

    /// Checks if the value matches one of the const tokens.
    pub fn is_base_token_id(token: u16) -> (res: bool)
        ensures
            res == BinToken::spec_base_token_repr(token) is Some,
    {
        BinToken::base_token_repr(token).is_some()
    }

    /// The name of a base token id (as its `ID_` constant is named, in lower case).
    pub fn base_token_repr(token: u16) -> (res: Option<&'static str>)
        ensures
            match res {
                Some(s) => BinToken::spec_base_token_repr(token) == Some(s@),
                None => BinToken::spec_base_token_repr(token) is None,
            },
    {
        match token {
            0x0001 => Some("="),
            0x0003 => Some("{"),
            0x0004 => Some("}"),
            0x000c => Some("i32"),
            0x000d => Some("f32"),
            0x000e => Some("bool"),
            0x000f => Some("string_quoted"),
            0x0014 => Some("u32"),
            0x0017 => Some("string_unquoted"),
            0x0167 => Some("f64"),
            0x029c => Some("u64"),
            0x0317 => Some("i64"),
            0x0d47 => Some("zero"),
            0x0d48 => Some("fixed2_u8"),
            0x0d49 => Some("fixed2_u16"),
            0x0d4a => Some("fixed5_u24"),
            0x0d4b => Some("fixed5_u32"),
            0x0d4c => Some("fixed5_u40"),
            0x0d4d => Some("fixed5_u48"),
            0x0d4e => Some("fixed5_u56"),
            0x0d4f => Some("fixed2_u8_neg"),
            0x0d50 => Some("fixed2_u16_neg"),
            0x0d51 => Some("fixed5_u24_neg"),
            0x0d52 => Some("fixed5_u32_neg"),
            0x0d53 => Some("fixed5_u40_neg"),
            0x0d54 => Some("fixed5_u48_neg"),
            0x0d55 => Some("fixed5_u56_neg"),
            0x0d40 => Some("lookup_u8"),
            0x0d43 => Some("lookup_u8_alt"),
            0x0d3e => Some("lookup_u16"),
            0x0d44 => Some("lookup_u16_alt"),
            0x0d41 => Some("lookup_u24"),
            _ => None,
        }
    }

    /// The name of the token's type, or its id for a token of no known base type.
    pub open spec fn spec_token_type_repr(self) -> Result<Seq<char>, u16> {
        match self {
            BinToken::Equal => Ok("="@),
            BinToken::OpenBracket => Ok("{"@),
            BinToken::CloseBracket => Ok("}"@),
            BinToken::I32(_) => Ok("i32"@),
            BinToken::F32(_) => Ok("f32"@),
            BinToken::Bool(_) => Ok("bool"@),
            BinToken::StringQuoted(_) => Ok("string_quoted"@),
            BinToken::U32(_) => Ok("u32"@),
            BinToken::StringUnquoted(_) => Ok("string_unquoted"@),
            BinToken::F64(_) => Ok("f64"@),
            BinToken::U64(_) => Ok("u64"@),
            BinToken::I64(_) => Ok("i64"@),
            BinToken::LookupU8(_) => Ok("lookup_u8"@),
            BinToken::LookupU16(_) => Ok("lookup_u16"@),
            BinToken::LookupU24(_) => Ok("lookup_u24"@),
            BinToken::Other(id) => Err(id),
        }
    }

    /// Returns the token type as a string, or if it is not a known base type, `Err(token_u16)`
    pub fn token_type_repr(&self) -> (res: Result<&'static str, u16>)
        ensures
            match (res, self.spec_token_type_repr()) {
                (Ok(a), Ok(b)) => a@ == b,
                (Err(a), Err(b)) => a == b,
                _ => false,
            },
    {
        match self {
            BinToken::Equal => Ok("="),
            BinToken::OpenBracket => Ok("{"),
            BinToken::CloseBracket => Ok("}"),
            BinToken::I32(_) => Ok("i32"),
            BinToken::F32(_) => Ok("f32"),
            BinToken::Bool(_) => Ok("bool"),
            BinToken::StringQuoted(_) => Ok("string_quoted"),
            BinToken::U32(_) => Ok("u32"),
            BinToken::StringUnquoted(_) => Ok("string_unquoted"),
            BinToken::F64(_) => Ok("f64"),
            BinToken::U64(_) => Ok("u64"),
            BinToken::I64(_) => Ok("i64"),
            BinToken::LookupU8(_) => Ok("lookup_u8"),
            BinToken::LookupU16(_) => Ok("lookup_u16"),
            BinToken::LookupU24(_) => Ok("lookup_u24"),
            BinToken::Other(id) => Err(*id),
        }
    }

    /// The token is a scalar of a base type: a number, a boolean, a string, or a one- or
    /// two-byte lookup.
    pub fn is_base_scalar(&self) -> (res: bool)
        ensures
            res == (self is I32 || self is I64 || self is U32 || self is U64 || self is F32
                || self is F64 || self is Bool || self is StringQuoted || self is StringUnquoted
                || self is LookupU8 || self is LookupU16),
    {
        match self {
            BinToken::I32(_) | BinToken::I64(_) | BinToken::U32(_) | BinToken::U64(_)
            | BinToken::F32(_) | BinToken::F64(_) | BinToken::Bool(_) | BinToken::StringQuoted(_)
            | BinToken::StringUnquoted(_) | BinToken::LookupU8(_) | BinToken::LookupU16(_) => true,
            _ => false,
        }
    }
}

} // verus!

verus! {

/// Number of payload bytes after a token that is not a string.
pub open spec fn fixed_payload_len(id: u16) -> int {
    if id == 0x000c || id == 0x000d || id == 0x0014 || id == 0x0d4b || id == 0x0d52 {
        4
    } else if id == 0x0167 || id == 0x029c || id == 0x0317 {
        8
    } else if id == 0x000e || id == 0x0d48 || id == 0x0d4f || id == 0x0d40 || id == 0x0d43 {
        1
    } else if id == 0x0d49 || id == 0x0d50 || id == 0x0d3e || id == 0x0d44 {
        2
    } else if id == 0x0d4a || id == 0x0d51 || id == 0x0d41 {
        3
    } else if id == 0x0d4c || id == 0x0d53 {
        5
    } else if id == 0x0d4d || id == 0x0d54 {
        6
    } else if id == 0x0d4e || id == 0x0d55 {
        7
    } else {
        0
    }
}

/// A string token: quoted or unquoted.
pub open spec fn is_string_token(id: u16) -> bool {
    id == 0x000f || id == 0x0017
}

/// The token with id `id` (not a string) and its payload starting at `s[2]`.
pub open spec fn spec_fixed_token<'a>(id: u16, s: Seq<u8>) -> BinToken<'a> {
    if id == 0x0001 {
        BinToken::Equal
    } else if id == 0x0003 {
        BinToken::OpenBracket
    } else if id == 0x0004 {
        BinToken::CloseBracket
    } else if id == 0x000c {
        BinToken::I32(as_i32(le32(s, 2)))
    } else if id == 0x000d {
        BinToken::F32(as_i32(le32(s, 2)))
    } else if id == 0x000e {
        BinToken::Bool(s[2] != 0)
    } else if id == 0x0014 {
        BinToken::U32(le32(s, 2))
    } else if id == 0x0167 {
        BinToken::F64(as_i64(le64(s, 2)))
    } else if id == 0x029c {
        BinToken::U64(le64(s, 2))
    } else if id == 0x0317 {
        BinToken::I64(as_i64(le64(s, 2)))
    } else if id == 0x0d47 {
        BinToken::F64(0)
    } else if id == 0x0d48 {
        BinToken::F64((s[2] * 1000) as i64)
    } else if id == 0x0d49 {
        BinToken::F64((le16(s, 2) * 1000) as i64)
    } else if id == 0x0d4a {
        BinToken::F64((le24(s, 2) * 1000) as i64)
    } else if id == 0x0d4b {
        BinToken::F64(le32(s, 2) as i64)
    } else if id == 0x0d4c {
        BinToken::F64(le40(s, 2) as i64)
    } else if id == 0x0d4d {
        BinToken::F64(le48(s, 2) as i64)
    } else if id == 0x0d4e {
        BinToken::F64(le56(s, 2) as i64)
    } else if id == 0x0d4f {
        BinToken::F64((-(s[2] * 1000)) as i64)
    } else if id == 0x0d50 {
        BinToken::F64((-(le16(s, 2) * 1000)) as i64)
    } else if id == 0x0d51 {
        BinToken::F64((-(le24(s, 2) * 1000)) as i64)
    } else if id == 0x0d52 {
        BinToken::F64((-(le32(s, 2) as int)) as i64)
    } else if id == 0x0d53 {
        BinToken::F64((-(le40(s, 2) as int)) as i64)
    } else if id == 0x0d54 {
        BinToken::F64((-(le48(s, 2) as int)) as i64)
    } else if id == 0x0d55 {
        BinToken::F64((-(le56(s, 2) as int)) as i64)
    } else if id == 0x0d40 || id == 0x0d43 {
        BinToken::LookupU8(LookupU8(s[2]))
    } else if id == 0x0d3e || id == 0x0d44 {
        BinToken::LookupU16(LookupU16(le16(s, 2)))
    } else if id == 0x0d41 {
        BinToken::LookupU24(LookupU24(le24(s, 2)))
    } else {
        BinToken::Other(id)
    }
}

/// Number of bytes a whole token (id and payload) takes at the front of `s`, if they are
/// all there.
pub open spec fn token_len(s: Seq<u8>) -> Option<int> {
    if s.len() < 2 {
        None
    } else if is_string_token(le16(s, 0)) {
        if s.len() < 4 || s.len() < 4 + le16(s, 2) {
            None
        } else {
            Some(4 + le16(s, 2))
        }
    } else if s.len() < 2 + fixed_payload_len(le16(s, 0)) {
        None
    } else {
        Some(2 + fixed_payload_len(le16(s, 0)))
    }
}

/// `value` is the whole token at the front of `s`, payload included.
pub open spec fn token_read<'a>(s: Seq<u8>, value: BinToken<'a>) -> bool {
    token_len(s) matches Some(n) && if is_string_token(le16(s, 0)) {
        match value {
            BinToken::StringQuoted(v) => le16(s, 0) == 0x000f && v@ == s.subrange(4, n),
            BinToken::StringUnquoted(v) => le16(s, 0) == 0x0017 && v@ == s.subrange(4, n),
            _ => false,
        }
    } else {
        value == spec_fixed_token::<'a>(le16(s, 0), s)
    }
}

/// `neg` is the negative fixed-point token whose payload has the width and the decimal places
/// of the positive fixed-point token `pos`.
pub open spec fn negative_of(neg: u16, pos: u16) -> bool {
    ||| neg == 0x0d4f && pos == 0x0d48
    ||| neg == 0x0d50 && pos == 0x0d49
    ||| neg == 0x0d51 && pos == 0x0d4a
    ||| neg == 0x0d52 && pos == 0x0d4b
    ||| neg == 0x0d53 && pos == 0x0d4c
    ||| neg == 0x0d54 && pos == 0x0d4d
    ||| neg == 0x0d55 && pos == 0x0d4e
}

/// A negative fixed-point token reads as the negation of what its positive counterpart reads
/// with the same payload: `t` (a positive token) reads as `F64(w)` with `w` not below zero,
/// and `s` (its negative counterpart with the same payload bytes) takes as many bytes and reads
/// as `F64(-w)`.
pub proof fn lemma_negative_fixed_point(s: Seq<u8>, t: Seq<u8>)
    requires
        s.len() == t.len(),
        s.len() >= 2,
        negative_of(le16(s, 0), le16(t, 0)),
        s.subrange(2, s.len() as int) == t.subrange(2, t.len() as int),
        token_len(t) is Some,
    ensures
        token_len(s) == token_len(t),
        exists|w: i64|
            w >= 0 && #[trigger] token_read(t, BinToken::F64(w)) && token_read(
                s,
                BinToken::F64((-w) as i64),
            ),
{
    assert forall|k: int| 2 <= k < s.len() implies s[k] == t[k] by {
        assert(s.subrange(2, s.len() as int)[k - 2] == t.subrange(2, t.len() as int)[k - 2]);
    }
    let ns = le16(s, 0);
    let nt = le16(t, 0);
    assert(!is_string_token(ns) && !is_string_token(nt));
    assert(fixed_payload_len(ns) == fixed_payload_len(nt));
    let n = fixed_payload_len(nt);
    if n >= 1 {
        assert(s[2] == t[2]);
    }
    if n >= 2 {
        assert(s[3] == t[3]);
    }
    if n >= 3 {
        assert(s[4] == t[4]);
    }
    if n >= 4 {
        assert(s[5] == t[5]);
    }
    if n >= 5 {
        assert(s[6] == t[6]);
    }
    if n >= 6 {
        assert(s[7] == t[7]);
    }
    if n >= 7 {
        assert(s[8] == t[8]);
    }
    let w: i64 = match spec_fixed_token::<'static>(nt, t) {
        BinToken::F64(w) => w,
        _ => 0,
    };
    assert(token_read(t, BinToken::F64(w)));
}

/// `wide` is the fixed-point token with the same sign and decimal places as `narrow` whose
/// payload is one byte wider.
pub open spec fn wider_of(narrow: u16, wide: u16) -> bool {
    ||| narrow == 0x0d48 && wide == 0x0d49
    ||| narrow == 0x0d49 && wide == 0x0d4a
    ||| narrow == 0x0d4b && wide == 0x0d4c
    ||| narrow == 0x0d4c && wide == 0x0d4d
    ||| narrow == 0x0d4d && wide == 0x0d4e
    ||| narrow == 0x0d4f && wide == 0x0d50
    ||| narrow == 0x0d50 && wide == 0x0d51
    ||| narrow == 0x0d52 && wide == 0x0d53
    ||| narrow == 0x0d53 && wide == 0x0d54
    ||| narrow == 0x0d54 && wide == 0x0d55
}

/// A fixed-point payload is a little-endian number whose reading does not depend on its width:
/// a token `s` and its one-byte-wider counterpart `t` whose payload holds the same bytes
/// followed by a zero byte read as the same number.
pub proof fn lemma_fixed_point_widths(s: Seq<u8>, t: Seq<u8>)
    requires
        s.len() >= 2,
        t.len() >= 2,
        wider_of(le16(s, 0), le16(t, 0)),
        token_len(s) is Some,
        token_len(t) is Some,
        forall|k: int| 2 <= k < 2 + fixed_payload_len(le16(s, 0)) ==> s[k] == t[k],
        t[2 + fixed_payload_len(le16(s, 0))] == 0,
    ensures
        exists|v: i64| #[trigger] token_read(s, BinToken::F64(v)) && token_read(t, BinToken::F64(v)),
{
    let ns = le16(s, 0);
    let nt = le16(t, 0);
    assert(!is_string_token(ns) && !is_string_token(nt));
    let n = fixed_payload_len(ns);
    assert(fixed_payload_len(nt) == n + 1);
    if n >= 1 {
        assert(s[2] == t[2]);
    }
    if n >= 2 {
        assert(s[3] == t[3]);
    }
    if n >= 3 {
        assert(s[4] == t[4]);
    }
    if n >= 4 {
        assert(s[5] == t[5]);
    }
    if n >= 5 {
        assert(s[6] == t[6]);
    }
    if n >= 6 {
        assert(s[7] == t[7]);
    }
    let v: i64 = match spec_fixed_token::<'static>(ns, s) {
        BinToken::F64(v) => v,
        _ => 0,
    };
    assert(token_read(s, BinToken::F64(v)));
}

impl<'de> BinDeserialize<'de> for BinToken<'de> {
    /// Any token, read with its payload. Fixed-point payloads are kept as integers (see
    /// [`BinToken`]).
    open spec fn took(stream: BinDeserializer<'de>, rest: BinDeserializer<'de>, value: BinToken<'de>) -> bool {
        let s = stream@;
        token_len(s) matches Some(n) && rest@ == s.subrange(n, s.len() as int) && token_read(s, value)
    }

    #[verifier::rlimit(100)]
    #[verifier::spinoff_prover]
    fn take(stream: BinDeserializer<'de>) -> (res: Result<(BinToken<'de>, BinDeserializer<'de>), BinError>)
        ensures
            res is Ok <==> token_len(stream@) is Some,
            res matches Err(e) ==> e is EOF,
    {
        let mut s = stream;
        let id = s.expect_token()?;
        let ghost after_id = s@;
        if id == BinToken::ID_STRING_QUOTED || id == BinToken::ID_STRING_UNQUOTED {
            let len = s.expect_token()?;
            let v = s.expect_bytes(len as usize)?;
            proof {
                assert(v@ =~= stream@.subrange(4, 4 + len));
                assert(s@ =~= stream@.subrange(4 + len, stream@.len() as int));
            }
            let tok = if id == BinToken::ID_STRING_QUOTED {
                BinToken::StringQuoted(v)
            } else {
                BinToken::StringUnquoted(v)
            };
            proof {
                assert(token_len(stream@) == Some(4 + len as int));
                assert(is_rest_of(s@, stream@));
                assert(s.same_source(&stream));
                assert(Self::took(stream, s, tok));
            }
            return Ok((tok, s));
        }
        let n: usize = if id == 0x000c || id == 0x000d || id == 0x0014 || id == 0x0d4b || id
            == 0x0d52 {
            4
        } else if id == 0x0167 || id == 0x029c || id == 0x0317 {
            8
        } else if id == 0x000e || id == 0x0d48 || id == 0x0d4f || id == 0x0d40 || id == 0x0d43 {
            1
        } else if id == 0x0d49 || id == 0x0d50 || id == 0x0d3e || id == 0x0d44 {
            2
        } else if id == 0x0d4a || id == 0x0d51 || id == 0x0d41 {
            3
        } else if id == 0x0d4c || id == 0x0d53 {
            5
        } else if id == 0x0d4d || id == 0x0d54 {
            6
        } else if id == 0x0d4e || id == 0x0d55 {
            7
        } else {
            0
        };
        let p = s.expect_bytes(n)?;
        proof {
            assert(forall|k: int| 0 <= k < n ==> p@[k] == stream@[k + 2]);
            assert(s@ =~= stream@.subrange(2 + n, stream@.len() as int));
        }
        let tok = match id {
            0x0001 => BinToken::Equal,
            0x0003 => BinToken::OpenBracket,
            0x0004 => BinToken::CloseBracket,
            0x000c => BinToken::I32(to_i32(read_le32(p, 0))),
            0x000d => BinToken::F32(to_i32(read_le32(p, 0))),
            0x000e => BinToken::Bool(p[0] != 0),
            0x0014 => BinToken::U32(read_le32(p, 0)),
            0x0167 => BinToken::F64(to_i64(read_le64(p, 0))),
            0x029c => BinToken::U64(read_le64(p, 0)),
            0x0317 => BinToken::I64(to_i64(read_le64(p, 0))),
            0x0d47 => BinToken::F64(0),
            0x0d48 => BinToken::F64(p[0] as i64 * 1000),
            0x0d49 => BinToken::F64(read_le16(p, 0) as i64 * 1000),
            0x0d4a => BinToken::F64(read_le24(p, 0) as i64 * 1000),
            0x0d4b => BinToken::F64(read_le32(p, 0) as i64),
            0x0d4c => BinToken::F64(read_le_upto56(p, 0, 5) as i64),
            0x0d4d => BinToken::F64(read_le_upto56(p, 0, 6) as i64),
            0x0d4e => BinToken::F64(read_le_upto56(p, 0, 7) as i64),
            0x0d4f => BinToken::F64(-(p[0] as i64 * 1000)),
            0x0d50 => BinToken::F64(-(read_le16(p, 0) as i64 * 1000)),
            0x0d51 => BinToken::F64(-(read_le24(p, 0) as i64 * 1000)),
            0x0d52 => BinToken::F64(-(read_le32(p, 0) as i64)),
            0x0d53 => BinToken::F64(-(read_le_upto56(p, 0, 5) as i64)),
            0x0d54 => BinToken::F64(-(read_le_upto56(p, 0, 6) as i64)),
            0x0d55 => BinToken::F64(-(read_le_upto56(p, 0, 7) as i64)),
            0x0d40 | 0x0d43 => BinToken::LookupU8(LookupU8(p[0])),
            0x0d3e | 0x0d44 => BinToken::LookupU16(LookupU16(read_le16(p, 0))),
            0x0d41 => BinToken::LookupU24(LookupU24(read_le24(p, 0))),
            other => BinToken::Other(other),
        };
        proof {
            assert(token_len(stream@) == Some(2 + n as int));
            assert(is_rest_of(s@, stream@));
            assert(tok == spec_fixed_token::<'de>(id, stream@));
        }
        Ok((tok, s))
    }
}

} // verus!

verus! {

/// A reader of the tokens of a binary stream, one at a time.
#[derive(Clone, Copy)]
pub struct BinLexer<'a>(BinDeserializer<'a>);

impl<'a> View for BinLexer<'a> {
    type V = Seq<u8>;

    /// The bytes still to be read.
    open spec fn view(&self) -> Seq<u8> {
        self.stream()@
    }
}

impl<'a> BinLexer<'a> {
    /// The stream the lexer reads.
    pub closed spec fn stream(&self) -> BinDeserializer<'a> {
        self.0
    }

    pub fn new_deser(stream: BinDeserializer<'a>) -> (res: BinLexer<'a>)
        ensures
            res.stream() == stream,
    {
        BinLexer(stream)
    }

    pub fn new(buffer: &'a [u8], strings: &'a StringsResolver) -> (res: BinLexer<'a>)
        ensures
            res@ == buffer@,
            res.stream().strings_view() == strings@,
            res.stream().spec_index() == 0,
    {
        BinLexer(BinDeserializer::from_bytes(buffer, strings))
    }

    /// The string table lookup tokens resolve against.
    pub fn strings(&self) -> (res: &'a StringsResolver)
        ensures
            res@ == self.stream().strings_view(),
    {
        self.0.strings()
    }

    /// Number of bytes read since the stream was made.
    pub fn current_index(&self) -> (res: usize)
        ensures
            self.stream().spec_index() >= 0 ==> res == self.stream().spec_index(),
    {
        self.0.current_index()
    }

    /// Number of bytes still to be read.
    pub fn remaining_len(&self) -> (res: usize)
        ensures
            res == self@.len(),
    {
        self.0.remaining_len()
    }

    /// Reads the next token; `None` (reading nothing) when no whole token is left.
    pub fn next(&mut self) -> (res: Option<BinToken<'a>>)
        ensures
            res is Some <==> token_len(old(self)@) is Some,
            res is None ==> final(self)@ == old(self)@,
            res matches Some(t) ==> BinToken::took(old(self).stream(), final(self).stream(), t),
    {
        match <BinToken<'a> as BinDeserialize<'a>>::take(self.0) {
            Ok((t, rest)) => {
                self.0 = rest;
                Some(t)
            },
            Err(_) => None,
        }
    }
}

/// Each whole token of `s` from offset `start` on, read one after another, as its offset and its
/// indentation when printed one per line: four more inside each `{`, four less (but not below
/// zero) from each `}` on.
pub open spec fn bin_layout(s: Seq<u8>, start: int, depth: int) -> Seq<(int, int)>
    decreases s.len() - start,
{
    if 0 <= start <= s.len() {
        match token_len(s.subrange(start, s.len() as int)) {
            Some(n) => if n > 0 {
                let id = le16(s, start);
                let d = if id == 0x0004 {
                    if depth >= 4 {
                        depth - 4
                    } else {
                        0
                    }
                } else {
                    depth
                };
                seq![(start, d)] + bin_layout(
                    s,
                    start + n,
                    if id == 0x0003 {
                        d + 4
                    } else {
                        d
                    },
                )
            } else {
                seq![]
            },
            None => seq![],
        }
    } else {
        seq![]
    }
}

/// Layout entries by their offsets and indentations.
pub open spec fn bin_layout_view<'a>(v: Seq<(usize, usize, BinToken<'a>)>) -> Seq<(int, int)> {
    v.map_values(|e: (usize, usize, BinToken<'a>)| (e.0 as int, e.1 as int))
}

impl<'a> BinLexer<'a> {
    /// The tokens of the stream, each with its offset from where the lexer stands and the
    /// indentation it is printed with, one per line (four spaces more inside each `{`, four
    /// less, not below zero, from each `}` on); reading stops at the first token that is not
    /// whole.
    pub fn pretty_layout(self) -> (res: Vec<(usize, usize, BinToken<'a>)>)
        requires
            4 * self@.len() <= usize::MAX,
        ensures
            bin_layout_view(res@) == bin_layout(self@, 0, 0),
            forall|i: int|
                0 <= i < res@.len() ==> token_read(
                    self@.subrange((#[trigger] res@[i]).0 as int, self@.len() as int),
                    res@[i].2,
                ),
    {
        let ghost s = self@;
        let total = self.0.remaining_len();
        let mut lexer = self;
        let mut depth: usize = 0;
        let mut out: Vec<(usize, usize, BinToken<'a>)> = Vec::new();
        proof {
            assert(s.subrange(0, s.len() as int) =~= s);
            assert(bin_layout_view(out@) + bin_layout(s, 0, 0) =~= bin_layout(s, 0, 0));
        }
        loop
            invariant
                s == self@,
                total == s.len(),
                4 * s.len() <= usize::MAX,
                lexer@.len() <= s.len(),
                lexer@ == s.subrange(s.len() - lexer@.len(), s.len() as int),
                depth <= 4 * (s.len() - lexer@.len()),
                bin_layout_view(out@) + bin_layout(s, s.len() - lexer@.len(), depth as int)
                    == bin_layout(s, 0, 0),
                forall|i: int|
                    0 <= i < out@.len() ==> token_read(
                        s.subrange((#[trigger] out@[i]).0 as int, s.len() as int),
                        out@[i].2,
                    ),
            decreases lexer@.len(),
        {
            let pos = total - lexer.0.remaining_len();
            let ghost before = lexer@;
            let tok = match lexer.next() {
                Some(t) => t,
                None => {
                    proof {
                        assert(bin_layout(s, pos as int, depth as int) =~= seq![]);
                        assert(bin_layout_view(out@) + seq![] =~= bin_layout_view(out@));
                    }
                    return out;
                },
            };
            let ghost n = before.len() - lexer@.len();
            proof {
                assert(before == s.subrange(pos as int, s.len() as int));
                assert(token_len(before) == Some(n));
                assert(le16(before, 0) == le16(s, pos as int));
                assert(lexer@ =~= s.subrange(pos + n, s.len() as int));
            }
            if let BinToken::CloseBracket = tok {
                depth = depth.saturating_sub(4);
            }
            let ghost old_out = out@;
            out.push((pos, depth, tok));
            if let BinToken::OpenBracket = tok {
                depth = depth + 4;
            }
            proof {
                assert(le16(before, 0) == 0x0004 <==> tok is CloseBracket);
                assert(le16(before, 0) == 0x0003 <==> tok is OpenBracket);
                assert(bin_layout_view(out@) =~= bin_layout_view(old_out).push((pos as int, out@.last().1 as int)));
                assert forall|i: int| 0 <= i < out@.len() implies token_read(
                    s.subrange((#[trigger] out@[i]).0 as int, s.len() as int),
                    out@[i].2,
                ) by {
                    if i < old_out.len() {
                        assert(out@[i] == old_out[i]);
                    }
                }
            }
        }
    }
}

/// Get the text representation from binary token
pub trait BinTokenLookup {
    fn get_text(&self, token: u16) -> Option<String>;
}

/// Get the binary token from text representation
pub trait BinTokenReverseLookup {
    fn get_token(&self, text: &str) -> Option<u16>;
}

/// Why a tokens file could not be read.
#[derive(Debug, Clone, Copy, PartialEq, Eq, Structural)]
pub enum TokenRegistryError {
    /// A line holds no `;`.
    InvalidFormat,
    /// A line's token is not a number from 0 to 65535.
    InvalidToken,
}

/// Reading the lines `id;text` of a tokens file into a table from token to text; a later line
/// for a token replaces an earlier one.
pub open spec fn registry_from_lines(lines: Seq<Seq<u8>>, table: Seq<Option<Seq<u8>>>) -> Result<
    Seq<Option<Seq<u8>>>,
    TokenRegistryError,
>
    decreases lines.len(),
{
    if lines.len() == 0 {
        Ok(table)
    } else {
        let l = lines[0];
        match find_byte(l, 0x3b, 0) {
            None => Err(TokenRegistryError::InvalidFormat),
            Some(i) => match spec_parse_uint_max(l.subrange(0, i), 65535) {
                None => Err(TokenRegistryError::InvalidToken),
                Some(id) => registry_from_lines(
                    lines.drop_first(),
                    table.update(id as int, Some(l.subrange(i + 1, l.len() as int))),
                ),
            },
        }
    }
}

/// A table of no texts, one entry per token.
pub open spec fn empty_registry() -> Seq<Option<Seq<u8>>> {
    Seq::new(0x10000, |i: int| None)
}

/// The texts of a table, by their UTF-8 bytes.
pub open spec fn registry_view(v: Seq<Option<String>>) -> Seq<Option<Seq<u8>>> {
    v.map_values(
        |t: Option<String>|
            match t {
                Some(s) => Some(encode_utf8(s@)),
                None => None,
            },
    )
}

/// Very fast for [`BinTokenLookup`] but requires a lot of memory.
/// Conversely, very slow for [`BinTokenReverseLookup`] as it has to iterate over the whole array.
pub struct TokenRegistryArray {
    lookup_table: Vec<Option<String>>,
}

impl View for TokenRegistryArray {
    type V = Seq<Option<Seq<u8>>>;

    closed spec fn view(&self) -> Seq<Option<Seq<u8>>> {
        registry_view(self.lookup_table@)
    }
}

impl TokenRegistryArray {
    /// The table has an entry for every token.
    pub closed spec fn wf(&self) -> bool {
        self.lookup_table@.len() == 0x10000
    }

    fn new_empty() -> (res: Self)
        ensures
            res.wf(),
            res@ == empty_registry(),
    {
        let mut lookup_table: Vec<Option<String>> = Vec::new();
        let mut i: usize = 0;
        while i < 0x10000
            invariant
                0 <= i <= 0x10000,
                lookup_table@.len() == i,
                forall|j: int| 0 <= j < i ==> lookup_table@[j] is None,
            decreases 0x10000 - i,
        {
            lookup_table.push(None);
            i = i + 1;
        }
        let res = TokenRegistryArray { lookup_table };
        proof {
            assert(res@ =~= empty_registry());
        }
        res
    }

    /// Reads a tokens file: lines of a token number, `;`, and the token's text.
    pub fn new(tokens_file: &str) -> (res: Result<TokenRegistryArray, TokenRegistryError>)
        ensures
            match registry_from_lines(lines_of(tokens_file.spec_bytes()), empty_registry()) {
                Ok(t) => res matches Ok(r) && r.wf() && r@ == t,
                Err(e) => res matches Err(e2) && e2 == e,
            },
    {
        let mut out = TokenRegistryArray::new_empty();
        let mut rest: &str = tokens_file;
        while rest.as_bytes().len() > 0
            invariant
                out.wf(),
                registry_from_lines(lines_of(tokens_file.spec_bytes()), empty_registry())
                    == registry_from_lines(lines_of(rest.spec_bytes()), out@),
            decreases rest.spec_bytes().len(),
        {
            let (line, r) = next_line(rest);
            let ghost ls = lines_of(rest.spec_bytes());
            proof {
                assert(ls[0] == line.spec_bytes());
                assert(ls.drop_first() =~= lines_of(r.spec_bytes()));
            }
            let (token, text) = match split_at_byte(line, 0x3b) {
                Some(p) => p,
                None => {
                    return Err(TokenRegistryError::InvalidFormat);
                },
            };
            let id = match parse_uint_max(token.as_bytes(), 65535) {
                Some(v) => v as usize,
                None => {
                    return Err(TokenRegistryError::InvalidToken);
                },
            };
            let ghost before = out.lookup_table@;
            out.lookup_table.set(id, Some(text.to_string()));
            proof {
                assert(registry_view(out.lookup_table@) =~= registry_view(before).update(
                    id as int,
                    Some(text.spec_bytes()),
                ));
            }
            rest = r;
        }
        proof {
            assert(lines_of(rest.spec_bytes()) =~= seq![]);
        }
        Ok(out)
    }

    /// The table, one entry per token.
    pub fn unwrap(self) -> (res: Vec<Option<String>>)
        ensures
            registry_view(res@) == self@,
    {
        self.lookup_table
    }
}

impl BinTokenLookup for TokenRegistryArray {
    fn get_text(&self, token: u16) -> (res: Option<String>)
        ensures
            self.wf() ==> match self@[token as int] {
                Some(t) => res matches Some(r) && encode_utf8(r@) == t,
                None => res is None,
            },
    {
        if (token as usize) < self.lookup_table.len() {
            match &self.lookup_table[token as usize] {
                Some(t) => Some(t.clone()),
                None => None,
            }
        } else {
            None
        }
    }
}

impl BinTokenReverseLookup for TokenRegistryArray {
    fn get_token(&self, text: &str) -> (res: Option<u16>)
        ensures
            self.wf() ==> match res {
                Some(i) => self@[i as int] == Some(text.spec_bytes()) && forall|j: int|
                    0 <= j < i ==> self@[j] != Some(text.spec_bytes()),
                None => forall|j: int| 0 <= j < self@.len() ==> self@[j] != Some(text.spec_bytes()),
            },
    {
        let mut i: usize = 0;
        while i < self.lookup_table.len() && i < 0x10000
            invariant
                0 <= i <= self.lookup_table@.len(),
                i <= 0x10000,
                forall|j: int| 0 <= j < i ==> self@[j] != Some(text.spec_bytes()),
            decreases self.lookup_table@.len() - i,
        {
            if let Some(t) = &self.lookup_table[i] {
                if str_eq(t.as_str(), text) {
                    return Some(i as u16);
                }
            }
            i = i + 1;
        }
        None
    }
}

} // verus!
