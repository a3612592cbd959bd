//! The header of modern Paradox save files (`SAV0...`): the save's format and where its
//! metadata and gamestate lie.
use vstd::prelude::*;

use vstd::string::StringSliceAdditionalSpecFns;
use vstd::utf8::valid_utf8;

use crate::strings_resolver::str_from_utf8;

verus! {

#[derive(Clone, Copy, Debug, PartialEq, Eq, Structural)]
pub enum SaveFormat {
    SplitCompressedBinary,
    SplitCompressedText,
    UnifiedCompressedBinary,
    UnifiedCompressedText,
    UncompressedBinary,
    UncompressedText,
}

impl SaveFormat {
    /// The format with id `d` (0 to 5).
    pub open spec fn spec_from_id(d: int) -> SaveFormat {
        if d == 0 {
            SaveFormat::UncompressedText
        } else if d == 1 {
            SaveFormat::UncompressedBinary
        } else if d == 2 {
            SaveFormat::UnifiedCompressedText
        } else if d == 3 {
            SaveFormat::UnifiedCompressedBinary
        } else if d == 4 {
            SaveFormat::SplitCompressedText
        } else {
            SaveFormat::SplitCompressedBinary
        }
    }

    /// The format's id, 0 to 5.
    pub fn id(&self) -> (res: u8)
        ensures
            res < 6,
            SaveFormat::spec_from_id(res as int) == *self,
    {
        match self {
            SaveFormat::UncompressedText => 0,
            SaveFormat::UncompressedBinary => 1,
            SaveFormat::UnifiedCompressedText => 2,
            SaveFormat::UnifiedCompressedBinary => 3,
            SaveFormat::SplitCompressedText => 4,
            SaveFormat::SplitCompressedBinary => 5,
        }
    }

    /// The format with id `d`, if `d` is one.
    pub fn from_id(d: u8) -> (res: Option<SaveFormat>)
        ensures
            d < 6 ==> res == Some(SaveFormat::spec_from_id(d as int)),
            d >= 6 ==> res is None,
    {
        match d {
            0 => Some(SaveFormat::UncompressedText),
            1 => Some(SaveFormat::UncompressedBinary),
            2 => Some(SaveFormat::UnifiedCompressedText),
            3 => Some(SaveFormat::UnifiedCompressedBinary),
            4 => Some(SaveFormat::SplitCompressedText),
            5 => Some(SaveFormat::SplitCompressedBinary),
            _ => None,
        }
    }
}

/// Why a header could not be read.
#[derive(Clone, Copy, Debug, PartialEq, Eq, Structural)]
pub enum HeaderError {
    MissingPrefix,
    VersionEof,
    InvalidVersion,
    HeaderEof,
    FormatEof,
    /// The byte that should have been the format's id.
    InvalidFormat(u8),
    MetaLengthEof,
    MetaLengthNotText,
    MetaLengthNotHex,
    MissingNewline,
    MetaEof,
}

impl HeaderError {
    pub fn message(&self) -> (res: &'static str)
        ensures
            res@ == match self {
                HeaderError::MissingPrefix => "Missing SAV0 prefix"@,
                HeaderError::VersionEof => "Unexpected EOF while parsing save format version in header"@,
                HeaderError::InvalidVersion => "Invalid save format version"@,
                HeaderError::HeaderEof => "Unexpected EOF while parsing header"@,
                HeaderError::FormatEof => "Reached EOF while parsing save format type in header"@,
                HeaderError::InvalidFormat(_) => "Invalid save format id"@,
                HeaderError::MetaLengthEof => "Unexpected EOF while parsing meta length in header"@,
                HeaderError::MetaLengthNotText => "While parsing meta length in header"@,
                HeaderError::MetaLengthNotHex => "While parsing meta length in header"@,
                HeaderError::MissingNewline => "Expected newline at end of header"@,
                HeaderError::MetaEof => "Unexpected EOF in the metadata buffer."@,
            },
    {
        match self {
            HeaderError::MissingPrefix => "Missing SAV0 prefix",
            HeaderError::VersionEof => "Unexpected EOF while parsing save format version in header",
            HeaderError::InvalidVersion => "Invalid save format version",
            HeaderError::HeaderEof => "Unexpected EOF while parsing header",
            HeaderError::FormatEof => "Reached EOF while parsing save format type in header",
            HeaderError::InvalidFormat(_) => "Invalid save format id",
            HeaderError::MetaLengthEof => "Unexpected EOF while parsing meta length in header",
            HeaderError::MetaLengthNotText => "While parsing meta length in header",
            HeaderError::MetaLengthNotHex => "While parsing meta length in header",
            HeaderError::MissingNewline => "Expected newline at end of header",
            HeaderError::MetaEof => "Unexpected EOF in the metadata buffer.",
        }
    }
}

/// The value of a hexadecimal digit (either case), if `c` is one.
pub open spec fn hex_digit_value(c: u8) -> Option<nat> {
    if 0x30 <= c <= 0x39 {
        Some((c - 0x30) as nat)
    } else if 0x61 <= c <= 0x66 {
        Some((c - 0x61 + 10) as nat)
    } else if 0x41 <= c <= 0x46 {
        Some((c - 0x41 + 10) as nat)
    } else {
        None
    }
}

/// The number written by the hexadecimal digits `b`, if all of them are digits.
pub open spec fn hex_digits(b: Seq<u8>) -> Option<nat>
    decreases b.len(),
{
    if b.len() == 0 {
        Some(0)
    } else {
        match (hex_digits(b.drop_last()), hex_digit_value(b.last())) {
            (Some(v), Some(d)) => Some(v * 16 + d),
            _ => None,
        }
    }
}

/// `u32::from_str_radix(_, 16)` on a text's bytes: an optional `+` and at least one digit,
/// whose number fits in a `u32`.
pub open spec fn spec_hex_u32(b: Seq<u8>) -> Option<u32> {
    let d = if b.len() > 0 && b[0] == 0x2b {
        b.subrange(1, b.len() as int)
    } else {
        b
    };
    if d.len() == 0 {
        None
    } else {
        match hex_digits(d) {
            Some(v) => if v <= u32::MAX {
                Some(v as u32)
            } else {
                None
            },
            None => None,
        }
    }
}

/// What a header says, read from the front of a save: its version, its format, where the
/// metadata starts, and the metadata's length.
pub struct HeaderView {
    pub version: u8,
    pub format: SaveFormat,
    pub start: int,
    pub meta_len: u32,
}

/// Reading a header from the front of `b`.
pub open spec fn spec_header(b: Seq<u8>) -> Result<HeaderView, HeaderError> {
    if !(b.len() >= 4 && b.subrange(0, 4) == seq![0x53u8, 0x41, 0x56, 0x30]) {
        Err(HeaderError::MissingPrefix)
    } else if b.len() < 5 {
        Err(HeaderError::VersionEof)
    } else if !(0x30 <= b[4] <= 0x39) {
        Err(HeaderError::InvalidVersion)
    } else if !(b.len() >= 6 && b[5] == 0x30) {
        Err(HeaderError::HeaderEof)
    } else if b.len() < 7 {
        Err(HeaderError::FormatEof)
    } else if !(0x30 <= b[6] <= 0x35) {
        Err(HeaderError::InvalidFormat(b[6]))
    } else if b.len() < 15 {
        Err(HeaderError::HeaderEof)
    } else if b.len() < 23 {
        Err(HeaderError::MetaLengthEof)
    } else if !valid_utf8(b.subrange(15, 23)) {
        Err(HeaderError::MetaLengthNotText)
    } else {
        match spec_hex_u32(b.subrange(15, 23)) {
            None => Err(HeaderError::MetaLengthNotHex),
            Some(meta_len) => {
                let version = (b[4] - 0x30) as u8;
                let after = if version == 2 {
                    31int
                } else {
                    23int
                };
                if b.len() < after {
                    Err(HeaderError::HeaderEof)
                } else {
                    let start = if b.len() > after && b[after] == 0x0a {
                        after + 1
                    } else if b.len() > after + 1 && b[after] == 0x0d && b[after + 1] == 0x0a {
                        after + 2
                    } else {
                        -1
                    };
                    if start < 0 {
                        Err(HeaderError::MissingNewline)
                    } else if b.len() - start < meta_len {
                        Err(HeaderError::MetaEof)
                    } else {
                        Ok(
                            HeaderView {
                                version,
                                format: SaveFormat::spec_from_id(b[6] - 0x30),
                                start,
                                meta_len,
                            },
                        )
                    }
                }
            },
        }
    }
}

pub struct ModernHeader<'a> {
    pub save_format_version: u8,
    pub save_format: SaveFormat,
    /// Both the meta and gamestate
    pub all: &'a [u8],
    pub meta: &'a [u8],
    pub gamestate: &'a [u8],
}

/// `u32::from_str_radix(_, 16)` on a text's bytes.
fn parse_hex_u32(b: &[u8]) -> (res: Option<u32>)
    ensures
        res == spec_hex_u32(b@),
{
    let start: usize = if b.len() > 0 && b[0] == 0x2b {
        1
    } else {
        0
    };
    let d = vstd::slice::slice_subrange(b, start, b.len());
    let ghost dd = if b@.len() > 0 && b@[0] == 0x2b {
        b@.subrange(1, b@.len() as int)
    } else {
        b@
    };
    proof {
        assert(d@ =~= dd);
    }
    if d.len() == 0 {
        return None;
    }
    let mut v: u64 = 0;
    let mut i: usize = 0;
    proof {
        assert(d@.take(0) =~= seq![]);
    }
    while i < d.len()
        invariant
            d@ == dd,
            dd.len() > 0,
            dd == (if b@.len() > 0 && b@[0] == 0x2b {
                b@.subrange(1, b@.len() as int)
            } else {
                b@
            }),
            0 <= i <= d@.len(),
            hex_digits(d@.take(i as int)) == Some(v as nat),
            v <= u32::MAX,
        decreases d@.len() - i,
    {
        let c = d[i];
        let digit: u64 = if 0x30 <= c && c <= 0x39 {
            (c - 0x30) as u64
        } else if 0x61 <= c && c <= 0x66 {
            (c - 0x61 + 10) as u64
        } else if 0x41 <= c && c <= 0x46 {
            (c - 0x41 + 10) as u64
        } else {
            proof {
                lemma_hex_none(d@, i + 1);
                assert(d@.take(i + 1).drop_last() =~= d@.take(i as int));
            }
            return None;
        };
        let nv = v * 16 + digit;
        proof {
            assert(d@.take(i + 1).drop_last() =~= d@.take(i as int));
        }
        if nv > 0xffff_ffff {
            proof {
                lemma_hex_big(d@, i + 1);
            }
            return None;
        }
        v = nv;
        i = i + 1;
    }
    proof {
        assert(d@.take(i as int) =~= d@);
    }
    Some(v as u32)
}

/// Once a prefix is not all digits, the whole is not.
proof fn lemma_hex_none(b: Seq<u8>, k: int)
    requires
        0 <= k <= b.len(),
        hex_digits(b.take(k)) is None,
    ensures
        hex_digits(b) is None,
    decreases b.len() - k,
{
    if k < b.len() {
        assert(b.take(k + 1).drop_last() =~= b.take(k));
        lemma_hex_none(b, k + 1);
    } else {
        assert(b.take(k) =~= b);
    }
}

/// Once a prefix writes a number beyond `u32`, the whole does too (or is not all digits).
proof fn lemma_hex_big(b: Seq<u8>, k: int)
    requires
        0 <= k <= b.len(),
        hex_digits(b.take(k)) matches Some(v) && v > u32::MAX,
    ensures
        !(hex_digits(b) matches Some(v) && v <= u32::MAX),
    decreases b.len() - k,
{
    if k < b.len() {
        assert(b.take(k + 1).drop_last() =~= b.take(k));
        if hex_digits(b.take(k + 1)) is None {
            lemma_hex_none(b, k + 1);
        } else {
            lemma_hex_big(b, k + 1);
        }
    } else {
        assert(b.take(k) =~= b);
    }
}

impl<'a> ModernHeader<'a> {
    /// Reads the header at the front of `buffer`; the metadata follows it, and the gamestate
    /// follows the metadata.
    pub fn take(buffer: &'a [u8]) -> (res: Result<Self, HeaderError>)
        ensures
            match spec_header(buffer@) {
                Err(e) => res matches Err(e2) && e2 == e,
                Ok(h) => res matches Ok(r) && r.save_format_version == h.version && r.save_format
                    == h.format && r.all@ == buffer@.subrange(h.start, buffer@.len() as int)
                    && r.meta@ == buffer@.subrange(h.start, h.start + h.meta_len) && r.gamestate@
                    == buffer@.subrange(h.start + h.meta_len, buffer@.len() as int),
            },
    {
        let b = buffer;
        let n = b.len();
        if !(n >= 4 && b[0] == 0x53 && b[1] == 0x41 && b[2] == 0x56 && b[3] == 0x30) {
            proof {
                if n >= 4 && b@.subrange(0, 4) == seq![0x53u8, 0x41, 0x56, 0x30] {
                    assert(b@[0] == b@.subrange(0, 4)[0]);
                    assert(b@[1] == b@.subrange(0, 4)[1]);
                    assert(b@[2] == b@.subrange(0, 4)[2]);
                    assert(b@[3] == b@.subrange(0, 4)[3]);
                }
            }
            return Err(HeaderError::MissingPrefix);
        }
        proof {
            assert(b@.subrange(0, 4) =~= seq![0x53u8, 0x41, 0x56, 0x30]);
        }
        if n < 5 {
            return Err(HeaderError::VersionEof);
        }
        let vb = b[4];
        if !(0x30 <= vb && vb <= 0x39) {
            return Err(HeaderError::InvalidVersion);
        }
        let version = vb - 0x30;
        if !(n >= 6 && b[5] == 0x30) {
            return Err(HeaderError::HeaderEof);
        }
        if n < 7 {
            return Err(HeaderError::FormatEof);
        }
        let fb = b[6];
        if !(0x30 <= fb && fb <= 0x35) {
            return Err(HeaderError::InvalidFormat(fb));
        }
        let save_format = match SaveFormat::from_id(fb - 0x30) {
            Some(f) => f,
            None => {
                return Err(HeaderError::InvalidFormat(fb));
            },
        };
        if n < 15 {
            return Err(HeaderError::HeaderEof);
        }
        if n < 23 {
            return Err(HeaderError::MetaLengthEof);
        }
        let len_bytes = vstd::slice::slice_subrange(b, 15, 23);
        let len_text = match str_from_utf8(len_bytes) {
            Some(t) => t,
            None => {
                return Err(HeaderError::MetaLengthNotText);
            },
        };
        let meta_len = match parse_hex_u32(len_text.as_bytes()) {
            Some(v) => v,
            None => {
                return Err(HeaderError::MetaLengthNotHex);
            },
        };
        let after: usize = if version == 2 {
            31
        } else {
            23
        };
        if n < after {
            return Err(HeaderError::HeaderEof);
        }
        let start: usize = if n > after && b[after] == 0x0a {
            after + 1
        } else if n > after + 1 && b[after] == 0x0d && b[after + 1] == 0x0a {
            after + 2
        } else {
            return Err(HeaderError::MissingNewline);
        };
        if n - start < meta_len as usize {
            return Err(HeaderError::MetaEof);
        }
        let all = vstd::slice::slice_subrange(b, start, n);
        let meta = vstd::slice::slice_subrange(b, start, start + meta_len as usize);
        let gamestate = vstd::slice::slice_subrange(b, start + meta_len as usize, n);
        Ok(ModernHeader { save_format_version: version, save_format, all, meta, gamestate })
    }
}

} // verus!
